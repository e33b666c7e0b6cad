//! The 8x8 kernels the driver dispatches to, and a recorder of their calls.
use crate::cdef_apply::LineSource;
use vstd::prelude::*;

verus! {

/// One call of the 8x8 directional filter.
#[derive(Clone, Copy, Debug, PartialEq, Eq, Structural)]
pub struct FilterCall {
    /// Plane: 0 for luma, 1 and 2 for chroma.
    pub plane: usize,
    /// Block column, in 4-pixel units of luma.
    pub bx: i32,
    /// Block row, in 4-pixel units of luma.
    pub by: i32,
    /// Position in the frame of the block's top-left pixel.
    pub block: i128,
    /// Row stride of the plane, in pixels.
    pub stride: isize,
    /// Index, in the left strips, of the strip left of the block.
    pub left: usize,
    /// Where the two rows above the block are read.
    pub top: LineSource,
    /// Where the two rows below the block are read.
    pub bot: LineSource,
    /// Primary strength.
    pub pri: i32,
    /// Secondary strength.
    pub sec: i32,
    /// Direction, 0 to 7.
    pub dir: i32,
    /// Damping.
    pub damping: i32,
    /// Edge flags of the block.
    pub edges: u8,
    /// Kernel variant: 0 for luma and 4:4:4 chroma, 1 for 4:2:2, 2 for 4:2:0.
    pub kernel: usize,
}

/// Height in rows of the block a kernel variant filters.
pub open spec fn kernel_rows(kernel: usize) -> int {
    if kernel == 2 {
        4
    } else {
        8
    }
}

/// Width in columns of the block a kernel variant filters.
pub open spec fn kernel_cols(kernel: usize) -> int {
    if kernel == 0 {
        8
    } else {
        4
    }
}

/// Whether position `i` lies in the block of `rows` by `cols` pixels whose
/// top-left pixel is at `pos`, rows `stride` apart.
pub open spec fn in_block(i: int, pos: int, stride: int, rows: int, cols: int) -> bool {
    exists|y: int, x: int|
        0 <= y < rows && 0 <= x < cols && i == #[trigger] block_px(pos, stride, y, x)
}

/// Position of pixel `(y, x)` of the block at `pos`.
pub open spec fn block_px(pos: int, stride: int, y: int, x: int) -> int {
    pos + y * stride + x
}

/// The direction probe and the filter kernels.
pub trait CdefDsp {
    /// How many times the direction probe has run.
    spec fn dir_calls(&self) -> nat;

    /// The filter calls made so far, in order.
    spec fn filter_calls(&self) -> Seq<FilterCall>;

    /// Directions and variances the probe has reported so far, in order.
    spec fn probe_results(&self) -> Seq<(i32, u32)>;

    /// The left strips handed to the filter calls so far, in order.
    spec fn filter_lefts(&self) -> Seq<Seq<u16>>;

    /// Finds the dominant direction of the luma block at `block` and the
    /// variance along it.
    fn dir(&mut self, px: &Vec<u16>, block: i128, stride: isize, bitdepth_max: i32) -> (r: (
        i32,
        u32,
    ))
        ensures
            0 <= r.0 < 8,
            final(self).dir_calls() == old(self).dir_calls() + 1,
            final(self).probe_results() == old(self).probe_results().push(r),
            final(self).filter_calls() == old(self).filter_calls(),
            final(self).filter_lefts() == old(self).filter_lefts(),
    ;

    /// Filters one 8x8 block (or its subsampled chroma counterpart) in
    /// place, writing no pixel outside it.
    fn filter(
        &mut self,
        px: &mut Vec<u16>,
        left: &Vec<u16>,
        cdef_lines: &Vec<u16>,
        lr_lines: &Vec<u16>,
        call: &FilterCall,
        bitdepth_max: i32,
    )
        ensures
            final(px)@.len() == old(px)@.len(),
            forall|i: int|
                0 <= i < old(px)@.len() && !in_block(
                    i,
                    call.block as int,
                    call.stride as int,
                    kernel_rows(call.kernel),
                    kernel_cols(call.kernel),
                ) ==> #[trigger] final(px)@[i] == old(px)@[i],
            final(self).dir_calls() == old(self).dir_calls(),
            final(self).probe_results() == old(self).probe_results(),
            final(self).filter_calls() == old(self).filter_calls().push(*call),
            final(self).filter_lefts() == old(self).filter_lefts().push(left@),
    ;
}

/// Kernels that leave the pixels alone and keep a record of every call:
/// the direction probe reports a fixed direction and variance.
pub struct CallRecorder {
    /// Direction the probe reports, taken modulo 8.
    pub dir: u8,
    /// Variance the probe reports.
    pub variance: u32,
    /// Blocks probed, in order.
    pub probes: Vec<i128>,
    /// Filter calls, in order.
    pub calls: Vec<FilterCall>,
    /// The left strips each filter call was handed, in order.
    pub lefts: Vec<Vec<u16>>,
}

impl CallRecorder {
    /// A recorder with no call yet.
    pub fn new(dir: u8, variance: u32) -> (r: Self)
        ensures
            r.dir == dir,
            r.variance == variance,
            r.probes@.len() == 0,
            r.calls@.len() == 0,
            r.lefts@.len() == 0,
    {
        CallRecorder { dir, variance, probes: Vec::new(), calls: Vec::new(), lefts: Vec::new() }
    }
}

impl CdefDsp for CallRecorder {
    open spec fn dir_calls(&self) -> nat {
        self.probes@.len()
    }

    open spec fn filter_calls(&self) -> Seq<FilterCall> {
        self.calls@
    }

    open spec fn probe_results(&self) -> Seq<(i32, u32)> {
        Seq::new(self.probes@.len(), |i: int| ((self.dir % 8) as i32, self.variance))
    }

    open spec fn filter_lefts(&self) -> Seq<Seq<u16>> {
        self.lefts@.map_values(|l: Vec<u16>| l@)
    }

    fn dir(&mut self, px: &Vec<u16>, block: i128, stride: isize, bitdepth_max: i32) -> (r: (
        i32,
        u32,
    )) {
        self.probes.push(block);
        assert(self.lefts@ == old(self).lefts@);
        let r = ((self.dir % 8) as i32, self.variance);
        assert(self.probe_results() =~= old(self).probe_results().push(r));
        r
    }

    fn filter(
        &mut self,
        px: &mut Vec<u16>,
        left: &Vec<u16>,
        cdef_lines: &Vec<u16>,
        lr_lines: &Vec<u16>,
        call: &FilterCall,
        bitdepth_max: i32,
    ) {
        self.calls.push(*call);
        assert(self.probe_results() =~= old(self).probe_results());
        let l = left.clone();
        assert(l@ =~= left@);
        self.lefts.push(l);
        assert(self.lefts@.map_values(|l: Vec<u16>| l@) =~= old(self).lefts@.map_values(
            |l: Vec<u16>| l@,
        ).push(left@));
    }
}

} // verus!
