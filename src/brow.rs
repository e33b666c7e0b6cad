//! One call of the driver: the sweep over the 8x8 blocks of a band of
//! superblock rows.
use crate::cdef::edge_flags_at;
use crate::cdef::make_edges;
use crate::cdef_apply::adjust_strength;
use crate::cdef_apply::decode_strength;
use crate::cdef_apply::left_planes;
use crate::cdef_apply::line_sources;
use crate::cdef_apply::line_sources_of;
use crate::cdef_apply::primary_of;
use crate::cdef_apply::adjusted_strength;
use crate::cdef_apply::uv_dir_of;
use crate::cdef_apply::secondary_of;
use crate::cdef_apply::slice_ok;
use crate::cdef_apply::ss_hor;
use crate::cdef_apply::ss_ver;
use crate::cdef_apply::uv_direction;
use crate::cdef_apply::valid_depth;
use crate::cdef_apply::Backup2x8Flags;
use crate::cdef_apply::LineBases;
use crate::cdef_apply::Rav1dPixelLayout;
use crate::cdef_apply::SliceInfo;
use crate::dsp::CdefDsp;
use crate::dsp::FilterCall;
use crate::dsp::in_block;
use crate::dsp::kernel_cols;
use crate::dsp::kernel_rows;
use crate::staging::backup2lines;
use crate::staging::backup2x8;
use crate::staging::lines_fit;
use crate::staging::strip_rows;
use crate::staging::strip_fits;
use crate::staging::strip_src;
use crate::staging::col_shift;
use crate::staging::left_index;
use crate::staging::lemma_strip_entry;
use crate::staging::plane_staged;
use crate::staging::LEFT_BACKUP_LEN;
use vstd::prelude::*;

verus! {

/// Filter strengths of the frame header.
#[derive(Clone, Copy, Debug)]
pub struct CdefStrengths {
    /// Damping of the filter taps at 8 bits.
    pub damping: u8,
    /// Luma strength levels: primary strength times 4 plus secondary code.
    pub y_strength: [u8; 8],
    /// Chroma strength levels, coded as the luma ones.
    pub uv_strength: [u8; 8],
}

/// What the parse stage published for one 128-pixel superblock column.
#[derive(Clone, Copy, Debug)]
pub struct BlockMask {
    /// Strength index of each 64x64 quarter, -1 where the filter is off.
    pub cdef_idx: [i8; 4],
    /// For each 8-pixel row, one bit per 8x8 block holding coefficients,
    /// low half first.
    pub noskip_mask: [[u16; 2]; 16],
}

/// The frame being filtered.
#[derive(Clone, Copy, Debug)]
pub struct CdefFrame {
    /// Bit depth minus 8: 0, 2 or 4.
    pub bitdepth_min_8: u8,
    /// Largest pixel value.
    pub bitdepth_max: i32,
    /// Chroma subsampling.
    pub layout: Rav1dPixelLayout,
    /// Width in 4-pixel blocks.
    pub bw: i32,
    /// Height in 4-pixel blocks.
    pub bh: i32,
    /// Width in 128-pixel superblocks.
    pub sb128w: i32,
    /// Strengths of the frame header.
    pub cdef: CdefStrengths,
    /// Luma row stride in pixels; negative for a bottom-up picture.
    pub y_stride: isize,
    /// Chroma row stride in pixels.
    pub uv_stride: isize,
    /// Where each plane's strips start in the line buffers.
    pub lines: LineBases,
}

/// Whether the frame parameters are those of a valid header.
pub open spec fn frame_ok(f: CdefFrame) -> bool {
    &&& valid_depth(f.bitdepth_min_8)
    &&& f.cdef.damping <= 64
    &&& forall|i: int| 0 <= i < 8 ==> #[trigger] f.cdef.y_strength[i] < 64
    &&& forall|i: int| 0 <= i < 8 ==> #[trigger] f.cdef.uv_strength[i] < 64
    &&& 0 <= f.bw <= 0x1000_0000
    &&& 0 <= f.bh <= 0x1000_0000
    &&& 0 <= f.sb128w <= 0x0100_0000
}

/// Whether the masks hold the superblock columns the band reads, each with
/// indices into the strength tables.
pub open spec fn masks_ok(masks: Seq<BlockMask>, lflvl_offset: int, f: CdefFrame) -> bool {
    &&& 0 <= lflvl_offset
    &&& lflvl_offset + f.sb128w <= masks.len()
    &&& forall|m: int, j: int|
        0 <= m < masks.len() && 0 <= j < 4 ==> -1 <= #[trigger] masks[m].cdef_idx[j] < 8
}

/// Whether the filter is off for every superblock the band reads.
pub open spec fn all_off(masks: Seq<BlockMask>, lflvl_offset: int, f: CdefFrame) -> bool {
    forall|m: int, j: int|
        lflvl_offset <= m < lflvl_offset + f.sb128w && 0 <= j < 4 ==> #[trigger] masks[m].cdef_idx[j]
            == -1
}

/// Chroma strength level of entry `i` as the driver uses it: none for a
/// monochrome picture.
pub open spec fn uv_level(f: CdefFrame, i: int) -> u8 {
    if f.layout == Rav1dPixelLayout::I400 {
        0
    } else {
        f.cdef.uv_strength[i]
    }
}

/// Whether no strength level of the frame has a primary strength.
pub open spec fn no_primary(f: CdefFrame) -> bool {
    forall|i: int|
        #![trigger f.cdef.y_strength[i]]
        0 <= i < 8 ==> f.cdef.y_strength[i] < 4 && f.cdef.uv_strength[i] < 4
}

/// Row stride of plane `pl`.
pub open spec fn plane_stride(f: CdefFrame, pl: int) -> int {
    if pl == 0 {
        f.y_stride as int
    } else {
        f.uv_stride as int
    }
}

/// Distance in the frame from one 8-row luma strip of plane `pl` to the
/// next.
pub open spec fn row_step(f: CdefFrame, pl: int) -> int {
    if pl == 0 {
        8 * f.y_stride
    } else if ss_ver(f.layout) {
        8 * (f.uv_stride >> 1u32)
    } else {
        8 * f.uv_stride
    }
}

/// Column of block column `bx` in plane `pl`.
pub open spec fn plane_col(f: CdefFrame, pl: int, bx: int) -> int {
    if pl != 0 && ss_hor(f.layout) {
        bx * 2
    } else {
        bx * 4
    }
}

/// Position of the first pixel of strip `k` of plane `pl`.
pub open spec fn row_base(f: CdefFrame, p: [usize; 3], pl: int, k: int) -> int {
    p[pl] + k * row_step(f, pl)
}

/// Position of the top-left pixel of the block at column `bx` of strip `k`.
pub open spec fn block_pos(f: CdefFrame, p: [usize; 3], pl: int, k: int, bx: int) -> int {
    row_base(f, p, pl, k) + plane_col(f, pl, bx)
}

/// Position in the line buffer where the rows kept of plane `pl` go in
/// strip `t`.
pub open spec fn ring_dst(f: CdefFrame, sl: SliceInfo, t: int, pl: int) -> int {
    f.lines.cdef_line[t][pl] + (if sl.have_tt {
        sl.sby * (if pl == 0 {
            4int
        } else {
            8
        })
    } else {
        0
    }) * plane_stride(f, pl)
}

/// Block row of strip `k` of the band.
pub open spec fn row_by(sl: SliceInfo, k: int) -> int {
    sl.by_start + 2 * k
}

/// Number of 8-pixel strips in the band.
pub open spec fn n_rows(sl: SliceInfo) -> int {
    (sl.by_end - sl.by_start + 1) / 2
}

/// Whether the strip at block row `by` keeps its bottom rows for the next.
pub open spec fn lines_kept(f: CdefFrame, sl: SliceInfo, by: int) -> bool {
    (!sl.have_tt || sl.sbrow_start || by + 2 < sl.by_end) && by + 2 < f.bh
}

/// Whether the picture has plane `pl`.
pub open spec fn plane_present(f: CdefFrame, pl: int) -> bool {
    pl == 0 || (1 <= pl < 3 && f.layout != Rav1dPixelLayout::I400)
}

/// Whether the rows strip `k` keeps of plane `pl` fit both buffers.
pub open spec fn row_lines_ok(
    f: CdefFrame,
    sl: SliceInfo,
    p: [usize; 3],
    px_len: int,
    line_len: int,
    k: int,
    t: int,
    pl: int,
) -> bool {
    lines_fit(
        line_len,
        px_len,
        ring_dst(f, sl, t, pl),
        row_base(f, p, pl, k),
        plane_stride(f, pl),
        pl,
        f.layout,
    )
}

/// Whether the columns staged beside the block at `bx` of strip `k` lie in
/// the frame.
pub open spec fn block_strips_ok(
    f: CdefFrame,
    p: [usize; 3],
    px_len: int,
    k: int,
    bx: int,
    pl: int,
) -> bool {
    &&& bx > 0 ==> strip_fits(px_len, block_pos(f, p, pl, k, bx), plane_stride(f, pl), 0, pl, f.layout)
    &&& bx + 2 < f.bw ==> strip_fits(
        px_len,
        block_pos(f, p, pl, k, bx),
        plane_stride(f, pl),
        8,
        pl,
        f.layout,
    )
}

/// Whether every pixel the driver stages lies in its buffer.
pub open spec fn staging_ok(
    f: CdefFrame,
    sl: SliceInfo,
    p: [usize; 3],
    px_len: int,
    line_len: int,
) -> bool {
    &&& forall|k: int, t: int, pl: int|
        0 <= k < n_rows(sl) && 0 <= t < 2 && plane_present(f, pl) && lines_kept(f, sl, row_by(sl, k))
            ==> #[trigger] row_lines_ok(f, sl, p, px_len, line_len, k, t, pl)
    &&& forall|k: int, bx: int, pl: int|
        0 <= k < n_rows(sl) && 0 <= bx < f.bw && bx % 2 == 0 && plane_present(f, pl)
            ==> #[trigger] block_strips_ok(f, p, px_len, k, bx, pl)
}

/// Kernel variant of the chroma planes.
pub open spec fn uv_kernel(layout: Rav1dPixelLayout) -> usize {
    match layout {
        Rav1dPixelLayout::I444 => 0,
        Rav1dPixelLayout::I422 => 1,
        Rav1dPixelLayout::I420 => 2,
        Rav1dPixelLayout::I400 => 3,
    }
}

/// The superblock column mask holding block column `bx`.
pub open spec fn mask_at(masks: Seq<BlockMask>, lflvl_offset: int, bx: int) -> BlockMask {
    masks[lflvl_offset + bx / 32]
}

/// Strength index of the 64x64 superblock holding block `(bx, by)`.
pub open spec fn cdef_index_at(masks: Seq<BlockMask>, lflvl_offset: int, bx: int, by: i32) -> int {
    mask_at(masks, lflvl_offset, bx).cdef_idx[(if by & 16 != 0 {
        2int
    } else {
        0
    }) + (bx / 16) % 2] as int
}

/// Whether the 8x8 block at `(bx, by)` holds coefficients: its two bits of
/// the 32-bit mask of its row.
pub open spec fn block_coded(m: BlockMask, bx: i32, by: i32) -> bool {
    let row = m.noskip_mask[((by & 30) / 2) as int];
    let bits: u32 = ((row[1] as u32) << 16u32) | (row[0] as u32);
    bits & (3u32 << ((bx & 30) as u32)) != 0
}

/// Strip of the band holding block row `by`.
pub open spec fn row_index(sl: SliceInfo, by: int) -> int {
    (by - sl.by_start) / 2
}

/// What holds of every filter call the driver makes, for a band `sl` from
/// positions `p` entered with toggle `t0`: the block is a coded block of the
/// band in a plane the picture has, and the call carries its position,
/// stride, edge flags, line sources, left strip, kernel variant and damping.
pub open spec fn call_ok(
    f: CdefFrame,
    sl: SliceInfo,
    p: [usize; 3],
    t0: i32,
    masks: Seq<BlockMask>,
    lflvl_offset: int,
    c: FilterCall,
) -> bool {
    let k = row_index(sl, c.by as int);
    let pl = c.plane as int;
    let i = cdef_index_at(masks, lflvl_offset, c.bx as int, c.by);
    &&& 0 <= i < 8
    &&& block_coded(mask_at(masks, lflvl_offset, c.bx as int), c.bx, c.by)
    &&& pl == 0 ==> c.sec == secondary_of(f.cdef.y_strength[i], f.bitdepth_min_8) && 0 <= c.pri
        <= primary_of(f.cdef.y_strength[i], f.bitdepth_min_8) && (c.pri != 0 || c.sec != 0)
    &&& pl != 0 ==> c.pri == primary_of(uv_level(f, i), f.bitdepth_min_8) && c.sec
        == secondary_of(uv_level(f, i), f.bitdepth_min_8) && uv_level(f, i) != 0
    &&& plane_present(f, pl)
    &&& 0 <= k < n_rows(sl)
    &&& c.by == row_by(sl, k)
    &&& 0 <= c.bx < f.bw
    &&& c.bx % 2 == 0
    &&& c.block == block_pos(f, p, pl, k, c.bx as int)
    &&& c.stride == plane_stride(f, pl)
    &&& (c.top, c.bot) == line_sources_of(
        pl,
        f.lines,
        toggled(t0, k) != 0,
        sl,
        c.by as int,
        c.stride as int,
        plane_col(f, pl, c.bx as int),
        c.block as int,
        strip_rows(pl, f.layout),
    )
    &&& c.left < LEFT_BACKUP_LEN
    &&& c.left % 48 == c.plane * 16
    &&& c.edges == edge_flags_at(c.bx as int, c.by as int, f.bw as int, f.bh as int)
    &&& c.kernel == (if c.plane == 0 {
        0
    } else {
        uv_kernel(f.layout)
    })
    &&& c.damping == f.cdef.damping + f.bitdepth_min_8 - (if c.plane == 0 {
        0int
    } else {
        1
    })
    &&& 0 <= c.dir < 8
}

/// Whether `new` extends `old` by calls that all satisfy `call_ok`.
pub open spec fn calls_extended(
    f: CdefFrame,
    sl: SliceInfo,
    p: [usize; 3],
    t0: i32,
    masks: Seq<BlockMask>,
    lflvl_offset: int,
    old: Seq<FilterCall>,
    new: Seq<FilterCall>,
) -> bool {
    &&& old.len() <= new.len()
    &&& new.subrange(0, old.len() as int) == old
    &&& forall|i: int|
        old.len() <= i < new.len() ==> call_ok(f, sl, p, t0, masks, lflvl_offset, #[trigger] new[i])
}

/// Extending twice is extending.
proof fn lemma_calls_extended_trans(
    f: CdefFrame,
    sl: SliceInfo,
    p: [usize; 3],
    t0: i32,
    masks: Seq<BlockMask>,
    lflvl_offset: int,
    a: Seq<FilterCall>,
    b: Seq<FilterCall>,
    c: Seq<FilterCall>,
)
    requires
        calls_extended(f, sl, p, t0, masks, lflvl_offset, a, b),
        calls_extended(f, sl, p, t0, masks, lflvl_offset, b, c),
    ensures
        calls_extended(f, sl, p, t0, masks, lflvl_offset, a, c),
{
    assert(c.subrange(0, a.len() as int) =~= b.subrange(0, a.len() as int)) by {
        assert forall|i: int| 0 <= i < a.len() implies c[i] == b[i] by {
            assert(c.subrange(0, b.len() as int)[i] == c[i]);
        }
    }
    assert forall|i: int| a.len() <= i < c.len() implies call_ok(
        f,
        sl,
        p,
        t0,
        masks,
        lflvl_offset,
        #[trigger] c[i],
    ) by {
        if i < b.len() {
            assert(c.subrange(0, b.len() as int)[i] == c[i]);
        }
    }
}

/// Whether `(k, bx)` is a block of the band and `pl` a plane of the picture.
pub open spec fn valid_block(f: CdefFrame, sl: SliceInfo, k: int, bx: int, pl: int) -> bool {
    0 <= k < n_rows(sl) && 0 <= bx < f.bw && bx % 2 == 0 && plane_present(f, pl)
}

/// Kernel variant of plane `pl`.
pub open spec fn plane_kernel(f: CdefFrame, pl: int) -> usize {
    if pl == 0 {
        0
    } else {
        uv_kernel(f.layout)
    }
}

/// Position of pixel `(y, x)` of the two columns left of block `bx` of strip
/// `k` in plane `pl`.
pub open spec fn left_pos(f: CdefFrame, p: [usize; 3], k: int, bx: int, pl: int, y: int, x: int) -> int {
    strip_src(block_pos(f, p, pl, k, bx), plane_stride(f, pl), y, 0, col_shift(pl, f.layout)) + x
}

/// Whether pixel `(y, x)` left of block `(k2, bx2)` of plane `pl2` lies
/// outside the block `(k, bx)` of plane `pl`.
pub open spec fn left_outside(
    f: CdefFrame,
    p: [usize; 3],
    k: int,
    bx: int,
    pl: int,
    k2: int,
    bx2: int,
    pl2: int,
    y: int,
    x: int,
) -> bool {
    !in_block(
        left_pos(f, p, k2, bx2, pl2, y, x),
        block_pos(f, p, pl, k, bx),
        plane_stride(f, pl),
        kernel_rows(plane_kernel(f, pl)),
        kernel_cols(plane_kernel(f, pl)),
    )
}

/// Whether the two columns left of each block lie outside every other block
/// but its left neighbour: filtering a block in place changes no pixel
/// another block reads as its left neighbours.
pub open spec fn blocks_apart(f: CdefFrame, sl: SliceInfo, p: [usize; 3]) -> bool {
    forall|k: int, bx: int, pl: int, k2: int, bx2: int, pl2: int, y: int, x: int|
        valid_block(f, sl, k, bx, pl) && valid_block(f, sl, k2, bx2, pl2) && bx2 > 0 && !(k2 == k
            && pl2 == pl && (bx2 == bx || bx2 == bx + 2)) && 0 <= y < strip_rows(pl2, f.layout) && 0
            <= x < 2 ==> #[trigger] left_outside(f, p, k, bx, pl, k2, bx2, pl2, y, x)
}

/// Whether the columns left of block `(k, bx)` of plane `pl` still hold
/// their values of `px0`.
pub open spec fn strip_intact(
    f: CdefFrame,
    p: [usize; 3],
    px: Seq<u16>,
    px0: Seq<u16>,
    k: int,
    bx: int,
    pl: int,
) -> bool {
    forall|y: int, x: int|
        0 <= y < strip_rows(pl, f.layout) && 0 <= x < 2 ==> #[trigger] px[left_pos(f, p, k, bx, pl, y, x)]
            == px0[left_pos(f, p, k, bx, pl, y, x)]
}

/// Whether slot `slot` of the left strips holds, for plane `pl`, the values
/// of `px0` left of block `(k, bx)`.
pub open spec fn slot_holds(
    f: CdefFrame,
    p: [usize; 3],
    lr: Seq<u16>,
    px0: Seq<u16>,
    slot: int,
    k: int,
    bx: int,
    pl: int,
) -> bool {
    forall|y: int, x: int|
        0 <= y < strip_rows(pl, f.layout) && 0 <= x < 2 ==> #[trigger] lr[left_index(slot, pl, y, x)]
            == px0[left_pos(f, p, k, bx, pl, y, x)]
}

/// Whether the blocks after `(k, bx)` in the sweep still have the columns
/// left of them as in `px0`.
pub open spec fn ahead_intact(
    f: CdefFrame,
    sl: SliceInfo,
    p: [usize; 3],
    px: Seq<u16>,
    px0: Seq<u16>,
    k: int,
    bx: int,
) -> bool {
    forall|k2: int, bx2: int, pl: int|
        valid_block(f, sl, k2, bx2, pl) && bx2 > 0 && (k2 > k || (k2 == k && bx2 > bx))
            ==> #[trigger] strip_intact(f, p, px, px0, k2, bx2, pl)
}

/// Whether the columns left of block `(k, bx)` are ready for it: kept in
/// slot `slot` where the previous block was coded and filtered the plane,
/// still in the frame otherwise.
pub open spec fn left_ready(
    f: CdefFrame,
    sl: SliceInfo,
    p: [usize; 3],
    px: Seq<u16>,
    px0: Seq<u16>,
    lr: Seq<u16>,
    slot: int,
    k: int,
    bx: int,
    last_skip: bool,
    prev_flag: Backup2x8Flags,
) -> bool {
    forall|pl: int|
        #![trigger valid_block(f, sl, k, bx, pl)]
        valid_block(f, sl, k, bx, pl) && bx > 0 ==> if !last_skip && plane_staged(
            pl,
            f.layout,
            prev_flag,
        ) {
            slot_holds(f, p, lr, px0, slot, k, bx, pl)
        } else {
            strip_intact(f, p, px, px0, k, bx, pl)
        }
}

/// Whether a kernel call handed the left strips `l` saw, where the block has
/// a left neighbour, the values of `px0` left of it.
pub open spec fn left_seen(
    f: CdefFrame,
    sl: SliceInfo,
    p: [usize; 3],
    px0: Seq<u16>,
    c: FilterCall,
    l: Seq<u16>,
) -> bool {
    c.bx > 0 ==> forall|y: int, x: int|
        0 <= y < strip_rows(c.plane as int, f.layout) && 0 <= x < 2 ==> #[trigger] l[c.left + 2 * y
            + x] == px0[left_pos(
            f,
            p,
            row_index(sl, c.by as int),
            c.bx as int,
            c.plane as int,
            y,
            x,
        )]
}

/// Whether the left strips recorded after `c0` calls (`l0` strips) pair
/// with the calls, each seeing the values of `px0`.
pub open spec fn lefts_ok(
    f: CdefFrame,
    sl: SliceInfo,
    p: [usize; 3],
    px0: Seq<u16>,
    calls: Seq<FilterCall>,
    lefts: Seq<Seq<u16>>,
    c0: int,
    l0: int,
) -> bool {
    &&& 0 <= c0 <= calls.len()
    &&& 0 <= l0 <= lefts.len()
    &&& lefts.len() - l0 == calls.len() - c0
    &&& forall|j: int|
        0 <= j < calls.len() - c0 ==> #[trigger] left_seen(f, sl, p, px0, calls[c0 + j], lefts[l0 + j])
}

/// A filter call for block `(k, bx)` of plane `pl` keeps the columns left of
/// every block that is neither it nor its right neighbour.
proof fn lemma_filter_keeps_strip(
    f: CdefFrame,
    sl: SliceInfo,
    p: [usize; 3],
    px: Seq<u16>,
    px2: Seq<u16>,
    px0: Seq<u16>,
    c: FilterCall,
    k: int,
    bx: int,
    pl: int,
    k2: int,
    bx2: int,
    pl2: int,
)
    requires
        blocks_apart(f, sl, p),
        valid_block(f, sl, k, bx, pl),
        valid_block(f, sl, k2, bx2, pl2),
        bx2 > 0,
        block_strips_ok(f, p, px.len() as int, k2, bx2, pl2),
        !(k2 == k && pl2 == pl && (bx2 == bx || bx2 == bx + 2)),
        c.block == block_pos(f, p, pl, k, bx),
        c.stride == plane_stride(f, pl),
        c.kernel == plane_kernel(f, pl),
        px2.len() == px.len(),
        forall|i: int|
            0 <= i < px.len() && !in_block(
                i,
                c.block as int,
                c.stride as int,
                kernel_rows(c.kernel),
                kernel_cols(c.kernel),
            ) ==> #[trigger] px2[i] == px[i],
        strip_intact(f, p, px, px0, k2, bx2, pl2),
    ensures
        strip_intact(f, p, px2, px0, k2, bx2, pl2),
{
    assert forall|y: int, x: int|
        0 <= y < strip_rows(pl2, f.layout) && 0 <= x < 2 implies #[trigger] px2[left_pos(
        f,
        p,
        k2,
        bx2,
        pl2,
        y,
        x,
    )] == px0[left_pos(f, p, k2, bx2, pl2, y, x)] by {
        assert(left_outside(f, p, k, bx, pl, k2, bx2, pl2, y, x));
        assert(px[left_pos(f, p, k2, bx2, pl2, y, x)] == px0[left_pos(f, p, k2, bx2, pl2, y, x)]);
    }
}

/// What a block leaves for the blocks after it: the columns left of every
/// later block, and of its right neighbour in each plane it does not
/// filter, still as in `px0`.
pub open spec fn kept_after(
    f: CdefFrame,
    sl: SliceInfo,
    p: [usize; 3],
    px: Seq<u16>,
    px0: Seq<u16>,
    k: int,
    bx: int,
    flag: Backup2x8Flags,
) -> bool {
    &&& ahead_intact(f, sl, p, px, px0, k, bx + 2)
    &&& forall|pl: int|
        #![trigger valid_block(f, sl, k, bx + 2, pl)]
        valid_block(f, sl, k, bx + 2, pl) && !plane_staged(pl, f.layout, flag) ==> strip_intact(
            f,
            p,
            px,
            px0,
            k,
            bx + 2,
            pl,
        )
}

/// A filter call for a plane that block `(k, bx)` filters keeps what the
/// block leaves for the blocks after it.
proof fn lemma_filter_keeps_after(
    f: CdefFrame,
    sl: SliceInfo,
    p: [usize; 3],
    line_len: int,
    px: Seq<u16>,
    px2: Seq<u16>,
    px0: Seq<u16>,
    c: FilterCall,
    k: int,
    bx: int,
    pl: int,
    flag: Backup2x8Flags,
)
    requires
        blocks_apart(f, sl, p),
        staging_ok(f, sl, p, px.len() as int, line_len),
        valid_block(f, sl, k, bx, pl),
        plane_staged(pl, f.layout, flag),
        c.block == block_pos(f, p, pl, k, bx),
        c.stride == plane_stride(f, pl),
        c.kernel == plane_kernel(f, pl),
        px2.len() == px.len(),
        forall|i: int|
            0 <= i < px.len() && !in_block(
                i,
                c.block as int,
                c.stride as int,
                kernel_rows(c.kernel),
                kernel_cols(c.kernel),
            ) ==> #[trigger] px2[i] == px[i],
        kept_after(f, sl, p, px, px0, k, bx, flag),
    ensures
        kept_after(f, sl, p, px2, px0, k, bx, flag),
{
    assert forall|k2: int, bx2: int, pl2: int|
        valid_block(f, sl, k2, bx2, pl2) && bx2 > 0 && (k2 > k || (k2 == k && bx2 > bx + 2))
            implies #[trigger] strip_intact(f, p, px2, px0, k2, bx2, pl2) by {
        assert(block_strips_ok(f, p, px.len() as int, k2, bx2, pl2));
        lemma_filter_keeps_strip(f, sl, p, px, px2, px0, c, k, bx, pl, k2, bx2, pl2);
    }
    assert forall|pl2: int|
        #![trigger valid_block(f, sl, k, bx + 2, pl2)]
        valid_block(f, sl, k, bx + 2, pl2) && !plane_staged(pl2, f.layout, flag)
            implies strip_intact(f, p, px2, px0, k, bx + 2, pl2) by {
        assert(block_strips_ok(f, p, px.len() as int, k, bx + 2, pl2));
        lemma_filter_keeps_strip(f, sl, p, px, px2, px0, c, k, bx, pl, k, bx + 2, pl2);
    }
}

/// Planes of the left strips a block stages itself.
proof fn lemma_left_planes_bits(last_skip: bool, prev_flag: Backup2x8Flags, flag: Backup2x8Flags, pl: int, layout: Rav1dPixelLayout)
    requires
        0 <= pl < 3,
    ensures
        plane_staged(pl, layout, Backup2x8Flags { bits: crate::cdef_apply::left_planes_spec(last_skip, prev_flag, flag) })
            == (plane_staged(pl, layout, flag) && (last_skip || !plane_staged(pl, layout, prev_flag))),
{
    let pb = prev_flag.bits;
    let fb = flag.bits;
    assert((((pb ^ fb) & fb) & 1 == 1) == (fb & 1 == 1 && pb & 1 != 1) && (((pb ^ fb) & fb) & 2 == 2)
        == (fb & 2 == 2 && pb & 2 != 2)) by (bit_vector);
}

/// The call of plane `pl` for the block at column `bx` of strip `k`, with
/// left-strip slot `slot` and strengths and direction `pri`, `sec`, `dir`.
pub open spec fn make_call(
    f: CdefFrame,
    sl: SliceInfo,
    p: [usize; 3],
    t0: i32,
    k: int,
    bx: int,
    slot: int,
    pl: int,
    pri: int,
    sec: int,
    dir: int,
) -> FilterCall {
    let by = row_by(sl, k);
    let block = block_pos(f, p, pl, k, bx);
    let src = line_sources_of(
        pl,
        f.lines,
        toggled(t0, k) != 0,
        sl,
        by,
        plane_stride(f, pl),
        plane_col(f, pl, bx),
        block,
        strip_rows(pl, f.layout),
    );
    FilterCall {
        plane: pl as usize,
        bx: bx as i32,
        by: by as i32,
        block: block as i128,
        stride: plane_stride(f, pl) as isize,
        left: (slot * 48 + pl * 16) as usize,
        top: src.0,
        bot: src.1,
        pri: pri as i32,
        sec: sec as i32,
        dir: dir as i32,
        damping: (f.cdef.damping + f.bitdepth_min_8 - (if pl == 0 {
            0int
        } else {
            1
        })) as i32,
        edges: edge_flags_at(bx, by, f.bw as int, f.bh as int),
        kernel: plane_kernel(f, pl),
    }
}

/// Strength index of the block at column `bx` of strip `k`.
pub open spec fn index_of(masks: Seq<BlockMask>, lflvl_offset: int, sl: SliceInfo, k: int, bx: int) -> int {
    cdef_index_at(masks, lflvl_offset, bx, row_by(sl, k) as i32)
}

/// Whether the block at column `bx` of strip `k` is filtered: its
/// superblock's index is not -1, its strengths are not both zero, and it
/// holds coefficients.
pub open spec fn block_active(
    f: CdefFrame,
    sl: SliceInfo,
    masks: Seq<BlockMask>,
    lflvl_offset: int,
    k: int,
    bx: int,
) -> bool {
    let i = index_of(masks, lflvl_offset, sl, k, bx);
    &&& i != -1
    &&& (f.cdef.y_strength[i] != 0 || uv_level(f, i) != 0)
    &&& block_coded(mask_at(masks, lflvl_offset, bx), bx as i32, row_by(sl, k) as i32)
}

/// Whether strength entry `i` has a primary part, so that its blocks are
/// probed for a direction.
pub open spec fn entry_probes(f: CdefFrame, i: int) -> bool {
    primary_of(f.cdef.y_strength[i], f.bitdepth_min_8) != 0 || primary_of(uv_level(f, i), f.bitdepth_min_8) != 0
}

/// The luma call of a filtered block, if any: with the primary strength
/// attenuated by the probed variance and the probed direction where there
/// is a primary strength, with the secondary strength alone otherwise.
pub open spec fn luma_calls(
    f: CdefFrame,
    sl: SliceInfo,
    p: [usize; 3],
    t0: i32,
    k: int,
    bx: int,
    slot: int,
    y_pri: int,
    y_sec: int,
    d: int,
    var: u32,
) -> Seq<FilterCall> {
    let adj = adjusted_strength(y_pri as u8, var);
    if y_pri != 0 {
        if adj != 0 || y_sec != 0 {
            seq![make_call(f, sl, p, t0, k, bx, slot, 0, adj, y_sec, d)]
        } else {
            Seq::empty()
        }
    } else if y_sec != 0 {
        seq![make_call(f, sl, p, t0, k, bx, slot, 0, 0, y_sec, 0)]
    } else {
        Seq::empty()
    }
}

/// The kernel calls of a filtered block, in order, given its left-strip
/// slot and, where it is probed, the probe's direction and variance: a luma
/// call where the attenuated primary or the secondary strength is nonzero,
/// then both chroma calls where chroma has a strength.
pub open spec fn block_calls(
    f: CdefFrame,
    sl: SliceInfo,
    p: [usize; 3],
    t0: i32,
    masks: Seq<BlockMask>,
    lflvl_offset: int,
    k: int,
    bx: int,
    bit: bool,
    probe: (i32, u32),
) -> Seq<FilterCall> {
    let i = index_of(masks, lflvl_offset, sl, k, bx);
    let bd8 = f.bitdepth_min_8;
    let y_pri = primary_of(f.cdef.y_strength[i], bd8);
    let y_sec = secondary_of(f.cdef.y_strength[i], bd8);
    let uv_pri = primary_of(uv_level(f, i), bd8);
    let uv_sec = secondary_of(uv_level(f, i), bd8);
    let probed = entry_probes(f, i);
    let d: int = if probed {
        probe.0 as int
    } else {
        0
    };
    let var: u32 = if probed {
        probe.1
    } else {
        0
    };
    let slot: int = if bit {
        1
    } else {
        0
    };
    let luma = luma_calls(f, sl, p, t0, k, bx, slot, y_pri, y_sec, d, var);
    let uvdir = if uv_pri != 0 {
        uv_dir_of(f.layout, d)
    } else {
        0
    };
    let chroma = if uv_level(f, i) != 0 {
        seq![
            make_call(f, sl, p, t0, k, bx, slot, 1, uv_pri, uv_sec, uvdir),
            make_call(f, sl, p, t0, k, bx, slot, 2, uv_pri, uv_sec, uvdir),
        ]
    } else {
        Seq::empty()
    };
    luma + chroma
}

/// Number of block columns the sweep visits in each strip: those left of
/// the frame's right edge and of the last superblock column.
pub open spec fn n_cols(f: CdefFrame) -> int {
    let w: int = if f.sb128w * 32 < f.bw {
        f.sb128w * 32
    } else {
        f.bw as int
    };
    (w + 1) / 2
}

/// The sweep up to block column `c` (an index of 2-column steps) of strip
/// `k`: the kernel calls made so far, the ping-pong bit selecting the
/// left-strip slot, and the number of probes run, given the probe results
/// `probes` in order.
#[verifier::opaque]
pub open spec fn trace(
    f: CdefFrame,
    sl: SliceInfo,
    p: [usize; 3],
    t0: i32,
    masks: Seq<BlockMask>,
    lflvl_offset: int,
    probes: Seq<(i32, u32)>,
    k: int,
    c: int,
) -> (Seq<FilterCall>, bool, nat)
    decreases k, c,
{
    if k <= 0 && c <= 0 {
        (Seq::empty(), false, 0)
    } else if c <= 0 {
        trace(f, sl, p, t0, masks, lflvl_offset, probes, k - 1, n_cols(f))
    } else {
        let prev = trace(f, sl, p, t0, masks, lflvl_offset, probes, k, c - 1);
        let bx = 2 * (c - 1);
        if block_active(f, sl, masks, lflvl_offset, k, bx) {
            let i = index_of(masks, lflvl_offset, sl, k, bx);
            let pr = if entry_probes(f, i) {
                probes[prev.2 as int]
            } else {
                (0i32, 0u32)
            };
            (
                prev.0 + block_calls(f, sl, p, t0, masks, lflvl_offset, k, bx, prev.1, pr),
                !prev.1,
                prev.2 + (if entry_probes(f, i) {
                    1nat
                } else {
                    0nat
                }),
            )
        } else {
            prev
        }
    }
}

/// The sweep reads only the probe results it has run: a longer record of
/// them gives the same sweep.
proof fn lemma_trace_probes(
    f: CdefFrame,
    sl: SliceInfo,
    p: [usize; 3],
    t0: i32,
    masks: Seq<BlockMask>,
    lflvl_offset: int,
    a: Seq<(i32, u32)>,
    b: Seq<(i32, u32)>,
    k: int,
    c: int,
)
    requires
        a.len() <= b.len(),
        b.subrange(0, a.len() as int) == a,
        trace(f, sl, p, t0, masks, lflvl_offset, a, k, c).2 <= a.len(),
    ensures
        trace(f, sl, p, t0, masks, lflvl_offset, b, k, c) == trace(f, sl, p, t0, masks, lflvl_offset, a, k, c),
    decreases k, c,
{
    reveal(trace);
    if k <= 0 && c <= 0 {
    } else if c <= 0 {
        lemma_trace_probes(f, sl, p, t0, masks, lflvl_offset, a, b, k - 1, n_cols(f));
    } else {
        lemma_trace_probes(f, sl, p, t0, masks, lflvl_offset, a, b, k, c - 1);
        let prev = trace(f, sl, p, t0, masks, lflvl_offset, a, k, c - 1);
        if prev.2 < a.len() {
            assert(b[prev.2 as int] == b.subrange(0, a.len() as int)[prev.2 as int]);
        }
    }
}

/// Columns with no filtered block leave the sweep as it was.
proof fn lemma_trace_idle(
    f: CdefFrame,
    sl: SliceInfo,
    p: [usize; 3],
    t0: i32,
    masks: Seq<BlockMask>,
    lflvl_offset: int,
    probes: Seq<(i32, u32)>,
    k: int,
    a: int,
    b: int,
)
    requires
        0 <= a <= b,
        forall|c: int| a <= c < b ==> !#[trigger] block_active(f, sl, masks, lflvl_offset, k, 2 * c),
    ensures
        trace(f, sl, p, t0, masks, lflvl_offset, probes, k, b) == trace(f, sl, p, t0, masks, lflvl_offset, probes, k, a),
    decreases b - a,
{
    reveal(trace);
    if b > a {
        assert(!block_active(f, sl, masks, lflvl_offset, k, 2 * (b - 1)));
        lemma_trace_idle(f, sl, p, t0, masks, lflvl_offset, probes, k, a, b - 1);
    }
}

/// One filtered block extends the sweep by its calls, its probe and a flip
/// of the slot.
proof fn lemma_trace_step(
    f: CdefFrame,
    sl: SliceInfo,
    p: [usize; 3],
    t0: i32,
    masks: Seq<BlockMask>,
    lflvl_offset: int,
    q0: int,
    probes_b: Seq<(i32, u32)>,
    probes: Seq<(i32, u32)>,
    cbase: Seq<FilterCall>,
    calls_b: Seq<FilterCall>,
    calls: Seq<FilterCall>,
    k: int,
    c: int,
    i: int,
)
    requires
        0 <= c,
        0 <= q0 <= probes_b.len(),
        block_active(f, sl, masks, lflvl_offset, k, 2 * c),
        index_of(masks, lflvl_offset, sl, k, 2 * c) == i,
        calls_b == cbase + trace(f, sl, p, t0, masks, lflvl_offset, probes_b.subrange(q0, probes_b.len() as int), k, c).0,
        probes_b.len() == q0 + trace(f, sl, p, t0, masks, lflvl_offset, probes_b.subrange(q0, probes_b.len() as int), k, c).2,
        probes == (if entry_probes(f, i) {
            probes_b.push(probes.last())
        } else {
            probes_b
        }),
        calls == calls_b + block_calls(
            f,
            sl,
            p,
            t0,
            masks,
            lflvl_offset,
            k,
            2 * c,
            trace(f, sl, p, t0, masks, lflvl_offset, probes_b.subrange(q0, probes_b.len() as int), k, c).1,
            if entry_probes(f, i) {
                probes.last()
            } else {
                (0i32, 0u32)
            },
        ),
    ensures
        calls == cbase + trace(f, sl, p, t0, masks, lflvl_offset, probes.subrange(q0, probes.len() as int), k, c + 1).0,
        probes.len() == q0 + trace(f, sl, p, t0, masks, lflvl_offset, probes.subrange(q0, probes.len() as int), k, c + 1).2,
        trace(f, sl, p, t0, masks, lflvl_offset, probes.subrange(q0, probes.len() as int), k, c + 1).1
            == !trace(f, sl, p, t0, masks, lflvl_offset, probes_b.subrange(q0, probes_b.len() as int), k, c).1,
{
    let pold = probes_b.subrange(q0, probes_b.len() as int);
    let pnew = probes.subrange(q0, probes.len() as int);
    assert(pnew.subrange(0, pold.len() as int) =~= pold);
    lemma_trace_probes(f, sl, p, t0, masks, lflvl_offset, pold, pnew, k, c);
    reveal(trace);
    if entry_probes(f, i) {
        assert(pnew[pold.len() as int] == probes.last());
    }
    assert(calls =~= cbase + trace(f, sl, p, t0, masks, lflvl_offset, pnew, k, c + 1).0);
}

/// Strengths of the superblock being filtered.
#[derive(Clone, Copy, Debug)]
pub struct BlockStrength {
    /// Index into the strength tables.
    pub idx: usize,
    /// Planes filtered.
    pub flag: Backup2x8Flags,
    /// Luma primary strength.
    pub y_pri: u8,
    /// Luma secondary strength.
    pub y_sec: u8,
    /// Chroma primary strength.
    pub uv_pri: u8,
    /// Chroma secondary strength.
    pub uv_sec: u8,
    /// Chroma strength level.
    pub uv_lvl: u8,
}

/// Whether the strengths are those of entry `idx` of the frame's tables.
pub open spec fn strength_ok(f: CdefFrame, st: BlockStrength) -> bool {
    &&& st.idx < 8
    &&& st.y_pri == primary_of(f.cdef.y_strength[st.idx as int], f.bitdepth_min_8)
    &&& st.y_sec == secondary_of(f.cdef.y_strength[st.idx as int], f.bitdepth_min_8)
    &&& st.uv_pri == primary_of(uv_level(f, st.idx as int), f.bitdepth_min_8)
    &&& st.uv_sec == secondary_of(uv_level(f, st.idx as int), f.bitdepth_min_8)
    &&& st.uv_lvl == uv_level(f, st.idx as int)
    &&& (st.flag.bits & 1 == 1) == (f.cdef.y_strength[st.idx as int] != 0)
    &&& (st.flag.bits & 2 == 2) == (uv_level(f, st.idx as int) != 0)
}

/// A call whose left strip sits in a slot holding the values left of its
/// block saw those values.
proof fn lemma_left_seen(
    f: CdefFrame,
    sl: SliceInfo,
    p: [usize; 3],
    px0: Seq<u16>,
    c: FilterCall,
    l: Seq<u16>,
    slot: int,
    k: int,
)
    requires
        c.left == slot * 48 + c.plane * 16,
        row_index(sl, c.by as int) == k,
        c.bx > 0 ==> slot_holds(f, p, l, px0, slot, k, c.bx as int, c.plane as int),
    ensures
        left_seen(f, sl, p, px0, c, l),
{
    if c.bx > 0 {
        assert forall|y: int, x: int|
            0 <= y < strip_rows(c.plane as int, f.layout) && 0 <= x < 2 implies #[trigger] l[c.left
            + 2 * y + x] == px0[left_pos(f, p, row_index(sl, c.by as int), c.bx as int, c.plane as int, y, x)] by {
            assert(c.left + 2 * y + x == left_index(slot, c.plane as int, y, x));
        }
    }
}

/// Recording one more call and the strips it saw keeps them paired.
proof fn lemma_lefts_push(
    f: CdefFrame,
    sl: SliceInfo,
    p: [usize; 3],
    px0: Seq<u16>,
    calls: Seq<FilterCall>,
    lefts: Seq<Seq<u16>>,
    c0: int,
    l0: int,
    c: FilterCall,
    l: Seq<u16>,
)
    requires
        lefts_ok(f, sl, p, px0, calls, lefts, c0, l0),
        left_seen(f, sl, p, px0, c, l),
    ensures
        lefts_ok(f, sl, p, px0, calls.push(c), lefts.push(l), c0, l0),
{
    let n = calls.len() - c0;
    assert forall|j: int| 0 <= j < n + 1 implies #[trigger] left_seen(
        f,
        sl,
        p,
        px0,
        calls.push(c)[c0 + j],
        lefts.push(l)[l0 + j],
    ) by {
        if j < n {
            assert(calls.push(c)[c0 + j] == calls[c0 + j]);
            assert(lefts.push(l)[l0 + j] == lefts[l0 + j]);
            assert(left_seen(f, sl, p, px0, calls[c0 + j], lefts[l0 + j]));
        }
    }
}

/// Positions of the block at column `bx` of strip `k` in each plane.
fn block_positions(f: &CdefFrame, p: [usize; 3], k: i32, bx: i32) -> (r: [i128; 3])
    requires
        frame_ok(*f),
        0 <= k <= 0x2000_0000,
        0 <= bx <= 0x2000_0000,
    ensures
        forall|pl: int| 0 <= pl < 3 ==> #[trigger] r[pl] == block_pos(*f, p, pl, k as int, bx as int),
        forall|pl: int|
            0 <= pl < 3 ==> -0x1_0000_0000_0000_0000_0000_0000 < #[trigger] r[pl]
                < 0x1_0000_0000_0000_0000_0000_0000,
{
    let ys: i128 = f.y_stride as i128;
    let us: i128 = if f.layout == Rav1dPixelLayout::I420 {
        (f.uv_stride >> 1u32) as i128
    } else {
        f.uv_stride as i128
    };
    let kk: i128 = k as i128;
    assert(-0x8000_0000_0000_0000_0000_0000 <= kk * (8 * ys) <= 0x8000_0000_0000_0000_0000_0000
        && -0x8000_0000_0000_0000_0000_0000 <= kk * (8 * us) <= 0x8000_0000_0000_0000_0000_0000)
        by (nonlinear_arith)
        requires
            0 <= kk <= 0x2000_0000,
            -0x8000_0000_0000_0000 <= ys <= 0x8000_0000_0000_0000,
            -0x8000_0000_0000_0000 <= us <= 0x8000_0000_0000_0000,
    ;
    let uv_col: i128 = if f.layout != Rav1dPixelLayout::I444 {
        bx as i128 * 2
    } else {
        bx as i128 * 4
    };
    let r = [
        p[0] as i128 + kk * (8 * ys) + bx as i128 * 4,
        p[1] as i128 + kk * (8 * us) + uv_col,
        p[2] as i128 + kk * (8 * us) + uv_col,
    ];
    assert(row_step(*f, 1) == 8 * us && row_step(*f, 2) == 8 * us && row_step(*f, 0) == 8 * ys);
    r
}

/// Stages the left strip of the block at column `bx` of strip `k` where its
/// left neighbour did not, and the right strip for its right neighbour.
#[verifier::rlimit(60)]
fn stage_strips(
    lr_bak: &mut Vec<u16>,
    px: &Vec<u16>,
    f: &CdefFrame,
    sl: &SliceInfo,
    p: [usize; 3],
    k: i32,
    bx: i32,
    pos: [i128; 3],
    left: bool,
    right: bool,
    bit: bool,
    last_skip: bool,
    prev_flag: Backup2x8Flags,
    flag: Backup2x8Flags,
    px0: Ghost<Seq<u16>>,
)
    requires
        frame_ok(*f),
        0 <= k < n_rows(*sl),
        0 <= bx < f.bw,
        bx % 2 == 0,
        forall|q: int| 0 <= q < 3 ==> #[trigger] pos[q] == block_pos(*f, p, q, k as int, bx as int),
        left == (bx > 0),
        right == (bx + 2 < f.bw),
        old(lr_bak)@.len() == LEFT_BACKUP_LEN,
        block_strips_ok(*f, p, px@.len() as int, k as int, bx as int, 0),
        f.layout != Rav1dPixelLayout::I400 ==> block_strips_ok(*f, p, px@.len() as int, k as int, bx as int, 1),
        f.layout != Rav1dPixelLayout::I400 ==> block_strips_ok(*f, p, px@.len() as int, k as int, bx as int, 2),
        ahead_intact(*f, *sl, p, px@, px0@, k as int, bx as int),
        left_ready(*f, *sl, p, px@, px0@, old(lr_bak)@, if bit { 1 } else { 0 }, k as int, bx as int, last_skip, prev_flag),
    ensures
        final(lr_bak)@.len() == LEFT_BACKUP_LEN,
        forall|q: int|
            #![trigger valid_block(*f, *sl, k as int, bx as int, q)]
            valid_block(*f, *sl, k as int, bx as int, q) && bx > 0 && plane_staged(q, f.layout, flag)
                ==> slot_holds(*f, p, final(lr_bak)@, px0@, if bit { 1 } else { 0 }, k as int, bx as int, q),
        forall|q: int|
            #![trigger valid_block(*f, *sl, k as int, bx + 2, q)]
            valid_block(*f, *sl, k as int, bx + 2, q) && plane_staged(q, f.layout, flag)
                ==> slot_holds(*f, p, final(lr_bak)@, px0@, if bit { 0 } else { 1 }, k as int, bx + 2, q),
{
    let ghost lr_a = lr_bak@;
    let ghost px_head = px@;
    let layout = f.layout;
    let slot: usize = if bit { 1 } else { 0 };
    let other: usize = if bit { 0 } else { 1 };
    let do_left = left_planes(last_skip, prev_flag, flag);
    if !do_left.is_empty() && left {
        backup2x8(lr_bak, slot, px, pos, f.y_stride, f.uv_stride, 0, layout, do_left);
    }
    let ghost lr1 = lr_bak@;
    if right {
        backup2x8(lr_bak, other, px, pos, f.y_stride, f.uv_stride, 8, layout, flag);
    }
    let ghost lr2 = lr_bak@;
    proof {
        assert forall|pl: int|
            #![trigger valid_block(*f, *sl, k as int, bx as int, pl)]
            valid_block(*f, *sl, k as int, bx as int, pl) && bx > 0 && plane_staged(pl, layout, flag)
                implies slot_holds(*f, p, lr2, px0@, slot as int, k as int, bx as int, pl) by {
            lemma_left_planes_bits(last_skip, prev_flag, flag, pl, layout);
            assert(pos[pl] == block_pos(*f, p, pl, k as int, bx as int));
            assert forall|y: int, x: int|
                0 <= y < strip_rows(pl, f.layout) && 0 <= x < 2 implies #[trigger] lr2[left_index(
                slot as int,
                pl,
                y,
                x,
            )] == px0@[left_pos(*f, p, k as int, bx as int, pl, y, x)] by {
                if right {
                    lemma_strip_entry(lr1, other as int, px@, pos, f.y_stride as int, f.uv_stride as int, 8, layout, flag, slot as int, pl, y, x);
                }
                if do_left.bits != 0 && left {
                    lemma_strip_entry(lr_a, slot as int, px@, pos, f.y_stride as int, f.uv_stride as int, 0, layout, do_left, slot as int, pl, y, x);
                }
                if plane_staged(pl, layout, do_left) {
                    let db = do_left.bits;
                    assert((db & 1 == 1 || db & 2 == 2) ==> db != 0) by (bit_vector);
                    assert(do_left.bits != 0);
                    assert(valid_block(*f, *sl, k as int, bx as int, pl));
                    assert(strip_intact(*f, p, px_head, px0@, k as int, bx as int, pl));
                    assert(px@[left_pos(*f, p, k as int, bx as int, pl, y, x)] == px0@[left_pos(*f, p, k as int, bx as int, pl, y, x)]);
                } else {
                    assert(valid_block(*f, *sl, k as int, bx as int, pl));
                    assert(slot_holds(*f, p, lr_a, px0@, slot as int, k as int, bx as int, pl));
                    assert(lr_a[left_index(slot as int, pl, y, x)] == px0@[left_pos(*f, p, k as int, bx as int, pl, y, x)]);
                }
            }
        }
        assert forall|pl: int|
            #![trigger valid_block(*f, *sl, k as int, bx + 2, pl)]
            valid_block(*f, *sl, k as int, bx + 2, pl) && plane_staged(pl, layout, flag)
                implies slot_holds(*f, p, lr2, px0@, other as int, k as int, bx + 2, pl) by {
            assert(pos[pl] == block_pos(*f, p, pl, k as int, bx as int));
            assert(strip_intact(*f, p, px_head, px0@, k as int, bx + 2, pl));
            assert forall|y: int, x: int|
                0 <= y < strip_rows(pl, f.layout) && 0 <= x < 2 implies #[trigger] lr2[left_index(
                other as int,
                pl,
                y,
                x,
            )] == px0@[left_pos(*f, p, k as int, bx + 2, pl, y, x)] by {
                lemma_strip_entry(lr1, other as int, px@, pos, f.y_stride as int, f.uv_stride as int, 8, layout, flag, other as int, pl, y, x);
                assert(px@[left_pos(*f, p, k as int, bx + 2, pl, y, x)] == px0@[left_pos(*f, p, k as int, bx + 2, pl, y, x)]);
            }
        }
    }
}

/// Hands both chroma planes of the block at column `bx` of strip `k` to the
/// kernel, with direction `uvdir`.
#[verifier::rlimit(100)]
fn filter_chroma<D: CdefDsp>(
    dsp: &mut D,
    px: &mut Vec<u16>,
    lr_bak: &Vec<u16>,
    cdef_line_buf: &Vec<u16>,
    lr_line_buf: &Vec<u16>,
    f: &CdefFrame,
    masks: &Vec<BlockMask>,
    lflvl_offset: i32,
    sl: &SliceInfo,
    p: [usize; 3],
    k: i32,
    t0: Ghost<i32>,
    tf: bool,
    st: &BlockStrength,
    bx: i32,
    pos: [i128; 3],
    edges: u8,
    slot: usize,
    bit: bool,
    uvdir: i32,
    px0: Ghost<Seq<u16>>,
    c0: Ghost<int>,
    l0: Ghost<int>,
)
    requires
        frame_ok(*f),
        f.layout != Rav1dPixelLayout::I400,
        edges == edge_flags_at(bx as int, row_by(*sl, k as int), f.bw as int, f.bh as int),
        0 <= uvdir < 8,
        slice_ok(*sl),
        forall|q: int|
            0 <= q < 3 ==> -0x1_0000_0000_0000_0000_0000_0000 < #[trigger] pos[q]
                < 0x1_0000_0000_0000_0000_0000_0000,
        forall|q: int| 0 <= q < 3 ==> #[trigger] pos[q] == block_pos(*f, p, q, k as int, bx as int),
        strength_ok(*f, *st),
        st.uv_lvl != 0,
        st.idx == cdef_index_at(masks@, lflvl_offset as int, bx as int, row_by(*sl, k as int) as i32),
        block_coded(mask_at(masks@, lflvl_offset as int, bx as int), bx, row_by(*sl, k as int) as i32),
        0 <= k < n_rows(*sl),
        0 <= bx < f.bw,
        bx % 2 == 0,
        tf == (toggled(t0@, k as int) != 0),
        blocks_apart(*f, *sl, p),
        staging_ok(*f, *sl, p, old(px)@.len() as int, cdef_line_buf@.len() as int),
        slot == (if bit { 1usize } else { 0 }),
        forall|q: int|
            #![trigger valid_block(*f, *sl, k as int, bx as int, q)]
            valid_block(*f, *sl, k as int, bx as int, q) && bx > 0 && plane_staged(q, f.layout, st.flag)
                ==> slot_holds(*f, p, lr_bak@, px0@, if bit { 1 } else { 0 }, k as int, bx as int, q),
        kept_after(*f, *sl, p, old(px)@, px0@, k as int, bx as int, st.flag),
        lefts_ok(*f, *sl, p, px0@, old(dsp).filter_calls(), old(dsp).filter_lefts(), c0@, l0@),
    ensures
        final(px)@.len() == old(px)@.len(),
        final(dsp).dir_calls() == old(dsp).dir_calls(),
        final(dsp).probe_results() == old(dsp).probe_results(),
        final(dsp).filter_calls() == old(dsp).filter_calls() + seq![
            make_call(*f, *sl, p, t0@, k as int, bx as int, slot as int, 1, st.uv_pri as int, st.uv_sec as int, uvdir as int),
            make_call(*f, *sl, p, t0@, k as int, bx as int, slot as int, 2, st.uv_pri as int, st.uv_sec as int, uvdir as int),
        ],
        calls_extended(*f, *sl, p, t0@, masks@, lflvl_offset as int, old(dsp).filter_calls(), final(dsp).filter_calls()),
        kept_after(*f, *sl, p, final(px)@, px0@, k as int, bx as int, st.flag),
        lefts_ok(*f, *sl, p, px0@, final(dsp).filter_calls(), final(dsp).filter_lefts(), c0@, l0@),
        final(dsp).filter_lefts().len() >= old(dsp).filter_lefts().len(),
        final(dsp).filter_lefts().subrange(0, old(dsp).filter_lefts().len() as int) == old(dsp).filter_lefts(),
{
    let ghost calls0 = dsp.filter_calls();
    let ghost lefts0 = dsp.filter_lefts();
    let ghost lr2 = lr_bak@;
    let ghost expected = seq![
        make_call(*f, *sl, p, t0@, k as int, bx as int, slot as int, 1, st.uv_pri as int, st.uv_sec as int, uvdir as int),
        make_call(*f, *sl, p, t0@, k as int, bx as int, slot as int, 2, st.uv_pri as int, st.uv_sec as int, uvdir as int),
    ];
    assert(calls0.subrange(0, calls0.len() as int) =~= calls0);
    assert(lefts0.subrange(0, lefts0.len() as int) =~= lefts0);
    assert(calls0 + expected.subrange(0, 0) =~= calls0);
    let by: i32 = sl.by_start + 2 * k;
    let layout = f.layout;
    let damping: i32 = f.cdef.damping as i32 + f.bitdepth_min_8 as i32;
    let kernel: usize = match layout {
        Rav1dPixelLayout::I444 => 0,
        Rav1dPixelLayout::I422 => 1,
        _ => 2,
    };
    let col: i32 = if layout != Rav1dPixelLayout::I444 {
        bx * 2
    } else {
        bx * 4
    };
    let rows: i32 = if layout == Rav1dPixelLayout::I420 {
        4
    } else {
        8
    };
    let mut pl: usize = 1;
    while pl < 3
        invariant
            1 <= pl <= 3,
            frame_ok(*f),
            layout == f.layout,
            layout != Rav1dPixelLayout::I400,
            kernel == uv_kernel(layout),
            damping == f.cdef.damping + f.bitdepth_min_8,
            edges == edge_flags_at(bx as int, by as int, f.bw as int, f.bh as int),
            0 <= uvdir < 8,
            slice_ok(*sl),
            0 <= by <= 0x4000_0000,
            0 <= col <= 0x4000_0000,
            0 <= rows <= 8,
            slot < 2,
            forall|q: int|
                0 <= q < 3 ==> -0x1_0000_0000_0000_0000_0000_0000 < #[trigger] pos[q]
                    < 0x1_0000_0000_0000_0000_0000_0000,
            forall|q: int| 0 <= q < 3 ==> #[trigger] pos[q] == block_pos(*f, p, q, k as int, bx as int),
            strength_ok(*f, *st),
            st.uv_lvl != 0,
            st.idx == cdef_index_at(masks@, lflvl_offset as int, bx as int, by),
            block_coded(mask_at(masks@, lflvl_offset as int, bx as int), bx, by),
            col == plane_col(*f, 1, bx as int),
            col == plane_col(*f, 2, bx as int),
            rows == strip_rows(1, layout),
            rows == strip_rows(2, layout),
            0 <= k < n_rows(*sl),
            by == row_by(*sl, k as int),
            row_index(*sl, by as int) == k,
            0 <= bx < f.bw,
            bx % 2 == 0,
            tf == (toggled(t0@, k as int) != 0),
            blocks_apart(*f, *sl, p),
            staging_ok(*f, *sl, p, old(px)@.len() as int, cdef_line_buf@.len() as int),
            lr_bak@ == lr2,
            slot == (if bit { 1usize } else { 0 }),
            forall|q: int|
                #![trigger valid_block(*f, *sl, k as int, bx as int, q)]
                valid_block(*f, *sl, k as int, bx as int, q) && bx > 0 && plane_staged(q, f.layout, st.flag)
                    ==> slot_holds(*f, p, lr2, px0@, if bit { 1 } else { 0 }, k as int, bx as int, q),
            kept_after(*f, *sl, p, px@, px0@, k as int, bx as int, st.flag),
            lefts_ok(*f, *sl, p, px0@, dsp.filter_calls(), dsp.filter_lefts(), c0@, l0@),
            lefts0.len() <= dsp.filter_lefts().len(),
            dsp.filter_lefts().subrange(0, lefts0.len() as int) == lefts0,
            px@.len() == old(px)@.len(),
            dsp.dir_calls() == old(dsp).dir_calls(),
            dsp.probe_results() == old(dsp).probe_results(),
            dsp.filter_calls() == calls0 + expected.subrange(0, pl - 1),
            expected == seq![
                make_call(*f, *sl, p, t0@, k as int, bx as int, slot as int, 1, st.uv_pri as int, st.uv_sec as int, uvdir as int),
                make_call(*f, *sl, p, t0@, k as int, bx as int, slot as int, 2, st.uv_pri as int, st.uv_sec as int, uvdir as int),
            ],
            damping == f.cdef.damping + f.bitdepth_min_8,
            calls_extended(*f, *sl, p, t0@, masks@, lflvl_offset as int, calls0, dsp.filter_calls()),
        decreases 3 - pl,
    {
        let (top_src, bot_src) = line_sources(pl, &f.lines, tf, sl, by, f.uv_stride, col, pos[pl], rows);
        let call = FilterCall {
            plane: pl,
            bx,
            by,
            block: pos[pl],
            stride: f.uv_stride,
            left: slot * 48 + pl * 16,
            top: top_src,
            bot: bot_src,
            pri: st.uv_pri as i32,
            sec: st.uv_sec as i32,
            dir: uvdir,
            damping: damping - 1,
            edges,
            kernel,
        };
        let ghost px_b = px@;
        let ghost calls_b = dsp.filter_calls();
        let ghost lefts_b = dsp.filter_lefts();
        dsp.filter(px, lr_bak, cdef_line_buf, lr_line_buf, &call, f.bitdepth_max);
        proof {
            assert(dsp.filter_calls().subrange(0, calls0.len() as int) =~= calls0);
            assert(dsp.filter_lefts().subrange(0, lefts0.len() as int) =~= lefts_b.subrange(0, lefts0.len() as int));
            assert(valid_block(*f, *sl, k as int, bx as int, pl as int));
            assert(plane_staged(pl as int, layout, st.flag));
            if bx > 0 {
                assert(slot_holds(*f, p, lr2, px0@, slot as int, k as int, bx as int, pl as int));
            }
            lemma_left_seen(*f, *sl, p, px0@, call, lr2, slot as int, k as int);
            lemma_lefts_push(*f, *sl, p, px0@, calls_b, lefts_b, c0@, l0@, call, lr2);
            lemma_filter_keeps_after(*f, *sl, p, cdef_line_buf@.len() as int, px_b, px@, px0@, call, k as int, bx as int, pl as int, st.flag);
            assert(call == expected[pl - 1]);
            assert(dsp.filter_calls() =~= calls0 + expected.subrange(0, pl as int));
        }
        pl = pl + 1;
    }
    assert(expected.subrange(0, 2) =~= expected);
}

/// Hands the luma plane of the block at column `bx` of strip `k` to the
/// kernel where it has a strength left after attenuation by `variance`.
#[verifier::rlimit(100)]
fn filter_luma<D: CdefDsp>(
    dsp: &mut D,
    px: &mut Vec<u16>,
    lr_bak: &Vec<u16>,
    cdef_line_buf: &Vec<u16>,
    lr_line_buf: &Vec<u16>,
    f: &CdefFrame,
    masks: &Vec<BlockMask>,
    lflvl_offset: i32,
    sl: &SliceInfo,
    p: [usize; 3],
    k: i32,
    t0: Ghost<i32>,
    tf: bool,
    st: &BlockStrength,
    bx: i32,
    pos: [i128; 3],
    edges: u8,
    slot: usize,
    bit: bool,
    dir: i32,
    variance: u32,
    px0: Ghost<Seq<u16>>,
    c0: Ghost<int>,
    l0: Ghost<int>,
)
    requires
        frame_ok(*f),
        edges == edge_flags_at(bx as int, row_by(*sl, k as int), f.bw as int, f.bh as int),
        0 <= dir < 8,
        slice_ok(*sl),
        forall|q: int|
            0 <= q < 3 ==> -0x1_0000_0000_0000_0000_0000_0000 < #[trigger] pos[q]
                < 0x1_0000_0000_0000_0000_0000_0000,
        forall|q: int| 0 <= q < 3 ==> #[trigger] pos[q] == block_pos(*f, p, q, k as int, bx as int),
        strength_ok(*f, *st),
        st.idx == cdef_index_at(masks@, lflvl_offset as int, bx as int, row_by(*sl, k as int) as i32),
        block_coded(mask_at(masks@, lflvl_offset as int, bx as int), bx, row_by(*sl, k as int) as i32),
        f.cdef.y_strength[st.idx as int] != 0 || uv_level(*f, st.idx as int) != 0,
        masks_ok(masks@, lflvl_offset as int, *f),
        0 <= bx / 32 < f.sb128w,
        0 <= k < n_rows(*sl),
        0 <= bx < f.bw,
        bx % 2 == 0,
        tf == (toggled(t0@, k as int) != 0),
        blocks_apart(*f, *sl, p),
        staging_ok(*f, *sl, p, old(px)@.len() as int, cdef_line_buf@.len() as int),
        slot == (if bit { 1usize } else { 0 }),
        forall|q: int|
            #![trigger valid_block(*f, *sl, k as int, bx as int, q)]
            valid_block(*f, *sl, k as int, bx as int, q) && bx > 0 && plane_staged(q, f.layout, st.flag)
                ==> slot_holds(*f, p, lr_bak@, px0@, if bit { 1 } else { 0 }, k as int, bx as int, q),
        kept_after(*f, *sl, p, old(px)@, px0@, k as int, bx as int, st.flag),
        lefts_ok(*f, *sl, p, px0@, old(dsp).filter_calls(), old(dsp).filter_lefts(), c0@, l0@),
    ensures
        final(px)@.len() == old(px)@.len(),
        final(dsp).dir_calls() == old(dsp).dir_calls(),
        final(dsp).probe_results() == old(dsp).probe_results(),
        final(dsp).filter_calls() == old(dsp).filter_calls() + luma_calls(*f, *sl, p, t0@, k as int, bx as int, slot as int, st.y_pri as int, st.y_sec as int, dir as int, variance),
        calls_extended(*f, *sl, p, t0@, masks@, lflvl_offset as int, old(dsp).filter_calls(), final(dsp).filter_calls()),
        kept_after(*f, *sl, p, final(px)@, px0@, k as int, bx as int, st.flag),
        lefts_ok(*f, *sl, p, px0@, final(dsp).filter_calls(), final(dsp).filter_lefts(), c0@, l0@),
        final(dsp).filter_lefts().len() >= old(dsp).filter_lefts().len(),
        final(dsp).filter_lefts().subrange(0, old(dsp).filter_lefts().len() as int) == old(dsp).filter_lefts(),
{
    let ghost calls0 = dsp.filter_calls();
    let ghost lefts0 = dsp.filter_lefts();
    let ghost lr2 = lr_bak@;
    assert(calls0.subrange(0, calls0.len() as int) =~= calls0);
    assert(lefts0.subrange(0, lefts0.len() as int) =~= lefts0);
    assert(calls0 + Seq::<FilterCall>::empty() =~= calls0);
    let by: i32 = sl.by_start + 2 * k;
    let layout = f.layout;
    let damping: i32 = f.cdef.damping as i32 + f.bitdepth_min_8 as i32;
    let (ltop, lbot) = line_sources(0, &f.lines, tf, sl, by, f.y_stride, bx * 4, pos[0], 8);
    let mut luma = FilterCall {
        plane: 0,
        bx,
        by,
        block: pos[0],
        stride: f.y_stride,
        left: slot * 48,
        top: ltop,
        bot: lbot,
        pri: 0,
        sec: st.y_sec as i32,
        dir: 0,
        damping,
        edges,
        kernel: 0,
    };
    let mut do_luma = false;
    if st.y_pri != 0 {
        let adj = adjust_strength(st.y_pri, variance);
        if adj != 0 || st.y_sec != 0 {
            luma.pri = adj;
            luma.dir = dir;
            do_luma = true;
        }
    } else if st.y_sec != 0 {
        do_luma = true;
    }
    if do_luma {
        let ghost px_b = px@;
        let ghost calls_b = dsp.filter_calls();
        let ghost lefts_b = dsp.filter_lefts();
        dsp.filter(px, lr_bak, cdef_line_buf, lr_line_buf, &luma, f.bitdepth_max);
        proof {
            assert(dsp.filter_calls().subrange(0, calls0.len() as int) =~= calls0);
            assert(dsp.filter_lefts().subrange(0, lefts0.len() as int) =~= lefts0);
            assert(valid_block(*f, *sl, k as int, bx as int, 0));
            assert(plane_staged(0, layout, st.flag));
            if bx > 0 {
                assert(slot_holds(*f, p, lr2, px0@, slot as int, k as int, bx as int, 0));
            }
            lemma_left_seen(*f, *sl, p, px0@, luma, lr2, slot as int, k as int);
            lemma_lefts_push(*f, *sl, p, px0@, calls_b, lefts_b, c0@, l0@, luma, lr2);
            lemma_filter_keeps_after(*f, *sl, p, cdef_line_buf@.len() as int, px_b, px@, px0@, luma, k as int, bx as int, 0, st.flag);
        }
    }
    proof {
        if do_luma {
            assert(luma == luma_calls(*f, *sl, p, t0@, k as int, bx as int, slot as int, st.y_pri as int, st.y_sec as int, dir as int, variance)[0]);
            assert(dsp.filter_calls() =~= calls0 + luma_calls(*f, *sl, p, t0@, k as int, bx as int, slot as int, st.y_pri as int, st.y_sec as int, dir as int, variance));
        }
    }
}

/// Filters the coded 8x8 block at column `bx` of strip `k`: stages the
/// columns its neighbours need, probes its direction when a primary
/// strength asks for it, and hands each filtered plane to the kernel.
#[verifier::rlimit(100)]
fn filter_block<D: CdefDsp>(
    dsp: &mut D,
    px: &mut Vec<u16>,
    lr_bak: &mut Vec<u16>,
    cdef_line_buf: &Vec<u16>,
    lr_line_buf: &Vec<u16>,
    f: &CdefFrame,
    masks: &Vec<BlockMask>,
    lflvl_offset: i32,
    sl: &SliceInfo,
    p: [usize; 3],
    k: i32,
    t0: Ghost<i32>,
    tf: bool,
    st: &BlockStrength,
    bx: i32,
    top: bool,
    bottom: bool,
    left: bool,
    right: bool,
    bit: bool,
    last_skip: bool,
    prev_flag: Backup2x8Flags,
    px0: Ghost<Seq<u16>>,
    c0: Ghost<int>,
    l0: Ghost<int>,
)
    requires
        frame_ok(*f),
        slice_ok(*sl),
        strength_ok(*f, *st),
        0 <= k < n_rows(*sl),
        0 <= bx < f.bw,
        bx % 2 == 0,
        tf == (toggled(t0@, k as int) != 0),
        masks_ok(masks@, lflvl_offset as int, *f),
        0 <= bx / 32 < f.sb128w,
        st.idx == cdef_index_at(masks@, lflvl_offset as int, bx as int, row_by(*sl, k as int) as i32),
        f.cdef.y_strength[st.idx as int] != 0 || uv_level(*f, st.idx as int) != 0,
        block_coded(mask_at(masks@, lflvl_offset as int, bx as int), bx, row_by(*sl, k as int) as i32),
        top == (row_by(*sl, k as int) > 0),
        bottom == (row_by(*sl, k as int) + 2 < f.bh),
        left == (bx > 0),
        right == (bx + 2 < f.bw),
        old(lr_bak)@.len() == LEFT_BACKUP_LEN,
        staging_ok(*f, *sl, p, old(px)@.len() as int, cdef_line_buf@.len() as int),
        blocks_apart(*f, *sl, p),
        ahead_intact(*f, *sl, p, old(px)@, px0@, k as int, bx as int),
        left_ready(*f, *sl, p, old(px)@, px0@, old(lr_bak)@, if bit { 1 } else { 0 }, k as int, bx as int, last_skip, prev_flag),
        lefts_ok(*f, *sl, p, px0@, old(dsp).filter_calls(), old(dsp).filter_lefts(), c0@, l0@),
    ensures
        final(px)@.len() == old(px)@.len(),
        final(lr_bak)@.len() == LEFT_BACKUP_LEN,
        ahead_intact(*f, *sl, p, final(px)@, px0@, k as int, bx + 2),
        left_ready(*f, *sl, p, final(px)@, px0@, final(lr_bak)@, if bit { 0 } else { 1 }, k as int, bx + 2, false, st.flag),
        final(dsp).filter_lefts().len() >= old(dsp).filter_lefts().len(),
        final(dsp).probe_results() == (if entry_probes(*f, st.idx as int) {
            old(dsp).probe_results().push(final(dsp).probe_results().last())
        } else {
            old(dsp).probe_results()
        }),
        final(dsp).filter_calls() == old(dsp).filter_calls() + block_calls(
            *f,
            *sl,
            p,
            t0@,
            masks@,
            lflvl_offset as int,
            k as int,
            bx as int,
            bit,
            if entry_probes(*f, st.idx as int) {
                final(dsp).probe_results().last()
            } else {
                (0i32, 0u32)
            },
        ),
        final(dsp).filter_lefts().subrange(0, old(dsp).filter_lefts().len() as int) == old(dsp).filter_lefts(),
        lefts_ok(*f, *sl, p, px0@, final(dsp).filter_calls(), final(dsp).filter_lefts(), c0@, l0@),
        final(dsp).dir_calls() == old(dsp).dir_calls() + (if st.y_pri != 0 || st.uv_pri != 0 {
            1nat
        } else {
            0nat
        }),
        calls_extended(*f, *sl, p, t0@, masks@, lflvl_offset as int, old(dsp).filter_calls(), final(dsp).filter_calls()),
{
    let ghost calls0 = dsp.filter_calls();
    let ghost lefts0 = dsp.filter_lefts();
    let ghost px_head = px@;
    let ghost lr_a = lr_bak@;
    assert(calls0.subrange(0, calls0.len() as int) =~= calls0);
    assert(lefts0.subrange(0, lefts0.len() as int) =~= lefts0);
    let by: i32 = sl.by_start + 2 * k;
    let layout = f.layout;
    let pos = block_positions(f, p, k, bx);
    let slot: usize = if bit { 1 } else { 0 };
    let other: usize = if bit { 0 } else { 1 };
    assert(block_strips_ok(*f, p, px@.len() as int, k as int, bx as int, 0));
    assert(f.layout != Rav1dPixelLayout::I400 ==> block_strips_ok(*f, p, px@.len() as int, k as int, bx as int, 1));
    assert(f.layout != Rav1dPixelLayout::I400 ==> block_strips_ok(*f, p, px@.len() as int, k as int, bx as int, 2));
    stage_strips(lr_bak, px, f, sl, p, k, bx, pos, left, right, bit, last_skip, prev_flag, st.flag, px0);
    let ghost lr2 = lr_bak@;
    proof {
        assert(kept_after(*f, *sl, p, px@, px0@, k as int, bx as int, st.flag)) by {
            assert forall|pl: int|
                #![trigger valid_block(*f, *sl, k as int, bx + 2, pl)]
                valid_block(*f, *sl, k as int, bx + 2, pl) && !plane_staged(pl, f.layout, st.flag)
                    implies strip_intact(*f, p, px@, px0@, k as int, bx + 2, pl) by {
                assert(strip_intact(*f, p, px_head, px0@, k as int, bx + 2, pl));
            }
        }
    }
    let (dir, variance) = if st.y_pri != 0 || st.uv_pri != 0 {
        dsp.dir(px, pos[0], f.y_stride, f.bitdepth_max)
    } else {
        (0, 0)
    };
    let edges = make_edges(left, right, top, bottom);
    assert(edges == edge_flags_at(bx as int, by as int, f.bw as int, f.bh as int));
    let damping: i32 = f.cdef.damping as i32 + f.bitdepth_min_8 as i32;
    filter_luma(
        dsp,
        px,
        lr_bak,
        cdef_line_buf,
        lr_line_buf,
        f,
        masks,
        lflvl_offset,
        sl,
        p,
        k,
        t0,
        tf,
        st,
        bx,
        pos,
        edges,
        slot,
        bit,
        dir,
        variance,
        px0,
        c0,
        l0,
    );
    let ghost calls1 = dsp.filter_calls();
    let ghost lefts1 = dsp.filter_lefts();
    assert(calls_extended(*f, *sl, p, t0@, masks@, lflvl_offset as int, calls0, calls1));
    if st.uv_lvl != 0 && layout != Rav1dPixelLayout::I400 {
        let uvdir = uv_direction(layout, dir, st.uv_pri);
        filter_chroma(
            dsp,
            px,
            lr_bak,
            cdef_line_buf,
            lr_line_buf,
            f,
            masks,
            lflvl_offset,
            sl,
            p,
            k,
            t0,
            tf,
            st,
            bx,
            pos,
            edges,
            slot,
            bit,
            uvdir,
            px0,
            c0,
            l0,
        );
        proof {
            lemma_calls_extended_trans(*f, *sl, p, t0@, masks@, lflvl_offset as int, calls0, calls1, dsp.filter_calls());
            assert(dsp.filter_lefts().subrange(0, lefts0.len() as int) =~= dsp.filter_lefts().subrange(0, lefts1.len() as int).subrange(0, lefts0.len() as int));
        }
    }
    proof {
        assert(lr_bak@ == lr2);
        assert forall|q: int|
            #![trigger valid_block(*f, *sl, k as int, bx + 2, q)]
            valid_block(*f, *sl, k as int, bx + 2, q) && bx + 2 > 0 implies (if !false && plane_staged(
                q,
                f.layout,
                st.flag,
            ) {
                slot_holds(*f, p, lr_bak@, px0@, other as int, k as int, bx + 2, q)
            } else {
                strip_intact(*f, p, px@, px0@, k as int, bx + 2, q)
            }) by {
        }
    }
}


/// Filters strip `k` of the band: keeps its bottom rows for the next strip
/// when there is one, then sweeps its superblocks left to right.
#[verifier::rlimit(100)]
#[verifier::spinoff_prover]
fn cdef_row<D: CdefDsp>(
    dsp: &mut D,
    toggle: &mut i32,
    bit: &mut bool,
    f: &CdefFrame,
    masks: &Vec<BlockMask>,
    px: &mut Vec<u16>,
    cdef_line_buf: &mut Vec<u16>,
    lr_line_buf: &Vec<u16>,
    p: [usize; 3],
    lflvl_offset: i32,
    sl: &SliceInfo,
    k: i32,
    t0: Ghost<i32>,
    px_entry: Ghost<Seq<u16>>,
    c0: Ghost<int>,
    l0: Ghost<int>,
    cbase: Ghost<Seq<FilterCall>>,
    q0: Ghost<int>,
)
    requires
        frame_ok(*f),
        slice_ok(*sl),
        masks_ok(masks@, lflvl_offset as int, *f),
        0 <= k < n_rows(*sl),
        *old(toggle) == toggled(t0@, k as int),
        staging_ok(*f, *sl, p, old(px)@.len() as int, old(cdef_line_buf)@.len() as int),
        blocks_apart(*f, *sl, p),
        ahead_intact(*f, *sl, p, old(px)@, px_entry@, k - 1, f.bw as int),
        lefts_ok(*f, *sl, p, px_entry@, old(dsp).filter_calls(), old(dsp).filter_lefts(), c0@, l0@),
        0 <= q0@ <= old(dsp).probe_results().len(),
        old(dsp).filter_calls() == cbase@ + trace(*f, *sl, p, t0@, masks@, lflvl_offset as int, old(dsp).probe_results().subrange(q0@, old(dsp).probe_results().len() as int), k as int, 0).0,
        old(dsp).probe_results().len() == q0@ + trace(*f, *sl, p, t0@, masks@, lflvl_offset as int, old(dsp).probe_results().subrange(q0@, old(dsp).probe_results().len() as int), k as int, 0).2,
        *old(bit) == trace(*f, *sl, p, t0@, masks@, lflvl_offset as int, old(dsp).probe_results().subrange(q0@, old(dsp).probe_results().len() as int), k as int, 0).1,
    ensures
        0 <= q0@ <= final(dsp).probe_results().len(),
        final(dsp).filter_calls() == cbase@ + trace(*f, *sl, p, t0@, masks@, lflvl_offset as int, final(dsp).probe_results().subrange(q0@, final(dsp).probe_results().len() as int), k + 1, 0).0,
        final(dsp).probe_results().len() == q0@ + trace(*f, *sl, p, t0@, masks@, lflvl_offset as int, final(dsp).probe_results().subrange(q0@, final(dsp).probe_results().len() as int), k + 1, 0).2,
        *final(bit) == trace(*f, *sl, p, t0@, masks@, lflvl_offset as int, final(dsp).probe_results().subrange(q0@, final(dsp).probe_results().len() as int), k + 1, 0).1,
        final(dsp).dir_calls() - old(dsp).dir_calls() == final(dsp).probe_results().len() - old(dsp).probe_results().len(),
        ahead_intact(*f, *sl, p, final(px)@, px_entry@, k as int, f.bw as int),
        lefts_ok(*f, *sl, p, px_entry@, final(dsp).filter_calls(), final(dsp).filter_lefts(), c0@, l0@),
        final(dsp).filter_lefts().subrange(0, old(dsp).filter_lefts().len() as int) == old(
            dsp,
        ).filter_lefts(),
        *final(toggle) == *old(toggle) ^ 1,
        final(px)@.len() == old(px)@.len(),
        final(cdef_line_buf)@.len() == old(cdef_line_buf)@.len(),
        calls_extended(*f, *sl, p, t0@, masks@, lflvl_offset as int, old(dsp).filter_calls(), final(dsp).filter_calls()),
        no_primary(*f) ==> final(dsp).dir_calls() == old(dsp).dir_calls(),
        all_off(masks@, lflvl_offset as int, *f) ==> {
            &&& final(px)@ == old(px)@
            &&& final(dsp).filter_calls() == old(dsp).filter_calls()
            &&& final(dsp).dir_calls() == old(dsp).dir_calls()
        },
        !lines_kept(*f, *sl, row_by(*sl, k as int)) ==> final(cdef_line_buf)@ == old(
            cdef_line_buf,
        )@,
{
    let ghost px0 = px@;
    let ghost calls0 = dsp.filter_calls();
    let ghost dirs0 = dsp.dir_calls();
    let ghost lefts_r = dsp.filter_lefts();
    assert(lefts_r.subrange(0, lefts_r.len() as int) =~= lefts_r);
    assert(calls0.subrange(0, calls0.len() as int) =~= calls0);
    let tf = *toggle != 0;
    let by: i32 = sl.by_start + 2 * k;
    let top = by > 0;
    let bottom = by + 2 < f.bh;
    let layout = f.layout;
    if (!sl.have_tt || sl.sbrow_start || by + 2 < sl.by_end) && bottom {
        let t: usize = if tf {
            0
        } else {
            1
        };
        let sby: i128 = if sl.have_tt {
            sl.sby as i128
        } else {
            0
        };
        let ys: i128 = f.y_stride as i128;
        let us: i128 = f.uv_stride as i128;
        assert(-0x8000_0000_0000_0000_0000_0000 <= (sby * 4) * ys <= 0x8000_0000_0000_0000_0000_0000
            && -0x8000_0000_0000_0000_0000_0000 <= (sby * 8) * us <= 0x8000_0000_0000_0000_0000_0000)
            by (nonlinear_arith)
            requires
                0 <= sby <= 0x1000_0000,
                -0x8000_0000_0000_0000 <= ys <= 0x8000_0000_0000_0000,
                -0x8000_0000_0000_0000 <= us <= 0x8000_0000_0000_0000,
        ;
        let dst: [i128; 3] = [
            f.lines.cdef_line[t][0] as i128 + (sby * 4) * ys,
            f.lines.cdef_line[t][1] as i128 + (sby * 8) * us,
            f.lines.cdef_line[t][2] as i128 + (sby * 8) * us,
        ];
        let src = block_positions(f, p, k, 0);
        assert(row_lines_ok(*f, *sl, p, px@.len() as int, cdef_line_buf@.len() as int, k as int, t as int, 0));
        assert(layout != Rav1dPixelLayout::I400 ==> row_lines_ok(*f, *sl, p, px@.len() as int, cdef_line_buf@.len() as int, k as int, t as int, 1));
        assert(layout != Rav1dPixelLayout::I400 ==> row_lines_ok(*f, *sl, p, px@.len() as int, cdef_line_buf@.len() as int, k as int, t as int, 2));
        assert(forall|pl: int| 0 <= pl < 3 ==> dst[pl] == ring_dst(*f, *sl, t as int, pl));
        assert(forall|pl: int| 0 <= pl < 3 ==> src[pl] == row_base(*f, p, pl, k as int));
        backup2lines(cdef_line_buf, dst, px, src, f.y_stride, f.uv_stride, layout);
    }
    let mut lr_bak: Vec<u16> = Vec::new();
    let mut n: usize = 0;
    while n < LEFT_BACKUP_LEN
        invariant
            n <= LEFT_BACKUP_LEN,
            lr_bak@.len() == n,
        decreases LEFT_BACKUP_LEN - n,
    {
        lr_bak.push(0);
        n = n + 1;
    }
    let mut left = false;
    let mut right = true;
    let mut prev_flag = Backup2x8Flags::empty();
    let mut last_skip = true;
    let sb64w: i32 = f.sb128w * 2;
    let mut sbx: i32 = 0;
    while sbx < sb64w
        invariant
            frame_ok(*f),
            slice_ok(*sl),
            masks_ok(masks@, lflvl_offset as int, *f),
            0 <= k < n_rows(*sl),
            tf == (toggled(t0@, k as int) != 0),
            by == row_by(*sl, k as int),
            top == (by > 0),
            bottom == (by + 2 < f.bh),
            layout == f.layout,
            sb64w == f.sb128w * 2,
            0 <= q0@ <= dsp.probe_results().len(),
            dsp.dir_calls() - old(dsp).dir_calls() == dsp.probe_results().len() - old(dsp).probe_results().len(),
            dsp.filter_calls() == cbase@ + trace(*f, *sl, p, t0@, masks@, lflvl_offset as int, dsp.probe_results().subrange(q0@, dsp.probe_results().len() as int), k as int, (if sbx * 8 < n_cols(*f) { sbx * 8 } else { n_cols(*f) })).0,
            dsp.probe_results().len() == q0@ + trace(*f, *sl, p, t0@, masks@, lflvl_offset as int, dsp.probe_results().subrange(q0@, dsp.probe_results().len() as int), k as int, (if sbx * 8 < n_cols(*f) { sbx * 8 } else { n_cols(*f) })).2,
            *bit == trace(*f, *sl, p, t0@, masks@, lflvl_offset as int, dsp.probe_results().subrange(q0@, dsp.probe_results().len() as int), k as int, (if sbx * 8 < n_cols(*f) { sbx * 8 } else { n_cols(*f) })).1,
            0 <= sbx <= sb64w,
            blocks_apart(*f, *sl, p),
            ahead_intact(*f, *sl, p, px@, px_entry@, k as int, sbx * 16),
            left_ready(*f, *sl, p, px@, px_entry@, lr_bak@, if *bit { 1 } else { 0 }, k as int, sbx * 16, last_skip, prev_flag),
            lefts_ok(*f, *sl, p, px_entry@, dsp.filter_calls(), dsp.filter_lefts(), c0@, l0@),
            dsp.filter_lefts().subrange(0, lefts_r.len() as int) == lefts_r,
            lefts_r.len() <= dsp.filter_lefts().len(),
            left == (sbx > 0),
            !right ==> f.bw <= sbx * 16,
            lr_bak@.len() == LEFT_BACKUP_LEN,
            px@.len() == px0.len(),
            staging_ok(*f, *sl, p, px0.len() as int, cdef_line_buf@.len() as int),
            calls_extended(*f, *sl, p, t0@, masks@, lflvl_offset as int, calls0, dsp.filter_calls()),
            no_primary(*f) ==> dsp.dir_calls() == dirs0,
            all_off(masks@, lflvl_offset as int, *f) ==> {
                &&& px@ == px0
                &&& dsp.filter_calls() == calls0
                &&& dsp.dir_calls() == dirs0
            },
        decreases sb64w - sbx,
    {
        let mi: usize = lflvl_offset as usize + (sbx / 2) as usize;
        let half: usize = if by & 16 != 0 {
            2
        } else {
            0
        };
        let sb64_idx: usize = half + (sbx % 2) as usize;
        let cdef_idx: i32 = masks[mi].cdef_idx[sb64_idx] as i32;
        assert(-1 <= masks@[mi as int].cdef_idx[sb64_idx as int] < 8);
        if cdef_idx == -1 || f.cdef.y_strength[cdef_idx as usize] == 0
            && (layout == Rav1dPixelLayout::I400 || f.cdef.uv_strength[cdef_idx as usize] == 0) {
            last_skip = true;
            proof {
                let nc = n_cols(*f);
                let lo = if sbx * 8 < nc { sbx * 8 } else { nc };
                let hi = if (sbx + 1) * 8 < nc { (sbx + 1) * 8 } else { nc };
                assert forall|c: int| lo <= c < hi implies !#[trigger] block_active(*f, *sl, masks@, lflvl_offset as int, k as int, 2 * c) by {
                    assert((2 * c) / 32 == sbx / 2 && ((2 * c) / 16) % 2 == sbx % 2);
                }
                lemma_trace_idle(*f, *sl, p, t0@, masks@, lflvl_offset as int, dsp.probe_results().subrange(q0@, dsp.probe_results().len() as int), k as int, lo, hi);
            }
        } else {
            let idx: usize = cdef_idx as usize;
            assert(!all_off(masks@, lflvl_offset as int, *f));
            assert(0 <= (by & 30) <= 30) by (bit_vector);
            let by_idx: usize = ((by & 30) / 2) as usize;
            let row = masks[mi].noskip_mask[by_idx];
            let noskip_mask: u32 = ((row[1] as u32) << 16u32) | (row[0] as u32);
            let y_lvl = f.cdef.y_strength[idx];
            let uv_lvl = if layout == Rav1dPixelLayout::I400 {
                0
            } else {
                f.cdef.uv_strength[idx]
            };
            let flag = Backup2x8Flags::y().select(y_lvl != 0).union(
                Backup2x8Flags::uv().select(uv_lvl != 0),
            );
            let (y_pri, y_sec) = decode_strength(y_lvl, f.bitdepth_min_8);
            let (uv_pri, uv_sec) = decode_strength(uv_lvl, f.bitdepth_min_8);
            let st = BlockStrength { idx, flag, y_pri, y_sec, uv_pri, uv_sec, uv_lvl };
            proof {
                let av: u8 = if y_lvl != 0 { 1 } else { 0 };
                let bv: u8 = if uv_lvl != 0 { 2 } else { 0 };
                assert(flag.bits == av | bv);
                assert(((av | bv) & 1 == 1) == (av == 1) && ((av | bv) & 2 == 2) == (bv == 2)) by (bit_vector)
                    requires
                        av == 0 || av == 1,
                        bv == 0 || bv == 2,
                ;
            }
            let end: i32 = if (sbx + 1) * 16 < f.bw {
                (sbx + 1) * 16
            } else {
                f.bw
            };
            let mut bx: i32 = sbx * 16;
            while bx < end
                invariant
                    frame_ok(*f),
                    slice_ok(*sl),
                    strength_ok(*f, st),
                    0 <= k < n_rows(*sl),
                    tf == (toggled(t0@, k as int) != 0),
                    masks_ok(masks@, lflvl_offset as int, *f),
                    mi == lflvl_offset + sbx / 2,
                    sb64_idx == (if by & 16 != 0 {
                        2int
                    } else {
                        0
                    }) + sbx % 2,
                    st.idx == masks@[mi as int].cdef_idx[sb64_idx as int],
                    f.cdef.y_strength[st.idx as int] != 0 || uv_level(*f, st.idx as int) != 0,
                    by_idx == (by & 30) / 2,
                    row == masks@[mi as int].noskip_mask[by_idx as int],
                    noskip_mask == ((row[1] as u32) << 16u32) | (row[0] as u32),
                    by == row_by(*sl, k as int),
                    top == (by > 0),
                    bottom == (by + 2 < f.bh),
                    0 <= sbx < sb64w,
                    sb64w == f.sb128w * 2,
                    0 <= q0@ <= dsp.probe_results().len(),
                    dsp.dir_calls() - old(dsp).dir_calls() == dsp.probe_results().len() - old(dsp).probe_results().len(),
                    dsp.filter_calls() == cbase@ + trace(*f, *sl, p, t0@, masks@, lflvl_offset as int, dsp.probe_results().subrange(q0@, dsp.probe_results().len() as int), k as int, (if bx / 2 < n_cols(*f) { bx / 2 } else { n_cols(*f) })).0,
                    dsp.probe_results().len() == q0@ + trace(*f, *sl, p, t0@, masks@, lflvl_offset as int, dsp.probe_results().subrange(q0@, dsp.probe_results().len() as int), k as int, (if bx / 2 < n_cols(*f) { bx / 2 } else { n_cols(*f) })).2,
                    *bit == trace(*f, *sl, p, t0@, masks@, lflvl_offset as int, dsp.probe_results().subrange(q0@, dsp.probe_results().len() as int), k as int, (if bx / 2 < n_cols(*f) { bx / 2 } else { n_cols(*f) })).1,
                    bx == sbx * 16 || bx <= end + 1,
                    end == (if (sbx + 1) * 16 < f.bw { (sbx + 1) * 16 } else { f.bw as int }),
                    sbx * 16 <= bx,
                    blocks_apart(*f, *sl, p),
                    ahead_intact(*f, *sl, p, px@, px_entry@, k as int, bx as int),
                    left_ready(*f, *sl, p, px@, px_entry@, lr_bak@, if *bit { 1 } else { 0 }, k as int, bx as int, last_skip, prev_flag),
                    lefts_ok(*f, *sl, p, px_entry@, dsp.filter_calls(), dsp.filter_lefts(), c0@, l0@),
                    dsp.filter_lefts().subrange(0, lefts_r.len() as int) == lefts_r,
                    lefts_r.len() <= dsp.filter_lefts().len(),
                    st.flag == flag,
                    bx <= (sbx + 1) * 16,
                    bx % 2 == 0,
                    end <= f.bw,
                    end <= (sbx + 1) * 16,
                    left == (bx > 0),
                    !right ==> f.bw <= bx,
                    lr_bak@.len() == LEFT_BACKUP_LEN,
                    px@.len() == px0.len(),
                    staging_ok(*f, *sl, p, px0.len() as int, cdef_line_buf@.len() as int),
                    calls_extended(*f, *sl, p, t0@, masks@, lflvl_offset as int, calls0, dsp.filter_calls()),
                    no_primary(*f) ==> dsp.dir_calls() == dirs0,
                decreases (sbx + 1) * 16 - bx,
            {
                if bx + 2 >= f.bw {
                    right = false;
                }
                assert(0 <= (bx & 30) <= 30) by (bit_vector);
                let sh: u32 = (bx & 30) as u32;
                let bx_mask: u32 = 3u32 << sh;
                assert(bx / 2 < n_cols(*f));
                assert(bx / 32 == sbx / 2 && (bx / 16) % 2 == sbx % 2);
                if noskip_mask & bx_mask == 0 {
                    last_skip = true;
                    proof {
                        reveal(trace);
                        assert(!block_active(*f, *sl, masks@, lflvl_offset as int, k as int, 2 * (bx / 2)));
                    }
                } else {
                    let ghost calls_b = dsp.filter_calls();
                    let ghost lefts_b = dsp.filter_lefts();
                    let ghost probes_b = dsp.probe_results();
                    filter_block(
                        dsp,
                        px,
                        &mut lr_bak,
                        cdef_line_buf,
                        lr_line_buf,
                        f,
                        masks,
                        lflvl_offset,
                        sl,
                        p,
                        k,
                        t0,
                        tf,
                        &st,
                        bx,
                        top,
                        bottom,
                        left,
                        right,
                        *bit,
                        last_skip,
                        prev_flag,
                        Ghost(px_entry@),
                        c0,
                        l0,
                    );
                    prev_flag = flag;
                    proof {
                        assert(dsp.filter_lefts().subrange(0, lefts_r.len() as int) =~= lefts_b.subrange(0, lefts_r.len() as int));
                        lemma_calls_extended_trans(*f, *sl, p, t0@, masks@, lflvl_offset as int, calls0, calls_b, dsp.filter_calls());
                        if no_primary(*f) {
                            assert(f.cdef.y_strength[st.idx as int] < 4);
                        }
                        assert(block_active(*f, *sl, masks@, lflvl_offset as int, k as int, 2 * (bx / 2)));
                        assert(index_of(masks@, lflvl_offset as int, *sl, k as int, 2 * (bx / 2)) == st.idx);
                        lemma_trace_step(*f, *sl, p, t0@, masks@, lflvl_offset as int, q0@, probes_b, dsp.probe_results(), cbase@, calls_b, dsp.filter_calls(), k as int, bx / 2, st.idx as int);
                    }
                    *bit = !*bit;
                    last_skip = false;
                }
                left = true;
                bx = bx + 2;
            }
        }
        left = true;
        sbx = sbx + 1;
    }
    *toggle = *toggle ^ 1;
    proof {
        reveal(trace);
    }
}

/// The toggle after `k` strips: flipped once per strip.
pub open spec fn toggled(t: i32, k: int) -> i32 {
    if k % 2 == 1 {
        t ^ 1
    } else {
        t
    }
}

/// Filters a band of 8-pixel strips in place, for block rows `by_start`
/// (inclusive) to `by_end` of `sl`, starting at positions `p` of the three
/// planes.
///
/// Each strip first keeps its two bottom pre-filter rows in the line buffer
/// strip the toggle does not select, then each coded 8x8 block of a
/// superblock with a nonzero strength is filtered, and the toggle flips.
/// The kernel calls are exactly those of `trace`: for each filtered block in
/// sweep order, its luma call and its two chroma calls as `block_calls`
/// gives them, with the probe's direction and variance where its strength
/// has a primary part, and the left-strip slot flipping after each filtered
/// block; the probe runs once for each such block with a primary part.
/// Every kernel call is for a block of the band in a plane the picture has,
/// and carries the block's position, edge flags and line sources, the
/// kernel variant of its plane and the damping of the header raised by the
/// bit depth. Where the filter is off for the whole band
/// neither the pixels nor the kernels are touched, and where no strength
/// has a primary part the direction probe never runs. Where the blocks lie
/// apart in the frame, every call for a block with a left neighbour is
/// handed, in its left strip, the pixels left of the block as they stood
/// before the band was filtered.
pub fn rav1d_cdef_brow<D: CdefDsp>(
    dsp: &mut D,
    top_pre_cdef_toggle: &mut i32,
    f: &CdefFrame,
    masks: &Vec<BlockMask>,
    px: &mut Vec<u16>,
    cdef_line_buf: &mut Vec<u16>,
    lr_line_buf: &Vec<u16>,
    p: [usize; 3],
    lflvl_offset: i32,
    sl: &SliceInfo,
)
    requires
        frame_ok(*f),
        slice_ok(*sl),
        masks_ok(masks@, lflvl_offset as int, *f),
        staging_ok(*f, *sl, p, old(px)@.len() as int, old(cdef_line_buf)@.len() as int),
        blocks_apart(*f, *sl, p),
    ensures
        *final(top_pre_cdef_toggle) == toggled(*old(top_pre_cdef_toggle), n_rows(*sl)),
        final(px)@.len() == old(px)@.len(),
        final(cdef_line_buf)@.len() == old(cdef_line_buf)@.len(),
        calls_extended(*f, *sl, p, *old(top_pre_cdef_toggle), masks@, lflvl_offset as int, old(dsp).filter_calls(), final(dsp).filter_calls()),
        no_primary(*f) ==> final(dsp).dir_calls() == old(dsp).dir_calls(),
        all_off(masks@, lflvl_offset as int, *f) ==> {
            &&& final(px)@ == old(px)@
            &&& final(dsp).filter_calls() == old(dsp).filter_calls()
            &&& final(dsp).dir_calls() == old(dsp).dir_calls()
        },
        (forall|k: int| 0 <= k < n_rows(*sl) ==> !lines_kept(*f, *sl, #[trigger] row_by(*sl, k)))
            ==> final(cdef_line_buf)@ == old(cdef_line_buf)@,
        final(dsp).filter_lefts().subrange(0, old(dsp).filter_lefts().len() as int) == old(
            dsp,
        ).filter_lefts(),
        final(dsp).probe_results().len() >= old(dsp).probe_results().len(),
        final(dsp).filter_calls() == old(dsp).filter_calls() + trace(*f, *sl, p, *old(top_pre_cdef_toggle), masks@, lflvl_offset as int, final(dsp).probe_results().subrange(old(dsp).probe_results().len() as int, final(dsp).probe_results().len() as int), n_rows(*sl), 0).0,
        final(dsp).probe_results().len() == old(dsp).probe_results().len() + trace(*f, *sl, p, *old(top_pre_cdef_toggle), masks@, lflvl_offset as int, final(dsp).probe_results().subrange(old(dsp).probe_results().len() as int, final(dsp).probe_results().len() as int), n_rows(*sl), 0).2,
        final(dsp).dir_calls() == old(dsp).dir_calls() + trace(*f, *sl, p, *old(top_pre_cdef_toggle), masks@, lflvl_offset as int, final(dsp).probe_results().subrange(old(dsp).probe_results().len() as int, final(dsp).probe_results().len() as int), n_rows(*sl), 0).2,
        lefts_ok(
            *f,
            *sl,
            p,
            old(px)@,
            final(dsp).filter_calls(),
            final(dsp).filter_lefts(),
            old(dsp).filter_calls().len() as int,
            old(dsp).filter_lefts().len() as int,
        ),
{
    let ghost t0 = *top_pre_cdef_toggle;
    let ghost calls0 = dsp.filter_calls();
    let ghost lefts0 = dsp.filter_lefts();
    let ghost px_entry = px@;
    let ghost probes0 = dsp.probe_results();
    proof {
        reveal(trace);
        assert(calls0 + Seq::<FilterCall>::empty() =~= calls0);
    }
    assert(calls0.subrange(0, calls0.len() as int) =~= calls0);
    assert(lefts0.subrange(0, lefts0.len() as int) =~= lefts0);
    let mut bit = false;
    let mut k: i32 = 0;
    while sl.by_start + 2 * k < sl.by_end
        invariant
            frame_ok(*f),
            slice_ok(*sl),
            masks_ok(masks@, lflvl_offset as int, *f),
            0 <= k <= n_rows(*sl),
            sl.by_start + 2 * k <= sl.by_end + 1,
            *top_pre_cdef_toggle == toggled(t0, k as int),
            blocks_apart(*f, *sl, p),
            probes0 == old(dsp).probe_results(),
            probes0.len() <= dsp.probe_results().len(),
            dsp.dir_calls() - old(dsp).dir_calls() == dsp.probe_results().len() - probes0.len(),
            dsp.filter_calls() == calls0 + trace(*f, *sl, p, t0, masks@, lflvl_offset as int, dsp.probe_results().subrange(probes0.len() as int, dsp.probe_results().len() as int), k as int, 0).0,
            dsp.probe_results().len() == probes0.len() + trace(*f, *sl, p, t0, masks@, lflvl_offset as int, dsp.probe_results().subrange(probes0.len() as int, dsp.probe_results().len() as int), k as int, 0).2,
            bit == trace(*f, *sl, p, t0, masks@, lflvl_offset as int, dsp.probe_results().subrange(probes0.len() as int, dsp.probe_results().len() as int), k as int, 0).1,
            px_entry == old(px)@,
            ahead_intact(*f, *sl, p, px@, px_entry, k - 1, f.bw as int),
            lefts_ok(*f, *sl, p, px_entry, dsp.filter_calls(), dsp.filter_lefts(), calls0.len() as int, lefts0.len() as int),
            dsp.filter_lefts().subrange(0, lefts0.len() as int) == lefts0,
            px@.len() == old(px)@.len(),
            cdef_line_buf@.len() == old(cdef_line_buf)@.len(),
            staging_ok(*f, *sl, p, old(px)@.len() as int, old(cdef_line_buf)@.len() as int),
            calls_extended(*f, *sl, p, t0, masks@, lflvl_offset as int, calls0, dsp.filter_calls()),
            no_primary(*f) ==> dsp.dir_calls() == old(dsp).dir_calls(),
            all_off(masks@, lflvl_offset as int, *f) ==> {
                &&& px@ == old(px)@
                &&& dsp.filter_calls() == calls0
                &&& dsp.dir_calls() == old(dsp).dir_calls()
            },
            (forall|j: int| 0 <= j < n_rows(*sl) ==> !lines_kept(*f, *sl, #[trigger] row_by(*sl, j)))
                ==> cdef_line_buf@ == old(cdef_line_buf)@,
        decreases sl.by_end + 1 - sl.by_start - 2 * k,
    {
        let ghost calls_b = dsp.filter_calls();
        let ghost t = *top_pre_cdef_toggle;
        let ghost lefts_b = dsp.filter_lefts();
        assert(row_by(*sl, k as int) == sl.by_start + 2 * k);
        cdef_row(
            dsp,
            top_pre_cdef_toggle,
            &mut bit,
            f,
            masks,
            px,
            cdef_line_buf,
            lr_line_buf,
            p,
            lflvl_offset,
            sl,
            k,
            Ghost(t0),
            Ghost(px_entry),
            Ghost(calls0.len() as int),
            Ghost(lefts0.len() as int),
            Ghost(calls0),
            Ghost(probes0.len() as int),
        );
        proof {
            lemma_calls_extended_trans(*f, *sl, p, t0, masks@, lflvl_offset as int, calls0, calls_b, dsp.filter_calls());
            assert(dsp.filter_lefts().subrange(0, lefts0.len() as int) =~= lefts_b.subrange(0, lefts0.len() as int));
            let t00 = t0;
            assert((t00 ^ 1) ^ 1 == t00) by (bit_vector);
        }
        k = k + 1;
    }
}

} // verus!
