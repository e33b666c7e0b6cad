//! Packing of palette indices: two 4-bit indices per byte, with the part of
//! the block outside the picture filled from its last visible column and
//! row.
use vstd::prelude::*;

verus! {

/// Whether `v` is a palette block side: 4, 8, 16, 32 or 64.
pub open spec fn block_side(v: usize) -> bool {
    v == 4 || v == 8 || v == 16 || v == 32 || v == 64
}

/// Whether the sizes are those of a palette block: sides `bw` by `bh`, of
/// which `w` by `h` lie in the picture, each a multiple of 4.
pub open spec fn sizes_ok(bw: usize, bh: usize, w: usize, h: usize) -> bool {
    &&& block_side(bw)
    &&& block_side(bh)
    &&& 4 <= w <= bw
    &&& w % 4 == 0
    &&& 4 <= h <= bh
    &&& h % 4 == 0
}

/// Whether the indices that fill the invisible columns fit in 4 bits.
pub open spec fn fill_ok(src: Seq<u8>, bw: usize, h: usize, w: usize) -> bool {
    w < bw ==> forall|y: int| 0 <= y < h ==> #[trigger] src[y * bw + w] < 16
}

/// Two indices in one byte, the first in the low half.
pub open spec fn pack2(lo: u8, hi: u8) -> u8 {
    lo | (hi << 4u8)
}

/// Byte `x` of packed row `y`: rows below the picture repeat its last row,
/// and bytes right of it repeat its last visible index in both halves.
pub open spec fn packed_byte(src: Seq<u8>, bw: usize, w: usize, h: usize, y: int, x: int) -> u8 {
    let yy = if y < h {
        y
    } else {
        h - 1
    };
    if x < w / 2 {
        pack2(src[yy * bw + 2 * x], src[yy * bw + 2 * x + 1])
    } else {
        (0x11 * src[yy * bw + w]) as u8
    }
}

/// Packs the `bw` by `bh` indices of `src` into `dst`, two per byte, filling
/// the part of the block outside the visible `w` by `h`.
pub fn pal_idx_finish_rust(
    dst: &mut Vec<u8>,
    src: &Vec<u8>,
    bw: usize,
    bh: usize,
    w: usize,
    h: usize,
)
    requires
        sizes_ok(bw, bh, w, h),
        src@.len() >= bw * bh,
        old(dst)@.len() >= bw / 2 * bh,
        fill_ok(src@, bw, h, w),
    ensures
        final(dst)@.len() == old(dst)@.len(),
        forall|y: int, x: int|
            0 <= y < bh && 0 <= x < bw / 2 ==> #[trigger] final(dst)@[y * (bw / 2) + x]
                == packed_byte(src@, bw, w, h, y, x),
        forall|i: int| bw / 2 * bh <= i < final(dst)@.len() ==> #[trigger] final(dst)@[i] == old(
            dst,
        )@[i],
{
    let dst_w = w / 2;
    let dst_bw = bw / 2;
    assert(bw * bh <= 4096 && dst_bw * bh <= 2048) by (nonlinear_arith)
        requires
            bw <= 64,
            bh <= 64,
            dst_bw == bw / 2,
    ;
    let mut y: usize = 0;
    while y < bh
        invariant
            sizes_ok(bw, bh, w, h),
            dst_w == w / 2,
            dst_bw == bw / 2,
            src@.len() >= bw * bh,
            bw * bh <= 4096,
            dst_bw * bh <= 2048,
            dst@.len() == old(dst)@.len(),
            dst@.len() >= dst_bw * bh,
            fill_ok(src@, bw, h, w),
            y <= bh,
            forall|yy: int, x: int|
                0 <= yy < y && 0 <= x < dst_bw ==> #[trigger] dst@[yy * dst_bw + x] == packed_byte(
                    src@,
                    bw,
                    w,
                    h,
                    yy,
                    x,
                ),
            forall|i: int| dst_bw * y <= i < dst@.len() ==> #[trigger] dst@[i] == old(dst)@[i],
        decreases bh - y,
    {
        let sy: usize = if y < h {
            y
        } else {
            h - 1
        };
        assert(sy * bw + bw <= bw * bh && y * dst_bw + dst_bw <= dst_bw * bh) by (nonlinear_arith)
            requires
                sy < bh,
                y < bh,
        ;
        let s = sy * bw;
        let d = y * dst_bw;
        let mut x: usize = 0;
        while x < dst_bw
            invariant
                sizes_ok(bw, bh, w, h),
                dst_w == w / 2,
                dst_bw == bw / 2,
                src@.len() >= bw * bh,
                s == sy * bw,
                s + bw <= bw * bh,
                bw * bh <= 4096,
                dst_bw * bh <= 2048,
                d == y * dst_bw,
                d + dst_bw <= dst_bw * bh,
                sy == (if y < h {
                    y as int
                } else {
                    h - 1
                }),
                sy < h,
                y < bh,
                dst@.len() == old(dst)@.len(),
                dst@.len() >= dst_bw * bh,
                fill_ok(src@, bw, h, w),
                x <= dst_bw,
                forall|yy: int, xx: int|
                    0 <= yy < y && 0 <= xx < dst_bw ==> #[trigger] dst@[yy * dst_bw + xx]
                        == packed_byte(src@, bw, w, h, yy, xx),
                forall|xx: int|
                    0 <= xx < x ==> #[trigger] dst@[d + xx] == packed_byte(src@, bw, w, h, y as int, xx),
                forall|i: int| d + x <= i < dst@.len() ==> #[trigger] dst@[i] == old(dst)@[i],
            decreases dst_bw - x,
        {
            assert(dst_w <= dst_bw && 2 * dst_bw <= bw);
            let v: u8 = if x < dst_w {
                src[s + 2 * x] | (src[s + 2 * x + 1] << 4u8)
            } else {
                assert(src@[sy * bw + w] < 16);
                0x11 * src[s + w]
            };
            let ghost prev = dst@;
            dst.set(d + x, v);
            proof {
                assert forall|yy: int, xx: int|
                    0 <= yy < y && 0 <= xx < dst_bw implies #[trigger] dst@[yy * dst_bw + xx]
                    == packed_byte(src@, bw, w, h, yy, xx) by {
                    assert(yy * dst_bw + xx < (yy + 1) * dst_bw <= y * dst_bw) by (nonlinear_arith)
                        requires
                            0 <= yy < y,
                            0 <= xx < dst_bw,
                    ;
                    assert(dst@[yy * dst_bw + xx] == prev[yy * dst_bw + xx]);
                }
            }
            x = x + 1;
        }
        proof {
            assert forall|yy: int, xx: int|
                0 <= yy < y + 1 && 0 <= xx < dst_bw implies #[trigger] dst@[yy * dst_bw + xx]
                == packed_byte(src@, bw, w, h, yy, xx) by {
                assert(yy * dst_bw + xx < (yy + 1) * dst_bw <= bh * dst_bw) by (nonlinear_arith)
                    requires
                        0 <= yy < y + 1,
                        y < bh,
                        0 <= xx < dst_bw,
                ;
                if yy == y {
                    assert(dst@[d + xx] == packed_byte(src@, bw, w, h, y as int, xx));
                }
            }
            assert(dst_bw * (y + 1) == d + dst_bw) by (nonlinear_arith)
                requires
                    d == y * dst_bw,
            ;
        }
        y = y + 1;
    }
}

/// The portable implementation of palette packing.
#[derive(Clone, Copy, Debug, PartialEq, Eq, Structural)]
pub enum PalIdxFinishFn {
    /// Packing in plain Rust.
    Portable,
}

impl PalIdxFinishFn {
    /// Packs `src` into `dst`.
    pub fn call(&self, dst: &mut Vec<u8>, src: &Vec<u8>, bw: usize, bh: usize, w: usize, h: usize)
        requires
            sizes_ok(bw, bh, w, h),
            src@.len() >= bw * bh,
            old(dst)@.len() >= bw / 2 * bh,
            fill_ok(src@, bw, h, w),
        ensures
            final(dst)@.len() == old(dst)@.len(),
            forall|y: int, x: int|
                0 <= y < bh && 0 <= x < bw / 2 ==> #[trigger] final(dst)@[y * (bw / 2) + x]
                    == packed_byte(src@, bw, w, h, y, x),
            forall|i: int| bw / 2 * bh <= i < final(dst)@.len() ==> #[trigger] final(dst)@[i] == old(
                dst,
            )@[i],
    {
        pal_idx_finish_rust(dst, src, bw, bh, w, h);
    }

    /// Packs the indices of `buf` into the start of `buf` itself.
    pub fn call_in_place(&self, buf: &mut Vec<u8>, bw: usize, bh: usize, w: usize, h: usize)
        requires
            sizes_ok(bw, bh, w, h),
            old(buf)@.len() >= bw * bh,
            fill_ok(old(buf)@, bw, h, w),
        ensures
            final(buf)@.len() == old(buf)@.len(),
            forall|y: int, x: int|
                0 <= y < bh && 0 <= x < bw / 2 ==> #[trigger] final(buf)@[y * (bw / 2) + x]
                    == packed_byte(old(buf)@, bw, w, h, y, x),
            forall|i: int| bw / 2 * bh <= i < final(buf)@.len() ==> #[trigger] final(buf)@[i] == old(
                buf,
            )@[i],
    {
        let src = buf.clone();
        assert(src@ == old(buf)@);
        assert(bw / 2 * bh <= bw * bh) by (nonlinear_arith);
        pal_idx_finish_rust(buf, &src, bw, bh, w, h);
    }
}

/// The palette functions of the decoder.
#[derive(Clone, Copy, Debug, PartialEq, Eq, Structural)]
pub struct Rav1dPalDSPContext {
    /// Packing of palette indices.
    pub pal_idx_finish: PalIdxFinishFn,
}

impl Rav1dPalDSPContext {
    /// The portable functions.
    pub fn default() -> (r: Self)
        ensures
            r.pal_idx_finish == PalIdxFinishFn::Portable,
    {
        Rav1dPalDSPContext { pal_idx_finish: PalIdxFinishFn::Portable }
    }

    /// The functions for a processor with features `flags`; only the
    /// portable ones exist here.
    pub fn new(flags: u32) -> (r: Self)
        ensures
            r.pal_idx_finish == PalIdxFinishFn::Portable,
    {
        Self::default()
    }
}

} // verus!
