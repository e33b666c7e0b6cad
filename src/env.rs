//! Block-context helpers: chroma transform types and motion-vector
//! precision.
use vstd::arithmetic::div_mod::lemma_fundamental_div_mod;
use vstd::arithmetic::div_mod::lemma_mod_multiples_basic;
use vstd::arithmetic::div_mod::lemma_mod_multiples_vanish;
use vstd::arithmetic::power2::lemma2_to64;
use vstd::arithmetic::power2::lemma_pow2_adds;
use vstd::arithmetic::power2::lemma_pow2_pos;
use vstd::arithmetic::power2::lemma_pow2_strictly_increases;
use vstd::arithmetic::power2::lemma_pow2_unfold;
use vstd::arithmetic::power2::pow2;
use vstd::prelude::*;

verus! {

/// Transform type: one of the sixteen 2-D transform kinds.
pub type TxfmType = u8;

/// Transform size index.
pub type TxfmSize = u8;

/// DCT in both directions.
pub const DCT_DCT: TxfmType = 0;

/// Identity in both directions.
pub const IDTX: TxfmType = 9;

/// Vertical ADST, horizontal identity.
pub const V_ADST: TxfmType = 12;

/// Horizontal ADST, vertical identity.
pub const H_ADST: TxfmType = 13;

/// Vertical flipped ADST, horizontal identity.
pub const V_FLIPADST: TxfmType = 14;

/// Horizontal flipped ADST, vertical identity.
pub const H_FLIPADST: TxfmType = 15;

/// 16x16 transform.
pub const TX_16X16: TxfmSize = 2;

/// 32x32 transform.
pub const TX_32X32: TxfmSize = 3;

/// Dimensions of a transform size.
#[derive(Clone, Copy, Debug)]
pub struct TxfmInfo {
    /// Width in 4-pixel units.
    pub w: u8,
    /// Height in 4-pixel units.
    pub h: u8,
    /// log2 of the width in 4-pixel units.
    pub lw: u8,
    /// log2 of the height in 4-pixel units.
    pub lh: u8,
    /// Square size of the smaller side.
    pub min: u8,
    /// Square size of the larger side.
    pub max: u8,
    /// Next smaller transform size.
    pub sub: u8,
    /// Context of the size.
    pub ctx: u8,
}

/// Per-column (or per-row) context of the blocks above (or left of) the
/// block being decoded.
#[derive(Clone, Copy, Debug)]
pub struct BlockContext {
    pub mode: [u8; 32],
    pub lcoef: [u8; 32],
    pub ccoef: [[u8; 32]; 2],
    pub seg_pred: [u8; 32],
    pub skip: [u8; 32],
    pub skip_mode: [u8; 32],
    pub intra: [u8; 32],
    pub comp_type: [u8; 32],
    /// Reference frames of the two predictions.
    pub reference: [[i8; 32]; 2],
    pub filter: [[u8; 32]; 2],
    pub tx_intra: [i8; 32],
    pub tx: [i8; 32],
    pub tx_lpf_y: [u8; 32],
    pub tx_lpf_uv: [u8; 32],
    pub partition: [u8; 16],
    pub uvmode: [u8; 32],
    pub pal_sz: [u8; 32],
}

/// The chroma transform type of an inter block: for a 32x32 chroma
/// transform only identity survives, anything else becomes DCT; for a
/// chroma transform whose smaller side is 16 the one-dimensional ADST kinds
/// become DCT; otherwise chroma takes luma's type.
pub open spec fn uv_inter_txtp(uvt_dim: TxfmInfo, ytxtp: TxfmType) -> TxfmType {
    if uvt_dim.max == TX_32X32 {
        if ytxtp == IDTX {
            IDTX
        } else {
            DCT_DCT
        }
    } else if uvt_dim.min == TX_16X16 && (ytxtp == H_FLIPADST || ytxtp == V_FLIPADST || ytxtp
        == H_ADST || ytxtp == V_ADST) {
        DCT_DCT
    } else {
        ytxtp
    }
}

/// Chroma transform type of an inter block from its luma type.
pub fn get_uv_inter_txtp(uvt_dim: &TxfmInfo, ytxtp: TxfmType) -> (r: TxfmType)
    requires
        uvt_dim.max != TX_32X32 ==> ytxtp < 32,
    ensures
        r == uv_inter_txtp(*uvt_dim, ytxtp),
{
    if uvt_dim.max == TX_32X32 {
        return if ytxtp == IDTX {
            IDTX
        } else {
            DCT_DCT
        };
    }
    let bit: u32 = 1u32 << (ytxtp as u32);
    let one_d: u32 = (1u32 << 15u32) | (1u32 << 14u32) | (1u32 << 13u32) | (1u32 << 12u32);
    let t = ytxtp as u32;
    assert((((1u32 << t) & ((1u32 << 15u32) | (1u32 << 14u32) | (1u32 << 13u32) | (1u32 << 12u32)))
        != 0) == (t == 15 || t == 14 || t == 13 || t == 12)) by (bit_vector)
        requires
            t < 32,
    ;
    if uvt_dim.min == TX_16X16 && (bit & one_d) != 0 {
        return DCT_DCT;
    }
    ytxtp
}

/// A motion vector in 1/8 pixel.
#[derive(Clone, Copy, Debug, PartialEq, Eq, Structural)]
pub struct Mv {
    pub y: i16,
    pub x: i16,
}

/// The motion-vector settings of a frame header.
#[derive(Clone, Copy, Debug)]
pub struct Dav1dFrameHeader {
    /// Motion vectors are whole pixels.
    pub force_integer_mv: u8,
    /// Motion vectors have 1/8 pixel precision (else 1/4).
    pub hp: u8,
}

/// `v` rounded down to a multiple of `m`.
pub open spec fn round_down(v: int, m: int) -> int {
    v - v % m
}

/// A component rounded to whole pixels: to the nearest multiple of 8, ties
/// (4 away from both) towards zero.
pub open spec fn int_component(v: i16) -> int {
    round_down(v + 3 + (if v < 0 {
        1int
    } else {
        0
    }), 8)
}

/// A component rounded to quarter pixels: odd values move one step towards
/// zero.
pub open spec fn quarter_component(v: i16) -> int {
    round_down(v + (if v < 0 {
        1int
    } else {
        0
    }), 2)
}

/// Clearing the low bits of a 16-bit value rounds it down.
proof fn lemma_clear_low_bits(w: i16)
    ensures
        (w & !7i16) as int == round_down(w as int, 8),
        (w & !1i16) as int == round_down(w as int, 2),
{
    let lo8: i16 = w & 7i16;
    let m8: i16 = w & !7i16;
    let q8: i16 = w >> 3u32;
    assert(w == m8 + lo8 && m8 == q8 * 8 && 0 <= lo8 < 8) by (bit_vector)
        requires
            lo8 == w & 7i16,
            m8 == w & !7i16,
            q8 == w >> 3u32,
    ;
    let lo2: i16 = w & 1i16;
    let m2: i16 = w & !1i16;
    let q2: i16 = w >> 1u32;
    assert(w == m2 + lo2 && m2 == q2 * 2 && 0 <= lo2 < 2) by (bit_vector)
        requires
            lo2 == w & 1i16,
            m2 == w & !1i16,
            q2 == w >> 1u32,
    ;
    vstd::arithmetic::div_mod::lemma_fundamental_div_mod_converse(
        w as int,
        8,
        q8 as int,
        lo8 as int,
    );
    vstd::arithmetic::div_mod::lemma_fundamental_div_mod_converse(
        w as int,
        2,
        q2 as int,
        lo2 as int,
    );
}

/// Rounds both components of a motion vector to whole pixels.
pub fn fix_int_mv_precision(mv: &mut Mv)
    requires
        old(mv).x <= 0x7ffc,
        old(mv).y <= 0x7ffc,
    ensures
        final(mv).x == int_component(old(mv).x),
        final(mv).y == int_component(old(mv).y),
{
    let x: i16 = mv.x + (if mv.x < 0 { 1 } else { 0 }) + 3;
    let y: i16 = mv.y + (if mv.y < 0 { 1 } else { 0 }) + 3;
    proof {
        lemma_clear_low_bits(x);
        lemma_clear_low_bits(y);
    }
    mv.x = x & !7;
    mv.y = y & !7;
}

/// Brings a motion vector to the precision the frame allows: whole pixels
/// when integer motion vectors are forced, quarter pixels without high
/// precision, unchanged otherwise.
pub fn fix_mv_precision(hdr: &Dav1dFrameHeader, mv: &mut Mv)
    requires
        hdr.force_integer_mv != 0 ==> old(mv).x <= 0x7ffc && old(mv).y <= 0x7ffc,
    ensures
        hdr.force_integer_mv != 0 ==> final(mv).x == int_component(old(mv).x) && final(mv).y
            == int_component(old(mv).y),
        hdr.force_integer_mv == 0 && hdr.hp == 0 ==> final(mv).x == quarter_component(old(mv).x)
            && final(mv).y == quarter_component(old(mv).y),
        hdr.force_integer_mv == 0 && hdr.hp != 0 ==> *final(mv) == *old(mv),
{
    if hdr.force_integer_mv != 0 {
        fix_int_mv_precision(mv);
    } else if hdr.hp == 0 {
        let x: i16 = mv.x + (if mv.x < 0 { 1 } else { 0 });
        let y: i16 = mv.y + (if mv.y < 0 { 1 } else { 0 });
        proof {
            lemma_clear_low_bits(x);
            lemma_clear_low_bits(y);
        }
        mv.x = x & !1;
        mv.y = y & !1;
    }
}

/// The distance between two order hints of `n` bits: the value congruent to
/// their difference modulo `2^n` in `[-2^(n-1), 2^(n-1))`.
pub open spec fn poc_diff(n: i32, d: int) -> int {
    if n == 0 {
        0
    } else {
        let w = pow2(n as nat) as int;
        let m = d % w;
        if m >= w / 2 {
            m - w
        } else {
            m
        }
    }
}

/// Signed distance from order hint `poc1` to `poc0`.
pub fn get_poc_diff(order_hint_n_bits: i32, poc0: i32, poc1: i32) -> (r: i32)
    requires
        0 <= order_hint_n_bits <= 31,
        order_hint_n_bits != 0 ==> i32::MIN <= poc0 - poc1 <= i32::MAX,
    ensures
        r == poc_diff(order_hint_n_bits, poc0 - poc1),
        order_hint_n_bits != 0 ==> (r - (poc0 - poc1)) % (pow2(order_hint_n_bits as nat) as int) == 0
            && -pow2((order_hint_n_bits - 1) as nat) <= r < pow2((order_hint_n_bits - 1) as nat),
{
    if order_hint_n_bits == 0 {
        return 0;
    }
    let n = order_hint_n_bits;
    let mut w: i64 = 1;
    let mut i: i32 = 0;
    proof {
        lemma2_to64();
    }
    while i < n
        invariant
            0 <= i <= n <= 31,
            w == pow2(i as nat),
        decreases n - i,
    {
        proof {
            lemma_pow2_unfold((i + 1) as nat);
            lemma_pow2_strictly_increases((i + 1) as nat, 32);
            lemma2_to64();
        }
        w = w * 2;
        i = i + 1;
    }
    proof {
        lemma_pow2_unfold(n as nat);
        lemma_pow2_pos((n - 1) as nat);
        lemma_pow2_adds(n as nat, (32 - n) as nat);
        lemma_pow2_pos((32 - n) as nat);
        lemma2_to64();
        if n < 31 {
            lemma_pow2_strictly_increases(n as nat, 31);
        }
    }
    let d: i64 = poc0 as i64 - poc1 as i64;
    let t: i64 = d + 0x1_0000_0000;
    let m: i64 = t % w;
    let r: i64 = if m >= w / 2 {
        m - w
    } else {
        m
    };
    proof {
        let q = pow2((32 - n) as nat) as int;
        assert(0x1_0000_0000 == w * q);
        lemma_mod_multiples_vanish(q, d as int, w as int);
        assert((d as int + w * q) % (w as int) == (d as int) % (w as int));
        assert(m == (d as int) % (w as int));
        lemma_fundamental_div_mod(d as int, w as int);
        assert(w / 2 == pow2((n - 1) as nat));
        let e = (d as int) / (w as int);
        if m >= w / 2 {
            assert(r - d == -(e + 1) * w) by (nonlinear_arith)
                requires
                    d == w * e + m,
                    r == m - w,
            ;
            lemma_mod_multiples_basic(-(e + 1), w as int);
        } else {
            assert(r - d == -e * w) by (nonlinear_arith)
                requires
                    d == w * e + m,
                    r == m,
            ;
            lemma_mod_multiples_basic(-e, w as int);
        }
    }
    r as i32
}

/// No global motion.
pub const WM_TYPE_IDENTITY: u8 = 0;

/// Translation only.
pub const WM_TYPE_TRANSLATION: u8 = 1;

/// Rotation and zoom.
pub const WM_TYPE_ROT_ZOOM: u8 = 2;

/// General affine motion.
pub const WM_TYPE_AFFINE: u8 = 3;

/// Global motion parameters of a reference frame.
#[derive(Clone, Copy, Debug)]
pub struct Dav1dWarpedMotionParams {
    /// Motion model.
    pub type_0: u8,
    /// Affine matrix in 1/65536: translation first, then the 2x2 part.
    pub matrix: [i32; 6],
}

/// `|v|`.
pub open spec fn abs_int(v: int) -> int {
    if v < 0 {
        -v
    } else {
        v
    }
}

/// A coordinate in 1/65536 pixel rounded to the motion-vector precision:
/// 1/8 pixel with high precision, else 1/4 pixel (in 1/8 units), rounding
/// half away from zero.
pub open spec fn gmv_component(c: int, hp: u8) -> int {
    let v = if hp == 0 {
        ((abs_int(c) + 8192) / 16384) * 2
    } else {
        (abs_int(c) + 4096) / 8192
    };
    if c < 0 {
        -v
    } else {
        v
    }
}

/// The global motion vector at the centre of a block, before any rounding
/// to whole pixels.
pub open spec fn gmv_raw(
    gmv: Dav1dWarpedMotionParams,
    bx4: i32,
    by4: i32,
    bw4: i32,
    bh4: i32,
    hp: u8,
) -> Mv {
    if gmv.type_0 == WM_TYPE_TRANSLATION {
        Mv { y: (gmv.matrix[0] >> 13u32) as i16, x: (gmv.matrix[1] >> 13u32) as i16 }
    } else if gmv.type_0 == WM_TYPE_IDENTITY {
        Mv { y: 0, x: 0 }
    } else {
        let x = bx4 * 4 + bw4 * 2 - 1;
        let y = by4 * 4 + bh4 * 2 - 1;
        let xc = (gmv.matrix[2] - 65536) * x + gmv.matrix[3] * y + gmv.matrix[0];
        let yc = (gmv.matrix[5] - 65536) * y + gmv.matrix[4] * x + gmv.matrix[1];
        Mv { y: gmv_component(yc, hp) as i16, x: gmv_component(xc, hp) as i16 }
    }
}

/// Rounds a 1/65536 coordinate to the motion-vector precision.
fn gmv_round(c: i128, hp: u8) -> (r: i16)
    requires
        -0x1_0000_0000_0000_0000_0000 < c < 0x1_0000_0000_0000_0000_0000,
    ensures
        r == gmv_component(c as int, hp) as i16,
{
    let a: i128 = if c < 0 {
        -c
    } else {
        c
    };
    let v: i128 = if hp == 0 {
        ((a + 8192) / 16384) * 2
    } else {
        (a + 4096) / 8192
    };
    let s: i128 = if c < 0 {
        -v
    } else {
        v
    };
    #[verifier::truncate]
    (s as i16)
}

/// The global motion vector of a block from its reference's motion
/// parameters: zero for identity, the matrix's translation for a
/// translation, else the affine map at the block centre; rounded to whole
/// pixels when the header forces integer vectors.
pub fn get_gmv_2d(
    gmv: &Dav1dWarpedMotionParams,
    bx4: i32,
    by4: i32,
    bw4: i32,
    bh4: i32,
    hdr: &Dav1dFrameHeader,
) -> (r: Mv)
    requires
        gmv.type_0 == WM_TYPE_ROT_ZOOM ==> gmv.matrix[5] == gmv.matrix[2] && gmv.matrix[3]
            != i32::MIN && gmv.matrix[4] == -gmv.matrix[3],
        gmv.type_0 != WM_TYPE_IDENTITY && hdr.force_integer_mv != 0 ==> gmv_raw(
            *gmv,
            bx4,
            by4,
            bw4,
            bh4,
            hdr.hp,
        ).x <= 0x7ffc && gmv_raw(*gmv, bx4, by4, bw4, bh4, hdr.hp).y <= 0x7ffc,
    ensures
        gmv.type_0 == WM_TYPE_IDENTITY ==> r == (Mv { y: 0, x: 0 }),
        gmv.type_0 != WM_TYPE_IDENTITY && hdr.force_integer_mv != 0 ==> r.x == int_component(
            gmv_raw(*gmv, bx4, by4, bw4, bh4, hdr.hp).x,
        ) && r.y == int_component(gmv_raw(*gmv, bx4, by4, bw4, bh4, hdr.hp).y),
        gmv.type_0 != WM_TYPE_IDENTITY && hdr.force_integer_mv == 0 ==> r == gmv_raw(
            *gmv,
            bx4,
            by4,
            bw4,
            bh4,
            hdr.hp,
        ),
{
    if gmv.type_0 == WM_TYPE_IDENTITY {
        return Mv { y: 0, x: 0 };
    }
    let mut res = if gmv.type_0 == WM_TYPE_TRANSLATION {
        #[verifier::truncate]
        let y = (gmv.matrix[0] >> 13u32) as i16;
        #[verifier::truncate]
        let x = (gmv.matrix[1] >> 13u32) as i16;
        Mv { y, x }
    } else {
        let x: i128 = bx4 as i128 * 4 + bw4 as i128 * 2 - 1;
        let y: i128 = by4 as i128 * 4 + bh4 as i128 * 2 - 1;
        let m = gmv.matrix;
        assert(-0x4_0000_0000_0000_0000 < (m[2] as i128 - 65536) * x < 0x4_0000_0000_0000_0000
            && -0x4_0000_0000_0000_0000 < (m[3] as i128) * y < 0x4_0000_0000_0000_0000
            && -0x4_0000_0000_0000_0000 < (m[5] as i128 - 65536) * y < 0x4_0000_0000_0000_0000
            && -0x4_0000_0000_0000_0000 < (m[4] as i128) * x < 0x4_0000_0000_0000_0000)
            by (nonlinear_arith)
            requires
                -0x4_0000_0000 < x < 0x4_0000_0000,
                -0x4_0000_0000 < y < 0x4_0000_0000,
                -0x8000_0000 <= m[2] < 0x8000_0000,
                -0x8000_0000 <= m[3] < 0x8000_0000,
                -0x8000_0000 <= m[4] < 0x8000_0000,
                -0x8000_0000 <= m[5] < 0x8000_0000,
        ;
        let xc: i128 = (m[2] as i128 - 65536) * x + m[3] as i128 * y + m[0] as i128;
        let yc: i128 = (m[5] as i128 - 65536) * y + m[4] as i128 * x + m[1] as i128;
        Mv { y: gmv_round(yc, hdr.hp), x: gmv_round(xc, hdr.hp) }
    };
    if hdr.force_integer_mv != 0 {
        fix_int_mv_precision(&mut res);
    }
    res
}

} // verus!
