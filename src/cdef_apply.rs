//! The superblock-row driver of the directional enhancement filter.
use vstd::arithmetic::power2::pow2;
use vstd::prelude::*;

verus! {

/// Chroma subsampling of a picture.
#[derive(Clone, Copy, Debug, PartialEq, Eq, Structural)]
pub enum Rav1dPixelLayout {
    /// Monochrome: luma only.
    I400,
    /// Chroma halved in both directions.
    I420,
    /// Chroma halved horizontally.
    I422,
    /// Chroma at full resolution.
    I444,
}

/// Whether chroma is halved horizontally.
pub open spec fn ss_hor(layout: Rav1dPixelLayout) -> bool {
    layout != Rav1dPixelLayout::I444
}

/// Whether chroma is halved vertically.
pub open spec fn ss_ver(layout: Rav1dPixelLayout) -> bool {
    layout == Rav1dPixelLayout::I420
}

/// Planes whose left or right two-column strip is staged: bit 0 for luma,
/// bit 1 for both chroma planes.
#[derive(Clone, Copy, Debug, PartialEq, Eq, Structural)]
pub struct Backup2x8Flags {
    pub bits: u8,
}

impl Backup2x8Flags {
    /// Luma.
    pub fn y() -> (r: Self)
        ensures
            r.bits == 1,
    {
        Backup2x8Flags { bits: 1 }
    }

    /// Both chroma planes.
    pub fn uv() -> (r: Self)
        ensures
            r.bits == 2,
    {
        Backup2x8Flags { bits: 2 }
    }

    /// No plane.
    pub fn empty() -> (r: Self)
        ensures
            r.bits == 0,
    {
        Backup2x8Flags { bits: 0 }
    }

    /// These planes when `select` holds, no plane otherwise.
    pub fn select(&self, select: bool) -> (r: Self)
        ensures
            r == (if select {
                *self
            } else {
                Backup2x8Flags { bits: 0 }
            }),
    {
        if select {
            *self
        } else {
            Self::empty()
        }
    }

    /// The planes of either set.
    pub fn union(&self, other: Self) -> (r: Self)
        ensures
            r.bits == self.bits | other.bits,
    {
        Backup2x8Flags { bits: self.bits | other.bits }
    }

    /// The planes of exactly one of the two sets.
    pub fn symmetric_difference(&self, other: Self) -> (r: Self)
        ensures
            r.bits == self.bits ^ other.bits,
    {
        Backup2x8Flags { bits: self.bits ^ other.bits }
    }

    /// The planes of both sets.
    pub fn intersection(&self, other: Self) -> (r: Self)
        ensures
            r.bits == self.bits & other.bits,
    {
        Backup2x8Flags { bits: self.bits & other.bits }
    }

    /// Whether the set holds all planes of `other`.
    pub fn contains(&self, other: Self) -> (r: bool)
        ensures
            r == (self.bits & other.bits == other.bits),
    {
        self.bits & other.bits == other.bits
    }

    /// Whether the set holds no plane.
    pub fn is_empty(&self) -> (r: bool)
        ensures
            r == (self.bits == 0),
    {
        self.bits == 0
    }
}

/// The planes `left_planes` returns.
pub open spec fn left_planes_spec(last_skip: bool, prev_flag: Backup2x8Flags, flag: Backup2x8Flags) -> u8 {
    if last_skip {
        flag.bits
    } else {
        (prev_flag.bits ^ flag.bits) & flag.bits
    }
}

/// Planes whose left strip a coded block stages itself: all planes it
/// filters after a skipped block, else only those the previous coded block
/// did not filter, whose right strip that block has already kept.
pub fn left_planes(last_skip: bool, prev_flag: Backup2x8Flags, flag: Backup2x8Flags) -> (r:
    Backup2x8Flags)
    ensures
        r.bits == left_planes_spec(last_skip, prev_flag, flag),
{
    if last_skip {
        flag
    } else {
        prev_flag.symmetric_difference(flag).intersection(flag)
    }
}

/// After a coded block, each plane the next coded block filters has its left
/// strip staged exactly once: by that block itself, or by the previous
/// block's right strip when the previous block filtered the plane too.
pub proof fn lemma_left_strips_covered(prev_flag: Backup2x8Flags, flag: Backup2x8Flags)
    ensures
        left_planes_spec(false, prev_flag, flag) | (prev_flag.bits & flag.bits) == flag.bits,
        left_planes_spec(false, prev_flag, flag) & prev_flag.bits == 0,
        left_planes_spec(true, prev_flag, flag) == flag.bits,
{
    let p = prev_flag.bits;
    let f = flag.bits;
    assert(((p ^ f) & f) | (p & f) == f && ((p ^ f) & f) & p == 0) by (bit_vector);
}

/// `floor(log2(v))` for a positive `v`.
pub open spec fn log2_floor(v: nat) -> nat
    decreases v,
{
    if v <= 1 {
        0
    } else {
        1 + log2_floor(v / 2)
    }
}

/// Base-2 logarithm of a nonzero value, rounded down.
pub fn ulog2(v: u32) -> (r: i32)
    requires
        v != 0,
    ensures
        r == log2_floor(v as nat),
        0 <= r < 32,
{
    let mut x: u32 = v;
    let mut n: i32 = 0;
    proof {
        vstd::arithmetic::power2::lemma2_to64();
        assert(pow2(n as nat) == 1);
        assert(x as nat * pow2(n as nat) == x);
    }
    while x > 1
        invariant
            1 <= x <= v,
            0 <= n < 32,
            n + log2_floor(x as nat) == log2_floor(v as nat),
            x as nat * pow2(n as nat) <= v,
        decreases x,
    {
        proof {
            vstd::arithmetic::power2::lemma_pow2_unfold((n + 1) as nat);
            assert((x / 2) as nat * pow2((n + 1) as nat) <= v) by (nonlinear_arith)
                requires
                    x as nat * pow2(n as nat) <= v,
                    pow2((n + 1) as nat) == 2 * pow2(n as nat),
                    x >= 2,
            ;
        }
        proof {
            if n >= 31 {
                if n > 31 {
                    vstd::arithmetic::power2::lemma_pow2_strictly_increases(31, n as nat);
                }
                vstd::arithmetic::power2::lemma2_to64();
                assert(x as nat * pow2(n as nat) >= 2 * pow2(n as nat)) by (nonlinear_arith)
                    requires
                        x >= 2,
                ;
            }
        }
        x = x / 2;
        n = n + 1;
    }
    n
}

/// The primary strength after attenuation by the block's variance.
pub open spec fn adjusted_strength(strength: u8, var: u32) -> int {
    if var == 0 {
        0
    } else {
        let i: int = if var >> 6u32 != 0 {
            if log2_floor((var >> 6u32) as nat) < 12 {
                log2_floor((var >> 6u32) as nat) as int
            } else {
                12
            }
        } else {
            0
        };
        (strength * (4 + i) + 8) / 16
    }
}

/// Attenuates a primary strength in smooth regions: no filtering for a
/// flat block, a quarter of the strength for a low variance, up to the full
/// strength once the variance reaches `1 << 18`.
pub fn adjust_strength(strength: u8, var: u32) -> (r: i32)
    ensures
        r == adjusted_strength(strength, var),
        0 <= r <= strength,
{
    if var == 0 {
        return 0;
    }
    let i: i32 = if var >> 6 != 0 {
        let l = ulog2(var >> 6);
        if l < 12 {
            l
        } else {
            12
        }
    } else {
        0
    };
    assert(0 <= i <= 12);
    assert(0 <= strength * (4 + i) <= strength * 16 <= 4080 && (strength * (4 + i) + 8) / 16
        <= strength) by (nonlinear_arith)
        requires
            0 <= i <= 12,
            strength <= 255,
    ;
    let t: i32 = strength as i32 * (4 + i) + 8;
    assert(t >> 4 == t / 16) by (bit_vector)
        requires
            0 <= t,
    ;
    t >> 4
}

/// A value of at least `2^k` has a logarithm of at least `k`.
proof fn lemma_log2_floor_lower(v: nat, k: nat)
    requires
        v >= pow2(k),
    ensures
        log2_floor(v) >= k,
    decreases k,
{
    if k > 0 {
        vstd::arithmetic::power2::lemma_pow2_unfold(k);
        vstd::arithmetic::power2::lemma_pow2_pos((k - 1) as nat);
        lemma_log2_floor_lower(v / 2, (k - 1) as nat);
    }
}

/// A flat block gets no primary strength, and from a variance of `1 << 18`
/// on the strength comes back whole: `(16 * s + 8) >> 4`, which is `s`.
pub proof fn lemma_adjust_strength_limits(s: u8, var: u32)
    ensures
        adjusted_strength(s, 0) == 0,
        var >= 0x40000 ==> adjusted_strength(s, var) == (s * 16 + 8) / 16,
        var >= 0x40000 ==> adjusted_strength(s, var) == s,
{
    if var >= 0x40000 {
        assert(var >> 6u32 >= 0x1000) by (bit_vector)
            requires
                var >= 0x40000,
        ;
        vstd::arithmetic::power2::lemma2_to64();
        lemma_log2_floor_lower((var >> 6u32) as nat, 12);
    }
}

/// Factor by which strengths grow with the bit depth: `1 << (bitdepth - 8)`.
pub open spec fn depth_scale(bitdepth_min_8: u8) -> int {
    if bitdepth_min_8 == 0 {
        1
    } else if bitdepth_min_8 == 2 {
        4
    } else {
        16
    }
}

/// Whether `bitdepth_min_8` is that of a supported depth (8, 10 or 12 bits).
pub open spec fn valid_depth(bitdepth_min_8: u8) -> bool {
    bitdepth_min_8 == 0 || bitdepth_min_8 == 2 || bitdepth_min_8 == 4
}

/// Primary strength coded in a strength level: its upper bits, scaled to
/// the bit depth.
pub open spec fn primary_of(lvl: u8, bitdepth_min_8: u8) -> int {
    (lvl / 4) * depth_scale(bitdepth_min_8)
}

/// Secondary strength coded in a strength level: its two low bits, with 3
/// standing for 4, scaled to the bit depth.
pub open spec fn secondary_of(lvl: u8, bitdepth_min_8: u8) -> int {
    (if lvl % 4 == 3 {
        4
    } else {
        lvl % 4
    }) * depth_scale(bitdepth_min_8)
}

/// Splits a strength level into its primary and secondary strengths.
pub fn decode_strength(lvl: u8, bitdepth_min_8: u8) -> (r: (u8, u8))
    requires
        lvl < 64,
        valid_depth(bitdepth_min_8),
    ensures
        r.0 == primary_of(lvl, bitdepth_min_8),
        r.1 == secondary_of(lvl, bitdepth_min_8),
{
    let scale: u8 = if bitdepth_min_8 == 0 {
        1
    } else if bitdepth_min_8 == 2 {
        4
    } else {
        16
    };
    let pri: u8 = (lvl / 4) * scale;
    let mut sec: u8 = lvl % 4;
    if sec == 3 {
        sec = sec + 1;
    }
    (pri, sec * scale)
}

/// Direction table of a chroma plane: luma's own for 4:2:0 and 4:4:4, and
/// for 4:2:2, whose chroma is squeezed horizontally, the direction each
/// luma direction becomes.
pub open spec fn uv_dir_of(layout: Rav1dPixelLayout, dir: int) -> int {
    if layout == Rav1dPixelLayout::I422 {
        seq![7int, 0, 2, 4, 5, 6, 6, 6][dir]
    } else {
        dir
    }
}

/// The direction handed to the chroma filter: the luma direction remapped
/// for the layout when chroma has a primary strength, 0 otherwise.
pub fn uv_direction(layout: Rav1dPixelLayout, dir: i32, uv_pri: u8) -> (r: i32)
    requires
        0 <= dir < 8,
    ensures
        r == (if uv_pri != 0 {
            uv_dir_of(layout, dir as int)
        } else {
            0
        }),
        0 <= r < 8,
{
    if uv_pri == 0 {
        return 0;
    }
    if layout != Rav1dPixelLayout::I422 {
        return dir;
    }
    match dir {
        0 => 7,
        1 => 0,
        2 => 2,
        3 => 4,
        4 => 5,
        _ => 6,
    }
}

/// For 4:2:2 a probed luma direction of 1 becomes chroma direction 0, and
/// for 4:2:0 and 4:4:4 chroma takes luma's direction unchanged.
pub proof fn lemma_uv_dir_remap(dir: int)
    requires
        0 <= dir < 8,
    ensures
        uv_dir_of(Rav1dPixelLayout::I422, 1) == 0,
        uv_dir_of(Rav1dPixelLayout::I420, dir) == dir,
        uv_dir_of(Rav1dPixelLayout::I444, dir) == dir,
{
}

/// Where the filter reads the two rows above or below a block.
#[derive(Clone, Copy, Debug, PartialEq, Eq, Structural)]
pub enum LineSource {
    /// The frame itself, from this position.
    Frame(i128),
    /// The line buffer of pre-filter rows, from this position.
    CdefLine(i128),
    /// The loop-restoration line buffer, from this position.
    LrLine(i128),
}

/// Positions, in their line buffers, of the first pixel of each plane's
/// strips.
#[derive(Clone, Copy, Debug)]
pub struct LineBases {
    /// The two strips of pre-filter rows, each for the three planes.
    pub cdef_line: [[usize; 3]; 2],
    /// Rows deblocked but not yet filtered, kept for a resized frame.
    pub cdef_lpf_line: [usize; 3],
    /// Rows kept in the loop-restoration line buffer.
    pub lr_lpf_line: [usize; 3],
}

/// The superblock row being filtered and the slice of rows one worker
/// filters.
#[derive(Clone, Copy, Debug, PartialEq, Eq, Structural)]
pub struct SliceInfo {
    /// More than one worker filters rows of the frame at once.
    pub have_tt: bool,
    /// This call starts a worker's slice.
    pub sbrow_start: bool,
    /// First block row (in 4-pixel units) of the call.
    pub by_start: i32,
    /// End of the block rows of the call.
    pub by_end: i32,
    /// Superblock row index.
    pub sby: i32,
    /// The frame is scaled horizontally.
    pub resize: bool,
    /// Superblocks are 128 pixels wide.
    pub sb128: bool,
}

/// Whether the slice parameters keep every line offset in range.
pub open spec fn slice_ok(sl: SliceInfo) -> bool {
    &&& 0 <= sl.by_start <= sl.by_end
    &&& sl.by_end <= 0x4000_0000
    &&& 0 <= sl.sby <= 0x1000_0000
}

/// Sources of the rows above and below a block of plane `pl` in block row
/// `by`: `col` is the block's column in its plane, `block` its position in
/// the frame, `bot_rows` the height of the block in its plane.
pub open spec fn line_sources_of(
    pl: int,
    lines: LineBases,
    tf: bool,
    sl: SliceInfo,
    by: int,
    stride: int,
    col: int,
    block: int,
    bot_rows: int,
) -> (LineSource, LineSource) {
    let ring_rows: int = if pl == 0 {
        4
    } else {
        8
    };
    let sb_rows: int = if sl.sb128 {
        8
    } else {
        4
    };
    let frame_bot = LineSource::Frame((block + bot_rows * stride) as i128);
    let ring_top = LineSource::CdefLine(
        (lines.cdef_line[if tf {
            1int
        } else {
            0
        }][pl] + (if sl.have_tt {
            sl.sby * ring_rows
        } else {
            0
        }) * stride + col) as i128,
    );
    if !sl.have_tt {
        (ring_top, frame_bot)
    } else if sl.sbrow_start && by == sl.by_start {
        (
            if sl.resize {
                LineSource::CdefLine(
                    (lines.cdef_lpf_line[pl] + (sl.sby - 1) * 4 * stride + col) as i128,
                )
            } else {
                LineSource::LrLine(
                    (lines.lr_lpf_line[pl] + (sl.sby * sb_rows - 4) * stride + col) as i128,
                )
            },
            frame_bot,
        )
    } else if !sl.sbrow_start && by + 2 >= sl.by_end {
        (
            ring_top,
            if sl.resize {
                LineSource::CdefLine(
                    (lines.cdef_lpf_line[pl] + (sl.sby * 4 + 2) * stride + col) as i128,
                )
            } else {
                LineSource::LrLine(
                    (lines.lr_lpf_line[pl] + (sl.sby * sb_rows + (if sl.sb128 {
                        4int
                    } else {
                        0
                    }) + 2) * stride + col) as i128,
                )
            },
        )
    } else {
        (ring_top, frame_bot)
    }
}

/// Bound on the magnitude of a block position.
pub open spec fn small_pos(v: int) -> bool {
    -0x1_0000_0000_0000_0000_0000_0000 < v < 0x1_0000_0000_0000_0000_0000_0000
}

/// Resolves where the filter of a block of plane `pl` reads its top and
/// bottom neighbours: the frame for a single worker and inside a slice; the
/// line buffers of the previous or next worker at a slice's first and last
/// block row.
pub fn line_sources(
    pl: usize,
    lines: &LineBases,
    tf: bool,
    sl: &SliceInfo,
    by: i32,
    stride: isize,
    col: i32,
    block: i128,
    bot_rows: i32,
) -> (r: (LineSource, LineSource))
    requires
        pl < 3,
        slice_ok(*sl),
        0 <= by <= 0x4000_0000,
        0 <= col <= 0x4000_0000,
        0 <= bot_rows <= 8,
        small_pos(block as int),
    ensures
        r == line_sources_of(
            pl as int,
            *lines,
            tf,
            *sl,
            by as int,
            stride as int,
            col as int,
            block as int,
            bot_rows as int,
        ),
{
    let s: i128 = stride as i128;
    let c: i128 = col as i128;
    let sby: i128 = sl.sby as i128;
    let ring_rows: i128 = if pl == 0 {
        4
    } else {
        8
    };
    let sb_rows: i128 = if sl.sb128 {
        8
    } else {
        4
    };
    assert(-0x1_0000_0000_0000_0000_0000 <= (bot_rows as i128) * s <= 0x1_0000_0000_0000_0000_0000)
        by (nonlinear_arith)
        requires
            0 <= bot_rows <= 8,
            -0x8000_0000_0000_0000 <= s <= 0x8000_0000_0000_0000,
    ;
    let frame_bot = LineSource::Frame(block + (bot_rows as i128) * s);
    let ring_row: i128 = if sl.have_tt {
        sby * ring_rows
    } else {
        0
    };
    assert(-0x1_0000_0000_0000_0000_0000_0000 <= ring_row * s <= 0x1_0000_0000_0000_0000_0000_0000)
        by (nonlinear_arith)
        requires
            0 <= ring_row <= 0x8000_0000,
            -0x8000_0000_0000_0000 <= s <= 0x8000_0000_0000_0000,
    ;
    let ring_top = LineSource::CdefLine(
        lines.cdef_line[if tf {
            1
        } else {
            0
        }][pl] as i128 + ring_row * s + c,
    );
    if !sl.have_tt {
        return (ring_top, frame_bot);
    }
    if sl.sbrow_start && by == sl.by_start {
        let top = if sl.resize {
            let row: i128 = (sby - 1) * 4;
            assert(-0x1_0000_0000_0000_0000_0000_0000 <= row * s <= 0x1_0000_0000_0000_0000_0000_0000)
                by (nonlinear_arith)
                requires
                    -4 <= row <= 0x8000_0000,
                    -0x8000_0000_0000_0000 <= s <= 0x8000_0000_0000_0000,
            ;
            LineSource::CdefLine(lines.cdef_lpf_line[pl] as i128 + row * s + c)
        } else {
            let row: i128 = sby * sb_rows - 4;
            assert(-0x1_0000_0000_0000_0000_0000_0000 <= row * s <= 0x1_0000_0000_0000_0000_0000_0000)
                by (nonlinear_arith)
                requires
                    -4 <= row <= 0x8000_0000,
                    -0x8000_0000_0000_0000 <= s <= 0x8000_0000_0000_0000,
            ;
            LineSource::LrLine(lines.lr_lpf_line[pl] as i128 + row * s + c)
        };
        return (top, frame_bot);
    }
    if !sl.sbrow_start && by + 2 >= sl.by_end {
        let bot = if sl.resize {
            let row: i128 = sby * 4 + 2;
            assert(-0x1_0000_0000_0000_0000_0000_0000 <= row * s <= 0x1_0000_0000_0000_0000_0000_0000)
                by (nonlinear_arith)
                requires
                    0 <= row <= 0x8000_0000,
                    -0x8000_0000_0000_0000 <= s <= 0x8000_0000_0000_0000,
            ;
            LineSource::CdefLine(lines.cdef_lpf_line[pl] as i128 + row * s + c)
        } else {
            let row: i128 = sby * sb_rows + (if sl.sb128 {
                4
            } else {
                0
            }) + 2;
            assert(-0x1_0000_0000_0000_0000_0000_0000 <= row * s <= 0x1_0000_0000_0000_0000_0000_0000)
                by (nonlinear_arith)
                requires
                    0 <= row <= 0x9000_0000,
                    -0x8000_0000_0000_0000 <= s <= 0x8000_0000_0000_0000,
            ;
            LineSource::LrLine(lines.lr_lpf_line[pl] as i128 + row * s + c)
        };
        return (ring_top, bot);
    }
    (ring_top, frame_bot)
}

} // verus!
