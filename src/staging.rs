//! Staging of pre-filter pixels: the two-row strip kept for the next
//! superblock row and the two-column strip kept for the next block.
use crate::cdef_apply::Backup2x8Flags;
use crate::cdef_apply::Rav1dPixelLayout;
use crate::cdef_apply::ss_hor;
use crate::cdef_apply::ss_ver;
use vstd::prelude::*;

verus! {

/// Whether `n` pixels from position `pos` lie in a buffer of `len` pixels.
pub open spec fn fits(len: int, pos: int, n: int) -> bool {
    0 <= pos && pos + n <= len
}

/// Pixels of the left-neighbour strips: two slots, three planes, eight rows
/// of two columns.
pub const LEFT_BACKUP_LEN: usize = 96;

/// Index of pixel `(y, x)` of plane `pl` in slot `slot` of the left strips.
pub open spec fn left_index(slot: int, pl: int, y: int, x: int) -> int {
    slot * 48 + pl * 16 + y * 2 + x
}

/// Number of staged rows of plane `pl`.
pub open spec fn strip_rows(pl: int, layout: Rav1dPixelLayout) -> int {
    if pl == 0 {
        8
    } else if ss_ver(layout) {
        4
    } else {
        8
    }
}

/// Column shift of plane `pl` relative to luma.
pub open spec fn col_shift(pl: int, layout: Rav1dPixelLayout) -> int {
    if pl != 0 && ss_hor(layout) {
        1
    } else {
        0
    }
}

/// Position in the frame of the first pixel that `backup2x8` stages for row
/// `y` of plane `pl`.
pub open spec fn strip_src(pos: int, stride: int, y: int, x_off: int, shift: int) -> int {
    pos + y * stride + (if shift == 1 { x_off / 2 } else { x_off }) - 2
}

/// `dst` with the `n` pixels of `src` from `si` written over it from `di`.
pub open spec fn copied(dst: Seq<u16>, di: int, src: Seq<u16>, si: int, n: int) -> Seq<u16> {
    Seq::new(
        dst.len(),
        |i: int|
            if di <= i < di + n {
                src[si + i - di]
            } else {
                dst[i]
            },
    )
}

/// Copies `n` pixels of `src` from `si` over `dst` from `di`.
pub fn pixel_copy(dst: &mut Vec<u16>, di: usize, src: &Vec<u16>, si: usize, n: usize)
    requires
        fits(old(dst)@.len() as int, di as int, n as int),
        fits(src@.len() as int, si as int, n as int),
    ensures
        final(dst)@ == copied(old(dst)@, di as int, src@, si as int, n as int),
{
    let dlen = dst.len();
    let slen = src.len();
    let mut k: usize = 0;
    while k < n
        invariant
            k <= n,
            dlen == dst@.len(),
            slen == src@.len(),
            dst@.len() == old(dst)@.len(),
            fits(dst@.len() as int, di as int, n as int),
            fits(src@.len() as int, si as int, n as int),
            forall|i: int|
                0 <= i < dst@.len() ==> #[trigger] dst@[i] == if di <= i < di + k {
                    src@[si + i - di]
                } else {
                    old(dst)@[i]
                },
        decreases n - k,
    {
        dst.set(di + k, src[si + k]);
        k = k + 1;
    }
    assert(dst@ =~= copied(old(dst)@, di as int, src@, si as int, n as int));
}

/// Whether `backup2x8` stages plane `pl` for `flag`.
pub open spec fn plane_staged(pl: int, layout: Rav1dPixelLayout, flag: Backup2x8Flags) -> bool {
    if pl == 0 {
        flag.bits & 1 == 1
    } else {
        layout != Rav1dPixelLayout::I400 && flag.bits & 2 == 2
    }
}

/// Whether the pixels that `backup2x8` stages of plane `pl` lie in the frame.
pub open spec fn strip_fits(
    src_len: int,
    pos: int,
    stride: int,
    x_off: int,
    pl: int,
    layout: Rav1dPixelLayout,
) -> bool {
    forall|y: int|
        0 <= y < strip_rows(pl, layout) ==> fits(
            src_len,
            #[trigger] strip_src(pos, stride, y, x_off, col_shift(pl, layout)),
            2,
        )
}

/// The left strips after `backup2x8` wrote slot `slot`.
pub open spec fn strips_backed_up(
    dst: Seq<u16>,
    slot: int,
    src: Seq<u16>,
    pos: [i128; 3],
    y_stride: int,
    uv_stride: int,
    x_off: int,
    layout: Rav1dPixelLayout,
    flag: Backup2x8Flags,
) -> Seq<u16> {
    Seq::new(
        dst.len(),
        |i: int|
            {
                let pl = (i % 48) / 16;
                let y = (i % 16) / 2;
                if i / 48 == slot && plane_staged(pl, layout, flag) && y < strip_rows(pl, layout) {
                    src[strip_src(
                        pos[pl] as int,
                        if pl == 0 {
                            y_stride
                        } else {
                            uv_stride
                        },
                        y,
                        x_off,
                        col_shift(pl, layout),
                    ) + i % 2]
                } else {
                    dst[i]
                }
            },
    )
}

/// Copies the two columns of each of the first `rows` rows of plane `pl`
/// into its part of slot `slot`.
fn stage_plane(
    dst: &mut Vec<u16>,
    slot: usize,
    pl: usize,
    rows: usize,
    src: &Vec<u16>,
    pos: i128,
    stride: isize,
    x_off: i32,
    shift: i32,
)
    requires
        slot < 2,
        pl < 3,
        rows <= 8,
        x_off == 0 || x_off == 8,
        shift == 0 || shift == 1,
        old(dst)@.len() == LEFT_BACKUP_LEN,
        forall|y: int|
            0 <= y < rows ==> fits(
                src@.len() as int,
                #[trigger] strip_src(pos as int, stride as int, y, x_off as int, shift as int),
                2,
            ),
    ensures
        final(dst)@.len() == LEFT_BACKUP_LEN,
        forall|i: int|
            0 <= i < LEFT_BACKUP_LEN ==> #[trigger] final(dst)@[i] == if slot * 48 + pl * 16 <= i
                < slot * 48 + pl * 16 + 2 * rows {
                src@[strip_src(
                    pos as int,
                    stride as int,
                    (i - slot * 48 - pl * 16) / 2,
                    x_off as int,
                    shift as int,
                ) + (i - slot * 48 - pl * 16) % 2]
            } else {
                old(dst)@[i]
            },
{
    let slen = src.len();
    let base: usize = slot * 48 + pl * 16;
    let xo: i128 = if shift == 1 {
        x_off as i128 / 2
    } else {
        x_off as i128
    };
    let mut y: usize = 0;
    while y < rows
        invariant
            y <= rows <= 8,
            slot < 2,
            pl < 3,
            base == slot * 48 + pl * 16,
            slen == src@.len(),
            xo == (if shift == 1 { x_off / 2 } else { x_off as int }),
            dst@.len() == LEFT_BACKUP_LEN,
            forall|yy: int|
                0 <= yy < rows ==> fits(
                    src@.len() as int,
                    #[trigger] strip_src(pos as int, stride as int, yy, x_off as int, shift as int),
                    2,
                ),
            forall|i: int|
                0 <= i < LEFT_BACKUP_LEN ==> #[trigger] dst@[i] == if base <= i < base + 2 * y {
                    src@[strip_src(pos as int, stride as int, (i - base) / 2, x_off as int, shift as int)
                        + (i - base) % 2]
                } else {
                    old(dst)@[i]
                },
        decreases rows - y,
    {
        let ghost p = strip_src(pos as int, stride as int, y as int, x_off as int, shift as int);
        assert(fits(src@.len() as int, p, 2));
        assert(-8 * 0x8000_0000_0000_0000 <= (y as i128) * (stride as i128) <= 8
            * 0x8000_0000_0000_0000) by (nonlinear_arith)
            requires
                0 <= y <= 8,
                -0x8000_0000_0000_0000 <= stride <= 0x8000_0000_0000_0000,
        ;
        assert(pos + (y as i128) * (stride as i128) + xo - 2 == p);
        let at: i128 = pos + (y as i128) * (stride as i128) + xo - 2;
        let a = at as usize;
        dst.set(base + 2 * y, src[a]);
        dst.set(base + 2 * y + 1, src[a + 1]);
        y = y + 1;
    }
}

/// How the index of a pixel of the left strips splits into slot, plane, row
/// and column.
proof fn lemma_left_index(i: int, slot: int, pl: int)
    requires
        0 <= i < 96,
        0 <= slot < 2,
        0 <= pl < 3,
    ensures
        (slot * 48 + pl * 16 <= i < slot * 48 + pl * 16 + 16) <==> (i / 48 == slot && (i % 48)
            / 16 == pl),
        slot * 48 + pl * 16 <= i < slot * 48 + pl * 16 + 16 ==> (i - slot * 48 - pl * 16) / 2 == (i
            % 16) / 2 && (i - slot * 48 - pl * 16) % 2 == i % 2,
{
}

/// Pixel `(y, x)` of plane `pl` in slot `s2` after `backup2x8`.
pub proof fn lemma_strip_entry(
    dst: Seq<u16>,
    slot: int,
    src: Seq<u16>,
    pos: [i128; 3],
    y_stride: int,
    uv_stride: int,
    x_off: int,
    layout: Rav1dPixelLayout,
    flag: Backup2x8Flags,
    s2: int,
    pl: int,
    y: int,
    x: int,
)
    requires
        dst.len() == LEFT_BACKUP_LEN,
        0 <= s2 < 2,
        0 <= pl < 3,
        0 <= y < 8,
        0 <= x < 2,
    ensures
        strips_backed_up(dst, slot, src, pos, y_stride, uv_stride, x_off, layout, flag)[left_index(
            s2,
            pl,
            y,
            x,
        )] == if s2 == slot && plane_staged(pl, layout, flag) && y < strip_rows(pl, layout) {
            src[strip_src(
                pos[pl] as int,
                if pl == 0 {
                    y_stride
                } else {
                    uv_stride
                },
                y,
                x_off,
                col_shift(pl, layout),
            ) + x]
        } else {
            dst[left_index(s2, pl, y, x)]
        },
{
    let i = left_index(s2, pl, y, x);
    assert(i / 48 == s2 && (i % 48) / 16 == pl && (i % 16) / 2 == y && i % 2 == x);
}

/// Keeps two columns of each row of an 8x8 block (`x_off == 0`: the two
/// columns left of it; `x_off == 8`: its own two rightmost columns) for the
/// planes of `flag`, in slot `slot` of the left strips. Chroma columns and
/// rows are subsampled with the picture.
pub fn backup2x8(
    dst: &mut Vec<u16>,
    slot: usize,
    src: &Vec<u16>,
    pos: [i128; 3],
    y_stride: isize,
    uv_stride: isize,
    x_off: i32,
    layout: Rav1dPixelLayout,
    flag: Backup2x8Flags,
)
    requires
        slot < 2,
        old(dst)@.len() == LEFT_BACKUP_LEN,
        x_off == 0 || x_off == 8,
        plane_staged(0, layout, flag) ==> strip_fits(
            src@.len() as int,
            pos[0] as int,
            y_stride as int,
            x_off as int,
            0,
            layout,
        ),
        forall|pl: int|
            1 <= pl < 3 && plane_staged(pl, layout, flag) ==> #[trigger] strip_fits(
                src@.len() as int,
                pos[pl] as int,
                uv_stride as int,
                x_off as int,
                pl,
                layout,
            ),
    ensures
        final(dst)@ == strips_backed_up(
            old(dst)@,
            slot as int,
            src@,
            pos,
            y_stride as int,
            uv_stride as int,
            x_off as int,
            layout,
            flag,
        ),
{
    let ghost d0 = dst@;
    if flag.contains(Backup2x8Flags::y()) {
        assert(col_shift(0, layout) == 0 && strip_rows(0, layout) == 8);
        stage_plane(dst, slot, 0, 8, src, pos[0], y_stride, x_off, 0);
    }
    let ghost d1 = dst@;
    assert forall|i: int| 0 <= i < LEFT_BACKUP_LEN implies #[trigger] d1[i] == strips_backed_up(
        d0,
        slot as int,
        src@,
        pos,
        y_stride as int,
        uv_stride as int,
        x_off as int,
        Rav1dPixelLayout::I400,
        flag,
    )[i] by {
        lemma_left_index(i, slot as int, 0);
    }
    if layout == Rav1dPixelLayout::I400 || !flag.contains(Backup2x8Flags::uv()) {
        assert(dst@ =~= strips_backed_up(
            old(dst)@,
            slot as int,
            src@,
            pos,
            y_stride as int,
            uv_stride as int,
            x_off as int,
            layout,
            flag,
        ));
        return;
    }
    let rows: usize = if layout == Rav1dPixelLayout::I420 {
        4
    } else {
        8
    };
    let shift: i32 = if layout != Rav1dPixelLayout::I444 {
        1
    } else {
        0
    };
    assert(col_shift(1, layout) == shift && col_shift(2, layout) == shift);
    assert(strip_rows(1, layout) == rows && strip_rows(2, layout) == rows);
    assert(strip_fits(src@.len() as int, pos[1] as int, uv_stride as int, x_off as int, 1, layout));
    assert(strip_fits(src@.len() as int, pos[2] as int, uv_stride as int, x_off as int, 2, layout));
    stage_plane(dst, slot, 1, rows, src, pos[1], uv_stride, x_off, shift);
    let ghost d2 = dst@;
    stage_plane(dst, slot, 2, rows, src, pos[2], uv_stride, x_off, shift);
    assert forall|i: int| 0 <= i < LEFT_BACKUP_LEN implies #[trigger] dst@[i] == strips_backed_up(
        d0,
        slot as int,
        src@,
        pos,
        y_stride as int,
        uv_stride as int,
        x_off as int,
        layout,
        flag,
    )[i] by {
        lemma_left_index(i, slot as int, 0);
        lemma_left_index(i, slot as int, 1);
        lemma_left_index(i, slot as int, 2);
    }
    assert(dst@ =~= strips_backed_up(
        old(dst)@,
        slot as int,
        src@,
        pos,
        y_stride as int,
        uv_stride as int,
        x_off as int,
        layout,
        flag,
    ));
}

/// Row offset, in rows of its plane, of the first of the two rows that
/// `backup2lines` keeps: rows 6 and 7 of the 8-row luma strip, rows 2 and 3
/// of a vertically subsampled chroma strip.
pub open spec fn kept_row(pl: int, layout: Rav1dPixelLayout) -> int {
    if pl != 0 && layout == Rav1dPixelLayout::I420 {
        2
    } else {
        6
    }
}

/// One more row for a bottom-up plane, whose rows run backwards in memory.
pub open spec fn stride_bias(stride: int) -> int {
    if stride < 0 {
        1
    } else {
        0
    }
}

/// `|stride|`.
pub open spec fn abs(v: int) -> int {
    if v < 0 {
        -v
    } else {
        v
    }
}

/// Source position of the two rows kept of plane `pl`.
pub open spec fn lines_src(src: int, stride: int, pl: int, layout: Rav1dPixelLayout) -> int {
    src + (kept_row(pl, layout) + stride_bias(stride)) * stride
}

/// Destination position of the two rows kept of a plane.
pub open spec fn lines_dst(dst: int, stride: int) -> int {
    dst + stride_bias(stride) * stride
}

/// Whether the two rows of plane `pl` can be copied.
pub open spec fn lines_fit(
    dst_len: int,
    src_len: int,
    dst: int,
    src: int,
    stride: int,
    pl: int,
    layout: Rav1dPixelLayout,
) -> bool {
    &&& fits(dst_len, lines_dst(dst, stride), 2 * abs(stride))
    &&& fits(src_len, lines_src(src, stride, pl, layout), 2 * abs(stride))
}

/// The line buffer after the two rows of plane `pl` were copied into it.
pub open spec fn lines_copied(
    dst: Seq<u16>,
    dst_off: int,
    src: Seq<u16>,
    src_pos: int,
    stride: int,
    pl: int,
    layout: Rav1dPixelLayout,
) -> Seq<u16> {
    copied(
        dst,
        lines_dst(dst_off, stride),
        src,
        lines_src(src_pos, stride, pl, layout),
        2 * abs(stride),
    )
}

/// The line buffer after `backup2lines`: the luma rows, then, unless the
/// picture is monochrome, the rows of both chroma planes.
pub open spec fn lines_backed_up(
    dst: Seq<u16>,
    dst_off: [i128; 3],
    src: Seq<u16>,
    src_pos: [i128; 3],
    y_stride: int,
    uv_stride: int,
    layout: Rav1dPixelLayout,
) -> Seq<u16> {
    let y = lines_copied(dst, dst_off[0] as int, src, src_pos[0] as int, y_stride, 0, layout);
    if layout == Rav1dPixelLayout::I400 {
        y
    } else {
        let u = lines_copied(y, dst_off[1] as int, src, src_pos[1] as int, uv_stride, 1, layout);
        lines_copied(u, dst_off[2] as int, src, src_pos[2] as int, uv_stride, 2, layout)
    }
}

/// Copies two rows of plane `pl` into the line buffer.
fn backup_plane_lines(
    dst_buf: &mut Vec<u16>,
    dst_off: i128,
    src: &Vec<u16>,
    src_pos: i128,
    stride: isize,
    pl: usize,
    layout: Rav1dPixelLayout,
)
    requires
        pl < 3,
        lines_fit(
            old(dst_buf)@.len() as int,
            src@.len() as int,
            dst_off as int,
            src_pos as int,
            stride as int,
            pl as int,
            layout,
        ),
    ensures
        final(dst_buf)@ == lines_copied(
            old(dst_buf)@,
            dst_off as int,
            src@,
            src_pos as int,
            stride as int,
            pl as int,
            layout,
        ),
{
    let slen = src.len();
    let dlen = dst_buf.len();
    let bias: i128 = if stride < 0 {
        1
    } else {
        0
    };
    let row: i128 = if pl != 0 && layout == Rav1dPixelLayout::I420 {
        2
    } else {
        6
    };
    let mag: i128 = if stride < 0 {
        0 - (stride as i128)
    } else {
        stride as i128
    };
    let len: i128 = 2 * mag;
    assert(-8 * 0x8000_0000_0000_0000 <= (row + bias) * (stride as i128) <= 8 * 0x8000_0000_0000_0000)
        by (nonlinear_arith)
        requires
            0 <= row + bias <= 7,
            -0x8000_0000_0000_0000 <= stride <= 0x8000_0000_0000_0000,
    ;
    assert(row == kept_row(pl as int, layout) && bias == stride_bias(stride as int));
    assert(len == 2 * abs(stride as int));
    assert(src_pos + (row + bias) * stride == lines_src(src_pos as int, stride as int, pl as int, layout));
    assert(fits(src@.len() as int, lines_src(src_pos as int, stride as int, pl as int, layout), 2 * abs(stride as int)));
    assert(0 <= src_pos + (row + bias) * stride <= src@.len());
    let s: i128 = src_pos + (row + bias) * (stride as i128);
    assert(dst_off + bias * stride == lines_dst(dst_off as int, stride as int));
    let d: i128 = dst_off + bias * (stride as i128);
    pixel_copy(dst_buf, d as usize, src, s as usize, len as usize);
}

/// Keeps the two pre-filter rows at the bottom of the current 8-row strip
/// of each plane, so that the next strip can read them as its top
/// neighbours once this one has been filtered in place.
pub fn backup2lines(
    dst_buf: &mut Vec<u16>,
    dst_off: [i128; 3],
    src: &Vec<u16>,
    src_pos: [i128; 3],
    y_stride: isize,
    uv_stride: isize,
    layout: Rav1dPixelLayout,
)
    requires
        lines_fit(
            old(dst_buf)@.len() as int,
            src@.len() as int,
            dst_off[0] as int,
            src_pos[0] as int,
            y_stride as int,
            0,
            layout,
        ),
        layout != Rav1dPixelLayout::I400 ==> forall|pl: int|
            1 <= pl < 3 ==> #[trigger] lines_fit(
                old(dst_buf)@.len() as int,
                src@.len() as int,
                dst_off[pl] as int,
                src_pos[pl] as int,
                uv_stride as int,
                pl,
                layout,
            ),
    ensures
        final(dst_buf)@ == lines_backed_up(
            old(dst_buf)@,
            dst_off,
            src@,
            src_pos,
            y_stride as int,
            uv_stride as int,
            layout,
        ),
{
    backup_plane_lines(dst_buf, dst_off[0], src, src_pos[0], y_stride, 0, layout);
    if layout == Rav1dPixelLayout::I400 {
        return;
    }
    assert(lines_fit(
        dst_buf@.len() as int,
        src@.len() as int,
        dst_off[1] as int,
        src_pos[1] as int,
        uv_stride as int,
        1,
        layout,
    ));
    backup_plane_lines(dst_buf, dst_off[1], src, src_pos[1], uv_stride, 1, layout);
    assert(lines_fit(
        dst_buf@.len() as int,
        src@.len() as int,
        dst_off[2] as int,
        src_pos[2] as int,
        uv_stride as int,
        2,
        layout,
    ));
    backup_plane_lines(dst_buf, dst_off[2], src, src_pos[2], uv_stride, 2, layout);
}

} // verus!
