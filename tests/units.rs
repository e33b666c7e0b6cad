use rav1d_cdef::cdef::make_edges;
use rav1d_cdef::cdef::HAVE_BOTTOM;
use rav1d_cdef::cdef::HAVE_LEFT;
use rav1d_cdef::cdef_apply::adjust_strength;
use rav1d_cdef::cdef_apply::decode_strength;
use rav1d_cdef::cdef_apply::left_planes;
use rav1d_cdef::cdef_apply::line_sources;
use rav1d_cdef::cdef_apply::ulog2;
use rav1d_cdef::cdef_apply::uv_direction;
use rav1d_cdef::cdef_apply::Backup2x8Flags;
use rav1d_cdef::cdef_apply::LineBases;
use rav1d_cdef::cdef_apply::LineSource;
use rav1d_cdef::cdef_apply::Rav1dPixelLayout;
use rav1d_cdef::cdef_apply::SliceInfo;
use rav1d_cdef::env::fix_int_mv_precision;
use rav1d_cdef::env::fix_mv_precision;
use rav1d_cdef::env::get_uv_inter_txtp;
use rav1d_cdef::env::Dav1dFrameHeader;
use rav1d_cdef::env::Mv;
use rav1d_cdef::env::TxfmInfo;
use rav1d_cdef::env::DCT_DCT;
use rav1d_cdef::env::H_ADST;
use rav1d_cdef::env::IDTX;
use rav1d_cdef::staging::backup2lines;
use rav1d_cdef::staging::backup2x8;

#[test]
fn adjust_strength_flat_block() {
    assert_eq!(adjust_strength(9, 0), 0);
    assert_eq!(adjust_strength(0, 0), 0);
}

#[test]
fn adjust_strength_low_variance() {
    // var >> 6 == 0: a quarter of the strength, rounded
    assert_eq!(adjust_strength(8, 63), 2);
    // var >> 6 == 15: log2 3
    assert_eq!(adjust_strength(4, 1000), 2);
    assert_eq!(adjust_strength(15, 1000), 7);
}

#[test]
fn adjust_strength_saturates() {
    for s in [0u8, 1, 7, 15, 60, 255] {
        assert_eq!(adjust_strength(s, 1 << 18), ((s as i32) * 16 + 8) >> 4);
        assert_eq!(adjust_strength(s, u32::MAX), s as i32);
    }
    assert_eq!(adjust_strength(15, (1 << 18) - 1), (15 * 15 + 8) >> 4);
}

#[test]
fn ulog2_values() {
    assert_eq!(ulog2(1), 0);
    assert_eq!(ulog2(2), 1);
    assert_eq!(ulog2(4095), 11);
    assert_eq!(ulog2(4096), 12);
    assert_eq!(ulog2(u32::MAX), 31);
}

#[test]
fn strength_decode() {
    assert_eq!(decode_strength(16, 0), (4, 0));
    assert_eq!(decode_strength(63, 0), (15, 4));
    assert_eq!(decode_strength(6, 2), (4, 8));
    assert_eq!(decode_strength(63, 4), (240, 64));
}

#[test]
fn i422_chroma_direction() {
    assert_eq!(uv_direction(Rav1dPixelLayout::I422, 3, 1), 4);
    assert_eq!(uv_direction(Rav1dPixelLayout::I422, 1, 1), 0);
    assert_eq!(uv_direction(Rav1dPixelLayout::I422, 0, 1), 7);
    assert_eq!(uv_direction(Rav1dPixelLayout::I422, 7, 1), 6);
    for d in 0..8 {
        assert_eq!(uv_direction(Rav1dPixelLayout::I420, d, 1), d);
        assert_eq!(uv_direction(Rav1dPixelLayout::I444, d, 1), d);
        assert_eq!(uv_direction(Rav1dPixelLayout::I422, d, 0), 0);
    }
}

fn bases() -> LineBases {
    LineBases {
        cdef_line: [[0, 400, 700], [1000, 1400, 1700]],
        cdef_lpf_line: [2000, 2400, 2700],
        lr_lpf_line: [3000, 3400, 3700],
    }
}

fn slice(have_tt: bool, sbrow_start: bool, resize: bool, sb128: bool) -> SliceInfo {
    SliceInfo { have_tt, sbrow_start, by_start: 16, by_end: 32, sby: 3, resize, sb128 }
}

#[test]
fn resize_at_last_row_pair() {
    let (top, bot) = line_sources(0, &bases(), false, &slice(true, false, true, false), 30, 100, 40, 5000, 8);
    assert_eq!(bot, LineSource::CdefLine(2000 + (3 * 4 + 2) * 100 + 40));
    assert_eq!(top, LineSource::CdefLine(3 * 4 * 100 + 40));
}

#[test]
fn lr_line_at_last_row_pair() {
    let (top, bot) = line_sources(1, &bases(), true, &slice(true, false, false, true), 30, 50, 20, 5000, 4);
    assert_eq!(bot, LineSource::LrLine(3400 + (3 * 8 + 4 + 2) * 50 + 20));
    assert_eq!(top, LineSource::CdefLine(1400 + 3 * 8 * 50 + 20));
}

#[test]
fn first_row_of_slice() {
    let (top, bot) = line_sources(0, &bases(), false, &slice(true, true, true, false), 16, 100, 8, 5000, 8);
    assert_eq!(top, LineSource::CdefLine(2000 + 2 * 4 * 100 + 8));
    assert_eq!(bot, LineSource::Frame(5000 + 800));
    let (top, _) = line_sources(0, &bases(), false, &slice(true, true, false, false), 16, 100, 8, 5000, 8);
    assert_eq!(top, LineSource::LrLine(3000 + (3 * 4 - 4) * 100 + 8));
}

#[test]
fn single_worker_reads_frame() {
    let (top, bot) = line_sources(2, &bases(), true, &slice(false, false, true, false), 30, 50, 20, 7000, 4);
    assert_eq!(top, LineSource::CdefLine(1700 + 20));
    assert_eq!(bot, LineSource::Frame(7000 + 200));
    let (top, bot) = line_sources(0, &bases(), false, &slice(true, true, true, false), 20, 100, 8, 5000, 8);
    assert_eq!(top, LineSource::CdefLine(3 * 4 * 100 + 8));
    assert_eq!(bot, LineSource::Frame(5800));
}

#[test]
fn flags_select() {
    let y = Backup2x8Flags::y();
    assert_eq!(y.select(true), y);
    assert!(y.select(false).is_empty());
    let both = y.union(Backup2x8Flags::uv());
    assert_eq!(both.bits, 3);
    assert!(both.contains(y));
    assert_eq!(both.symmetric_difference(y).intersection(both), Backup2x8Flags::uv());
}

#[test]
fn left_strip_planes() {
    let y = Backup2x8Flags::y();
    let uv = Backup2x8Flags::uv();
    let both = y.union(uv);
    assert_eq!(left_planes(true, both, y), y);
    assert_eq!(left_planes(false, y, both), uv);
    assert!(left_planes(false, both, y).is_empty());
    assert_eq!(left_planes(false, uv, y), y);
}

#[test]
fn edges_built() {
    assert_eq!(make_edges(true, false, false, true), HAVE_LEFT | HAVE_BOTTOM);
    assert_eq!(make_edges(false, false, false, false), 0);
}

#[test]
fn two_columns_staged() {
    let src: Vec<u16> = (0..400).map(|i| i as u16).collect();
    let mut dst = vec![0u16; 96];
    let flags = Backup2x8Flags::y().union(Backup2x8Flags::uv());
    backup2x8(&mut dst, 1, &src, [20, 200, 300], 10, 8, 8, Rav1dPixelLayout::I420, flags);
    for y in 0..8 {
        assert_eq!(dst[48 + y * 2], (20 + y * 10 + 6) as u16);
        assert_eq!(dst[48 + y * 2 + 1], (20 + y * 10 + 7) as u16);
    }
    for y in 0..4 {
        assert_eq!(dst[48 + 16 + y * 2], (200 + y * 8 + 2) as u16);
        assert_eq!(dst[48 + 32 + y * 2 + 1], (300 + y * 8 + 3) as u16);
    }
    assert!(dst[48 + 16 + 8..48 + 32].iter().all(|&v| v == 0));
    assert!(dst[..48].iter().all(|&v| v == 0));
}

#[test]
fn left_columns_staged_for_luma_only() {
    let src: Vec<u16> = (0..400).map(|i| i as u16).collect();
    let mut dst = vec![7u16; 96];
    backup2x8(&mut dst, 0, &src, [20, 200, 300], 10, 8, 0, Rav1dPixelLayout::I444, Backup2x8Flags::y());
    assert_eq!(dst[0], 18);
    assert_eq!(dst[1], 19);
    assert_eq!(dst[15], 20 + 70 - 1);
    assert!(dst[16..].iter().all(|&v| v == 7));
}

#[test]
fn bottom_up_rows_kept() {
    let src: Vec<u16> = (0..400).map(|i| i as u16).collect();
    let mut dst = vec![0u16; 200];
    // stride -10 from 390: row 7 starts at 320, the copy covers rows 7 and 6
    backup2lines(&mut dst, [50, 0, 0], &src, [390, 0, 0], -10, -10, Rav1dPixelLayout::I400);
    assert_eq!(&dst[40..60], &src[320..340]);
    assert!(dst[..40].iter().all(|&v| v == 0));
    assert!(dst[60..].iter().all(|&v| v == 0));
}

#[test]
fn chroma_inter_type() {
    let big = TxfmInfo { w: 8, h: 8, lw: 3, lh: 3, min: 3, max: 3, sub: 2, ctx: 4 };
    let mid = TxfmInfo { w: 4, h: 8, lw: 2, lh: 3, min: 2, max: 2, sub: 1, ctx: 3 };
    assert_eq!(get_uv_inter_txtp(&big, IDTX), IDTX);
    assert_eq!(get_uv_inter_txtp(&big, H_ADST), DCT_DCT);
    assert_eq!(get_uv_inter_txtp(&mid, H_ADST), DCT_DCT);
    assert_eq!(get_uv_inter_txtp(&mid, 3), 3);
    assert_eq!(get_uv_inter_txtp(&mid, IDTX), IDTX);
}

#[test]
fn integer_mv_rounding() {
    let mut mv = Mv { y: 11, x: -12 };
    fix_int_mv_precision(&mut mv);
    assert_eq!(mv, Mv { y: 8, x: -8 });
    let mut mv = Mv { y: 13, x: -13 };
    fix_int_mv_precision(&mut mv);
    assert_eq!(mv, Mv { y: 16, x: -16 });
}

#[test]
fn mv_precision_by_header() {
    let mut mv = Mv { y: 5, x: -5 };
    fix_mv_precision(&Dav1dFrameHeader { force_integer_mv: 0, hp: 0 }, &mut mv);
    assert_eq!(mv, Mv { y: 4, x: -4 });
    let mut mv = Mv { y: 5, x: -5 };
    fix_mv_precision(&Dav1dFrameHeader { force_integer_mv: 0, hp: 1 }, &mut mv);
    assert_eq!(mv, Mv { y: 5, x: -5 });
    let mut mv = Mv { y: 5, x: -5 };
    fix_mv_precision(&Dav1dFrameHeader { force_integer_mv: 1, hp: 1 }, &mut mv);
    assert_eq!(mv, Mv { y: 8, x: -8 });
}

