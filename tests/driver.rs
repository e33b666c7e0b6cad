use rav1d_cdef::brow::rav1d_cdef_brow;
use rav1d_cdef::brow::BlockMask;
use rav1d_cdef::brow::CdefFrame;
use rav1d_cdef::brow::CdefStrengths;
use rav1d_cdef::cdef::HAVE_BOTTOM;
use rav1d_cdef::cdef::HAVE_LEFT;
use rav1d_cdef::cdef::HAVE_RIGHT;
use rav1d_cdef::cdef::HAVE_TOP;
use rav1d_cdef::cdef_apply::adjust_strength;
use rav1d_cdef::cdef_apply::LineBases;
use rav1d_cdef::cdef_apply::LineSource;
use rav1d_cdef::cdef_apply::Rav1dPixelLayout;
use rav1d_cdef::cdef_apply::SliceInfo;
use rav1d_cdef::dsp::CallRecorder;

const Y_STRIDE: isize = 160;
const UV_STRIDE: isize = 96;
const Y_BASE: usize = 8;
const U_BASE: usize = 160 * 24 + 8;
const V_BASE: usize = 160 * 24 + 96 * 16 + 8;
const PX_LEN: usize = 160 * 24 + 96 * 32;

fn pixels() -> Vec<u16> {
    (0..PX_LEN).map(|i| (i % 251) as u16).collect()
}

fn lines() -> LineBases {
    LineBases {
        cdef_line: [[0, 400, 700], [1000, 1400, 1700]],
        cdef_lpf_line: [2000, 2400, 2700],
        lr_lpf_line: [3000, 3400, 3700],
    }
}

fn frame(width_blocks: i32, layout: Rav1dPixelLayout, y_lvl: u8, uv_lvl: u8) -> CdefFrame {
    let mut y_strength = [0u8; 8];
    let mut uv_strength = [0u8; 8];
    y_strength[0] = y_lvl;
    uv_strength[0] = uv_lvl;
    CdefFrame {
        bitdepth_min_8: 0,
        bitdepth_max: 255,
        layout,
        bw: width_blocks,
        bh: 4,
        sb128w: 1,
        cdef: CdefStrengths { damping: 3, y_strength, uv_strength },
        y_stride: Y_STRIDE,
        uv_stride: UV_STRIDE,
        lines: lines(),
    }
}

fn mask(cdef_idx: i8, noskip_low: u16) -> BlockMask {
    let mut noskip_mask = [[0u16; 2]; 16];
    for row in noskip_mask.iter_mut() {
        row[0] = noskip_low;
        row[1] = noskip_low;
    }
    BlockMask { cdef_idx: [cdef_idx; 4], noskip_mask }
}

fn single(by_end: i32) -> SliceInfo {
    SliceInfo {
        have_tt: false,
        sbrow_start: false,
        by_start: 0,
        by_end,
        sby: 0,
        resize: false,
        sb128: false,
    }
}

struct Run {
    rec: CallRecorder,
    px: Vec<u16>,
    line_buf: Vec<u16>,
    toggle: i32,
}

fn run(f: &CdefFrame, masks: &Vec<BlockMask>, sl: &SliceInfo, dir: u8, variance: u32) -> Run {
    let mut rec = CallRecorder::new(dir, variance);
    let mut px = pixels();
    let mut line_buf = vec![0u16; 4096];
    let lr_buf = vec![0u16; 4096];
    let mut toggle = 0;
    rav1d_cdef_brow(
        &mut rec,
        &mut toggle,
        f,
        masks,
        &mut px,
        &mut line_buf,
        &lr_buf,
        [Y_BASE, U_BASE, V_BASE],
        0,
        sl,
    );
    Run { rec, px, line_buf, toggle }
}

#[test]
fn all_skip_sb_row() {
    let f = frame(16, Rav1dPixelLayout::I420, 4, 4);
    let masks = vec![mask(0, 0)];
    let r = run(&f, &masks, &single(4), 0, 0);
    assert_eq!(r.px, pixels());
    assert_eq!(r.rec.probes.len(), 0);
    assert_eq!(r.rec.calls.len(), 0);
    assert_eq!(r.toggle, 0);
}

#[test]
fn filter_off_everywhere_leaves_pixels() {
    let f = frame(16, Rav1dPixelLayout::I420, 63, 63);
    let masks = vec![mask(-1, 0xffff)];
    let r = run(&f, &masks, &single(4), 2, 5000);
    assert_eq!(r.px, pixels());
    assert!(r.rec.probes.is_empty());
    assert!(r.rec.calls.is_empty());
}

#[test]
fn single_non_skip_block() {
    let f = frame(16, Rav1dPixelLayout::I420, 16, 0);
    let masks = vec![mask(0, 1)];
    let r = run(&f, &masks, &single(2), 5, 1000);
    assert_eq!(r.rec.probes.len(), 1);
    assert_eq!(r.rec.calls.len(), 1);
    let c = r.rec.calls[0];
    assert_eq!(c.plane, 0);
    assert_eq!(c.kernel, 0);
    assert_eq!(c.pri, adjust_strength(4, 1000));
    assert_eq!(c.pri, 2);
    assert_eq!(c.sec, 0);
    assert_eq!(c.dir, 5);
    assert_eq!(c.damping, 3);
    assert_eq!(c.edges, HAVE_RIGHT | HAVE_BOTTOM);
    assert_eq!(r.toggle, 1);
}

#[test]
fn toggle_flips_once_per_strip() {
    let f = frame(16, Rav1dPixelLayout::I420, 0, 0);
    let masks = vec![mask(-1, 0)];
    assert_eq!(run(&f, &masks, &single(2), 0, 0).toggle, 1);
    assert_eq!(run(&f, &masks, &single(4), 0, 0).toggle, 0);
}

#[test]
fn edge_flags_along_the_row() {
    let f = frame(16, Rav1dPixelLayout::I400, 1, 0);
    let masks = vec![mask(0, 0xffff)];
    let r = run(&f, &masks, &single(4), 0, 0);
    let calls: Vec<_> = r.rec.calls.iter().filter(|c| c.plane == 0).collect();
    assert_eq!(calls.len(), 16);
    for c in &calls {
        let last_col = c.bx + 2 >= 16;
        assert_eq!(c.edges & HAVE_RIGHT != 0, !last_col);
        assert_eq!(c.edges & HAVE_LEFT != 0, c.bx > 0);
        assert_eq!(c.edges & HAVE_TOP != 0, c.by > 0);
        assert_eq!(c.edges & HAVE_BOTTOM != 0, c.by == 0);
    }
}

#[test]
fn monochrome_never_filters_chroma() {
    let f = frame(16, Rav1dPixelLayout::I400, 20, 20);
    let masks = vec![mask(0, 0xffff)];
    let r = run(&f, &masks, &single(4), 1, 9000);
    assert!(!r.rec.calls.is_empty());
    assert!(r.rec.calls.iter().all(|c| c.plane == 0));
    assert_eq!(&r.px[U_BASE - 8..], &pixels()[U_BASE - 8..]);
}

#[test]
fn no_primary_strength_never_probes() {
    let f = frame(16, Rav1dPixelLayout::I444, 3, 2);
    let masks = vec![mask(0, 0xffff)];
    let r = run(&f, &masks, &single(4), 1, 9000);
    assert!(r.rec.probes.is_empty());
    assert!(!r.rec.calls.is_empty());
    for c in &r.rec.calls {
        assert_eq!(c.pri, 0);
        assert_eq!(c.dir, 0);
    }
}

#[test]
fn chroma_calls_of_i422() {
    let f = frame(16, Rav1dPixelLayout::I422, 0, 16 + 3);
    let masks = vec![mask(0, 1)];
    let r = run(&f, &masks, &single(2), 3, 100);
    assert_eq!(r.rec.calls.len(), 2);
    for (i, c) in r.rec.calls.iter().enumerate() {
        assert_eq!(c.plane, i + 1);
        assert_eq!(c.kernel, 1);
        assert_eq!(c.dir, 4);
        assert_eq!(c.pri, 4);
        assert_eq!(c.sec, 4);
        assert_eq!(c.damping, 2);
    }
}

#[test]
fn ping_pong_alternation() {
    let f = frame(16, Rav1dPixelLayout::I400, 1, 0);
    let masks = vec![mask(0, 0x00ff)];
    let r = run(&f, &masks, &single(2), 0, 0);
    let slots: Vec<usize> = r.rec.calls.iter().map(|c| c.left).collect();
    assert_eq!(slots, vec![0, 48, 0, 48]);
}

#[test]
fn skipped_block_keeps_the_slot() {
    let f = frame(16, Rav1dPixelLayout::I400, 1, 0);
    // blocks 0, 2 and 3 coded, block 1 skipped
    let masks = vec![mask(0, 0b1111_0011)];
    let r = run(&f, &masks, &single(2), 0, 0);
    let slots: Vec<usize> = r.rec.calls.iter().map(|c| c.left).collect();
    assert_eq!(slots, vec![0, 48, 0]);
    let cols: Vec<i32> = r.rec.calls.iter().map(|c| c.bx).collect();
    assert_eq!(cols, vec![0, 4, 6]);
}

#[test]
fn bottom_rows_kept_for_next_strip() {
    let f = frame(16, Rav1dPixelLayout::I420, 0, 0);
    let masks = vec![mask(-1, 0)];
    let r = run(&f, &masks, &single(2), 0, 0);
    let px = pixels();
    // toggle 0 writes strip 1: luma rows 6 and 7, chroma rows 2 and 3
    let y_src = Y_BASE + 6 * Y_STRIDE as usize;
    assert_eq!(&r.line_buf[1000..1000 + 320], &px[y_src..y_src + 320]);
    let u_src = U_BASE + 2 * UV_STRIDE as usize;
    assert_eq!(&r.line_buf[1400..1400 + 192], &px[u_src..u_src + 192]);
    let v_src = V_BASE + 2 * UV_STRIDE as usize;
    assert_eq!(&r.line_buf[1700..1700 + 192], &px[v_src..v_src + 192]);
    assert!(r.line_buf[..1000].iter().all(|&v| v == 0));
}

#[test]
fn tile_threaded_first_row_reads_lr_lines() {
    let mut f = frame(32, Rav1dPixelLayout::I400, 1, 0);
    f.sb128w = 1;
    let masks = vec![mask(0, 0xffff)];
    let sl = SliceInfo {
        have_tt: true,
        sbrow_start: true,
        by_start: 0,
        by_end: 2,
        sby: 0,
        resize: false,
        sb128: false,
    };
    let r = run(&f, &masks, &sl, 0, 0);
    assert_eq!(r.rec.calls.len(), 16);
    for c in &r.rec.calls {
        assert_eq!(c.top, LineSource::LrLine(3000 - 4 * Y_STRIDE as i128 + c.bx as i128 * 4));
        assert_eq!(
            c.bot,
            LineSource::Frame(Y_BASE as i128 + c.bx as i128 * 4 + 8 * Y_STRIDE as i128)
        );
    }
}

#[test]
fn left_strip_is_pre_filter_neighbour() {
    let f = frame(16, Rav1dPixelLayout::I420, 1, 1);
    let masks = vec![mask(0, 0x00ff)];
    let r = run(&f, &masks, &single(2), 0, 0);
    let px = pixels();
    let luma: Vec<usize> = (0..r.rec.calls.len()).filter(|&i| r.rec.calls[i].plane == 0).collect();
    assert_eq!(luma.len(), 4);
    for &i in &luma[1..] {
        let c = r.rec.calls[i];
        assert!(c.edges & HAVE_LEFT != 0);
        for y in 0..8 {
            for x in 0..2 {
                let at = (c.block as isize + y as isize * Y_STRIDE - 2 + x as isize) as usize;
                assert_eq!(r.rec.lefts[i][c.left + 2 * y + x], px[at]);
            }
        }
    }
    for (i, c) in r.rec.calls.iter().enumerate() {
        if c.plane != 0 && c.bx > 0 {
            for y in 0..4 {
                for x in 0..2 {
                    let at = (c.block as isize + y as isize * UV_STRIDE - 2 + x as isize) as usize;
                    assert_eq!(r.rec.lefts[i][c.left + 2 * y + x], px[at]);
                }
            }
        }
    }
}
