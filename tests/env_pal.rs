use rav1d_cdef::env::get_gmv_2d;
use rav1d_cdef::env::get_poc_diff;
use rav1d_cdef::env::Dav1dFrameHeader;
use rav1d_cdef::env::Dav1dWarpedMotionParams;
use rav1d_cdef::env::Mv;
use rav1d_cdef::env::WM_TYPE_AFFINE;
use rav1d_cdef::env::WM_TYPE_IDENTITY;
use rav1d_cdef::env::WM_TYPE_ROT_ZOOM;
use rav1d_cdef::env::WM_TYPE_TRANSLATION;
use rav1d_cdef::pal::pal_idx_finish_rust;
use rav1d_cdef::pal::PalIdxFinishFn;
use rav1d_cdef::pal::Rav1dPalDSPContext;

#[test]
fn poc_distance_wraps() {
    assert_eq!(get_poc_diff(7, 3, 126), 5);
    assert_eq!(get_poc_diff(7, 126, 3), -5);
    assert_eq!(get_poc_diff(7, 10, 4), 6);
    assert_eq!(get_poc_diff(0, 5, 1), 0);
    assert_eq!(get_poc_diff(8, 0, 128), -128);
}

fn hdr(force_integer_mv: u8, hp: u8) -> Dav1dFrameHeader {
    Dav1dFrameHeader { force_integer_mv, hp }
}

#[test]
fn gmv_identity_is_zero() {
    let gmv = Dav1dWarpedMotionParams { type_0: WM_TYPE_IDENTITY, matrix: [99, 99, 0, 0, 0, 0] };
    assert_eq!(get_gmv_2d(&gmv, 3, 4, 2, 2, &hdr(1, 1)), Mv { y: 0, x: 0 });
}

#[test]
fn gmv_translation() {
    let gmv = Dav1dWarpedMotionParams {
        type_0: WM_TYPE_TRANSLATION,
        matrix: [3 << 13, -5 << 13, 65536, 0, 0, 65536],
    };
    assert_eq!(get_gmv_2d(&gmv, 0, 0, 2, 2, &hdr(0, 1)), Mv { y: 3, x: -5 });
    assert_eq!(get_gmv_2d(&gmv, 0, 0, 2, 2, &hdr(1, 1)), Mv { y: 0, x: -8 });
}

#[test]
fn gmv_affine_shift() {
    let gmv = Dav1dWarpedMotionParams {
        type_0: WM_TYPE_AFFINE,
        matrix: [1 << 16, -(1 << 16), 65536, 0, 0, 65536],
    };
    assert_eq!(get_gmv_2d(&gmv, 5, 7, 2, 2, &hdr(0, 1)), Mv { y: -8, x: 8 });
    assert_eq!(get_gmv_2d(&gmv, 5, 7, 2, 2, &hdr(0, 0)), Mv { y: -8, x: 8 });
}

#[test]
fn gmv_rot_zoom_scale() {
    let gmv = Dav1dWarpedMotionParams {
        type_0: WM_TYPE_ROT_ZOOM,
        matrix: [0, 0, 2 * 65536, 0, 0, 2 * 65536],
    };
    // block centre (3, 3) scaled by 2 moves by 3 pixels
    assert_eq!(get_gmv_2d(&gmv, 0, 0, 2, 2, &hdr(0, 1)), Mv { y: 24, x: 24 });
}

fn indices(bw: usize, bh: usize) -> Vec<u8> {
    (0..bw * bh).map(|i| ((i * 5 + i / bw) % 8) as u8).collect()
}

fn expected(src: &[u8], bw: usize, bh: usize, w: usize, h: usize) -> Vec<u8> {
    let mut out = vec![0u8; bw / 2 * bh];
    for y in 0..bh {
        let sy = y.min(h - 1);
        for x in 0..bw / 2 {
            out[y * (bw / 2) + x] = if x < w / 2 {
                src[sy * bw + 2 * x] | (src[sy * bw + 2 * x + 1] << 4)
            } else {
                0x11 * src[sy * bw + w]
            };
        }
    }
    out
}

#[test]
fn palette_packing_fills_invisible_part() {
    let src = indices(8, 8);
    let mut dst = vec![0xaau8; 40];
    pal_idx_finish_rust(&mut dst, &src, 8, 8, 4, 4);
    assert_eq!(&dst[..32], &expected(&src, 8, 8, 4, 4)[..]);
    assert_eq!(dst[0], src[0] | (src[1] << 4));
    assert_eq!(dst[2], 0x11 * src[4]);
    assert_eq!(&dst[28..32], &dst[12..16]);
    assert!(dst[32..].iter().all(|&v| v == 0xaa));
}

#[test]
fn palette_packing_whole_block_in_place() {
    let src = indices(16, 4);
    let mut buf = src.clone();
    let ctx = Rav1dPalDSPContext::new(0);
    assert_eq!(ctx.pal_idx_finish, PalIdxFinishFn::Portable);
    ctx.pal_idx_finish.call_in_place(&mut buf, 16, 4, 16, 4);
    assert_eq!(&buf[..32], &expected(&src, 16, 4, 16, 4)[..]);
    assert_eq!(&buf[32..], &src[32..]);
}

#[test]
fn palette_packing_through_context() {
    let src = indices(4, 8);
    let mut dst = vec![0u8; 16];
    Rav1dPalDSPContext::default().pal_idx_finish.call(&mut dst, &src, 4, 8, 4, 4);
    assert_eq!(dst, expected(&src, 4, 8, 4, 4));
}
