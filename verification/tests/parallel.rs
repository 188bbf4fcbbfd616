use niri_display::planes::{
    par_i420_to_rgb, par_nv12_to_rgb, par_rgb_to_i420, par_rgb_to_nv12, par_run, I420ToRgb,
    Nv12ToRgb, Plane, RgbToI420, RgbToNv12,
};
use niri_display::rows::{par_rows, PAR_MIN_PIXELS};

// Sized to exceed PAR_MIN_PIXELS, so that the frame is cut; the odd height leaves an odd last slice.
const W: usize = 2560;
const H: usize = 831;
const WORKERS: Option<usize> = Some(8);

fn rgba(seed: u8) -> Vec<u8> {
    (0..W * H * 4)
        .map(|i| (i as u8).wrapping_mul(31).wrapping_add(seed))
        .collect()
}

fn plane(offset: usize, stride: usize) -> Plane {
    Plane { offset, stride: stride as i32 }
}

fn at(p: Plane, row: usize, byte: usize) -> usize {
    p.offset + row * p.stride as usize + byte
}

fn luma(px: &[u8]) -> u8 {
    ((66 * px[2] as u32 + 129 * px[1] as u32 + 25 * px[0] as u32 + 0x1080) >> 8) as u8
}

// The mean of a channel over the pixels of a 2x2 block that lie inside the frame.
fn block(src: &[u8], p: Plane, width: usize, height: usize, x: usize, y: usize, c: usize) -> i32 {
    let mut sum = 0;
    let mut n = 0;
    for r in y..(y + 2).min(height) {
        for k in x..(x + 2).min(width) {
            sum += src[at(p, r, 4 * k + c)] as i32;
            n += 1;
        }
    }
    (sum + n / 2) / n
}

fn chroma(src: &[u8], p: Plane, width: usize, height: usize, x: usize, y: usize) -> (u8, u8) {
    let b = block(src, p, width, height, x, y, 0);
    let g = block(src, p, width, height, x, y, 1);
    let r = block(src, p, width, height, x, y, 2);
    let u = (112 * b - 74 * g - 38 * r + 0x8080) >> 8;
    let v = (112 * r - 94 * g - 18 * b + 0x8080) >> 8;
    (u as u8, v as u8)
}

fn argb_to_nv12(src: &[u8], dst: &mut [u8], call: &RgbToNv12) -> i32 {
    let (w, h) = (call.width as usize, call.height as usize);
    for y in 0..h {
        for x in 0..w {
            let s = at(call.src, y, 4 * x);
            dst[at(call.dst_y, y, x)] = luma(&src[s..s + 4]);
        }
    }
    for y in (0..h).step_by(2) {
        for x in (0..w).step_by(2) {
            let (u, v) = chroma(src, call.src, w, h, x, y);
            dst[at(call.dst_uv, y / 2, x)] = u;
            dst[at(call.dst_uv, y / 2, x + 1)] = v;
        }
    }
    0
}

fn argb_to_i420(src: &[u8], dst: &mut [u8], call: &RgbToI420) -> i32 {
    let (w, h) = (call.width as usize, call.height as usize);
    for y in 0..h {
        for x in 0..w {
            let s = at(call.src, y, 4 * x);
            dst[at(call.dst_y, y, x)] = luma(&src[s..s + 4]);
        }
    }
    for y in (0..h).step_by(2) {
        for x in (0..w).step_by(2) {
            let (u, v) = chroma(src, call.src, w, h, x, y);
            dst[at(call.dst_u, y / 2, x / 2)] = u;
            dst[at(call.dst_v, y / 2, x / 2)] = v;
        }
    }
    0
}

fn to_argb(y: u8, u: u8, v: u8) -> [u8; 4] {
    let c = 298 * (y as i32 - 16);
    let (d, e) = (u as i32 - 128, v as i32 - 128);
    let clamp = |x: i32| ((x + 128) >> 8).clamp(0, 255) as u8;
    [clamp(c + 516 * d), clamp(c - 100 * d - 208 * e), clamp(c + 409 * e), 255]
}

fn nv12_to_argb(src: &[u8], dst: &mut [u8], call: &Nv12ToRgb) -> i32 {
    for y in 0..call.height as usize {
        for x in 0..call.width as usize {
            let c = at(call.src_uv, y / 2, x / 2 * 2);
            let px = to_argb(src[at(call.src_y, y, x)], src[c], src[c + 1]);
            let d = at(call.dst, y, 4 * x);
            dst[d..d + 4].copy_from_slice(&px);
        }
    }
    0
}

fn i420_to_argb(src: &[u8], dst: &mut [u8], call: &I420ToRgb) -> i32 {
    for y in 0..call.height as usize {
        for x in 0..call.width as usize {
            let u = src[at(call.src_u, y / 2, x / 2)];
            let v = src[at(call.src_v, y / 2, x / 2)];
            let px = to_argb(src[at(call.src_y, y, x)], u, v);
            let d = at(call.dst, y, 4 * x);
            dst[d..d + 4].copy_from_slice(&px);
        }
    }
    0
}

#[test]
fn par_rgb_to_nv12_matches_single() {
    let src = rgba(7);
    let (sy, suv) = (W, W);
    let mut one = vec![0u8; sy * H + suv * (H + 1) / 2];
    let mut par = one.clone();
    let call = RgbToNv12 {
        src: plane(0, W * 4),
        dst_y: plane(0, sy),
        dst_uv: plane(sy * H, suv),
        width: W as i32,
        height: H as i32,
    };
    let r = argb_to_nv12(&src, &mut one, &call);
    assert_eq!(r, 0);
    let calls = par_rgb_to_nv12(WORKERS, call);
    assert_eq!(calls.len(), 8);
    let codes: Vec<i32> = calls.iter().map(|c| argb_to_nv12(&src, &mut par, c)).collect();
    let r = par_run(&codes);
    assert_eq!(r, 0);
    assert!(one == par);
}

#[test]
fn par_rgb_to_i420_matches_single() {
    let src = rgba(3);
    let (sy, sc) = (W, W / 2);
    let plane_c = sc * (H + 1) / 2;
    let mut one = vec![0u8; sy * H + 2 * plane_c];
    let mut par = one.clone();
    let call = RgbToI420 {
        src: plane(0, W * 4),
        dst_y: plane(0, sy),
        dst_u: plane(sy * H, sc),
        dst_v: plane(sy * H + plane_c, sc),
        width: W as i32,
        height: H as i32,
    };
    let r = argb_to_i420(&src, &mut one, &call);
    assert_eq!(r, 0);
    let calls = par_rgb_to_i420(WORKERS, call);
    assert_eq!(calls.len(), 8);
    let codes: Vec<i32> = calls.iter().rev().map(|c| argb_to_i420(&src, &mut par, c)).collect();
    let r = par_run(&codes);
    assert_eq!(r, 0);
    assert!(one == par);
}

#[test]
fn par_nv12_to_rgb_matches_single() {
    let sy = W;
    let suv = W;
    let yuv = rgba(11);
    let mut one = vec![0u8; W * H * 4];
    let mut par = one.clone();
    let call = Nv12ToRgb {
        src_y: plane(0, sy),
        src_uv: plane(sy * H, suv),
        dst: plane(0, W * 4),
        width: W as i32,
        height: H as i32,
    };
    let r = nv12_to_argb(&yuv, &mut one, &call);
    assert_eq!(r, 0);
    let calls = par_nv12_to_rgb(WORKERS, call);
    assert_eq!(calls.len(), 8);
    let codes: Vec<i32> = calls.iter().map(|c| nv12_to_argb(&yuv, &mut par, c)).collect();
    let r = par_run(&codes);
    assert_eq!(r, 0);
    assert!(one == par);
}

#[test]
fn par_i420_to_rgb_matches_single() {
    let sy = W;
    let sc = W / 2;
    let plane_c = sc * (H + 1) / 2;
    let yuv = rgba(23);
    let mut one = vec![0u8; W * H * 4];
    let mut par = one.clone();
    let call = I420ToRgb {
        src_y: plane(0, sy),
        src_u: plane(sy * H, sc),
        src_v: plane(sy * H + plane_c, sc),
        dst: plane(0, W * 4),
        width: W as i32,
        height: H as i32,
    };
    let r = i420_to_argb(&yuv, &mut one, &call);
    assert_eq!(r, 0);
    let calls = par_i420_to_rgb(WORKERS, call);
    assert_eq!(calls.len(), 8);
    let codes: Vec<i32> = calls.iter().rev().map(|c| i420_to_argb(&yuv, &mut par, c)).collect();
    let r = par_run(&codes);
    assert_eq!(r, 0);
    assert!(one == par);
}

#[test]
fn slices_start_on_even_rows_and_cover_the_frame() {
    let slices = par_rows(WORKERS, W as i32, H as i32);
    assert_eq!(
        slices,
        vec![(0, 104), (104, 104), (208, 104), (312, 104), (416, 104), (520, 104), (624, 104), (728, 103)]
    );
}

#[test]
fn small_frames_and_single_workers_are_not_cut() {
    assert_eq!(PAR_MIN_PIXELS, 2097152);
    assert_eq!(par_rows(WORKERS, 1920, 1080), vec![(0, 1080)]);
    assert_eq!(par_rows(WORKERS, 2048, 1023), vec![(0, 1023)]);
    assert_eq!(par_rows(WORKERS, 2048, 1024).len(), 8);
    assert_eq!(par_rows(Some(1), W as i32, H as i32), vec![(0, H)]);
    assert_eq!(par_rows(None, W as i32, H as i32), vec![(0, H)]);
    assert_eq!(par_rows(WORKERS, -5, 7), vec![(0, 7)]);
    assert_eq!(par_rows(WORKERS, 7, -5), vec![(0, 0)]);
}

#[test]
fn workers_are_limited_by_count_and_by_rows() {
    assert_eq!(par_rows(Some(64), W as i32, 2000).len(), 8);
    // 200 rows make three slices of at least 64 rows.
    assert_eq!(par_rows(WORKERS, 20000, 200), vec![(0, 68), (68, 68), (136, 64)]);
    // Too few rows for more than one slice.
    assert_eq!(par_rows(WORKERS, 100000, 63), vec![(0, 63)]);
}

#[test]
fn a_frame_that_is_not_cut_keeps_its_call() {
    let call = RgbToNv12 {
        src: plane(0, 64),
        dst_y: plane(0, 16),
        dst_uv: plane(256, 16),
        width: 16,
        height: 16,
    };
    let calls = par_rgb_to_nv12(WORKERS, call);
    assert_eq!(calls.len(), 1);
    assert_eq!(calls[0].dst_uv, plane(256, 16));
    assert_eq!((calls[0].width, calls[0].height), (16, 16));
}

#[test]
fn a_failed_slice_is_the_outcome() {
    assert_eq!(par_run(&vec![0, 0, 0]), 0);
    assert_eq!(par_run(&vec![0, -1, 0]), -1);
    assert_eq!(par_run(&vec![3, -1, 0]), -1);
    assert_eq!(par_run(&vec![]), 0);
}

#[test]
fn slices_write_apart() {
    let (sy, suv) = (W, W);
    let call = RgbToNv12 {
        src: plane(0, W * 4),
        dst_y: plane(0, sy),
        dst_uv: plane(sy * H, suv),
        width: W as i32,
        height: H as i32,
    };
    let mut written = vec![0u8; sy * H + suv * (H + 1) / 2];
    for c in par_rgb_to_nv12(WORKERS, call) {
        for y in 0..c.height as usize {
            for x in 0..W {
                written[at(c.dst_y, y, x)] += 1;
            }
        }
        for y in 0..(c.height as usize + 1) / 2 {
            for x in 0..W {
                written[at(c.dst_uv, y, x)] += 1;
            }
        }
    }
    assert!(written.iter().all(|n| *n == 1));
}
