//! Compositing against the arithmetic of the machine, and what holds of it.

use matter::canvas::blend::{apply_wet_erase_over_current, apply_wet_over_current, buffers_fit};

fn painted(cur: [u8; 4], wet: [u8; 4]) -> [u8; 4] {
    let mut bytes = cur.to_vec();
    apply_wet_over_current(&mut bytes, &wet.to_vec());
    [bytes[0], bytes[1], bytes[2], bytes[3]]
}

fn erased(cur: [u8; 4], wet: [u8; 4]) -> [u8; 4] {
    let mut bytes = cur.to_vec();
    apply_wet_erase_over_current(&mut bytes, &wet.to_vec());
    [bytes[0], bytes[1], bytes[2], bytes[3]]
}

/// The same formulas on the numbers of the machine.
fn machine_painted(cur: [u8; 4], wet: [u8; 4]) -> [u8; 4] {
    let sa = wet[3] as f32 / 255.0;
    if sa <= 0.0 {
        return cur;
    }
    let da = cur[3] as f32 / 255.0;
    let out_a = sa + da * (1.0 - sa);
    if out_a <= 0.0 {
        return cur;
    }
    let mut out = [0u8; 4];
    for c in 0..3 {
        let s = wet[c] as f32 / 255.0;
        let d = cur[c] as f32 / 255.0;
        let v = (s * sa + d * da * (1.0 - sa)) / out_a;
        out[c] = (v * 255.0).round().clamp(0.0, 255.0) as u8;
    }
    out[3] = (out_a * 255.0).round().clamp(0.0, 255.0) as u8;
    out
}

fn machine_erased(cur: [u8; 4], wet: [u8; 4]) -> [u8; 4] {
    let erase = wet[3] as f32 / 255.0;
    if erase <= 0.0 {
        return cur;
    }
    let ca = cur[3] as f32 / 255.0;
    let alpha = (ca * (1.0 - erase) * 255.0).round().clamp(0.0, 255.0) as u8;
    [cur[0], cur[1], cur[2], alpha]
}

fn pixels(count: u32) -> Vec<([u8; 4], [u8; 4])> {
    let mut all: Vec<([u8; 4], [u8; 4])> = vec![];
    let mut state: u64 = 1;
    for _ in 0..count {
        state = state.wrapping_mul(6364136223846793005).wrapping_add(1442695040888963407);
        let other = state.wrapping_mul(0x9e37_79b9_7f4a_7c15);
        all.push((((state >> 32) as u32).to_be_bytes(), ((other >> 32) as u32).to_be_bytes()));
    }
    all
}

#[test]
fn painting_is_that_of_the_machine() {
    for (cur, wet) in pixels(60_000) {
        assert_eq!(painted(cur, wet), machine_painted(cur, wet), "{:?} {:?}", cur, wet);
    }
}

#[test]
fn erasing_is_that_of_the_machine() {
    for (cur, wet) in pixels(20_000) {
        assert_eq!(erased(cur, wet), machine_erased(cur, wet), "{:?} {:?}", cur, wet);
    }
}

#[test]
fn every_erased_alpha_is_the_exact_one_rounded() {
    for erase in 1..=255u32 {
        for alpha in 0..=255u32 {
            let out = erased([9, 8, 7, alpha as u8], [0, 0, 0, erase as u8]);
            assert_eq!(out[3] as u32, (alpha * (255 - erase) + 127) / 255);
            assert_eq!([out[0], out[1], out[2]], [9, 8, 7]);
        }
    }
}

#[test]
fn every_painted_alpha_is_the_exact_one_rounded() {
    for paint in 1..=255u32 {
        for backdrop in (0..=255u32).step_by(3) {
            let out = painted([0, 0, 0, backdrop as u8], [0, 0, 0, paint as u8]);
            assert_eq!(out[3] as u32, (255 * paint + backdrop * (255 - paint) + 127) / 255);
        }
    }
}

#[test]
fn painted_colours_are_close_to_the_exact_mean() {
    for (cur, wet) in pixels(20_000) {
        let pa = wet[3] as i64;
        if pa == 0 {
            continue;
        }
        let w = 255 * pa + cur[3] as i64 * (255 - pa);
        let out = painted(cur, wet);
        for c in 0..3 {
            let seen = wet[c] as i64 * 255 * pa + cur[c] as i64 * cur[3] as i64 * (255 - pa);
            let off = out[c] as i64 * w - seen;
            assert!((10 * off).abs() <= 7 * w);
            assert!(out[c] >= wet[c].min(cur[c]) && out[c] <= wet[c].max(cur[c]));
        }
    }
}

#[test]
fn half_red_over_white() {
    assert_eq!(painted([255, 255, 255, 255], [255, 0, 0, 128]), [255, 127, 127, 255]);
}

#[test]
fn dry_pixels_stay() {
    assert_eq!(painted([1, 2, 3, 4], [200, 100, 50, 0]), [1, 2, 3, 4]);
    assert_eq!(erased([1, 2, 3, 4], [200, 100, 50, 0]), [1, 2, 3, 4]);
}

#[test]
fn opaque_paint_takes_the_place() {
    for c in 0..=255u8 {
        assert_eq!(painted([7, 99, 200, 133], [c, 255 - c, c / 2, 255]), [c, 255 - c, c / 2, 255]);
    }
}

#[test]
fn paint_on_an_empty_pixel_is_seen_as_it_is() {
    for alpha in 1..=255u8 {
        assert_eq!(painted([17, 18, 19, 0], [alpha, 3, 254, alpha]), [alpha, 3, 254, alpha]);
    }
}

#[test]
fn erasing_in_full_leaves_no_alpha() {
    for alpha in 0..=255u8 {
        assert_eq!(erased([1, 2, 3, alpha], [0, 0, 0, 255]), [1, 2, 3, 0]);
    }
}

#[test]
fn alphas_rise_by_paint_and_fall_by_erasing() {
    for (cur, wet) in pixels(5_000) {
        assert!(painted(cur, wet)[3] >= cur[3]);
        assert!(painted(cur, wet)[3] >= wet[3]);
        assert!(erased(cur, wet)[3] <= cur[3]);
    }
}

#[test]
fn several_pixels_at_once() {
    let mut cur = vec![10, 20, 30, 255, 1, 2, 3, 0, 9, 9, 9, 9];
    let wet = vec![0, 0, 0, 0, 50, 60, 70, 80, 255, 255, 255, 255];
    apply_wet_over_current(&mut cur, &wet);
    assert_eq!(cur, vec![10, 20, 30, 255, 50, 60, 70, 80, 255, 255, 255, 255]);
}

#[test]
fn which_buffers_fit() {
    assert!(buffers_fit(&vec![], &vec![]));
    assert!(buffers_fit(&vec![1, 2, 3, 4], &vec![0, 0, 0, 9]));
    // The wet buffer may be longer.
    assert!(buffers_fit(&vec![1, 2, 3, 4], &vec![0; 40]));
    // It may not be shorter.
    assert!(!buffers_fit(&vec![1, 2, 3, 4], &vec![0, 0, 0]));
    assert!(!buffers_fit(&vec![0; 8], &vec![0; 4]));
    // A pixel that is cut short may only be dry.
    assert!(buffers_fit(&vec![1, 2, 3, 4, 5], &vec![0; 8]));
    assert!(!buffers_fit(&vec![1, 2, 3, 4, 5], &vec![0, 0, 0, 0, 0, 0, 0, 1]));
}
