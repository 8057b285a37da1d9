//! Numbers as text.

use matter::binary32::single::Single;
use matter::text::{push_decimal, push_whole};

fn decimal(n: u128) -> String {
    let mut text = String::new();
    push_decimal(&mut text, n);
    text
}

fn whole(x: f32) -> String {
    let mut text = String::new();
    push_whole(&mut text, Single { bits: x.to_bits() });
    text
}

#[test]
fn natural_numbers_in_decimal() {
    for n in [0u128, 1, 9, 10, 11, 99, 100, 255, 1000, 65_535, 4_294_967_295, u64::MAX as u128, u128::MAX] {
        assert_eq!(decimal(n), format!("{}", n));
    }
    for n in 0..3000u128 {
        assert_eq!(decimal(n), format!("{}", n));
    }
}

#[test]
fn decimal_is_put_behind_what_is_there() {
    let mut text = String::from("Layer ");
    push_decimal(&mut text, 42);
    assert_eq!(text, "Layer 42");
}

#[test]
fn numbers_rounded_to_whole_ones() {
    let some = [
        0.0f32, -0.0, 0.5, 1.5, 2.5, 3.5, -0.5, -1.5, -2.5, 0.4999, 0.51, 1.0, 9.5, 10.5, 99.5, 100.5, 12.3,
        -12.7, 1e10, 3.4e38, -3.4e38, 1e-40, f32::MAX, f32::MIN_POSITIVE, 8_388_607.5, 16_777_215.0, 16_777_216.0,
    ];
    for x in some {
        assert_eq!(whole(x), format!("{:.0}", x), "{:?}", x);
    }
    for i in 0..40_000u32 {
        let x = f32::from_bits(i.wrapping_mul(0x9e37_79b1));
        assert_eq!(whole(x), format!("{:.0}", x), "{:?}", x);
    }
}

#[test]
fn numbers_that_are_not_finite() {
    assert_eq!(whole(f32::NAN), "NaN");
    assert_eq!(whole(f32::INFINITY), "inf");
    assert_eq!(whole(f32::NEG_INFINITY), "-inf");
    assert_eq!(whole(-0.0), "-0");
}
