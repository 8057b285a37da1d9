//! Every operation against the arithmetic of the machine.

use matter::binary32::single::Single;

fn same(ours: Single, theirs: f32) -> bool {
    if theirs.is_nan() {
        ours.is_nan()
    } else {
        ours.bits == theirs.to_bits()
    }
}

/// Patterns of every kind: zeros, subnormals, powers of two and their neighbours,
/// halves, infinities, what is not a number, and pseudo-random ones.
fn patterns() -> Vec<u32> {
    let mut all: Vec<u32> = vec![
        0x0000_0000, 0x0000_0001, 0x0000_0002, 0x0000_0003, 0x007f_ffff, 0x0080_0000, 0x0080_0001,
        0x00ff_ffff, 0x0100_0000, 0x3f80_0000, 0x3f80_0001, 0x3f7f_ffff, 0x3f00_0000, 0x3eff_ffff,
        0x3fc0_0000, 0x4020_0000, 0x437f_0000, 0x4b00_0000, 0x4aff_ffff, 0x4b7f_ffff, 0x4b80_0000,
        0x4f7f_ffff, 0x4f80_0000, 0x7f7f_ffff, 0x7f7f_fffe, 0x7f80_0000, 0x7fc0_0000, 0x7f80_0001,
        0x3e4c_cccd, 0x3dcc_cccd, 0x4200_0000,
    ];
    let mut state: u64 = 0x9e37_79b9_7f4a_7c15;
    for i in 0..220u32 {
        state = state.wrapping_mul(6364136223846793005).wrapping_add(1442695040888963407);
        let word = (state >> 32) as u32;
        if i % 2 == 0 {
            all.push(word & 0x7fff_ffff);
        } else {
            // Near one another in size, so that sums cancel and carry.
            all.push(0x3f00_0000 + (word % 0x0400_0000));
        }
    }
    let negated: Vec<u32> = all.iter().map(|b| b | 0x8000_0000).collect();
    all.extend(negated);
    all
}

fn check_pairs(op: fn(Single, Single) -> Single, reference: fn(f32, f32) -> f32) {
    let all = patterns();
    for &x in &all {
        for &y in &all {
            let ours = op(Single { bits: x }, Single { bits: y });
            let theirs = reference(f32::from_bits(x), f32::from_bits(y));
            assert!(same(ours, theirs), "{:#x} {:#x}: {:#x} against {:#x}", x, y, ours.bits, theirs.to_bits());
        }
    }
}

fn check_each(op: fn(Single) -> Single, reference: fn(f32) -> f32) {
    for &x in &patterns() {
        let ours = op(Single { bits: x });
        let theirs = reference(f32::from_bits(x));
        assert!(same(ours, theirs), "{:#x}: {:#x} against {:#x}", x, ours.bits, theirs.to_bits());
    }
    for i in 0..200_000u32 {
        let x = i.wrapping_mul(0x9e37_79b1);
        let ours = op(Single { bits: x });
        let theirs = reference(f32::from_bits(x));
        assert!(same(ours, theirs), "{:#x}: {:#x} against {:#x}", x, ours.bits, theirs.to_bits());
    }
}

#[test]
fn sums_are_those_of_the_machine() {
    check_pairs(|a, b| a.add(b), |a, b| a + b);
}

#[test]
fn differences_are_those_of_the_machine() {
    check_pairs(|a, b| a.sub(b), |a, b| a - b);
}

#[test]
fn products_are_those_of_the_machine() {
    check_pairs(|a, b| a.mul(b), |a, b| a * b);
}

#[test]
fn quotients_are_those_of_the_machine() {
    check_pairs(|a, b| a.div(b), |a, b| a / b);
}

#[test]
fn remainders_are_those_of_the_machine() {
    check_pairs(|a, b| a.rem(b), |a, b| a % b);
}

#[test]
fn square_roots_are_those_of_the_machine() {
    check_each(|a| a.sqrt(), |a| a.sqrt());
}

#[test]
fn rounding_to_whole_numbers_is_that_of_the_machine() {
    check_each(|a| a.floor(), |a| a.floor());
    check_each(|a| a.ceil(), |a| a.ceil());
    check_each(|a| a.round(), |a| a.round());
    check_each(|a| a.neg(), |a| -a);
}

#[test]
fn comparisons_are_those_of_the_machine() {
    let all = patterns();
    for &x in &all {
        for &y in &all {
            let (a, b) = (Single { bits: x }, Single { bits: y });
            let (f, g) = (f32::from_bits(x), f32::from_bits(y));
            assert_eq!(a.lt(b), f < g, "{:#x} {:#x}", x, y);
            assert_eq!(a.le(b), f <= g, "{:#x} {:#x}", x, y);
            if f != g {
                assert!(same(a.max(b), f.max(g)), "{:#x} {:#x}", x, y);
                assert!(same(a.min(b), f.min(g)), "{:#x} {:#x}", x, y);
            }
        }
    }
}

#[test]
fn clamping_is_that_of_the_machine() {
    for &x in &patterns() {
        let ours = Single { bits: x }.clamp(Single::from_u32(1), Single::from_u32(255));
        assert!(same(ours, f32::from_bits(x).clamp(1.0, 255.0)), "{:#x}", x);
    }
}

#[test]
fn casts_are_those_of_the_machine() {
    for &x in &patterns() {
        assert_eq!(Single { bits: x }.to_u32(), f32::from_bits(x) as u32, "{:#x}", x);
        assert_eq!(Single { bits: x }.to_u8(), f32::from_bits(x) as u8, "{:#x}", x);
        assert_eq!(Single::from_u32(x).bits, (x as f32).to_bits(), "{}", x);
    }
    for i in 0..100_000u32 {
        let x = i.wrapping_mul(0x9e37_79b1);
        assert_eq!(Single { bits: x }.to_u32(), f32::from_bits(x) as u32, "{:#x}", x);
        assert_eq!(Single::from_u32(x).bits, (x as f32).to_bits(), "{}", x);
    }
}
