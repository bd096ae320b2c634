use egui_vulkano::float32::{divide, excess_code, multiply, ratio_code, round_code, truncate_code};
use egui_vulkano::mesh::normalize;

fn next(state: &mut u64) -> u64 {
    *state = state
        .wrapping_mul(6364136223846793005)
        .wrapping_add(1442695040888963407);
    *state >> 16
}

fn same(word: u32, number: f32) -> bool {
    if number.is_nan() {
        f32::from_bits(word).is_nan()
    } else {
        word == number.to_bits()
    }
}

const CORNERS: [u32; 24] = [
    0x0000_0000, 0x8000_0000, 0x0000_0001, 0x8000_0001, 0x007f_ffff, 0x0080_0000, 0x0080_0001,
    0x00ff_ffff, 0x0100_0000, 0x3eff_ffff, 0x3f00_0000, 0x3f7f_ffff, 0x3f80_0000, 0xbf80_0000,
    0x3f80_0001, 0x4b00_0000, 0x4b7f_ffff, 0x4f80_0000, 0x7f7f_fffe, 0x7f7f_ffff, 0x7f80_0000,
    0xff80_0000, 0x7fc0_0000, 0x0034_5678,
];

#[test]
fn products_of_corner_cases() {
    for &a in CORNERS.iter() {
        for &b in CORNERS.iter() {
            let expected = f32::from_bits(a) * f32::from_bits(b);
            assert!(same(multiply(a, b), expected), "{:x} * {:x}", a, b);
        }
    }
}

#[test]
fn quotients_of_corner_cases() {
    for &a in CORNERS.iter() {
        for &b in CORNERS.iter() {
            let expected = f32::from_bits(a) / f32::from_bits(b);
            assert!(same(divide(a, b), expected), "{:x} / {:x}", a, b);
        }
    }
}

#[test]
fn products_and_quotients_of_many_patterns() {
    let mut state: u64 = 7;
    for _ in 0..200_000 {
        let a = next(&mut state) as u32;
        let b = next(&mut state) as u32;
        let x = f32::from_bits(a);
        let y = f32::from_bits(b);
        assert!(same(multiply(a, b), x * y), "{:x} * {:x}", a, b);
        assert!(same(divide(a, b), x / y), "{:x} / {:x}", a, b);
        // Subnormal results need operands that nearly cancel.
        let c = (b & 0x807f_ffff) | ((a & 0x3f80_0000) >> 1);
        let z = f32::from_bits(c);
        assert!(same(multiply(a, c), x * z), "{:x} * {:x}", a, c);
        assert!(same(divide(c, a), z / x), "{:x} / {:x}", c, a);
    }
}

#[test]
fn whole_numbers_become_patterns() {
    let mut state: u64 = 11;
    for &x in [0u32, 1, 2, 0xff_ffff, 0x100_0000, 0x100_0001, 0x100_0003, u32::MAX].iter() {
        assert_eq!(ratio_code(x, 1), (x as f32).to_bits());
    }
    for _ in 0..100_000 {
        let x = next(&mut state) as u32;
        assert_eq!(ratio_code(x, 1), (x as f32).to_bits());
        let small = x >> (x % 32);
        assert_eq!(ratio_code(small, 1), (small as f32).to_bits());
    }
}

#[test]
fn every_color_component() {
    for c in 0..=255u8 {
        assert_eq!(normalize(c), (c as f32 / 255.0).to_bits());
    }
    assert_eq!(normalize(0), 0);
    assert_eq!(normalize(255), 0x3f80_0000);
    assert_eq!(normalize(51), 0x3e4c_cccd);
}

#[test]
fn brighter_components_stay_brighter() {
    for c in 0..255u8 {
        assert!(normalize(c) < normalize(c + 1));
    }
}

#[test]
fn rounding_truncating_and_subtracting() {
    let mut state: u64 = 13;
    let mut codes: Vec<u32> = vec![
        0, 1, 0x3eff_ffff, 0x3f00_0000, 0x3f00_0001, 0x3f7f_ffff, 0x3f80_0000, 0x3fc0_0000,
        0x4020_0000, 0x4aff_ffff, 0x4b00_0000, 0x4b00_0001, 0x4f7f_ffff, 0x4f80_0000,
    ];
    for _ in 0..100_000 {
        codes.push((next(&mut state) % 0x4f80_0001) as u32);
        codes.push(0x3e00_0000 + (next(&mut state) % 0x0d00_0000) as u32);
    }
    for &code in codes.iter() {
        let x = f32::from_bits(code);
        assert_eq!(round_code(code), x.round() as u64);
        assert_eq!(truncate_code(code), x as u64);
        let other = f32::from_bits((next(&mut state) % 0x4f80_0001) as u32).round();
        for whole in [other, x.round(), x.round() + 1.0].iter() {
            if *whole <= 4294967296.0 {
                let difference = *whole - x;
                let expected = if difference > 0.0 { difference } else { 0.0 };
                assert_eq!(excess_code(*whole as u64, code), expected.to_bits());
            }
        }
    }
}

#[test]
fn scale_one_changes_nothing() {
    let one = 1.0f32.to_bits();
    for &word in CORNERS.iter() {
        if !f32::from_bits(word).is_nan() {
            assert_eq!(multiply(word, one), word);
            assert_eq!(divide(word, one), word);
        }
    }
}
