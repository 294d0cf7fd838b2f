use robotics::shortest::shortest;
use robotics::literal::{
    literal_equal, is_negative_literal, is_zero_literal, literal_difference, literal_product, literal_quotient,
    literal_sum, literal_text, negate_literal, NAN, NEG_ONE, NEG_ZERO, ONE, POS_ZERO, TWO,
};

fn is_nan(b: u32) -> bool {
    f32::from_bits(b).is_nan()
}

fn next(state: &mut u64) -> u32 {
    *state = state.wrapping_mul(6364136223846793005).wrapping_add(1442695040888963407);
    (*state >> 32) as u32
}

fn text(b: u32) -> String {
    literal_text(b).into_iter().collect()
}

fn samples() -> Vec<u32> {
    let mut v = vec![
        0u32, 0x8000_0000, 1, 2, 0x8000_0001, 0x007F_FFFF, 0x0080_0000, 0x0080_0001, 0x00FF_FFFF,
        0x3F80_0000, 0xBF80_0000, 0x4000_0000, 0x3F00_0000, 0x3F7F_FFFF, 0x3F80_0001,
        0x7F7F_FFFF, 0xFF7F_FFFF, 0x7F80_0000, 0xFF80_0000, 0x7FC0_0000, 0x7F80_0001,
        0x4B80_0000, 0x4B7F_FFFF, 0x4B00_0001, 0x3400_0000, 0x3380_0000, 0x3380_0001,
    ];
    for x in [3.0f32, 4.0, 7.0, 0.1, 0.2, 0.3, 1.5, 2.5, 1e-40, 1e38, 3e38, 16777216.0, 16777217.0, 1e-45, 0.35] {
        v.push(x.to_bits());
        v.push((-x).to_bits());
    }
    v
}

fn check_binary(name: &str, ours: fn(u32, u32) -> u32, theirs: fn(f32, f32) -> f32, a: u32, b: u32) {
    let got = ours(a, b);
    let want = theirs(f32::from_bits(a), f32::from_bits(b)).to_bits();
    if is_nan(want) {
        assert!(is_nan(got), "{} of {:#x} and {:#x}: {:#x}, not a NaN", name, a, b, got);
    } else {
        assert_eq!(got, want, "{} of {:#x} and {:#x}", name, a, b);
    }
}

fn check_all(name: &str, ours: fn(u32, u32) -> u32, theirs: fn(f32, f32) -> f32) {
    let s = samples();
    for &a in s.iter() {
        for &b in s.iter() {
            check_binary(name, ours, theirs, a, b);
        }
    }
    let mut state: u64 = 0x1234_5678_9ABC_DEF0;
    for _ in 0..40000 {
        let a = next(&mut state);
        let b = next(&mut state);
        check_binary(name, ours, theirs, a, b);
    }
    // Operands close to one another, where every digit matters.
    for _ in 0..40000 {
        let a = next(&mut state);
        let near = (next(&mut state) % 0x0400_0000).wrapping_sub(0x0200_0000);
        let flip = next(&mut state) & 0x8000_0000;
        let b = a.wrapping_add(near) ^ flip;
        check_binary(name, ours, theirs, a, b);
    }
}

#[test]
fn sums_agree_with_the_machine() {
    check_all("sum", literal_sum, |a, b| a + b);
}

#[test]
fn differences_agree_with_the_machine() {
    check_all("difference", literal_difference, |a, b| a - b);
}

#[test]
fn products_agree_with_the_machine() {
    check_all("product", literal_product, |a, b| a * b);
}

#[test]
fn quotients_agree_with_the_machine() {
    check_all("quotient", literal_quotient, |a, b| a / b);
}

#[test]
fn three_plus_four_is_seven() {
    assert_eq!(literal_sum(3f32.to_bits(), 4f32.to_bits()), 7f32.to_bits());
    assert_eq!(literal_product(2f32.to_bits(), 0f32.to_bits()), 0f32.to_bits());
    assert_eq!(literal_quotient(1f32.to_bits(), 0f32.to_bits()), f32::INFINITY.to_bits());
    assert_eq!(literal_quotient(0f32.to_bits(), 0f32.to_bits()), NAN);
    assert_eq!(literal_difference(ONE, ONE), POS_ZERO);
}

#[test]
fn named_patterns_are_the_numbers() {
    assert_eq!(POS_ZERO, 0f32.to_bits());
    assert_eq!(NEG_ZERO, (-0f32).to_bits());
    assert_eq!(ONE, 1f32.to_bits());
    assert_eq!(NEG_ONE, (-1f32).to_bits());
    assert_eq!(TWO, 2f32.to_bits());
    assert!(is_nan(NAN));
}

#[test]
fn negation_flips_the_sign() {
    for &a in samples().iter() {
        assert_eq!(negate_literal(a), (-f32::from_bits(a)).to_bits());
        assert_eq!(negate_literal(negate_literal(a)), a);
        assert_eq!(is_zero_literal(a), f32::from_bits(a) == 0f32);
        assert_eq!(is_negative_literal(a), f32::from_bits(a) < 0f32);
    }
}

#[test]
fn whole_numbers_print_as_the_machine_prints_them() {
    for n in 0..3000u32 {
        let x = n as f32;
        assert_eq!(text(x.to_bits()), format!("{}", x));
        assert_eq!(text((-x).to_bits()), format!("{}", -x));
    }
    assert_eq!(text(16777216f32.to_bits()), "16777216");
}

#[test]
fn short_fractions_print_as_the_machine_prints_them() {
    for x in [0.5f32, 0.25, 0.125, 1.5, 2.75, 1024.0625, 0.0078125, 3.5, 100.5] {
        assert_eq!(text(x.to_bits()), format!("{}", x));
        assert_eq!(text((-x).to_bits()), format!("{}", -x));
    }
}

#[test]
fn text_is_the_shortest_decimal_that_reads_back() {
    assert_eq!(text(0.1f32.to_bits()), "0.1");
    assert_eq!(text(0.3f32.to_bits()), "0.3");
    assert_eq!(text(1.1f32.to_bits()), "1.1");
    assert_eq!(text(0.35f32.to_bits()), "0.35");
    assert_eq!(text(1u32), "0.000000000000000000000000000000000000000000001");
    assert_eq!(text(2u32), "0.000000000000000000000000000000000000000000003");
    assert_eq!(text(f32::MIN_POSITIVE.to_bits()), "0.000000000000000000000000000000000000011754944");
    assert_eq!(text(f32::MAX.to_bits()), "340282350000000000000000000000000000000");
    assert_eq!(text(1e30f32.to_bits()), "1000000000000000000000000000000");
    assert_eq!(text(1e11f32.to_bits()), "100000000000");
    assert_eq!(text(16777216f32.to_bits()), "16777216");
    assert_eq!(text(16777218f32.to_bits()), "16777218");
    assert_eq!(text(33554432f32.to_bits()), "33554432");
    assert_eq!(text(1000f32.to_bits()), "1000");
    assert_eq!(text(0.001f32.to_bits()), "0.001");
    assert_eq!(text(123.456f32.to_bits()), "123.456");
    assert_eq!(text(f32::EPSILON.to_bits()), "0.00000011920929");
    assert_eq!(text(std::f32::consts::PI.to_bits()), "3.1415927");
    assert_eq!(text(f32::INFINITY.to_bits()), "inf");
    assert_eq!(text(f32::NEG_INFINITY.to_bits()), "-inf");
    assert_eq!(text(f32::NAN.to_bits()), "NaN");
    assert_eq!(text(POS_ZERO), "0");
    assert_eq!(text(NEG_ZERO), "-0");
}

#[test]
fn the_shortest_decimal_in_digits_and_exponent() {
    assert_eq!(shortest(0xCC_CCCD, -27), (1, -1));
    assert_eq!(shortest(0x80_0000, -23), (1, 0));
    assert_eq!(shortest(0x80_0000, -22), (2, 0));
    assert_eq!(shortest(0xA0_0000, -20), (1, 1));
    assert_eq!(shortest(0xC0_0000, -23), (15, -1));
    assert_eq!(shortest(1, -149), (1, -45));
    assert_eq!(shortest(0xFF_FFFF, 104), (34028235, 31));
    assert_eq!(shortest(0x80_0000, 1), (16777216, 0));
    assert_eq!(shortest(0xFA_0000, -14), (1, 3));
    assert_eq!(shortest(0xC9_0FDB, -22), (31415927, -7));
}

fn machine_text(a: u32) -> String {
    format!("{}", f32::from_bits(a))
}

#[test]
fn every_text_is_what_the_machine_prints() {
    for &a in samples().iter().chain(grid().iter()) {
        assert_eq!(text(a), machine_text(a), "{:#x}", a);
    }
    let mut state: u64 = 0x0DDB_A115;
    for _ in 0..150000 {
        let a = next(&mut state);
        assert_eq!(text(a), machine_text(a), "{:#x}", a);
    }
}

#[test]
fn texts_around_round_numbers_are_what_the_machine_prints() {
    for k in -46..=38 {
        for lead in 1..=9 {
            let x: f32 = format!("{}e{}", lead, k).parse().unwrap();
            for away in 0..6u32 {
                for a in [x.to_bits().wrapping_add(away), x.to_bits().wrapping_sub(away)] {
                    if f32::from_bits(a).is_finite() {
                        assert_eq!(text(a), machine_text(a), "{:#x}", a);
                    }
                }
            }
        }
    }
    for field in 0..255u32 {
        for fraction in [0u32, 1, 2, 0x3F_FFFF, 0x40_0000, 0x7F_FFFE, 0x7F_FFFF] {
            let a = (field << 23) | fraction;
            assert_eq!(text(a), machine_text(a), "{:#x}", a);
            assert_eq!(text(a | 0x8000_0000), machine_text(a | 0x8000_0000), "{:#x}", a);
        }
    }
    for n in 0..200000u32 {
        let x = n as f32 / 1000.0;
        assert_eq!(text(x.to_bits()), format!("{}", x));
    }
}

#[test]
fn text_reads_back_as_the_same_literal() {
    let mut state: u64 = 77;
    for _ in 0..3000 {
        let a = next(&mut state);
        let x = f32::from_bits(a);
        if x.is_finite() {
            let back: f32 = text(a).parse().unwrap();
            assert_eq!(back.to_bits(), a);
        }
    }
}

fn grid() -> Vec<u32> {
    let exponents = [0u32, 1, 2, 22, 23, 24, 25, 100, 103, 104, 126, 127, 128, 129, 150, 151, 152, 230, 253, 254, 255];
    let fractions = [0u32, 1, 2, 3, 0x3F_FFFF, 0x40_0000, 0x40_0001, 0x7F_FFFE, 0x7F_FFFF];
    let mut v = Vec::new();
    for e in exponents {
        for f in fractions {
            v.push((e << 23) | f);
            v.push(0x8000_0000 | (e << 23) | f);
        }
    }
    v
}

#[test]
fn sums_agree_on_a_grid_of_patterns() {
    let g = grid();
    for &a in g.iter() {
        for &b in g.iter() {
            check_binary("sum", literal_sum, |a, b| a + b, a, b);
            check_binary("difference", literal_difference, |a, b| a - b, a, b);
        }
    }
}

#[test]
fn products_agree_on_a_grid_of_patterns() {
    let g = grid();
    for &a in g.iter() {
        for &b in g.iter() {
            check_binary("product", literal_product, |a, b| a * b, a, b);
        }
    }
}

#[test]
fn quotients_agree_on_a_grid_of_patterns() {
    let g = grid();
    for &a in g.iter() {
        for &b in g.iter() {
            check_binary("quotient", literal_quotient, |a, b| a / b, a, b);
        }
    }
}

#[test]
fn one_and_zero_change_no_literal() {
    for &a in grid().iter() {
        if !is_nan(a) {
            assert_eq!(literal_product(a, ONE), a);
            assert_eq!(literal_product(ONE, a), a);
            assert_eq!(literal_quotient(a, ONE), a);
            if a != NEG_ZERO {
                assert_eq!(literal_sum(a, POS_ZERO), a);
                assert_eq!(literal_sum(POS_ZERO, a), a);
                assert_eq!(literal_difference(a, POS_ZERO), a);
            }
        }
        for &b in grid().iter().take(40) {
            assert_eq!(literal_sum(a, b), literal_sum(b, a));
            assert_eq!(literal_product(a, b), literal_product(b, a));
        }
    }
}

#[test]
fn literals_are_equal_as_the_machine_says() {
    let g = grid();
    for &a in g.iter() {
        for &b in g.iter().take(60) {
            assert_eq!(literal_equal(a, b), f32::from_bits(a) == f32::from_bits(b));
        }
        assert_eq!(literal_equal(a, a), !is_nan(a));
    }
}
