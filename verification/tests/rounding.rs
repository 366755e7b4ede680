use system_stats::rounding::{round_nearest, Dyadic};

fn next(state: &mut u64) -> u64 {
    *state = state.wrapping_mul(6364136223846793005).wrapping_add(1442695040888963407);
    let mut x = *state;
    x ^= x >> 33;
    x = x.wrapping_mul(0xff51afd7ed558ccd);
    x ^= x >> 29;
    x
}

/// Significand and exponent of a positive normal double.
fn parts_of_double(x: f64) -> (u64, i32) {
    let bits = x.to_bits();
    let mant = (bits & 0x000f_ffff_ffff_ffff) | 0x0010_0000_0000_0000;
    let exp = ((bits >> 52) & 0x7ff) as i32 - 1075;
    (mant, exp)
}

/// Significand and exponent of a positive normal single.
fn parts_of_single(x: f32) -> (u64, i32) {
    let bits = x.to_bits();
    let mant = ((bits & 0x007f_ffff) | 0x0080_0000) as u64;
    let exp = ((bits >> 23) & 0xff) as i32 - 150;
    (mant, exp)
}

#[test]
fn one_rounds_to_itself() {
    assert_eq!(round_nearest(1, 1, 53), Dyadic { mant: 1 << 52, exp: -52 });
    assert_eq!(round_nearest(1, 1, 24), Dyadic { mant: 1 << 23, exp: -23 });
    assert_eq!(round_nearest(1, 1, 1), Dyadic { mant: 1, exp: 0 });
}

#[test]
fn equal_numerator_and_denominator_round_to_one() {
    assert_eq!(round_nearest(12345, 12345, 53), Dyadic { mant: 1 << 52, exp: -52 });
    assert_eq!(round_nearest(u64::MAX, u64::MAX, 53), Dyadic { mant: 1 << 52, exp: -52 });
}

#[test]
fn small_whole_numbers_are_exact() {
    assert_eq!(round_nearest(100, 1, 53), Dyadic { mant: 25 << 48, exp: -46 });
    assert_eq!(round_nearest(100, 1, 24), Dyadic { mant: 25 << 19, exp: -17 });
    assert_eq!(round_nearest(3, 1, 2), Dyadic { mant: 3, exp: 0 });
    assert_eq!(round_nearest(3, 4, 2), Dyadic { mant: 3, exp: -2 });
}

#[test]
fn ties_go_to_the_even_significand() {
    // 2^53 + 1 lies halfway between 2^53 and 2^53 + 2
    assert_eq!(round_nearest((1 << 53) + 1, 1, 53), Dyadic { mant: 1 << 52, exp: 1 });
    // 2^53 + 3 lies halfway between 2^53 + 2 and 2^53 + 4
    assert_eq!(round_nearest((1 << 53) + 3, 1, 53), Dyadic { mant: (1 << 52) + 2, exp: 1 });
    // 5 / 2 lies halfway between 2 and 3, 7 / 2 between 3 and 4
    assert_eq!(round_nearest(5, 2, 2), Dyadic { mant: 2, exp: 0 });
    assert_eq!(round_nearest(7, 2, 2), Dyadic { mant: 2, exp: 1 });
}

#[test]
fn what_is_off_the_tie_goes_to_the_nearer() {
    // just above and just below the halfway point between 2^53 and 2^53 + 2
    assert_eq!(round_nearest((1 << 54) + 3, 2, 53), Dyadic { mant: (1 << 52) + 1, exp: 1 });
    assert_eq!(round_nearest((1 << 54) + 1, 2, 53), Dyadic { mant: 1 << 52, exp: 1 });
    // one third, to three bits: 0.0101010... is nearest to 5 / 16
    assert_eq!(round_nearest(1, 3, 3), Dyadic { mant: 5, exp: -4 });
    // two thirds, to three bits: 0.101010... is nearest to 5 / 8
    assert_eq!(round_nearest(2, 3, 3), Dyadic { mant: 5, exp: -3 });
}

#[test]
fn a_carried_significand_becomes_the_next_power_of_two() {
    assert_eq!(round_nearest(u64::MAX, 1, 53), Dyadic { mant: 1 << 52, exp: 12 });
    assert_eq!(round_nearest((1 << 53) - 1, 1, 24), Dyadic { mant: 1 << 23, exp: 30 });
    assert_eq!(round_nearest(15, 8, 3), Dyadic { mant: 4, exp: -1 });
}

#[test]
fn the_widest_precision_keeps_every_bit() {
    assert_eq!(round_nearest((1 << 63) - 1, 1, 63), Dyadic { mant: (1 << 63) - 1, exp: 0 });
    assert_eq!(round_nearest(u64::MAX, 1, 63), Dyadic { mant: 1 << 62, exp: 2 });
    assert_eq!(round_nearest(1, u64::MAX, 63), Dyadic { mant: 1 << 62, exp: -126 });
}

#[test]
fn the_extreme_ratios_round() {
    assert_eq!(round_nearest(u64::MAX, 1, 1), Dyadic { mant: 1, exp: 64 });
    assert_eq!(round_nearest(1, u64::MAX, 1), Dyadic { mant: 1, exp: -64 });
    assert_eq!(parts_of_double(1.0 / u64::MAX as f64), (1 << 52, -116));
    assert_eq!(round_nearest(1, u64::MAX, 53), Dyadic { mant: 1 << 52, exp: -116 });
}

#[test]
fn rounding_matches_the_conversion_to_double() {
    let mut state: u64 = 42;
    for _ in 0..100_000u32 {
        let x = next(&mut state) >> ((next(&mut state) % 64) as u32);
        if x == 0 {
            continue;
        }
        let r = round_nearest(x, 1, 53);
        assert_eq!((r.mant, r.exp), parts_of_double(x as f64), "{}", x);
    }
}

#[test]
fn rounding_matches_the_conversion_to_single() {
    let mut state: u64 = 43;
    for _ in 0..100_000u32 {
        let x = next(&mut state) >> ((next(&mut state) % 64) as u32);
        if x == 0 {
            continue;
        }
        let r = round_nearest(x, 1, 24);
        assert_eq!((r.mant, r.exp), parts_of_single(x as f32), "{}", x);
    }
}

#[test]
fn rounding_matches_the_division_of_doubles() {
    let mut state: u64 = 7;
    for _ in 0..100_000u32 {
        let a = (next(&mut state) >> 11) | (1 << 52);
        let b = (next(&mut state) >> 11) | (1 << 52);
        let r = round_nearest(a, b, 53);
        assert_eq!((r.mant, r.exp), parts_of_double(a as f64 / b as f64), "{} / {}", a, b);
    }
}

#[test]
fn rounding_keeps_the_order_of_ratios() {
    let mut state: u64 = 99;
    for _ in 0..50_000u32 {
        let d = (next(&mut state) >> 40) + 1;
        let a = next(&mut state) >> 30;
        let b = a + (next(&mut state) >> 50);
        if a == 0 {
            continue;
        }
        let x = round_nearest(a, d, 24);
        let y = round_nearest(b, d, 24);
        assert!((x.exp, x.mant) <= (y.exp, y.mant), "{} <= {} over {}", a, b, d);
    }
}
