use system_stats::binary32::{
    clamp_percent, Binary32, HUNDRED_BITS, INFINITY_BITS, SIGN_BIT, ZERO_BITS,
};

fn next(state: &mut u64) -> u64 {
    *state = state.wrapping_mul(6364136223846793005).wrapping_add(1442695040888963407);
    let mut x = *state;
    x ^= x >> 33;
    x = x.wrapping_mul(0xff51afd7ed558ccd);
    x ^= x >> 29;
    x
}

fn clamp(x: f32) -> f32 {
    f32::from_bits(clamp_percent(Binary32::from_bits(x.to_bits())).to_bits())
}

#[test]
fn the_named_patterns_are_those_of_the_hardware() {
    assert_eq!(ZERO_BITS, 0.0f32.to_bits());
    assert_eq!(HUNDRED_BITS, 100.0f32.to_bits());
    assert_eq!(INFINITY_BITS, f32::INFINITY.to_bits());
    assert_eq!(SIGN_BIT, (-0.0f32).to_bits());
}

#[test]
fn a_pattern_goes_in_and_comes_out_unchanged() {
    assert_eq!(Binary32::from_bits(0x4309_8000).to_bits(), 0x4309_8000);
    assert_eq!(Binary32::from_bits(0).to_bits(), 0);
    assert_eq!(Binary32::from_bits(u32::MAX).to_bits(), u32::MAX);
}

#[test]
fn a_reading_above_one_hundred_becomes_one_hundred() {
    assert_eq!(clamp(137.5), 100.0);
    assert_eq!(clamp(100.00001), 100.0);
    assert_eq!(clamp(f32::MAX), 100.0);
    assert_eq!(clamp(f32::INFINITY), 100.0);
}

#[test]
fn a_reading_below_zero_becomes_zero() {
    assert_eq!(clamp(-0.5).to_bits(), 0);
    assert_eq!(clamp(-137.5).to_bits(), 0);
    assert_eq!(clamp(f32::MIN).to_bits(), 0);
    assert_eq!(clamp(f32::NEG_INFINITY).to_bits(), 0);
    assert_eq!(clamp(-f32::MIN_POSITIVE).to_bits(), 0);
}

#[test]
fn minus_zero_becomes_plus_zero() {
    assert_eq!(clamp(-0.0).to_bits(), 0);
}

#[test]
fn a_reading_that_is_not_a_number_becomes_one_hundred() {
    assert_eq!(clamp(f32::NAN), 100.0);
    assert_eq!(clamp(-f32::NAN), 100.0);
    assert_eq!(clamp(f32::from_bits(0x7f80_0001)), 100.0);
    assert_eq!(clamp(f32::from_bits(0xffff_ffff)), 100.0);
}

#[test]
fn a_reading_in_range_stays_as_it_is() {
    let readings: [f32; 9] = [
        0.0,
        f32::from_bits(1),
        f32::MIN_POSITIVE,
        0.1,
        12.5,
        50.0,
        99.99999,
        f32::from_bits(HUNDRED_BITS - 1),
        100.0,
    ];
    for x in readings {
        assert_eq!(clamp(x).to_bits(), x.to_bits());
    }
}

#[test]
fn clamping_matches_the_hardware_on_many_patterns() {
    let mut state: u64 = 2024;
    for _ in 0..500_000u32 {
        let bits = next(&mut state) as u32;
        let x = f32::from_bits(bits);
        let expected = x.min(100.0).max(0.0);
        let got = clamp(x);
        // equal as numbers: the two zeros count as one
        assert_eq!(got, expected, "pattern {:#x}", bits);
        assert!(0.0 <= got && got <= 100.0);
        assert!(got.is_sign_positive());
    }
}

#[test]
fn clamping_matches_the_hardware_near_the_bounds() {
    for offset in 0..2000u32 {
        let bases: [u32; 5] = [
            0,
            HUNDRED_BITS - 1000,
            INFINITY_BITS - 1000,
            SIGN_BIT,
            SIGN_BIT + INFINITY_BITS - 1000,
        ];
        for base in bases {
            let bits = base + offset;
            let x = f32::from_bits(bits);
            assert_eq!(clamp(x), x.min(100.0).max(0.0), "pattern {:#x}", bits);
        }
    }
}

#[test]
fn clamping_twice_is_clamping_once() {
    let mut state: u64 = 5;
    for _ in 0..100_000u32 {
        let x = Binary32::from_bits(next(&mut state) as u32);
        let once = clamp_percent(x);
        assert_eq!(clamp_percent(once), once);
    }
}
