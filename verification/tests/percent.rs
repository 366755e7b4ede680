use system_stats::binary32::Binary32;
use system_stats::percent::ram_percent;

fn hardware_percent(used: u64, total: u64) -> f32 {
    if total > 0 {
        (used as f64 / total as f64 * 100.0) as f32
    } else {
        0.0
    }
}

fn next(state: &mut u64) -> u64 {
    *state = state.wrapping_mul(6364136223846793005).wrapping_add(1442695040888963407);
    let mut x = *state;
    x ^= x >> 33;
    x = x.wrapping_mul(0xff51afd7ed558ccd);
    x ^= x >> 29;
    x
}

#[test]
fn half_of_sixteen_gibibytes_is_fifty_percent() {
    let total: u64 = 16384 * 1024 * 1024;
    let used: u64 = 8192 * 1024 * 1024;
    let r = ram_percent(used, total);
    assert_eq!(f32::from_bits(r.bits), 50.0);
    assert_eq!(r, Binary32 { bits: 0x4248_0000 });
}

#[test]
fn simple_fractions_have_their_known_patterns() {
    assert_eq!(ram_percent(1, 3).bits, 0x4205_5555);
    assert_eq!(ram_percent(2, 3).bits, 0x4285_5555);
    assert_eq!(ram_percent(1, 7).bits, 0x4164_9249);
    assert_eq!(ram_percent(250_000, 500_000).bits, 0x4248_0000);
    assert_eq!(ram_percent(7, 7).bits, 0x42c8_0000);
}

#[test]
fn equal_counts_give_one_hundred() {
    assert_eq!(ram_percent(1, 1).bits, 0x42c8_0000);
    assert_eq!(ram_percent(1_048_576, 1_048_576).bits, 0x42c8_0000);
    assert_eq!(ram_percent(u64::MAX, u64::MAX).bits, 0x42c8_0000);
}

#[test]
fn an_excess_too_small_to_show_still_gives_one_hundred() {
    assert_eq!(ram_percent((1 << 40) + 1, 1 << 40).bits, 0x42c8_0000);
    assert_eq!(ram_percent(u64::MAX, u64::MAX - 1).bits, 0x42c8_0000);
    assert_eq!(f32::from_bits(ram_percent(1001, 1000).bits), 100.1);
    assert_eq!(ram_percent(2, 1).bits, 200.0f32.to_bits());
}

#[test]
fn percent_of_zero_total_is_zero() {
    assert_eq!(ram_percent(0, 0).bits, 0);
    assert_eq!(ram_percent(12345, 0).bits, 0);
    assert_eq!(ram_percent(u64::MAX, 0).bits, 0);
}

#[test]
fn percent_of_zero_used_is_zero() {
    assert_eq!(ram_percent(0, 1).bits, 0);
    assert_eq!(ram_percent(0, u64::MAX).bits, 0);
}

#[test]
fn percent_matches_hardware_on_chosen_values() {
    let cases: [(u64, u64); 16] = [
        (1, 1),
        (1, 3),
        (2, 3),
        (1, 7),
        (1, u64::MAX),
        (u64::MAX, 1),
        (u64::MAX, u64::MAX),
        (u64::MAX - 1, u64::MAX),
        (9007199254740993, 9007199254740992),
        (9007199254740992, 9007199254740993),
        (250000, 500000),
        (8_589_934_592, 17_179_869_184),
        (6_123_456_789, 16_000_000_000),
        (3, 1),
        (1 << 63, (1 << 63) + 1),
        (1099511627777, 1099511627776),
    ];
    for (used, total) in cases {
        let r = ram_percent(used, total);
        assert_eq!(r.bits, hardware_percent(used, total).to_bits(), "{} / {}", used, total);
    }
}

#[test]
fn percent_matches_hardware_on_many_values() {
    let mut state: u64 = 0x1234_5678_9abc_def0;
    for i in 0..200_000u32 {
        let a = next(&mut state);
        let b = next(&mut state);
        let shift_a = (next(&mut state) % 64) as u32;
        let shift_b = (next(&mut state) % 64) as u32;
        let used = a >> shift_a;
        let total = b >> shift_b;
        let r = ram_percent(used, total);
        let expected = hardware_percent(used, total).to_bits();
        assert_eq!(r.bits, expected, "case {}: {} / {}", i, used, total);
    }
}

#[test]
fn percent_matches_hardware_when_used_is_within_total() {
    let mut state: u64 = 0x0fed_cba9_8765_4321;
    for i in 0..200_000u32 {
        let b = next(&mut state) >> ((next(&mut state) % 40) as u32);
        let total = if b == 0 { 1 } else { b };
        let used = next(&mut state) % (total + if total < u64::MAX { 1 } else { 0 });
        let r = ram_percent(used, total);
        let h = hardware_percent(used, total);
        assert_eq!(r.bits, h.to_bits(), "case {}: {} / {}", i, used, total);
        assert!(0.0 <= f32::from_bits(r.bits) && f32::from_bits(r.bits) <= 100.0);
    }
}
