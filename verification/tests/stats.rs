use system_stats::binary32::Binary32;
use system_stats::stats::{
    bytes_to_mb, describe_failure, get_system_stats, snapshot, RawCounters, SystemStats,
    BYTES_PER_MB,
};

fn next(state: &mut u64) -> u64 {
    *state = state.wrapping_mul(6364136223846793005).wrapping_add(1442695040888963407);
    let mut x = *state;
    x ^= x >> 33;
    x = x.wrapping_mul(0xff51afd7ed558ccd);
    x ^= x >> 29;
    x
}

fn report(cpu: f32, total: u64, used: u64) -> RawCounters {
    RawCounters {
        cpu_usage: Binary32::from_bits(cpu.to_bits()),
        total_memory: total,
        used_memory: used,
    }
}

fn number(b: Binary32) -> f32 {
    f32::from_bits(b.to_bits())
}

const MB: u64 = 1024 * 1024;

#[test]
fn a_megabyte_is_1024_times_1024_bytes() {
    assert_eq!(BYTES_PER_MB, 1_048_576);
}

#[test]
fn bytes_become_whole_megabytes() {
    assert_eq!(bytes_to_mb(0), 0);
    assert_eq!(bytes_to_mb(1), 0);
    assert_eq!(bytes_to_mb(1_048_575), 0);
    assert_eq!(bytes_to_mb(1_048_576), 1);
    assert_eq!(bytes_to_mb(1_048_577), 1);
    assert_eq!(bytes_to_mb(2_097_151), 1);
    assert_eq!(bytes_to_mb(17_179_869_184), 16384);
    assert_eq!(bytes_to_mb(u64::MAX), 17_592_186_044_415);
}

#[test]
fn half_of_the_memory_in_use() {
    let stats = get_system_stats(Ok(report(25.0, 16384 * MB, 8192 * MB))).unwrap();
    assert_eq!(number(stats.ram_percent), 50.0);
    assert_eq!(stats.ram_used_mb, 8192);
    assert_eq!(stats.ram_total_mb, 16384);
    assert_eq!(number(stats.cpu), 25.0);
    assert_eq!(stats.gpu, None);
}

#[test]
fn no_memory_installed() {
    let stats = get_system_stats(Ok(report(3.0, 0, 0))).unwrap();
    assert_eq!(number(stats.ram_percent), 0.0);
    assert_eq!(stats.ram_percent.to_bits(), 0);
    assert_eq!(stats.ram_total_mb, 0);
    assert_eq!(stats.ram_used_mb, 0);
    let stats = get_system_stats(Ok(report(3.0, 0, 4096 * MB))).unwrap();
    assert_eq!(stats.ram_percent.to_bits(), 0);
    assert_eq!(stats.ram_total_mb, 0);
    assert_eq!(stats.ram_used_mb, 4096);
}

#[test]
fn a_processor_reading_out_of_range() {
    let stats = get_system_stats(Ok(report(137.5, 8 * MB, 2 * MB))).unwrap();
    assert_eq!(number(stats.cpu), 100.0);
    let stats = get_system_stats(Ok(report(-3.0, 8 * MB, 2 * MB))).unwrap();
    assert_eq!(stats.cpu.to_bits(), 0);
    let stats = get_system_stats(Ok(report(f32::NAN, 8 * MB, 2 * MB))).unwrap();
    assert_eq!(number(stats.cpu), 100.0);
}

#[test]
fn a_failed_query_gives_its_message_and_no_snapshot() {
    let r = get_system_stats(Err(String::from("permission denied")));
    assert_eq!(r, Err(String::from("permission denied")));
    assert!(!r.unwrap_err().is_empty());
}

#[test]
fn a_failed_query_without_a_message_still_gives_one() {
    let r = get_system_stats(Err(String::new()));
    assert!(r.is_err());
    let message = r.unwrap_err();
    assert!(!message.is_empty());
    assert_eq!(message, "system metrics are unavailable");
}

#[test]
fn a_failure_is_described_by_its_own_message() {
    assert_eq!(describe_failure(String::from("x")), "x");
    assert_eq!(describe_failure(String::from(" ")), " ");
    let message = "no such counter: mémoire";
    assert_eq!(describe_failure(String::from(message)), message);
    assert_eq!(describe_failure(String::new()), "system metrics are unavailable");
}

#[test]
fn the_snapshot_of_a_report_is_what_the_request_answers() {
    let c = report(42.5, 32_000 * MB + 17, 11_111 * MB + 999);
    assert_eq!(get_system_stats(Ok(c)), Ok(snapshot(&c)));
}

#[test]
fn every_field_follows_its_formula() {
    let total: u64 = 16_655_593_472;
    let used: u64 = 6_333_128_704;
    let percent = (used as f64 / total as f64 * 100.0) as f32;
    let stats = snapshot(&report(12.34, total, used));
    assert_eq!(
        stats,
        SystemStats {
            cpu: Binary32::from_bits(12.34f32.to_bits()),
            ram_used_mb: 6039,
            ram_total_mb: 15884,
            ram_percent: Binary32::from_bits(percent.to_bits()),
            gpu: None,
        }
    );
    assert_eq!(stats.ram_percent.to_bits(), 0x4218_189d);
}

#[test]
fn the_percentage_comes_from_the_bytes_not_the_megabytes() {
    // one byte short of two megabytes in use, out of three megabytes
    let stats = snapshot(&report(0.0, 3 * MB, 2 * MB - 1));
    assert_eq!(stats.ram_used_mb, 1);
    assert_eq!(stats.ram_total_mb, 3);
    assert_eq!(number(stats.ram_percent), ((2 * MB - 1) as f64 / (3 * MB) as f64 * 100.0) as f32);
    assert!(number(stats.ram_percent) > 66.0);
}

#[test]
fn less_than_a_megabyte_installed_still_has_a_percentage() {
    let stats = snapshot(&report(0.0, 500_000, 250_000));
    assert_eq!(stats.ram_total_mb, 0);
    assert_eq!(stats.ram_used_mb, 0);
    assert_eq!(number(stats.ram_percent), 50.0);
    let stats = snapshot(&report(0.0, 500_000, 0));
    assert_eq!(stats.ram_total_mb, 0);
    assert_eq!(stats.ram_percent.to_bits(), 0);
}

#[test]
fn more_in_use_than_installed_is_reported_as_it_is() {
    let stats = snapshot(&report(0.0, 1 * MB, 2 * MB));
    assert_eq!(number(stats.ram_percent), 200.0);
    assert_eq!(stats.ram_used_mb, 2);
    assert_eq!(stats.ram_total_mb, 1);
}

#[test]
fn there_is_never_a_graphics_reading() {
    let mut state: u64 = 11;
    for _ in 0..10_000u32 {
        let c = RawCounters {
            cpu_usage: Binary32::from_bits(next(&mut state) as u32),
            total_memory: next(&mut state),
            used_memory: next(&mut state),
        };
        assert_eq!(snapshot(&c).gpu, None);
    }
}

#[test]
fn the_processor_load_is_always_a_percentage() {
    let mut state: u64 = 12;
    for _ in 0..100_000u32 {
        let c = RawCounters {
            cpu_usage: Binary32::from_bits(next(&mut state) as u32),
            total_memory: next(&mut state),
            used_memory: next(&mut state),
        };
        let cpu = number(snapshot(&c).cpu);
        assert!(0.0 <= cpu && cpu <= 100.0);
    }
}

#[test]
fn memory_within_what_is_installed_gives_a_percentage() {
    let mut state: u64 = 13;
    for _ in 0..100_000u32 {
        let total = next(&mut state) >> ((next(&mut state) % 64) as u32);
        let used = if total == u64::MAX {
            next(&mut state)
        } else {
            next(&mut state) % (total + 1)
        };
        let stats = snapshot(&report(1.0, total, used));
        let percent = number(stats.ram_percent);
        assert!(0.0 <= percent && percent <= 100.0, "{} of {}", used, total);
        assert!(stats.ram_used_mb <= stats.ram_total_mb);
    }
}

#[test]
fn the_memory_percentage_is_never_negative_nor_missing() {
    let mut state: u64 = 14;
    for _ in 0..100_000u32 {
        let total = next(&mut state) >> ((next(&mut state) % 64) as u32);
        let used = next(&mut state) >> ((next(&mut state) % 64) as u32);
        let percent = number(snapshot(&report(1.0, total, used)).ram_percent);
        assert!(percent.is_finite());
        assert!(percent >= 0.0 && percent.is_sign_positive());
        assert_eq!(percent == 0.0, total == 0 || used == 0);
    }
}

#[test]
fn the_same_report_gives_the_same_snapshot() {
    let c = report(55.5, 8_000_000_000, 3_000_000_000);
    let first = get_system_stats(Ok(c));
    let second = get_system_stats(Ok(c));
    assert_eq!(first, second);
    let drifted = get_system_stats(Ok(report(56.0, 8_000_000_000, 3_100_000_000))).unwrap();
    assert_ne!(Ok(drifted), first);
    assert_eq!(drifted.gpu, None);
    assert!(number(drifted.cpu) <= 100.0 && number(drifted.ram_percent) <= 100.0);
}

#[test]
fn the_largest_counts_do_not_overflow() {
    let stats = snapshot(&report(100.0, u64::MAX, u64::MAX));
    assert_eq!(number(stats.ram_percent), 100.0);
    assert_eq!(stats.ram_total_mb, 17_592_186_044_415);
    let stats = snapshot(&report(100.0, 1, u64::MAX));
    assert_eq!(number(stats.ram_percent), (u64::MAX as f64 / 1.0 * 100.0) as f32);
    let stats = snapshot(&report(100.0, u64::MAX, 1));
    assert_eq!(number(stats.ram_percent), (1.0 / u64::MAX as f64 * 100.0) as f32);
    assert!(number(stats.ram_percent) > 0.0);
}
