//! The snapshot of host metrics that a front end asks for: processor load
//! and memory use at one moment, computed from what the operating system
//! reported.

use crate::binary32::{clamp_percent, clamped, lemma_clamped_is_percentage, Binary32};
use crate::percent::{
    lemma_ram_percent_at_least_hundred, lemma_ram_percent_finite, lemma_ram_percent_in_range,
    ram_percent, ram_percent_of,
};
use vstd::prelude::*;

verus! {

/// The bytes in a megabyte: 1024 times 1024.
pub const BYTES_PER_MB: u64 = 1_048_576;

/// What one query of the operating system reported.
#[derive(Clone, Copy, Debug, PartialEq, Eq)]
pub struct RawCounters {
    /// Processor load over all cores, in percent, as reported: it may lie
    /// outside the range of a percentage for a moment.
    pub cpu_usage: Binary32,
    /// Installed physical memory, in bytes.
    pub total_memory: u64,
    /// Physical memory in use, in bytes.
    pub used_memory: u64,
}

/// One reading of the host's metrics.
#[derive(Clone, Copy, Debug, PartialEq, Eq)]
pub struct SystemStats {
    /// Processor load over all cores, from zero to one hundred.
    pub cpu: Binary32,
    /// Physical memory in use, in whole megabytes.
    pub ram_used_mb: u64,
    /// Installed physical memory, in whole megabytes.
    pub ram_total_mb: u64,
    /// Memory in use as a percentage of the installed memory.
    pub ram_percent: Binary32,
    /// Graphics processor load. No reading is taken: always `None`.
    pub gpu: Option<Binary32>,
}

/// The whole megabytes in a number of bytes.
pub open spec fn megabytes(bytes: u64) -> u64 {
    bytes / BYTES_PER_MB
}

/// The snapshot that a report of the operating system gives.
pub open spec fn snapshot_of(c: RawCounters) -> SystemStats {
    SystemStats {
        cpu: clamped(c.cpu_usage),
        ram_used_mb: megabytes(c.used_memory),
        ram_total_mb: megabytes(c.total_memory),
        ram_percent: ram_percent_of(c.used_memory as nat, c.total_memory as nat),
        gpu: None,
    }
}

/// The message of a failed query: the one that came with it, or a fixed one
/// where none came.
pub open spec fn failure_message(msg: Seq<char>) -> Seq<char> {
    if msg.len() == 0 {
        "system metrics are unavailable"@
    } else {
        msg
    }
}

impl SystemStats {
    /// What holds of every snapshot: the processor load is a percentage, the
    /// memory percentage is a finite number that is not negative, and there
    /// is no graphics reading.
    pub open spec fn well_formed(self) -> bool {
        &&& self.cpu.is_percentage()
        &&& self.ram_percent.is_finite()
        &&& !self.ram_percent.sign()
        &&& self.gpu is None
    }
}

/// Every snapshot is well formed.
pub proof fn lemma_snapshot_well_formed(c: RawCounters)
    ensures
        snapshot_of(c).well_formed(),
{
    lemma_clamped_is_percentage(c.cpu_usage);
    lemma_ram_percent_finite(c.used_memory as nat, c.total_memory as nat);
}

/// Where the report has no more memory in use than installed, the snapshot
/// has no more megabytes in use than installed, and its memory percentage is
/// a percentage.
pub proof fn lemma_used_within_total(c: RawCounters)
    requires
        c.used_memory <= c.total_memory,
    ensures
        snapshot_of(c).ram_used_mb <= snapshot_of(c).ram_total_mb,
        snapshot_of(c).ram_percent.is_percentage(),
{
    lemma_ram_percent_in_range(c.used_memory as nat, c.total_memory as nat);
}

/// Where the report has no less memory in use than installed, the memory
/// percentage is at least one hundred.
pub proof fn lemma_used_beyond_total(c: RawCounters)
    requires
        0 < c.total_memory <= c.used_memory,
    ensures
        snapshot_of(c).ram_total_mb <= snapshot_of(c).ram_used_mb,
        snapshot_of(c).ram_percent.scaled() >= Binary32::hundred_scaled(),
{
    lemma_ram_percent_at_least_hundred(c.used_memory as nat, c.total_memory as nat);
}

/// The memory percentage is a percentage exactly where the report has no
/// more memory in use than installed, or none installed, or so little more
/// in use that the percentage still rounds to one hundred.
pub proof fn lemma_percent_in_range(c: RawCounters)
    ensures
        ({
            let s = snapshot_of(c);
            s.ram_percent.is_percentage() <==> c.used_memory <= c.total_memory
                || c.total_memory == 0 || s.ram_percent == Binary32::hundred()
        }),
{
    lemma_ram_percent_in_range(c.used_memory as nat, c.total_memory as nat);
}

/// The snapshot has no more megabytes in use than installed exactly where
/// the bytes in use stay below the next whole megabyte above those
/// installed.
pub proof fn lemma_megabytes_in_order(c: RawCounters)
    ensures
        ({
            let s = snapshot_of(c);
            s.ram_used_mb <= s.ram_total_mb <==> c.used_memory < (s.ram_total_mb + 1) * BYTES_PER_MB
        }),
{
}

/// The memory percentage is zero exactly where no memory is reported as
/// installed or none as in use. So a snapshot of zero installed megabytes
/// has it zero unless some bytes, short of a megabyte, are installed and
/// some are in use.
pub proof fn lemma_zero_percent(c: RawCounters)
    ensures
        ({
            let s = snapshot_of(c);
            &&& s.ram_percent == Binary32::zero() <==> c.total_memory == 0 || c.used_memory == 0
            &&& c.total_memory == 0 ==> s.ram_total_mb == 0
            &&& s.ram_total_mb == 0 && !(c.total_memory > 0 && c.used_memory > 0)
                ==> s.ram_percent == Binary32::zero()
        }),
{
    lemma_ram_percent_finite(c.used_memory as nat, c.total_memory as nat);
}

/// The whole megabytes in a number of bytes.
pub fn bytes_to_mb(bytes: u64) -> (mb: u64)
    ensures
        mb == megabytes(bytes),
        mb * BYTES_PER_MB <= bytes < (mb + 1) * BYTES_PER_MB,
{
    bytes / BYTES_PER_MB
}

/// The snapshot that a report of the operating system gives: the processor
/// load brought into range, the memory sizes in whole megabytes, the memory
/// in use as a percentage of the byte counts, and no graphics reading.
pub fn snapshot(c: &RawCounters) -> (s: SystemStats)
    ensures
        s == snapshot_of(*c),
        s.well_formed(),
        c.used_memory <= c.total_memory ==> s.ram_used_mb <= s.ram_total_mb
            && s.ram_percent.is_percentage(),
        c.total_memory == 0 ==> s.ram_percent == Binary32::zero(),
{
    proof {
        lemma_snapshot_well_formed(*c);
        lemma_zero_percent(*c);
        if c.used_memory <= c.total_memory {
            lemma_used_within_total(*c);
        }
    }
    SystemStats {
        cpu: clamp_percent(c.cpu_usage),
        ram_used_mb: bytes_to_mb(c.used_memory),
        ram_total_mb: bytes_to_mb(c.total_memory),
        ram_percent: ram_percent(c.used_memory, c.total_memory),
        gpu: None,
    }
}

/// The message of a failed query, never empty.
pub fn describe_failure(msg: String) -> (r: String)
    ensures
        r@ == failure_message(msg@),
        r@.len() > 0,
{
    if msg.as_str().is_empty() {
        proof {
            reveal_strlit("system metrics are unavailable");
        }
        "system metrics are unavailable".to_string()
    } else {
        msg
    }
}

/// Answers a request for the host's metrics from the outcome of one query
/// of the operating system.
///
/// A report gives its snapshot. A failed query gives its message and no
/// snapshot: nothing is retried and nothing is filled in.
pub fn get_system_stats(query: Result<RawCounters, String>) -> (r: Result<SystemStats, String>)
    ensures
        match query {
            Ok(c) => {
                let s = snapshot_of(c);
                &&& r == Ok::<SystemStats, String>(s)
                &&& s.well_formed()
                &&& c.used_memory <= c.total_memory ==> s.ram_used_mb <= s.ram_total_mb
                    && s.ram_percent.is_percentage()
                &&& c.total_memory == 0 ==> s.ram_percent == Binary32::zero()
            },
            Err(msg) => {
                &&& r is Err
                &&& r->Err_0@ == failure_message(msg@)
                &&& r->Err_0@.len() > 0
            },
        },
{
    match query {
        Ok(c) => Ok(snapshot(&c)),
        Err(msg) => Err(describe_failure(msg)),
    }
}

} // verus!
