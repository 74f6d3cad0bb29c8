//! The per-process CPU delta tracker: turns a cumulative CPU-time
//! counter into an instantaneous rate by comparing against the
//! remembered previous observation of the same pid.
//!
//! CPU time is carried in milliseconds and the rate in thousandths of a
//! percent, so the whole tracker works on plain integers.

use std::collections::HashMap;
use vstd::prelude::*;

verus! {

broadcast use vstd::std_specs::hash::group_hash_axioms;

/// Largest CPU time (ms) the tracker accepts; keeps the rate arithmetic
/// inside 64 bits (about 5,800 years of CPU time).
pub const CPU_TIME_MS_CAP: u64 = u64::MAX / 100000;

/// The remembered previous observation of one pid.
#[derive(Debug, Clone, Copy, PartialEq, Eq, Structural)]
pub struct CpuEntry {
    /// Cumulative CPU time at the previous observation, in milliseconds.
    pub last_cpu_time_ms: u64,
    /// Monotonic timestamp of the previous observation, in milliseconds.
    pub last_observed_at_ms: u64,
}

/// What one observation yields for a process.
#[derive(Debug, Clone, Copy, PartialEq, Eq, Structural)]
pub struct CpuReading {
    /// CPU usage over the delta window, in thousandths of a percent.
    pub cpu_millipercent: u64,
    /// Cumulative CPU time, in milliseconds.
    pub cpu_time_ms: u64,
}

/// The instantaneous rate of two cpu-time observations, in thousandths
/// of a percent: (t2 - t1) / (at2 - at1) x 100, zero when the delta or
/// the elapsed time is not positive. No upper clamp: a multi-threaded
/// process may legitimately exceed 100 percent.
pub open spec fn spec_cpu_millipercent(t1: u64, t2: u64, at1: u64, at2: u64) -> int {
    if t2 <= t1 || at2 <= at1 {
        0
    } else {
        ((t2 - t1) * 100000) / (at2 - at1)
    }
}

/// Converts a cumulative tick count to milliseconds of CPU time.
///
/// Yields ticks x 1000 / ticks-per-second; nothing when the ticks-per-
/// second constant is zero or the result would exceed the tracker's cap.
pub fn cpu_time_ms_from_ticks(ticks: u64, clk_tck: u64) -> (r: Option<u64>)
    ensures
        match r {
            Some(v) => clk_tck > 0 && v == (ticks * 1000) / (clk_tck as int) && v
                <= CPU_TIME_MS_CAP,
            None => clk_tck == 0 || (ticks * 1000) / (clk_tck as int) > CPU_TIME_MS_CAP,
        },
{
    if clk_tck == 0 {
        return None;
    }
    let wide: u128 = (ticks as u128) * 1000 / (clk_tck as u128);
    if wide > CPU_TIME_MS_CAP as u128 {
        None
    } else {
        Some(wide as u64)
    }
}

/// The long-lived pid-keyed history of previous CPU observations.
///
/// Entries are never removed when a pid disappears; the table grows
/// with the set of pids ever observed, as the original behavior keeps
/// stale entries indefinitely.
pub struct CpuTracker {
    history: HashMap<u32, CpuEntry>,
}

impl CpuTracker {
    /// The remembered observations, as a map from pid to entry.
    pub closed spec fn view(&self) -> Map<u32, CpuEntry> {
        self.history@
    }

    /// An empty history: no pid has been observed yet.
    pub fn new() -> (r: CpuTracker)
        ensures
            r@ == Map::<u32, CpuEntry>::empty(),
    {
        CpuTracker { history: HashMap::new() }
    }

    /// Records one observation of a pid and returns the reading.
    ///
    /// The rate is the exact delta rate against the remembered entry,
    /// zero on a first observation, and the entry is overwritten
    /// unconditionally, so the next call computes its delta against
    /// this observation.
    pub fn observe(&mut self, pid: u32, cpu_time_ms: u64, now_ms: u64) -> (r: CpuReading)
        requires
            cpu_time_ms <= CPU_TIME_MS_CAP,
        ensures
            r.cpu_time_ms == cpu_time_ms,
            r.cpu_millipercent == match old(self)@.get(pid) {
                Some(e) => spec_cpu_millipercent(
                    e.last_cpu_time_ms,
                    cpu_time_ms,
                    e.last_observed_at_ms,
                    now_ms,
                ),
                None => 0,
            },
            final(self)@ == old(self)@.insert(
                pid,
                CpuEntry { last_cpu_time_ms: cpu_time_ms, last_observed_at_ms: now_ms },
            ),
    {
        let prev = self.history.get(&pid);
        let millipercent: u64 = match prev {
            Some(e) => {
                if cpu_time_ms <= e.last_cpu_time_ms || now_ms <= e.last_observed_at_ms {
                    0
                } else {
                    let delta = cpu_time_ms - e.last_cpu_time_ms;
                    let dt = now_ms - e.last_observed_at_ms;
                    let wide: u128 = (delta as u128) * 100000 / (dt as u128);
                    proof {
                        assert(delta * 100000 <= CPU_TIME_MS_CAP * 100000) by (nonlinear_arith)
                            requires
                                delta <= CPU_TIME_MS_CAP,
                        ;
                        assert(delta * 100000 / (dt as int) <= delta * 100000) by (
                        nonlinear_arith)
                            requires
                                dt >= 1,
                                delta >= 0,
                        ;
                    }
                    wide as u64
                }
            },
            None => 0,
        };
        self.history.insert(
            pid,
            CpuEntry { last_cpu_time_ms: cpu_time_ms, last_observed_at_ms: now_ms },
        );
        CpuReading { cpu_millipercent: millipercent, cpu_time_ms }
    }
}

/// Two cpu-time observations t1 < t2 with a positive wall-clock gap
/// yield exactly the delta rate (t2 - t1) / (at2 - at1) x 100, in
/// thousandths of a percent; with no positive gap or no growth the
/// rate is exactly zero.
pub proof fn lemma_cpu_rate_exact(t1: u64, t2: u64, at1: u64, at2: u64)
    ensures
        t1 < t2 && at1 < at2 ==> spec_cpu_millipercent(t1, t2, at1, at2) == ((t2 - t1)
            * 100000) / (at2 - at1),
        t2 <= t1 || at2 <= at1 ==> spec_cpu_millipercent(t1, t2, at1, at2) == 0,
{
}

} // verus!
