//! The snapshot cache: the single source of truth read requests consume,
//! and the transitions the one background writer drives it through.
//!
//! The writer marks the cache updating, scans with no exclusive access
//! held, then commits the whole new process list in one step (or backs
//! out, leaving the previous snapshot intact). A reader that finds the
//! cache mid-update may wait for the completion signal instead of
//! serving a mix; one that finds it idle serves the committed snapshot
//! as it stands. The caller runs these transitions inside its exclusive
//! sections; each transition here is a plain function from the old
//! cache value to the new one, so what each step changes -- and what it
//! leaves untouched -- is stated exactly.

use vstd::prelude::*;

use crate::config::Config;

verus! {

/// One process's sample of a scan cycle: memory sizes in bytes, CPU
/// usage in thousandths of a percent, CPU time in milliseconds.
#[derive(Debug, Clone)]
pub struct ProcMem {
    pub pid: u32,
    pub name: String,
    pub rss: u64,
    pub pss: u64,
    pub uss: u64,
    pub cpu_millipercent: u64,
    pub cpu_time_ms: u64,
}

impl ProcMem {
    /// A copy known to equal the original.
    pub fn duplicate(&self) -> (r: ProcMem)
        ensures
            r == *self,
    {
        ProcMem {
            pid: self.pid,
            name: self.name.clone(),
            rss: self.rss,
            pss: self.pss,
            uss: self.uss,
            cpu_millipercent: self.cpu_millipercent,
            cpu_time_ms: self.cpu_time_ms,
        }
    }
}

/// A copy of a process list known to equal the original.
pub fn clone_proc_list(v: &Vec<ProcMem>) -> (r: Vec<ProcMem>)
    ensures
        r@ == v@,
{
    let mut out: Vec<ProcMem> = Vec::new();
    let mut i: usize = 0;
    while i < v.len()
        invariant
            i <= v@.len(),
            out@ == v@.subrange(0, i as int),
        decreases v@.len() - i,
    {
        out.push(v[i].duplicate());
        proof {
            assert(out@ =~= v@.subrange(0, i as int + 1));
        }
        i = i + 1;
    }
    proof {
        assert(v@.subrange(0, i as int) =~= v@);
    }
    out
}

/// The position of the last record carrying a pid, or -1 when none
/// does.
pub open spec fn last_index_with_pid(src: Seq<ProcMem>, pid: u32) -> int
    decreases src.len(),
{
    if src.len() == 0 {
        -1
    } else if src.last().pid == pid {
        src.len() - 1
    } else {
        last_index_with_pid(src.drop_last(), pid)
    }
}

/// Whether some record of the list carries the pid.
pub open spec fn has_pid(out: Seq<ProcMem>, pid: u32) -> bool
    decreases out.len(),
{
    if out.len() == 0 {
        false
    } else {
        out.last().pid == pid || has_pid(out.drop_last(), pid)
    }
}

/// Replacing a record by one with the same pid changes no pid's
/// presence.
proof fn lemma_has_pid_update_same(out: Seq<ProcMem>, f: int, p: ProcMem, pid: u32)
    requires
        0 <= f < out.len(),
        out[f].pid == p.pid,
    ensures
        has_pid(out.update(f, p), pid) == has_pid(out, pid),
    decreases out.len(),
{
    if f == out.len() - 1 {
        assert(out.update(f, p).drop_last() =~= out.drop_last());
        assert(out.update(f, p).last() == p);
    } else {
        assert(out.update(f, p).drop_last() =~= out.drop_last().update(f, p));
        assert(out.update(f, p).last() == out.last());
        lemma_has_pid_update_same(out.drop_last(), f, p, pid);
    }
}

/// `out` is `src` collapsed the way a pid-keyed table would keep it:
/// pids distinct, each record the last of `src` carrying its pid, and
/// every pid of `src` represented.
pub open spec fn is_pid_dedup_of(src: Seq<ProcMem>, out: Seq<ProcMem>) -> bool {
    &&& forall|i: int, j: int|
        0 <= i < j < out.len() ==> (#[trigger] out[i]).pid != (#[trigger] out[j]).pid
    &&& forall|i: int|
        0 <= i < out.len() ==> {
            let li = last_index_with_pid(src, (#[trigger] out[i]).pid);
            0 <= li < src.len() && src[li] == out[i]
        }
    &&& forall|k: int| 0 <= k < src.len() ==> has_pid(out, (#[trigger] src[k]).pid)
}

/// Collapses repeated pids the way a pid-keyed table would: one record
/// per pid, each the last record carrying that pid, and every input
/// pid represented. The output order is the pids' first appearance;
/// the contract leaves it open, as a keyed table's iteration order
/// carries no meaning.
#[verifier::rlimit(100)]
pub fn dedup_by_pid(ps: Vec<ProcMem>) -> (r: Vec<ProcMem>)
    ensures
        is_pid_dedup_of(ps@, r@),
{
    let mut out: Vec<ProcMem> = Vec::new();
    let mut i: usize = 0;
    while i < ps.len()
        invariant
            i <= ps@.len(),
            forall|oi: int, oj: int|
                0 <= oi < oj < out@.len() ==> (#[trigger] out@[oi]).pid != (
                #[trigger] out@[oj]).pid,
            forall|oi: int|
                0 <= oi < out@.len() ==> {
                    let li = last_index_with_pid(
                        ps@.subrange(0, i as int),
                        (#[trigger] out@[oi]).pid,
                    );
                    0 <= li < i && ps@[li] == out@[oi]
                },
            forall|k: int| 0 <= k < i ==> has_pid(out@, (#[trigger] ps@[k]).pid),
        decreases ps@.len() - i,
    {
        let p = ps[i].duplicate();
        let ghost prefix = ps@.subrange(0, i as int);
        proof {
            assert(p == ps@[i as int]);
            assert(ps@.subrange(0, i as int + 1) =~= prefix.push(ps@[i as int]));
            assert(prefix.push(ps@[i as int]).drop_last() =~= prefix);
        }
        let mut found: Option<usize> = None;
        let mut j: usize = 0;
        while j < out.len()
            invariant
                j <= out@.len(),
                match found {
                    Some(f) => f < j && out@[f as int].pid == p.pid,
                    None => forall|k: int| 0 <= k < j ==> (#[trigger] out@[k]).pid != p.pid,
                },
            decreases out@.len() - j,
        {
            if found.is_none() && out[j].pid == p.pid {
                found = Some(j);
            }
            j = j + 1;
        }
        let ghost old_out = out@;
        match found {
            Some(f) => {
                out[f] = p;
                proof {
                    assert(out@ =~= old_out.update(f as int, ps@[i as int]));
                    assert forall|oi: int| 0 <= oi < out@.len() implies {
                        let li = last_index_with_pid(
                            prefix.push(ps@[i as int]),
                            (#[trigger] out@[oi]).pid,
                        );
                        0 <= li < i + 1 && ps@[li] == out@[oi]
                    } by {
                        if oi == f {
                            assert(last_index_with_pid(
                                prefix.push(ps@[i as int]),
                                out@[oi].pid,
                            ) == i);
                        } else {
                            assert(out@[oi] == old_out[oi]);
                            assert(old_out[oi].pid != old_out[f as int].pid);
                            assert(ps@[i as int].pid != out@[oi].pid);
                            assert(last_index_with_pid(
                                prefix.push(ps@[i as int]),
                                out@[oi].pid,
                            ) == last_index_with_pid(prefix, out@[oi].pid));
                        }
                    }
                    assert forall|k: int| 0 <= k < i + 1 implies has_pid(
                        out@,
                        (#[trigger] ps@[k]).pid,
                    ) by {
                        lemma_has_pid_update_same(old_out, f as int, ps@[i as int], ps@[k].pid);
                        if k == i {
                            // The updated slot carries this pid; walk
                            // back from the end to it.
                            lemma_has_pid_at(old_out, f as int, ps@[k].pid);
                        }
                    }
                }
            },
            None => {
                out.push(p);
                proof {
                    assert(out@ =~= old_out.push(ps@[i as int]));
                    assert forall|oi: int| 0 <= oi < out@.len() implies {
                        let li = last_index_with_pid(
                            prefix.push(ps@[i as int]),
                            (#[trigger] out@[oi]).pid,
                        );
                        0 <= li < i + 1 && ps@[li] == out@[oi]
                    } by {
                        if oi == old_out.len() {
                            assert(last_index_with_pid(
                                prefix.push(ps@[i as int]),
                                out@[oi].pid,
                            ) == i);
                        } else {
                            assert(out@[oi] == old_out[oi]);
                            assert(ps@[i as int].pid != out@[oi].pid);
                            assert(last_index_with_pid(
                                prefix.push(ps@[i as int]),
                                out@[oi].pid,
                            ) == last_index_with_pid(prefix, out@[oi].pid));
                        }
                    }
                    assert forall|k: int| 0 <= k < i + 1 implies has_pid(
                        out@,
                        (#[trigger] ps@[k]).pid,
                    ) by {
                        assert(old_out.push(ps@[i as int]).drop_last() =~= old_out);
                        assert(has_pid(old_out.push(ps@[i as int]), ps@[k].pid)
                            == (ps@[i as int].pid == ps@[k].pid || has_pid(
                            old_out,
                            ps@[k].pid,
                        )));
                    }
                }
            },
        }
        i = i + 1;
    }
    proof {
        assert(ps@.subrange(0, i as int) =~= ps@);
    }
    out
}

/// A pid sitting at some position is present.
proof fn lemma_has_pid_at(out: Seq<ProcMem>, f: int, pid: u32)
    requires
        0 <= f < out.len(),
        out[f].pid == pid,
    ensures
        has_pid(out, pid),
    decreases out.len(),
{
    if f < out.len() - 1 {
        assert(out.drop_last()[f] == out[f]);
        lemma_has_pid_at(out.drop_last(), f, pid);
    }
}

/// The committed result of scan cycles, plus the update bookkeeping.
#[derive(Debug)]
pub struct MetricsCache {
    /// The processes of the last committed scan, in scan order; the
    /// writer commits one sample per pid (see `dedup_by_pid`).
    pub processes: Vec<ProcMem>,
    /// Monotonic timestamp of the last successful commit.
    pub last_updated_ms: Option<u64>,
    /// How long the last update took, in milliseconds.
    pub update_duration_ms: u64,
    /// Whether the last update committed.
    pub update_success: bool,
    /// Whether a writer is between begin and commit/fail.
    pub is_updating: bool,
}

impl MetricsCache {
    /// The state before any scan has ever run: empty and not ready.
    pub fn new() -> (r: MetricsCache)
        ensures
            r.processes@.len() == 0,
            r.last_updated_ms is None,
            r.update_duration_ms == 0,
            !r.update_success,
            !r.is_updating,
    {
        MetricsCache {
            processes: Vec::new(),
            last_updated_ms: None,
            update_duration_ms: 0,
            update_success: false,
            is_updating: false,
        }
    }

    /// What the announce step makes of a cache state: only the two
    /// flags change; the committed snapshot stays as it is.
    pub open spec fn spec_begin_update(c: MetricsCache) -> MetricsCache {
        MetricsCache { is_updating: true, update_success: false, ..c }
    }

    /// What a commit makes of a cache state: the whole process list is
    /// replaced at once, and the bookkeeping records the success.
    pub open spec fn spec_commit_update(
        c: MetricsCache,
        results: Vec<ProcMem>,
        now_ms: u64,
        duration_ms: u64,
    ) -> MetricsCache {
        MetricsCache {
            processes: results,
            last_updated_ms: Some(now_ms),
            update_duration_ms: duration_ms,
            update_success: true,
            is_updating: false,
        }
    }

    /// What an abandoned cycle makes of a cache state: only the
    /// updating flag clears; the previous snapshot stays intact.
    pub open spec fn spec_fail_update(c: MetricsCache) -> MetricsCache {
        MetricsCache { is_updating: false, ..c }
    }

    /// The writer announces an update. The previous snapshot stays
    /// visible in full to any reader that proceeds meanwhile.
    pub fn begin_update(&mut self)
        ensures
            *final(self) == Self::spec_begin_update(*old(self)),
    {
        self.is_updating = true;
        self.update_success = false;
    }

    /// The writer commits a finished scan: the whole process list is
    /// replaced in this one step, never partially.
    pub fn commit_update(&mut self, results: Vec<ProcMem>, now_ms: u64, duration_ms: u64)
        ensures
            *final(self) == Self::spec_commit_update(*old(self), results, now_ms, duration_ms),
    {
        self.processes = results;
        self.last_updated_ms = Some(now_ms);
        self.update_duration_ms = duration_ms;
        self.update_success = true;
        self.is_updating = false;
    }

    /// The scan failed: the cycle is abandoned and the previous
    /// snapshot is left fully intact and visible.
    pub fn fail_update(&mut self)
        ensures
            *final(self) == Self::spec_fail_update(*old(self)),
    {
        self.is_updating = false;
    }

    /// The reader's decision: serve the committed snapshot now, or
    /// suspend on the completion signal and look again.
    pub fn reader_may_proceed(&self) -> (r: bool)
        ensures
            r == !self.is_updating,
    {
        !self.is_updating
    }
}

/// A read concurrent with a refresh sees no mix of old and new entries.
///
/// Over one writer cycle from any pre-refresh state: after the announce
/// step the committed process list is still exactly the pre-refresh
/// list, so a reader that proceeds mid-update serves the old snapshot
/// whole; the commit step installs exactly the new scan's list, so a
/// reader that waited serves the new snapshot whole; and an abandoned
/// cycle leaves the pre-refresh list in place.
pub proof fn lemma_refresh_atomic(
    pre: MetricsCache,
    results: Vec<ProcMem>,
    now_ms: u64,
    duration_ms: u64,
)
    ensures
        MetricsCache::spec_begin_update(pre).processes == pre.processes,
        MetricsCache::spec_begin_update(pre).is_updating,
        MetricsCache::spec_commit_update(
            MetricsCache::spec_begin_update(pre),
            results,
            now_ms,
            duration_ms,
        ).processes == results,
        MetricsCache::spec_fail_update(MetricsCache::spec_begin_update(pre)).processes
            == pre.processes,
        MetricsCache::spec_fail_update(MetricsCache::spec_begin_update(pre)).last_updated_ms
            == pre.last_updated_ms,
{
}

/// The minimum-USS threshold in bytes: the configured KiB value, or
/// zero when unset.
pub open spec fn spec_min_uss_bytes(cfg: Config) -> int {
    (match cfg.min_uss_kb {
        Some(kb) => kb,
        None => 0,
    }) * 1024
}

/// Whether a sampled USS value falls below the configured threshold.
pub fn below_min_uss(uss: u64, cfg: &Config) -> (r: bool)
    ensures
        r == (uss < spec_min_uss_bytes(*cfg)),
{
    let kb = match cfg.min_uss_kb {
        Some(kb) => kb,
        None => 0,
    };
    let min_bytes: u128 = (kb as u128) * 1024;
    (uss as u128) < min_bytes
}

/// What the health endpoint reports of the cache.
#[derive(Debug, Clone, Copy, PartialEq, Eq, Structural)]
pub enum HealthStatus {
    /// A successful scan has committed: the exporter is serving data.
    Ready,
    /// No committed scan is available.
    Unavailable,
}

/// The short human-readable heading of the health report.
#[derive(Debug, Clone, Copy, PartialEq, Eq, Structural)]
pub enum HealthMessage {
    /// A refresh is running; the previous snapshot is being served.
    Updating,
    /// The last refresh committed.
    Healthy,
    /// The last refresh failed; the snapshot may be stale.
    UpdateFailed,
}

/// Derives the health report from the cache state: ready exactly when
/// a successful scan has ever committed, with the heading reflecting a
/// running or failed refresh.
pub fn health_status(cache: &MetricsCache) -> (r: (HealthStatus, HealthMessage))
    ensures
        r.0 == (if cache.update_success && cache.last_updated_ms is Some {
            HealthStatus::Ready
        } else {
            HealthStatus::Unavailable
        }),
        r.1 == (if cache.is_updating {
            HealthMessage::Updating
        } else if cache.update_success {
            HealthMessage::Healthy
        } else {
            HealthMessage::UpdateFailed
        }),
{
    let has_data = match cache.last_updated_ms {
        Some(_) => true,
        None => false,
    };
    let status = if cache.update_success && has_data {
        HealthStatus::Ready
    } else {
        HealthStatus::Unavailable
    };
    let message = if cache.is_updating {
        HealthMessage::Updating
    } else if cache.update_success {
        HealthMessage::Healthy
    } else {
        HealthMessage::UpdateFailed
    };
    (status, message)
}

} // verus!
