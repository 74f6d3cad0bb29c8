//! The process enumerator's decisions: which directory entries are
//! candidate processes, the cap on how many are scanned, how a
//! display name is resolved, and the exporter's reading of its own
//! resource records.
//!
//! Walking the directory tree and reading the records is the caller's
//! work; everything here is a function from the bytes read to a
//! decision.

use vstd::prelude::*;
use vstd::string::StringSliceAdditionalSpecFns;

use crate::cpu::{cpu_time_ms_from_ticks, CPU_TIME_MS_CAP};
use crate::text::{
    all_digits, digits_value, is_space, parse_u64, spec_lines, spec_tokens, split_lines,
    tokens,
};

verus! {

/// The pid a directory entry names: a nonempty all-digit name whose
/// value fits a pid.
pub open spec fn spec_pid_of_name(name: Seq<u8>) -> Option<u32> {
    if name.len() > 0 && all_digits(name) && digits_value(name) <= u32::MAX {
        Some(digits_value(name) as u32)
    } else {
        None
    }
}

/// Reads a directory entry's name as a pid, if it is purely numeric.
pub fn pid_of_name(name: &[u8]) -> (r: Option<u32>)
    ensures
        r == spec_pid_of_name(name@),
{
    match parse_u64(name) {
        Some(v) => {
            if v <= u32::MAX as u64 {
                Some(v as u32)
            } else {
                None
            }
        },
        None => {
            proof {
                if name@.len() > 0 && all_digits(name@) {
                    // The only way the 64-bit parse fails on an
                    // all-digit name is a value beyond 64 bits, which
                    // is beyond a pid too.
                    assert(digits_value(name@) > u64::MAX);
                }
            }
            None
        },
    }
}

/// One directory entry as the enumerator sees it: its name and
/// whether the process exposes at least one memory-map source.
#[derive(Debug, Clone)]
pub struct ProcEntry {
    pub name: Vec<u8>,
    pub has_mem_source: bool,
}

/// The candidate pids of a directory listing: entries with a numeric
/// name and a memory-map source, in listing order, cut off once the
/// cap is reached.
pub open spec fn spec_candidates(entries: Seq<(Seq<u8>, bool)>, cap: int) -> Seq<u32>
    decreases entries.len(),
{
    if entries.len() == 0 || cap <= 0 {
        Seq::<u32>::empty()
    } else {
        let rest = entries.drop_first();
        match spec_pid_of_name(entries[0].0) {
            Some(pid) => if entries[0].1 {
                seq![pid] + spec_candidates(rest, cap - 1)
            } else {
                spec_candidates(rest, cap)
            },
            None => spec_candidates(rest, cap),
        }
    }
}

/// Selects the candidate pids from a directory listing, stopping
/// early once the configured maximum is reached.
pub fn collect_candidates(entries: &Vec<ProcEntry>, max_processes: usize) -> (r: Vec<u32>)
    ensures
        r@ == spec_candidates(
            entries@.map_values(|e: ProcEntry| (e.name@, e.has_mem_source)),
            max_processes as int,
        ),
{
    let ghost ev = entries@.map_values(|e: ProcEntry| (e.name@, e.has_mem_source));
    let mut out: Vec<u32> = Vec::new();
    let mut i: usize = 0;
    proof {
        assert(ev.subrange(0, ev.len() as int) =~= ev);
        assert(out@ + spec_candidates(ev, max_processes as int) =~= spec_candidates(
            ev,
            max_processes as int,
        ));
    }
    while i < entries.len() && out.len() < max_processes
        invariant
            i <= entries@.len(),
            out@.len() <= max_processes,
            ev == entries@.map_values(|e: ProcEntry| (e.name@, e.has_mem_source)),
            spec_candidates(ev, max_processes as int) == out@ + spec_candidates(
                ev.subrange(i as int, ev.len() as int),
                max_processes - out@.len(),
            ),
        ensures
            i <= entries@.len(),
            spec_candidates(ev, max_processes as int) == out@ + spec_candidates(
                ev.subrange(i as int, ev.len() as int),
                max_processes - out@.len(),
            ),
            i == entries@.len() || out@.len() == max_processes,
        decreases entries@.len() - i,
    {
        let ghost rest = ev.subrange(i as int, ev.len() as int);
        proof {
            assert(rest[0] == ev[i as int]);
            assert(ev[i as int] == (entries@[i as int].name@, entries@[i as int].has_mem_source));
            assert(rest.drop_first() =~= ev.subrange(i as int + 1, ev.len() as int));
        }
        match pid_of_name(entries[i].name.as_slice()) {
            Some(pid) => {
                if entries[i].has_mem_source {
                    let ghost prev = out@;
                    out.push(pid);
                    proof {
                        assert(prev + (seq![pid] + spec_candidates(
                            rest.drop_first(),
                            max_processes - prev.len() - 1,
                        )) =~= prev.push(pid) + spec_candidates(
                            rest.drop_first(),
                            max_processes - prev.push(pid).len(),
                        ));
                    }
                }
            },
            None => {},
        }
        i = i + 1;
    }
    proof {
        if i == entries@.len() {
            assert(ev.subrange(i as int, ev.len() as int) =~= Seq::<(Seq<u8>, bool)>::empty());
            assert(out@ + Seq::<u32>::empty() =~= out@);
        } else {
            assert(out@.len() == max_processes);
            assert(out@ + Seq::<u32>::empty() =~= out@);
        }
    }
    out
}

/// Where the trailing whitespace of a byte sequence begins.
pub open spec fn trailing_ws_start(s: Seq<u8>) -> int
    decreases s.len(),
{
    if s.len() == 0 {
        0
    } else if is_space(s.last()) {
        trailing_ws_start(s.drop_last())
    } else {
        s.len() as int
    }
}

/// `trailing_ws_start` is pinned down by its characteristic
/// properties.
pub proof fn lemma_trailing_ws_start_is(s: Seq<u8>, k: int)
    requires
        0 <= k <= s.len(),
        forall|i: int| k <= i < s.len() ==> is_space(#[trigger] s[i]),
        k > 0 ==> !is_space(s[k - 1]),
    ensures
        trailing_ws_start(s) == k,
    decreases s.len(),
{
    if s.len() == 0 {
    } else if is_space(s.last()) {
        assert(k < s.len());
        assert forall|i: int| k <= i < s.drop_last().len() implies is_space(
            #[trigger] s.drop_last()[i],
        ) by {
            assert(s.drop_last()[i] == s[i]);
        }
        if k > 0 {
            assert(s.drop_last()[k - 1] == s[k - 1]);
        }
        lemma_trailing_ws_start_is(s.drop_last(), k);
    } else {
        assert(k == s.len());
    }
}

/// Where the base name after the last path separator begins.
pub open spec fn basename_start(s: Seq<u8>) -> int
    decreases s.len(),
{
    if s.len() == 0 {
        0
    } else if s.last() == 47 {
        s.len() as int
    } else {
        basename_start(s.drop_last())
    }
}

/// `basename_start` is pinned down by its characteristic properties.
pub proof fn lemma_basename_start_is(s: Seq<u8>, k: int)
    requires
        0 <= k <= s.len(),
        forall|i: int| k <= i < s.len() ==> #[trigger] s[i] != 47,
        k > 0 ==> s[k - 1] == 47,
    ensures
        basename_start(s) == k,
    decreases s.len(),
{
    if s.len() == 0 {
    } else if s.last() == 47 {
        assert(k == s.len());
    } else {
        // The last byte is no separator, so the base name cannot begin
        // past it.
        assert(k < s.len());
        assert forall|i: int| k <= i < s.drop_last().len() implies #[trigger] s.drop_last()[i]
            != 47 by {
            assert(s.drop_last()[i] == s[i]);
        }
        if k > 0 {
            assert(s.drop_last()[k - 1] == s[k - 1]);
        }
        lemma_basename_start_is(s.drop_last(), k);
    }
}

/// The display name a process resolves to: the short name record with
/// trailing whitespace removed when it is nonempty; otherwise the
/// base name of the command line's first argument (the bytes before
/// the first NUL, after the last path separator); otherwise nothing,
/// and the process is skipped.
pub open spec fn spec_resolve_name(
    comm: Option<Seq<u8>>,
    cmdline: Option<Seq<u8>>,
) -> Option<Seq<u8>> {
    let from_comm = match comm {
        Some(c) => {
            let t = c.subrange(0, trailing_ws_start(c));
            if t.len() > 0 {
                Some(t)
            } else {
                None
            }
        },
        None => None,
    };
    if from_comm is Some {
        from_comm
    } else {
        match cmdline {
            Some(c) => {
                let arg = c.subrange(0, crate::text::first_occurrence(c, 0));
                let base = arg.subrange(basename_start(arg), arg.len() as int);
                if base.len() > 0 {
                    Some(base)
                } else {
                    None
                }
            },
            None => None,
        }
    }
}

/// Resolves a process's display name from its records.
pub fn resolve_name(comm: Option<&Vec<u8>>, cmdline: Option<&Vec<u8>>) -> (r: Option<Vec<u8>>)
    ensures
        match r {
            Some(v) => spec_resolve_name(
                match comm {
                    Some(c) => Some(c@),
                    None => None,
                },
                match cmdline {
                    Some(c) => Some(c@),
                    None => None,
                },
            ) == Some(v@),
            None => spec_resolve_name(
                match comm {
                    Some(c) => Some(c@),
                    None => None,
                },
                match cmdline {
                    Some(c) => Some(c@),
                    None => None,
                },
            ) is None,
        },
{
    match comm {
        Some(c) => {
            let mut end = c.len();
            while end > 0 && (c[end - 1] == 32 || c[end - 1] == 9 || c[end - 1] == 10
                || c[end - 1] == 13)
                invariant
                    end <= c@.len(),
                    forall|i: int| end <= i < c@.len() ==> is_space(#[trigger] c@[i]),
                decreases end,
            {
                end = end - 1;
            }
            proof {
                lemma_trailing_ws_start_is(c@, end as int);
            }
            if end > 0 {
                let mut t: Vec<u8> = Vec::new();
                let mut i: usize = 0;
                while i < end
                    invariant
                        i <= end <= c@.len(),
                        t@ == c@.subrange(0, i as int),
                    decreases end - i,
                {
                    t.push(c[i]);
                    proof {
                        assert(t@ =~= c@.subrange(0, i as int + 1));
                    }
                    i = i + 1;
                }
                return Some(t);
            }
        },
        None => {},
    }
    match cmdline {
        Some(c) => {
            let nul = crate::text::find_byte(c.as_slice(), 0);
            proof {
                crate::text::lemma_first_occurrence_bounds(c@, 0);
            }
            let ghost arg = c@.subrange(0, crate::text::first_occurrence(c@, 0));
            let mut start = nul;
            while start > 0 && c[start - 1] != 47
                invariant
                    start <= nul <= c@.len(),
                    nul == crate::text::first_occurrence(c@, 0),
                    forall|i: int| start <= i < nul ==> #[trigger] c@[i] != 47,
                decreases start,
            {
                start = start - 1;
            }
            proof {
                assert forall|i: int| start <= i < arg.len() implies #[trigger] arg[i]
                    != 47 by {
                    assert(arg[i] == c@[i]);
                }
                if start > 0 {
                    assert(arg[start - 1] == c@[start as int - 1]);
                }
                lemma_basename_start_is(arg, start as int);
            }
            if start < nul {
                let mut t: Vec<u8> = Vec::new();
                let mut i: usize = start;
                while i < nul
                    invariant
                        start <= i <= nul <= c@.len(),
                        t@ == c@.subrange(start as int, i as int),
                    decreases nul - i,
                {
                    t.push(c[i]);
                    proof {
                        assert(t@ =~= c@.subrange(start as int, i as int + 1));
                    }
                    i = i + 1;
                }
                proof {
                    assert(t@ =~= arg.subrange(basename_start(arg), arg.len() as int));
                }
                return Some(t);
            } else {
                proof {
                    assert(arg.subrange(basename_start(arg), arg.len() as int).len() == 0);
                }
                return None;
            }
        },
        None => {
            return None;
        },
    }
}

/// The resident-set KiB value of the exporter's own status record.
pub open spec fn spec_vmrss_kb(s: Seq<u8>) -> Option<int> {
    crate::system::spec_find_field(spec_lines(s), "VmRSS:".spec_bytes())
}

/// Reads the resident-set size from a status record, in KiB.
pub fn parse_vmrss_kb(s: &[u8]) -> (r: Option<u64>)
    ensures
        match r {
            Some(v) => spec_vmrss_kb(s@) == Some(v as int),
            None => spec_vmrss_kb(s@) is None,
        },
{
    let ls = split_lines(s);
    crate::system::find_field_in_lines(&ls, "VmRSS:".as_bytes())
}

/// The cumulative user and system tick counts of a process's stat
/// record: its fourteenth and fifteenth whitespace-separated fields.
pub open spec fn spec_stat_ticks(s: Seq<u8>) -> Option<(int, int)> {
    let toks = spec_tokens(s);
    if toks.len() <= 14 {
        None
    } else if toks[13].len() > 0 && all_digits(toks[13]) && digits_value(toks[13])
        <= u64::MAX && toks[14].len() > 0 && all_digits(toks[14]) && digits_value(toks[14])
        <= u64::MAX {
        Some((digits_value(toks[13]), digits_value(toks[14])))
    } else {
        None
    }
}

/// Reads the user and system tick counts from a stat record.
pub fn parse_stat_ticks(s: &[u8]) -> (r: Option<(u64, u64)>)
    ensures
        match r {
            Some(v) => spec_stat_ticks(s@) == Some((v.0 as int, v.1 as int)),
            None => spec_stat_ticks(s@) is None,
        },
{
    let toks = tokens(s);
    if toks.len() <= 14 {
        return None;
    }
    proof {
        assert(toks@.map_values(|t: Vec<u8>| t@)[13] == toks@[13]@);
        assert(toks@.map_values(|t: Vec<u8>| t@)[14] == toks@[14]@);
    }
    let utime = match parse_u64(toks[13].as_slice()) {
        Some(v) => v,
        None => {
            return None;
        },
    };
    let stime = match parse_u64(toks[14].as_slice()) {
        Some(v) => v,
        None => {
            return None;
        },
    };
    Some((utime, stime))
}

/// The exporter's own CPU usage since boot, in thousandths of a
/// percent: its CPU time over the uptime. Nothing when the
/// ticks-per-second constant or the uptime is zero, or a conversion
/// overflows its cap.
pub open spec fn spec_self_cpu_millipercent(
    total_ticks: u64,
    clk_tck: u64,
    uptime_centi: u64,
) -> Option<int> {
    if clk_tck == 0 || uptime_centi == 0 {
        None
    } else {
        let cpu_ms = (total_ticks * 1000) / (clk_tck as int);
        if cpu_ms > CPU_TIME_MS_CAP {
            None
        } else {
            Some((cpu_ms * 100000) / (uptime_centi * 10))
        }
    }
}

/// Computes the exporter's own CPU usage over the system uptime.
pub fn self_cpu_millipercent(total_ticks: u64, clk_tck: u64, uptime_centi: u64) -> (r: Option<
    u64,
>)
    ensures
        match r {
            Some(v) => spec_self_cpu_millipercent(total_ticks, clk_tck, uptime_centi)
                == Some(v as int),
            None => spec_self_cpu_millipercent(total_ticks, clk_tck, uptime_centi) is None
                || spec_self_cpu_millipercent(total_ticks, clk_tck, uptime_centi)->0
                > u64::MAX,
        },
{
    if uptime_centi == 0 {
        return None;
    }
    let cpu_ms = match cpu_time_ms_from_ticks(total_ticks, clk_tck) {
        Some(v) => v,
        None => {
            return None;
        },
    };
    let wide: u128 = (cpu_ms as u128) * 100000 / ((uptime_centi as u128) * 10);
    if wide > u64::MAX as u128 {
        return None;
    }
    Some(wide as u64)
}

} // verus!
