//! System-wide CPU and memory statistics parsed from the process
//! table's text records: load averages, memory totals, and per-CPU
//! usage ratios derived from scheduler-counter deltas.
//!
//! Load averages and usage ratios are carried as scaled integers
//! (hundredths, and parts per million), so the whole module works on
//! plain values.

use vstd::prelude::*;
use vstd::string::StringSliceAdditionalSpecFns;

use crate::text::{
    all_digits, bytes_eq, digits_value, first_occurrence, find_byte, is_digit,
    lemma_digits_value_nonneg, parse_u64, spec_lines, spec_tokens, split_lines, tokens,
};

verus! {

/// CPU time counters of one scheduler-statistics line, in clock ticks.
#[derive(Debug, Clone, Copy, PartialEq, Eq, Structural)]
pub struct CpuStat {
    pub user: u64,
    pub nice: u64,
    pub system: u64,
    pub idle: u64,
    pub iowait: u64,
    pub irq: u64,
    pub softirq: u64,
    pub steal: u64,
}

impl CpuStat {
    /// Sum of all counters, as a mathematical integer.
    pub open spec fn total_spec(&self) -> int {
        self.user + self.nice + self.system + self.idle + self.iowait + self.irq
            + self.softirq + self.steal
    }

    /// Sum of the non-active counters, as a mathematical integer.
    pub open spec fn idle_total_spec(&self) -> int {
        self.idle + self.iowait
    }

    /// Total CPU time over all counters.
    pub fn total(&self) -> (r: u64)
        requires
            self.total_spec() <= u64::MAX,
        ensures
            r == self.total_spec(),
    {
        self.user + self.nice + self.system + self.idle + self.iowait + self.irq
            + self.softirq + self.steal
    }

    /// Non-active time: idle plus time waiting for I/O.
    pub fn idle_total(&self) -> (r: u64)
        requires
            self.idle_total_spec() <= u64::MAX,
        ensures
            r == self.idle_total_spec(),
    {
        self.idle + self.iowait
    }
}

/// System load averages in hundredths, for the 1, 5 and 15 minute
/// windows.
#[derive(Debug, Clone, Copy, PartialEq, Eq, Structural)]
pub struct LoadAverage {
    pub one_min_centi: u64,
    pub five_min_centi: u64,
    pub fifteen_min_centi: u64,
}

/// Why a load-average record was rejected.
#[derive(Debug, Clone, Copy, PartialEq, Eq, Structural)]
pub enum LoadAvgError {
    /// Fewer than three whitespace-separated fields.
    TooFewFields,
    BadOneMin,
    BadFiveMin,
    BadFifteenMin,
}

/// The first two fractional digits of a decimal fraction, as
/// hundredths.
pub open spec fn frac_centi(fp: Seq<u8>) -> int {
    if fp.len() == 0 {
        0
    } else if fp.len() == 1 {
        (fp[0] - 48) * 10
    } else {
        (fp[0] - 48) * 10 + (fp[1] - 48)
    }
}

/// The value of a plain decimal token in hundredths, truncated to two
/// fractional digits: digits, an optional dot, and fractional digits.
pub open spec fn spec_parse_centi(tok: Seq<u8>) -> Option<int> {
    let d = first_occurrence(tok, 46);
    let ip = tok.subrange(0, d);
    let fp = if d < tok.len() {
        tok.subrange(d + 1, tok.len() as int)
    } else {
        Seq::<u8>::empty()
    };
    if ip.len() == 0 || !all_digits(ip) || !all_digits(fp) {
        None
    } else {
        Some(digits_value(ip) * 100 + frac_centi(fp))
    }
}

/// Parses a decimal token into hundredths.
///
/// Yields the exact truncated value when the token is well formed and
/// the value fits in 64 bits; otherwise nothing.
pub fn parse_centi(tok: &[u8]) -> (r: Option<u64>)
    ensures
        match r {
            Some(v) => spec_parse_centi(tok@) == Some(v as int),
            None => spec_parse_centi(tok@) is None || spec_parse_centi(tok@)->0 > u64::MAX,
        },
{
    let d = find_byte(tok, 46);
    proof {
        lemma_first_occurrence_bounds_for(tok@);
    }
    let ghost ip = tok@.subrange(0, d as int);
    let ghost fp = if (d as int) < tok@.len() {
        tok@.subrange(d as int + 1, tok@.len() as int)
    } else {
        Seq::<u8>::empty()
    };
    // Integer part.
    if d == 0 {
        return None;
    }
    let int_val = match parse_u64(slice_prefix(tok, d)) {
        Some(v) => v,
        None => {
            proof {
                if ip.len() > 0 && all_digits(ip) {
                    lemma_digits_value_nonneg(ip);
                    if all_digits(fp) {
                        assert(frac_centi(fp) >= 0);
                        assert(digits_value(ip) * 100 >= digits_value(ip)) by (
                        nonlinear_arith)
                            requires
                                digits_value(ip) >= 0,
                        ;
                    }
                }
            }
            return None;
        },
    };
    // Fractional part: all digits required, first two kept.
    let mut centi_frac: u64 = 0;
    if d < tok.len() {
        let mut k: usize = d + 1;
        while k < tok.len()
            invariant
                d as int + 1 <= k <= tok@.len(),
                d as int == first_occurrence(tok@, 46),
                fp == tok@.subrange(d as int + 1, tok@.len() as int),
                forall|m: int| d + 1 <= m < k ==> is_digit(#[trigger] tok@[m]),
            decreases tok@.len() - k,
        {
            if !(48 <= tok[k] && tok[k] <= 57) {
                proof {
                    assert(fp[k - (d as int + 1)] == tok@[k as int]);
                    assert(!is_digit(fp[k - (d as int + 1)]));
                }
                return None;
            }
            k = k + 1;
        }
        proof {
            assert forall|m: int| 0 <= m < fp.len() implies is_digit(#[trigger] fp[m]) by {
                assert(fp[m] == tok@[d + 1 + m]);
            }
        }
        let rem = tok.len() - d;
        let f0: u64 = if rem > 1 {
            ((tok[d + 1] - 48) as u64) * 10
        } else {
            0
        };
        let f1: u64 = if rem > 2 {
            (tok[d + 2] - 48) as u64
        } else {
            0
        };
        centi_frac = f0 + f1;
        proof {
            assert(fp.len() >= 1 ==> fp[0] == tok@[d as int + 1]);
            assert(fp.len() >= 2 ==> fp[1] == tok@[d as int + 2]);
        }
    }
    let wide: u128 = (int_val as u128) * 100 + (centi_frac as u128);
    if wide > u64::MAX as u128 {
        proof {
            assert(digits_value(ip) * 100 + frac_centi(fp) == wide);
        }
        return None;
    }
    Some(wide as u64)
}

/// Bounds of the dot search, shared by the branches above.
proof fn lemma_first_occurrence_bounds_for(tok: Seq<u8>)
    ensures
        0 <= first_occurrence(tok, 46) <= tok.len(),
        forall|i: int| 0 <= i < first_occurrence(tok, 46) ==> #[trigger] tok[i] != 46,
        first_occurrence(tok, 46) < tok.len() ==> tok[first_occurrence(tok, 46)] == 46,
{
    crate::text::lemma_first_occurrence_bounds(tok, 46);
}

/// The leading `n` bytes of a slice.
fn slice_prefix(s: &[u8], n: usize) -> (r: &[u8])
    requires
        n <= s@.len(),
    ensures
        r@ == s@.subrange(0, n as int),
{
    &s[0..n]
}

/// What a load-average record yields: the three windows in hundredths,
/// or the first field that is missing or malformed.
pub open spec fn spec_parse_load_average(s: Seq<u8>) -> Result<LoadAverage, LoadAvgError> {
    let toks = spec_tokens(s);
    if toks.len() < 3 {
        Err(LoadAvgError::TooFewFields)
    } else {
        match spec_parse_centi(toks[0]) {
            None => Err(LoadAvgError::BadOneMin),
            Some(a) => if a > u64::MAX {
                Err(LoadAvgError::BadOneMin)
            } else {
                match spec_parse_centi(toks[1]) {
                    None => Err(LoadAvgError::BadFiveMin),
                    Some(b) => if b > u64::MAX {
                        Err(LoadAvgError::BadFiveMin)
                    } else {
                        match spec_parse_centi(toks[2]) {
                            None => Err(LoadAvgError::BadFifteenMin),
                            Some(c) => if c > u64::MAX {
                                Err(LoadAvgError::BadFifteenMin)
                            } else {
                                Ok(
                                    LoadAverage {
                                        one_min_centi: a as u64,
                                        five_min_centi: b as u64,
                                        fifteen_min_centi: c as u64,
                                    },
                                )
                            },
                        }
                    },
                }
            },
        }
    }
}

/// Parses a load-average record: the first three whitespace-separated
/// fields as decimals in hundredths.
pub fn parse_load_average(s: &[u8]) -> (r: Result<LoadAverage, LoadAvgError>)
    ensures
        r == spec_parse_load_average(s@),
{
    let toks = tokens(s);
    proof {
        assert(toks@.map_values(|t: Vec<u8>| t@).len() == toks@.len());
    }
    if toks.len() < 3 {
        return Err(LoadAvgError::TooFewFields);
    }
    proof {
        assert(toks@.map_values(|t: Vec<u8>| t@)[0] == toks@[0]@);
        assert(toks@.map_values(|t: Vec<u8>| t@)[1] == toks@[1]@);
        assert(toks@.map_values(|t: Vec<u8>| t@)[2] == toks@[2]@);
    }
    let a = match parse_centi(toks[0].as_slice()) {
        Some(v) => v,
        None => {
            return Err(LoadAvgError::BadOneMin);
        },
    };
    let b = match parse_centi(toks[1].as_slice()) {
        Some(v) => v,
        None => {
            return Err(LoadAvgError::BadFiveMin);
        },
    };
    let c = match parse_centi(toks[2].as_slice()) {
        Some(v) => v,
        None => {
            return Err(LoadAvgError::BadFifteenMin);
        },
    };
    Ok(LoadAverage { one_min_centi: a, five_min_centi: b, fifteen_min_centi: c })
}

/// Total and available system memory, in bytes.
#[derive(Debug, Clone, Copy, PartialEq, Eq, Structural)]
pub struct ExtendedMemoryInfo {
    pub total_bytes: u64,
    pub available_bytes: u64,
}

/// Why the memory record could not be used.
#[derive(Debug, Clone, Copy, PartialEq, Eq, Structural)]
pub enum MemInfoError {
    /// The total or the available field is missing or malformed.
    FieldMissing,
    /// A field's byte count does not fit in 64 bits.
    Overflow,
}

/// The KiB value a line contributes to the named field: its first
/// token must be the field name and its second a decimal number.
pub open spec fn spec_line_kb(line: Seq<u8>, name: Seq<u8>) -> Option<int> {
    let toks = spec_tokens(line);
    if toks.len() >= 2 && toks[0] == name && toks[1].len() > 0 && all_digits(toks[1])
        && digits_value(toks[1]) <= u64::MAX {
        Some(digits_value(toks[1]))
    } else {
        None
    }
}

/// The KiB value of the first line carrying the named field.
pub open spec fn spec_find_field(ls: Seq<Seq<u8>>, name: Seq<u8>) -> Option<int>
    decreases ls.len(),
{
    if ls.len() == 0 {
        None
    } else {
        match spec_line_kb(ls[0], name) {
            Some(v) => Some(v),
            None => spec_find_field(ls.drop_first(), name),
        }
    }
}

/// Reads one line's contribution to the named field.
fn line_kb(line: &[u8], name: &[u8]) -> (r: Option<u64>)
    ensures
        match r {
            Some(v) => spec_line_kb(line@, name@) == Some(v as int),
            None => spec_line_kb(line@, name@) is None,
        },
{
    let toks = tokens(line);
    if toks.len() < 2 {
        return None;
    }
    proof {
        assert(toks@.map_values(|t: Vec<u8>| t@)[0] == toks@[0]@);
        assert(toks@.map_values(|t: Vec<u8>| t@)[1] == toks@[1]@);
    }
    if !bytes_eq(toks[0].as_slice(), name) {
        return None;
    }
    parse_u64(toks[1].as_slice())
}

/// What the memory record yields: the first total and available
/// values, in bytes.
pub open spec fn spec_parse_meminfo(s: Seq<u8>) -> Result<ExtendedMemoryInfo, MemInfoError> {
    let total_kb = spec_find_field(spec_lines(s), "MemTotal:".spec_bytes());
    let avail_kb = spec_find_field(spec_lines(s), "MemAvailable:".spec_bytes());
    match (total_kb, avail_kb) {
        (Some(t), Some(a)) => {
            if t * 1024 <= u64::MAX && a * 1024 <= u64::MAX {
                Ok(
                    ExtendedMemoryInfo {
                        total_bytes: (t * 1024) as u64,
                        available_bytes: (a * 1024) as u64,
                    },
                )
            } else {
                Err(MemInfoError::Overflow)
            }
        },
        _ => Err(MemInfoError::FieldMissing),
    }
}

/// Finds the named field's KiB value among the record's lines.
pub fn find_field_in_lines(ls: &Vec<Vec<u8>>, name: &[u8]) -> (r: Option<u64>)
    ensures
        match r {
            Some(v) => spec_find_field(ls@.map_values(|t: Vec<u8>| t@), name@) == Some(
                v as int,
            ),
            None => spec_find_field(ls@.map_values(|t: Vec<u8>| t@), name@) is None,
        },
{
    let ghost lsv = ls@.map_values(|t: Vec<u8>| t@);
    let mut i: usize = 0;
    proof {
        assert(lsv.subrange(0, lsv.len() as int) =~= lsv);
    }
    while i < ls.len()
        invariant
            i <= ls@.len(),
            lsv == ls@.map_values(|t: Vec<u8>| t@),
            spec_find_field(lsv, name@) == spec_find_field(
                lsv.subrange(i as int, lsv.len() as int),
                name@,
            ),
        decreases ls@.len() - i,
    {
        proof {
            assert(lsv[i as int] == ls@[i as int]@);
            assert(lsv.subrange(i as int, lsv.len() as int)[0] == lsv[i as int]);
            assert(lsv.subrange(i as int, lsv.len() as int).drop_first() =~= lsv.subrange(
                i as int + 1,
                lsv.len() as int,
            ));
        }
        match line_kb(ls[i].as_slice(), name) {
            Some(v) => {
                return Some(v);
            },
            None => {},
        }
        i = i + 1;
    }
    proof {
        assert(lsv.subrange(i as int, lsv.len() as int) =~= Seq::<Seq<u8>>::empty());
    }
    None
}

/// Parses the memory record into total and available bytes.
///
/// Each value is the first well-formed occurrence of its field, KiB
/// scaled to bytes; a missing field or an oversized value is an error
/// and nothing partial is returned.
pub fn parse_meminfo(s: &[u8]) -> (r: Result<ExtendedMemoryInfo, MemInfoError>)
    ensures
        r == spec_parse_meminfo(s@),
{
    let ls = split_lines(s);
    let total_kb = match find_field_in_lines(&ls, "MemTotal:".as_bytes()) {
        Some(v) => v,
        None => {
            return Err(MemInfoError::FieldMissing);
        },
    };
    let avail_kb = match find_field_in_lines(&ls, "MemAvailable:".as_bytes()) {
        Some(v) => v,
        None => {
            return Err(MemInfoError::FieldMissing);
        },
    };
    let total_wide: u128 = (total_kb as u128) * 1024;
    let avail_wide: u128 = (avail_kb as u128) * 1024;
    if total_wide > u64::MAX as u128 || avail_wide > u64::MAX as u128 {
        return Err(MemInfoError::Overflow);
    }
    Ok(
        ExtendedMemoryInfo {
            total_bytes: total_wide as u64,
            available_bytes: avail_wide as u64,
        },
    )
}

/// The memory-used share in parts per million: one minus available
/// over total, floored at zero, and zero when the total is zero.
pub open spec fn spec_used_ratio_ppm(total: u64, avail: u64) -> int {
    if total == 0 || avail > total {
        0
    } else {
        ((total - avail) * 1000000) / (total as int)
    }
}

/// Computes the memory-used share of a total, in parts per million.
pub fn memory_used_ratio_ppm(total: u64, avail: u64) -> (r: u64)
    ensures
        r == spec_used_ratio_ppm(total, avail),
{
    if total == 0 || avail > total {
        return 0;
    }
    let used: u128 = (total - avail) as u128;
    let wide: u128 = used * 1000000 / (total as u128);
    proof {
        assert(used * 1000000 / (total as int) <= 1000000) by (nonlinear_arith)
            requires
                0 < total <= u64::MAX,
                0 <= used <= total,
        ;
        assert(used * 1000000 >= 0) by (nonlinear_arith)
            requires
                used >= 0,
        ;
    }
    wide as u64
}


/// One CPU line of the scheduler-statistics record: the CPU's name as
/// raw bytes ("cpu" for the total, "cpu0", "cpu1", ... per core) and
/// its counters.
#[derive(Debug, Clone, PartialEq, Eq)]
pub struct CpuStatEntry {
    pub name: Vec<u8>,
    pub stat: CpuStat,
}

/// Why the scheduler-statistics record could not be used.
#[derive(Debug, Clone, Copy, PartialEq, Eq, Structural)]
pub enum CpuStatsError {
    /// No CPU line was found.
    NoCpuLines,
}

/// A field's tick count, or zero when it is missing or malformed.
pub open spec fn spec_parse_or_zero(tok: Seq<u8>) -> int {
    if tok.len() > 0 && all_digits(tok) && digits_value(tok) <= u64::MAX {
        digits_value(tok)
    } else {
        0
    }
}

/// Reads a tick field, falling back to zero as the record's consumers
/// expect.
fn parse_or_zero(tok: &[u8]) -> (r: u64)
    ensures
        r == spec_parse_or_zero(tok@),
{
    match parse_u64(tok) {
        Some(v) => v,
        None => 0,
    }
}

/// Whether a line is a CPU line: at least eight fields, the first
/// opening with the letters c, p, u.
pub open spec fn spec_is_cpu_line(line: Seq<u8>) -> bool {
    let toks = spec_tokens(line);
    toks.len() >= 8 && toks[0].len() >= 3 && toks[0][0] == 99 && toks[0][1] == 112
        && toks[0][2] == 117
}

/// What a CPU line yields: its name and counters, with malformed
/// fields read as zero and a missing ninth field as zero steal time.
pub open spec fn spec_cpu_line_entry(line: Seq<u8>) -> (Seq<u8>, CpuStat) {
    let toks = spec_tokens(line);
    (
        toks[0],
        CpuStat {
            user: spec_parse_or_zero(toks[1]) as u64,
            nice: spec_parse_or_zero(toks[2]) as u64,
            system: spec_parse_or_zero(toks[3]) as u64,
            idle: spec_parse_or_zero(toks[4]) as u64,
            iowait: spec_parse_or_zero(toks[5]) as u64,
            irq: spec_parse_or_zero(toks[6]) as u64,
            softirq: spec_parse_or_zero(toks[7]) as u64,
            steal: if toks.len() > 8 {
                spec_parse_or_zero(toks[8]) as u64
            } else {
                0
            },
        },
    )
}

/// The entries of all CPU lines, in record order.
pub open spec fn spec_cpu_entries(ls: Seq<Seq<u8>>) -> Seq<(Seq<u8>, CpuStat)>
    decreases ls.len(),
{
    if ls.len() == 0 {
        Seq::<(Seq<u8>, CpuStat)>::empty()
    } else {
        let rest = spec_cpu_entries(ls.drop_last());
        if spec_is_cpu_line(ls.last()) {
            rest.push(spec_cpu_line_entry(ls.last()))
        } else {
            rest
        }
    }
}

/// Parses the scheduler-statistics record into per-CPU entries.
///
/// Every line opening with "cpu" and carrying at least eight fields
/// contributes one entry in record order; an empty result is the
/// error, as a record without CPU lines is unusable.
pub fn parse_cpu_stats(s: &[u8]) -> (r: Result<Vec<CpuStatEntry>, CpuStatsError>)
    ensures
        match r {
            Ok(v) => v@.map_values(|e: CpuStatEntry| (e.name@, e.stat)) == spec_cpu_entries(
                spec_lines(s@),
            ) && v@.len() > 0,
            Err(e) => e == CpuStatsError::NoCpuLines && spec_cpu_entries(
                spec_lines(s@),
            ).len() == 0,
        },
{
    let ls = split_lines(s);
    let ghost lsv = ls@.map_values(|t: Vec<u8>| t@);
    let mut out: Vec<CpuStatEntry> = Vec::new();
    let mut i: usize = 0;
    proof {
        assert(lsv.subrange(0, 0) =~= Seq::<Seq<u8>>::empty());
        assert(out@.map_values(|e: CpuStatEntry| (e.name@, e.stat)) =~= Seq::<
            (Seq<u8>, CpuStat),
        >::empty());
    }
    while i < ls.len()
        invariant
            i <= ls@.len(),
            lsv == ls@.map_values(|t: Vec<u8>| t@),
            out@.map_values(|e: CpuStatEntry| (e.name@, e.stat)) == spec_cpu_entries(
                lsv.subrange(0, i as int),
            ),
        decreases ls@.len() - i,
    {
        let ghost prefix = lsv.subrange(0, i as int);
        proof {
            assert(lsv[i as int] == ls@[i as int]@);
            assert(lsv.subrange(0, i as int + 1).drop_last() =~= prefix);
            assert(lsv.subrange(0, i as int + 1).last() == lsv[i as int]);
        }
        let toks = tokens(ls[i].as_slice());
        let ghost toksv = spec_tokens(lsv[i as int]);
        proof {
            assert(toks@.map_values(|t: Vec<u8>| t@) == toksv);
            assert forall|m: int| 0 <= m < toks@.len() implies (#[trigger] toks@[m])@
                == toksv[m] by {
                assert(toks@.map_values(|t: Vec<u8>| t@)[m] == toks@[m]@);
            }
        }
        if toks.len() >= 8 && toks[0].len() >= 3 {
            let head = toks[0].as_slice();
            let is_cpu = head[0] == 99 && head[1] == 112 && head[2] == 117;
            if is_cpu {
                let name = toks[0].clone();
                let user = parse_or_zero(toks[1].as_slice());
                let nice = parse_or_zero(toks[2].as_slice());
                let system = parse_or_zero(toks[3].as_slice());
                let idle = parse_or_zero(toks[4].as_slice());
                let iowait = parse_or_zero(toks[5].as_slice());
                let irq = parse_or_zero(toks[6].as_slice());
                let softirq = parse_or_zero(toks[7].as_slice());
                let steal = if toks.len() > 8 {
                    parse_or_zero(toks[8].as_slice())
                } else {
                    0
                };
                let entry = CpuStatEntry {
                    name,
                    stat: CpuStat { user, nice, system, idle, iowait, irq, softirq, steal },
                };
                let ghost prev_map = out@.map_values(|e: CpuStatEntry| (e.name@, e.stat));
                let ghost entry_view = (entry.name@, entry.stat);
                out.push(entry);
                proof {
                    assert(entry_view == spec_cpu_line_entry(lsv[i as int]));
                    assert(out@.map_values(|e: CpuStatEntry| (e.name@, e.stat))
                        =~= prev_map.push(entry_view));
                }
            }
        }
        i = i + 1;
    }
    proof {
        assert(lsv.subrange(0, i as int) =~= lsv);
        assert(lsv == spec_lines(s@));
    }
    if out.len() == 0 {
        return Err(CpuStatsError::NoCpuLines);
    }
    Ok(out)
}


/// The usage ratio of one CPU between two samples, in parts per
/// million: active delta over total delta. Zero when the total delta
/// is not positive, or when the non-active delta exceeds it (counters
/// jumping backwards).
pub open spec fn spec_usage_ratio_ppm(prev: CpuStat, cur: CpuStat) -> int {
    let dt = cur.total_spec() - prev.total_spec();
    let di = cur.idle_total_spec() - prev.idle_total_spec();
    if dt > 0 && 0 <= di <= dt {
        ((dt - di) * 1000000) / dt
    } else {
        0
    }
}

/// The previous sample of the CPU with the given name, if any.
pub open spec fn spec_find_stat(entries: Seq<(Seq<u8>, CpuStat)>, name: Seq<u8>) -> Option<
    CpuStat,
>
    decreases entries.len(),
{
    if entries.len() == 0 {
        None
    } else if entries[0].0 == name {
        Some(entries[0].1)
    } else {
        spec_find_stat(entries.drop_first(), name)
    }
}

/// The per-CPU usage ratios of a sample against the previous one:
/// every current CPU with a remembered previous sample of the same
/// name, in sample order.
pub open spec fn spec_usage_ratios(
    cur: Seq<(Seq<u8>, CpuStat)>,
    prev: Seq<(Seq<u8>, CpuStat)>,
) -> Seq<(Seq<u8>, int)>
    decreases cur.len(),
{
    if cur.len() == 0 {
        Seq::<(Seq<u8>, int)>::empty()
    } else {
        let rest = spec_usage_ratios(cur.drop_last(), prev);
        match spec_find_stat(prev, cur.last().0) {
            Some(p) => rest.push((cur.last().0, spec_usage_ratio_ppm(p, cur.last().1))),
            None => rest,
        }
    }
}

/// Looks up the previous sample of a CPU by name.
fn find_stat(entries: &Vec<CpuStatEntry>, name: &[u8]) -> (r: Option<CpuStat>)
    ensures
        r == spec_find_stat(entries@.map_values(|e: CpuStatEntry| (e.name@, e.stat)), name@),
{
    let ghost ev = entries@.map_values(|e: CpuStatEntry| (e.name@, e.stat));
    let mut i: usize = 0;
    proof {
        assert(ev.subrange(0, ev.len() as int) =~= ev);
    }
    while i < entries.len()
        invariant
            i <= entries@.len(),
            ev == entries@.map_values(|e: CpuStatEntry| (e.name@, e.stat)),
            spec_find_stat(ev, name@) == spec_find_stat(
                ev.subrange(i as int, ev.len() as int),
                name@,
            ),
        decreases entries@.len() - i,
    {
        proof {
            assert(ev[i as int] == (entries@[i as int].name@, entries@[i as int].stat));
            assert(ev.subrange(i as int, ev.len() as int)[0] == ev[i as int]);
            assert(ev.subrange(i as int, ev.len() as int).drop_first() =~= ev.subrange(
                i as int + 1,
                ev.len() as int,
            ));
        }
        if bytes_eq(entries[i].name.as_slice(), name) {
            return Some(entries[i].stat);
        }
        i = i + 1;
    }
    proof {
        assert(ev.subrange(i as int, ev.len() as int) =~= Seq::<(Seq<u8>, CpuStat)>::empty());
    }
    None
}

/// Computes one CPU's usage ratio between two samples.
fn usage_ratio_ppm(prev: &CpuStat, cur: &CpuStat) -> (r: u64)
    ensures
        r == spec_usage_ratio_ppm(*prev, *cur),
{
    let cur_total: u128 = cur.user as u128 + cur.nice as u128 + cur.system as u128
        + cur.idle as u128 + cur.iowait as u128 + cur.irq as u128 + cur.softirq as u128
        + cur.steal as u128;
    let prev_total: u128 = prev.user as u128 + prev.nice as u128 + prev.system as u128
        + prev.idle as u128 + prev.iowait as u128 + prev.irq as u128 + prev.softirq as u128
        + prev.steal as u128;
    let cur_idle: u128 = cur.idle as u128 + cur.iowait as u128;
    let prev_idle: u128 = prev.idle as u128 + prev.iowait as u128;
    if cur_total <= prev_total {
        return 0;
    }
    let dt: u128 = cur_total - prev_total;
    if cur_idle < prev_idle {
        return 0;
    }
    let di: u128 = cur_idle - prev_idle;
    if di > dt {
        return 0;
    }
    let wide: u128 = (dt - di) * 1000000 / dt;
    proof {
        let dtv = cur.total_spec() - prev.total_spec();
        let div = cur.idle_total_spec() - prev.idle_total_spec();
        assert((dtv - div) * 1000000 / dtv <= 1000000) by (nonlinear_arith)
            requires
                0 < dtv,
                0 <= dtv - div <= dtv,
        ;
        assert((dtv - div) * 1000000 >= 0) by (nonlinear_arith)
            requires
                dtv - div >= 0,
        ;
    }
    wide as u64
}

/// The remembered previous scheduler-statistics sample, for computing
/// usage deltas across scrapes.
pub struct CpuStatsCache {
    previous: Option<Vec<CpuStatEntry>>,
}

impl CpuStatsCache {
    /// The remembered sample, as the specifications see it.
    pub closed spec fn view(&self) -> Option<Seq<(Seq<u8>, CpuStat)>> {
        match self.previous {
            Some(v) => Some(v@.map_values(|e: CpuStatEntry| (e.name@, e.stat))),
            None => None,
        }
    }

    /// A cache with no previous sample.
    pub fn new() -> (r: CpuStatsCache)
        ensures
            r@ is None,
    {
        CpuStatsCache { previous: None }
    }

    /// Computes the usage ratios of a fresh sample against the
    /// remembered one and remembers the fresh sample.
    ///
    /// With no previous sample the result is empty; otherwise it holds
    /// one entry per current CPU whose name the previous sample also
    /// carries, in sample order, with the exact delta ratio in parts
    /// per million.
    pub fn calculate_usage_ratios(&mut self, current: Vec<CpuStatEntry>) -> (r: Vec<
        (Vec<u8>, u64),
    >)
        ensures
            final(self)@ == Some(current@.map_values(|e: CpuStatEntry| (e.name@, e.stat))),
            r@.map_values(|p: (Vec<u8>, u64)| (p.0@, p.1 as int)) == match old(self)@ {
                Some(prev) => spec_usage_ratios(
                    current@.map_values(|e: CpuStatEntry| (e.name@, e.stat)),
                    prev,
                ),
                None => Seq::<(Seq<u8>, int)>::empty(),
            },
    {
        let mut ratios: Vec<(Vec<u8>, u64)> = Vec::new();
        let ghost curv = current@.map_values(|e: CpuStatEntry| (e.name@, e.stat));
        match &self.previous {
            None => {
                proof {
                    assert(ratios@.map_values(|p: (Vec<u8>, u64)| (p.0@, p.1 as int))
                        =~= Seq::<(Seq<u8>, int)>::empty());
                }
            },
            Some(prev) => {
                let ghost prevv = prev@.map_values(|e: CpuStatEntry| (e.name@, e.stat));
                let mut i: usize = 0;
                proof {
                    assert(curv.subrange(0, 0) =~= Seq::<(Seq<u8>, CpuStat)>::empty());
                    assert(ratios@.map_values(|p: (Vec<u8>, u64)| (p.0@, p.1 as int))
                        =~= Seq::<(Seq<u8>, int)>::empty());
                }
                while i < current.len()
                    invariant
                        i <= current@.len(),
                        curv == current@.map_values(|e: CpuStatEntry| (e.name@, e.stat)),
                        prevv == prev@.map_values(|e: CpuStatEntry| (e.name@, e.stat)),
                        ratios@.map_values(|p: (Vec<u8>, u64)| (p.0@, p.1 as int))
                            == spec_usage_ratios(curv.subrange(0, i as int), prevv),
                    decreases current@.len() - i,
                {
                    let ghost prefix = curv.subrange(0, i as int);
                    proof {
                        assert(curv[i as int] == (
                            current@[i as int].name@,
                            current@[i as int].stat,
                        ));
                        assert(curv.subrange(0, i as int + 1).drop_last() =~= prefix);
                        assert(curv.subrange(0, i as int + 1).last() == curv[i as int]);
                    }
                    match find_stat(prev, current[i].name.as_slice()) {
                        Some(p) => {
                            let ratio = usage_ratio_ppm(&p, &current[i].stat);
                            let name = current[i].name.clone();
                            let ghost prev_map = ratios@.map_values(
                                |q: (Vec<u8>, u64)| (q.0@, q.1 as int),
                            );
                            ratios.push((name, ratio));
                            proof {
                                assert(ratios@.map_values(
                                    |q: (Vec<u8>, u64)| (q.0@, q.1 as int),
                                ) =~= prev_map.push((curv[i as int].0, ratio as int)));
                            }
                        },
                        None => {},
                    }
                    i = i + 1;
                }
                proof {
                    assert(curv.subrange(0, i as int) =~= curv);
                }
            },
        }
        self.previous = Some(current);
        ratios
    }
}

} // verus!
