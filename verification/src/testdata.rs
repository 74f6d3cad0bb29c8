//! Synthetic test data: the record shape a pre-generated sample file
//! maps onto, the filter that turns such records into a snapshot, and
//! the generator that invents plausible records for every subgroup of
//! a rule table.

use vstd::prelude::*;
use vstd::std_specs::convert::FromSpec;
use vstd::string::StringExecFns;
use vstd::string::StringSliceAdditionalSpecFns;

use crate::cache::ProcMem;
use crate::classify::{
    chars_bytes, classify_process_with_config, spec_classify_policy, spec_should_include, Rule,
};
use crate::config::Config;

verus! {

/// One synthetic process record: what a sample-file entry carries.
#[derive(Debug, Clone)]
pub struct TestProcess {
    pub pid: u32,
    pub name: String,
    pub group: String,
    pub subgroup: String,
    pub rss: u64,
    pub pss: u64,
    pub uss: u64,
    pub cpu_millipercent: u64,
    pub cpu_time_ms: u64,
}

/// A whole synthetic sample: a version tag, when it was generated,
/// and its process records.
#[derive(Debug, Clone)]
pub struct TestData {
    pub version: String,
    pub generated_at: String,
    pub processes: Vec<TestProcess>,
}

impl From<TestProcess> for ProcMem {
    /// A synthetic record as a plain process sample: the labels are
    /// dropped, everything else carries over.
    fn from(tp: TestProcess) -> (r: ProcMem) {
        ProcMem {
            pid: tp.pid,
            name: tp.name,
            rss: tp.rss,
            pss: tp.pss,
            uss: tp.uss,
            cpu_millipercent: tp.cpu_millipercent,
            cpu_time_ms: tp.cpu_time_ms,
        }
    }
}

impl vstd::std_specs::convert::FromSpecImpl<TestProcess> for ProcMem {
    open spec fn obeys_from_spec() -> bool {
        true
    }

    open spec fn from_spec(tp: TestProcess) -> ProcMem {
        ProcMem {
            pid: tp.pid,
            name: tp.name,
            rss: tp.rss,
            pss: tp.pss,
            uss: tp.uss,
            cpu_millipercent: tp.cpu_millipercent,
            cpu_time_ms: tp.cpu_time_ms,
        }
    }
}

/// Which synthetic records a scan cycle keeps: the name filters and
/// the minimum-USS threshold, in record order, each kept record
/// carried over as a plain sample.
pub open spec fn spec_filtered_test_processes(ps: Seq<TestProcess>, cfg: Config) -> Seq<
    ProcMem,
>
    decreases ps.len(),
{
    if ps.len() == 0 {
        Seq::<ProcMem>::empty()
    } else {
        let rest = spec_filtered_test_processes(ps.drop_first(), cfg);
        let tp = ps[0];
        if spec_should_include(chars_bytes(tp.name@), cfg) && !(tp.uss
            < crate::cache::spec_min_uss_bytes(cfg)) {
            seq![ProcMem::from_spec(tp)] + rest
        } else {
            rest
        }
    }
}

/// Applies the configured filters to a synthetic sample's records.
///
/// Exactly the records passing the name filters with USS at or above
/// the threshold become samples, in record order; a record dropped
/// here enters no snapshot.
pub fn filter_test_processes(ps: Vec<TestProcess>, cfg: &Config) -> (r: Vec<ProcMem>)
    ensures
        r@ == spec_filtered_test_processes(ps@, *cfg),
{
    let ghost psv = ps@;
    let mut out: Vec<ProcMem> = Vec::new();
    let mut i: usize = 0;
    proof {
        assert(psv.subrange(0, psv.len() as int) =~= psv);
        assert(out@ + spec_filtered_test_processes(psv, *cfg) =~= spec_filtered_test_processes(
            psv,
            *cfg,
        ));
    }
    while i < ps.len()
        invariant
            i <= ps@.len(),
            psv == ps@,
            spec_filtered_test_processes(psv, *cfg) == out@ + spec_filtered_test_processes(
                psv.subrange(i as int, psv.len() as int),
                *cfg,
            ),
        decreases ps@.len() - i,
    {
        let tp = &ps[i];
        let ghost rest = psv.subrange(i as int, psv.len() as int);
        proof {
            assert(rest[0] == psv[i as int]);
            assert(rest.drop_first() =~= psv.subrange(i as int + 1, psv.len() as int));
        }
        let name_ref = tp.name.as_str();
        proof {
            assert(name_ref.spec_bytes() == chars_bytes(psv[i as int].name@));
        }
        let included = crate::classify::should_include_process(name_ref, cfg);
        let above = !crate::cache::below_min_uss(tp.uss, cfg);
        if included && above {
            let ghost prev = out@;
            let pm = ProcMem {
                pid: tp.pid,
                name: tp.name.clone(),
                rss: tp.rss,
                pss: tp.pss,
                uss: tp.uss,
                cpu_millipercent: tp.cpu_millipercent,
                cpu_time_ms: tp.cpu_time_ms,
            };
            proof {
                assert(pm == ProcMem::from_spec(psv[i as int]));
            }
            out.push(pm);
            proof {
                assert(prev + (seq![ProcMem::from_spec(psv[i as int])]
                    + spec_filtered_test_processes(rest.drop_first(), *cfg)) =~= prev.push(
                    ProcMem::from_spec(psv[i as int]),
                ) + spec_filtered_test_processes(rest.drop_first(), *cfg));
            }
        }
        i = i + 1;
    }
    proof {
        assert(psv.subrange(i as int, psv.len() as int) =~= Seq::<TestProcess>::empty());
        assert(out@ + Seq::<ProcMem>::empty() =~= out@);
    }
    out
}

/// The decimal digit string of a number, most significant first.
pub open spec fn dec_digits(n: int) -> Seq<u8>
    decreases n,
{
    if n <= 0 {
        Seq::<u8>::empty()
    } else {
        dec_digits(n / 10).push((48 + n % 10) as u8)
    }
}

/// Writes a number as its ASCII decimal digits; zero is "0".
pub fn u64_to_dec(n: u64) -> (r: Vec<u8>)
    ensures
        n > 0 ==> r@ == dec_digits(n as int),
        n == 0 ==> r@ == seq![48u8],
        r@.len() > 0,
        forall|i: int| 0 <= i < r@.len() ==> #[trigger] r@[i] < 128,
{
    if n == 0 {
        let mut v: Vec<u8> = Vec::new();
        v.push(48);
        proof {
            assert(v@ =~= seq![48u8]);
        }
        return v;
    }
    let mut rev: Vec<u8> = Vec::new();
    let mut m = n;
    while m > 0
        invariant
            dec_digits(n as int) == dec_digits(m as int) + rev@.reverse(),
            forall|i: int| 0 <= i < rev@.len() ==> 48 <= #[trigger] rev@[i] < 58,
            m == 0 ==> rev@.len() > 0,
        decreases m,
    {
        let d: u8 = 48 + (m % 10) as u8;
        let ghost prev = rev@;
        rev.push(d);
        m = m / 10;
        proof {
            assert(rev@.reverse() =~= seq![d] + prev.reverse());
            assert(dec_digits((m * 10 + (d - 48)) as int) == dec_digits(m as int).push(d));
            assert(dec_digits(m as int).push(d) + prev.reverse() =~= dec_digits(m as int) + (
            seq![d] + prev.reverse()));
        }
    }
    let mut out: Vec<u8> = Vec::new();
    let mut i: usize = rev.len();
    while i > 0
        invariant
            i <= rev@.len(),
            out@ == rev@.subrange(i as int, rev@.len() as int).reverse(),
            forall|k: int| 0 <= k < rev@.len() ==> 48 <= #[trigger] rev@[k] < 58,
        decreases i,
    {
        i = i - 1;
        let ghost prev = out@;
        out.push(rev[i]);
        proof {
            assert(out@ =~= rev@.subrange(i as int, rev@.len() as int).reverse());
        }
    }
    proof {
        assert(rev@.subrange(0, rev@.len() as int) =~= rev@);
        assert(dec_digits(0int) =~= Seq::<u8>::empty());
        assert(Seq::<u8>::empty() + rev@.reverse() =~= rev@.reverse());
        assert(out@ == rev@.reverse());
    }
    out
}


/// Every digit of a decimal rendering is an ASCII digit byte.
pub proof fn lemma_dec_digits_bytes(n: int)
    ensures
        forall|i: int|
            0 <= i < dec_digits(n).len() ==> 48 <= #[trigger] dec_digits(n)[i] < 58,
    decreases n,
{
    if n > 0 {
        lemma_dec_digits_bytes(n / 10);
        assert forall|i: int|
            0 <= i < dec_digits(n).len() implies 48 <= #[trigger] dec_digits(n)[i] < 58 by {
            if i < dec_digits(n).len() - 1 {
                assert(dec_digits(n)[i] == dec_digits(n / 10)[i]);
            }
        }
    }
}

/// The decimal digits of a number, as characters.
pub open spec fn dec_chars(n: int) -> Seq<char>
    decreases n,
{
    if n <= 0 {
        Seq::<char>::empty()
    } else {
        dec_chars(n / 10).push(((48 + n % 10) as u8) as char)
    }
}

/// The character rendering is the byte rendering read as characters.
pub proof fn lemma_dec_chars_is_digits(n: int)
    ensures
        dec_chars(n) == dec_digits(n).map_values(|b: u8| b as char),
    decreases n,
{
    if n <= 0 {
        assert(dec_chars(n) =~= dec_digits(n).map_values(|b: u8| b as char));
    } else {
        lemma_dec_chars_is_digits(n / 10);
        assert(dec_digits(n).map_values(|b: u8| b as char) =~= dec_digits(n / 10).map_values(
            |b: u8| b as char,
        ).push((((48 + n % 10) as u8) as char)));
    }
}

/// The one-character string of an ASCII digit byte.
fn digit_str(d: u8) -> (r: &'static str)
    requires
        48 <= d < 58,
    ensures
        r@ == seq![d as char],
{
    let r: &'static str = match d {
        48 => "0",
        49 => "1",
        50 => "2",
        51 => "3",
        52 => "4",
        53 => "5",
        54 => "6",
        55 => "7",
        56 => "8",
        _ => "9",
    };
    proof {
        reveal_strlit("0");
        reveal_strlit("1");
        reveal_strlit("2");
        reveal_strlit("3");
        reveal_strlit("4");
        reveal_strlit("5");
        reveal_strlit("6");
        reveal_strlit("7");
        reveal_strlit("8");
        reveal_strlit("9");
        assert(r@ =~= seq![d as char]);
    }
    r
}

/// Builds the name of the n-th catch-all record: "process-" followed
/// by the number.
fn other_name(n: u64) -> (r: String)
    requires
        n >= 1,
    ensures
        r@ == "process-"@ + dec_chars(n as int),
{
    let mut s = "process-".to_owned();
    let digits = u64_to_dec(n);
    proof {
        lemma_dec_chars_is_digits(n as int);
        lemma_dec_digits_bytes(n as int);
        assert(dec_chars(n as int).len() == digits@.len());
        assert(s@ + dec_chars(n as int).subrange(0, 0) =~= s@);
    }
    let mut j: usize = 0;
    while j < digits.len()
        invariant
            j <= digits@.len(),
            digits@ == dec_digits(n as int),
            dec_chars(n as int) == dec_digits(n as int).map_values(|b: u8| b as char),
            forall|k: int| 0 <= k < digits@.len() ==> 48 <= #[trigger] digits@[k] < 58,
            s@ == "process-"@ + dec_chars(n as int).subrange(0, j as int),
        decreases digits@.len() - j,
    {
        let d = digits[j];
        s.append(digit_str(d));
        proof {
            assert(dec_chars(n as int)[j as int] == (digits@[j as int]) as char);
            assert(dec_chars(n as int).subrange(0, j as int).push(
                dec_chars(n as int)[j as int],
            ) =~= dec_chars(n as int).subrange(0, j as int + 1));
            assert(s@ =~= "process-"@ + dec_chars(n as int).subrange(0, j as int + 1));
        }
        j = j + 1;
    }
    proof {
        assert(dec_chars(n as int).subrange(0, dec_chars(n as int).len() as int) =~= dec_chars(
            n as int,
        ));
    }
    s
}

/// Relies on rand::random_range: a draw from the half-open range,
/// which panics only on an empty range.
#[verifier::external_body]
fn draw_in_range(lo: u64, hi: u64) -> (r: u64)
    requires
        lo < hi,
    ensures
        lo <= r < hi,
{
    rand::random_range(lo..hi)
}

/// A drawn percentage share of a resident size.
pub open spec fn share_of(rss: u64, pct: int) -> int {
    (rss * pct) / 100
}

/// A synthetic record's values stay inside the generator's ranges:
/// resident size between 10 MiB and 2 GiB; proportional size an 80 to
/// 94 percent share of it; unique size a 60 to 79 percent share, so
/// strictly below the proportional size; CPU below 100 percent and
/// under 10,000 seconds.
pub open spec fn test_process_plausible(tp: TestProcess) -> bool {
    &&& 10485760 <= tp.rss < 2147483648
    &&& exists|p: int| 80 <= p < 95 && tp.pss == #[trigger] share_of(tp.rss, p)
    &&& exists|q: int| 60 <= q < 80 && tp.uss == #[trigger] share_of(tp.rss, q)
    &&& tp.uss < tp.pss < tp.rss
    &&& tp.cpu_millipercent < 100000
    &&& tp.cpu_time_ms < 10000000
}

/// Invents one plausible record: resident size drawn from 10 MiB to
/// 2 GiB, proportional size 80 to 94 percent of it, unique size 60 to
/// 79 percent of it, CPU below 100 percent and below 10,000 seconds.
fn make_test_process(pid: u32, name: String, group: String, subgroup: String) -> (r:
    TestProcess)
    ensures
        r.pid == pid,
        r.name == name,
        r.group == group,
        r.subgroup == subgroup,
        test_process_plausible(r),
{
    let rss = draw_in_range(10485760, 2147483648);
    let pss_pct = draw_in_range(80, 95);
    let uss_pct = draw_in_range(60, 80);
    proof {
        assert((rss as int) * (pss_pct as int) < 0x10000000000) by (nonlinear_arith)
            requires
                rss < 2147483648,
                pss_pct < 95,
        ;
        assert((rss as int) * (uss_pct as int) < 0x10000000000) by (nonlinear_arith)
            requires
                rss < 2147483648,
                uss_pct < 80,
        ;
        assert((rss as int) * (pss_pct as int) >= 0) by (nonlinear_arith)
            requires
                0 <= rss,
                0 <= pss_pct,
        ;
        assert((rss as int) * (uss_pct as int) >= 0) by (nonlinear_arith)
            requires
                0 <= rss,
                0 <= uss_pct,
        ;
    }
    let pss_wide: u128 = (rss as u128) * (pss_pct as u128) / 100;
    let uss_wide: u128 = (rss as u128) * (uss_pct as u128) / 100;
    proof {
        assert(pss_wide == share_of(rss, pss_pct as int));
        assert(uss_wide == share_of(rss, uss_pct as int));
        assert((rss as int) * (pss_pct as int) / 100 <= rss) by (nonlinear_arith)
            requires
                0 <= rss,
                0 <= pss_pct < 100,
        ;
        // The unique share is strictly below the proportional share:
        // the products differ by at least one resident size, which the
        // division by 100 cannot absorb.
        assert((rss as int) * (pss_pct as int) >= (rss as int) * 80) by (nonlinear_arith)
            requires
                pss_pct >= 80,
                rss >= 0,
        ;
        assert((rss as int) * (uss_pct as int) <= (rss as int) * 79) by (nonlinear_arith)
            requires
                uss_pct <= 79,
                rss >= 0,
        ;
        let a = (rss as int) * (pss_pct as int);
        let b = (rss as int) * (uss_pct as int);
        assert(a == 100 * (a / 100) + a % 100);
        assert(b == 100 * (b / 100) + b % 100);
        assert(a - b >= rss);
        assert(b / 100 < a / 100);
        // The proportional share stays strictly below the resident
        // size: its product is at most 94 hundredths of it.
        assert((rss as int) * (pss_pct as int) <= (rss as int) * 94) by (nonlinear_arith)
            requires
                pss_pct <= 94,
                rss >= 0,
        ;
        assert(a / 100 < rss);
    }
    let cpu_millipercent = draw_in_range(0, 100000);
    let cpu_time_ms = draw_in_range(0, 10000000);
    TestProcess {
        pid,
        name,
        group,
        subgroup,
        rss,
        pss: pss_wide as u64,
        uss: uss_wide as u64,
        cpu_millipercent,
        cpu_time_ms,
    }
}

/// The label pair a rule files its pattern under.
pub open spec fn rule_key(r: Rule) -> (Seq<char>, Seq<char>) {
    (r.group@, r.subgroup@)
}

/// The distinct label pairs of a rule table, in first-encounter order.
pub open spec fn spec_subgroup_keys(rules: Seq<Rule>) -> Seq<(Seq<char>, Seq<char>)>
    decreases rules.len(),
{
    if rules.len() == 0 {
        Seq::<(Seq<char>, Seq<char>)>::empty()
    } else {
        let t = spec_subgroup_keys(rules.drop_last());
        if t.contains(rule_key(rules.last())) {
            t
        } else {
            t.push(rule_key(rules.last()))
        }
    }
}

/// The patterns a label pair collects, in table order.
pub open spec fn spec_subgroup_patterns(rules: Seq<Rule>, key: (Seq<char>, Seq<char>)) -> Seq<
    Seq<char>,
> {
    rules.filter(|u: Rule| rule_key(u) == key).map_values(|u: Rule| u.pattern@)
}

/// The table's distinct label pairs never repeat.
pub proof fn lemma_subgroup_keys_distinct(rules: Seq<Rule>)
    ensures
        forall|i: int, j: int|
            0 <= i < j < spec_subgroup_keys(rules).len() ==> #[trigger] spec_subgroup_keys(
                rules,
            )[i] != #[trigger] spec_subgroup_keys(rules)[j],
    decreases rules.len(),
{
    if rules.len() > 0 {
        lemma_subgroup_keys_distinct(rules.drop_last());
        let t = spec_subgroup_keys(rules.drop_last());
        let k = rule_key(rules.last());
        if !t.contains(k) {
            assert forall|i: int, j: int|
                0 <= i < j < spec_subgroup_keys(rules).len() implies #[trigger] spec_subgroup_keys(
                rules,
            )[i] != #[trigger] spec_subgroup_keys(rules)[j] by {
                if j == t.len() {
                    if spec_subgroup_keys(rules)[i] == k {
                        assert(t[i] == k);
                        assert(t.contains(k));
                    }
                } else {
                    assert(spec_subgroup_keys(rules)[i] == t[i]);
                    assert(spec_subgroup_keys(rules)[j] == t[j]);
                }
            }
        }
    }
}

/// Every rule's label pair appears among the table's keys.
pub proof fn lemma_subgroup_keys_cover(rules: Seq<Rule>, t: int)
    requires
        0 <= t < rules.len(),
    ensures
        spec_subgroup_keys(rules).contains(rule_key(rules[t])),
    decreases rules.len(),
{
    let keys_dl = spec_subgroup_keys(rules.drop_last());
    if t == rules.len() - 1 {
        if !keys_dl.contains(rule_key(rules.last())) {
            assert(spec_subgroup_keys(rules)[keys_dl.len() as int] == rule_key(rules[t]));
        }
    } else {
        assert(rules.drop_last()[t] == rules[t]);
        lemma_subgroup_keys_cover(rules.drop_last(), t);
        let w = choose|w: int| 0 <= w < keys_dl.len() && keys_dl[w] == rule_key(rules[t]);
        assert(spec_subgroup_keys(rules)[w] == rule_key(rules[t]));
    }
}

/// Adding one rule extends exactly its own subgroup's patterns.
pub proof fn lemma_patterns_push(rules: Seq<Rule>, r: Rule, key: (Seq<char>, Seq<char>))
    ensures
        spec_subgroup_patterns(rules.push(r), key) == if rule_key(r) == key {
            spec_subgroup_patterns(rules, key).push(r.pattern@)
        } else {
            spec_subgroup_patterns(rules, key)
        },
{
    reveal(Seq::filter);
    let pred = |u: Rule| rule_key(u) == key;
    assert(rules.push(r).drop_last() =~= rules);
    assert(rules.push(r).last() == r);
    if pred(r) {
        assert(rules.push(r).filter(pred) == rules.filter(pred).push(r));
        assert(rules.filter(pred).push(r).map_values(|u: Rule| u.pattern@) =~= rules.filter(
            pred,
        ).map_values(|u: Rule| u.pattern@).push(r.pattern@));
    } else {
        assert(rules.push(r).filter(pred) == rules.filter(pred));
    }
}

/// A label pair no rule carries collects no patterns.
pub proof fn lemma_patterns_empty(rules: Seq<Rule>, key: (Seq<char>, Seq<char>))
    requires
        forall|t: int| 0 <= t < rules.len() ==> rule_key(#[trigger] rules[t]) != key,
    ensures
        spec_subgroup_patterns(rules, key) == Seq::<Seq<char>>::empty(),
    decreases rules.len(),
{
    reveal(Seq::filter);
    if rules.len() == 0 {
        assert(spec_subgroup_patterns(rules, key) =~= Seq::<Seq<char>>::empty());
    } else {
        let dl = rules.drop_last();
        assert(forall|t: int| 0 <= t < dl.len() ==> dl[t] == #[trigger] rules[t]);
        lemma_patterns_empty(dl, key);
        assert(rule_key(rules.last()) != key);
        assert(rules =~= dl.push(rules.last()));
        lemma_patterns_push(dl, rules.last(), key);
    }
}

/// Whether a subgroup generates records: its first pattern, taken as
/// a sample name, passes the configured policy.
pub open spec fn spec_subgroup_kept(
    rules: Seq<Rule>,
    cfg: Config,
    key: (Seq<char>, Seq<char>),
) -> bool {
    let pats = spec_subgroup_patterns(rules, key);
    pats.len() > 0 && spec_classify_policy(chars_bytes(pats[0]), rules, cfg) is Some
}

/// The (group, subgroup, name) skeleton of one subgroup's records:
/// the requested count, named by cycling through the subgroup's
/// patterns; nothing when the policy drops the subgroup.
pub open spec fn spec_subgroup_block(
    rules: Seq<Rule>,
    cfg: Config,
    key: (Seq<char>, Seq<char>),
    n: int,
) -> Seq<(Seq<char>, Seq<char>, Seq<char>)> {
    let pats = spec_subgroup_patterns(rules, key);
    if spec_subgroup_kept(rules, cfg, key) && n >= 0 {
        Seq::new(n as nat, |i: int| (key.0, key.1, pats[i % (pats.len() as int)]))
    } else {
        Seq::<(Seq<char>, Seq<char>, Seq<char>)>::empty()
    }
}

/// The skeletons of a run of subgroups, concatenated in key order.
pub open spec fn spec_subgroup_records(
    rules: Seq<Rule>,
    cfg: Config,
    keys: Seq<(Seq<char>, Seq<char>)>,
    n: int,
) -> Seq<(Seq<char>, Seq<char>, Seq<char>)>
    decreases keys.len(),
{
    if keys.len() == 0 {
        Seq::<(Seq<char>, Seq<char>, Seq<char>)>::empty()
    } else {
        spec_subgroup_records(rules, cfg, keys.drop_last(), n) + spec_subgroup_block(
            rules,
            cfg,
            keys.last(),
            n,
        )
    }
}

/// The skeleton of the catch-all records: the requested count, both
/// labels "other", named "process-" plus the running number.
pub open spec fn spec_other_records(count: int) -> Seq<(Seq<char>, Seq<char>, Seq<char>)> {
    if count <= 0 {
        Seq::<(Seq<char>, Seq<char>, Seq<char>)>::empty()
    } else {
        Seq::new(count as nat, |i: int| ("other"@, "other"@, "process-"@ + dec_chars(i + 1)))
    }
}

/// What the generator emits, as (group, subgroup, name) triples: for
/// every distinct label pair of the table whose sample name passes
/// the policy, the requested per-subgroup count; then, unless the
/// catch-all is disabled, the requested count of "other" records; and
/// nothing else.
pub open spec fn spec_generated_skeleton(
    rules: Seq<Rule>,
    cfg: Config,
    min_per_subgroup: int,
    others_count: int,
) -> Seq<(Seq<char>, Seq<char>, Seq<char>)> {
    spec_subgroup_records(rules, cfg, spec_subgroup_keys(rules), min_per_subgroup) + if cfg
        .disable_others {
        Seq::<(Seq<char>, Seq<char>, Seq<char>)>::empty()
    } else {
        spec_other_records(others_count)
    }
}

/// One subgroup of the rule table with the process names that map to
/// it.
struct SubgroupNames {
    group: String,
    subgroup: String,
    names: Vec<String>,
}

/// Invents a whole synthetic sample.
///
/// The records' labels and names are exactly the generator's skeleton:
/// for every distinct (group, subgroup) pair of the table whose sample
/// name passes the configured policy, `min_per_subgroup` records named
/// by cycling that subgroup's patterns; then, unless the catch-all is
/// disabled, `others_count` records labeled ("other", "other") with
/// numbered names; and no other records. Every record's drawn values
/// stay in the plausible envelope.
pub fn generate_test_data(
    min_per_subgroup: usize,
    others_count: usize,
    rules: &Vec<Rule>,
    cfg: &Config,
    version: String,
    generated_at: String,
) -> (r: TestData)
    ensures
        r.version == version,
        r.generated_at == generated_at,
        r.processes@.map_values(|tp: TestProcess| (tp.group@, tp.subgroup@, tp.name@))
            == spec_generated_skeleton(
            rules@,
            *cfg,
            min_per_subgroup as int,
            others_count as int,
        ),
        forall|i: int|
            0 <= i < r.processes@.len() ==> test_process_plausible(
                #[trigger] r.processes@[i],
            ),
{
    // Group the table's patterns by their (group, subgroup) pair, in
    // first-encounter order.
    let mut subgroups: Vec<SubgroupNames> = Vec::new();
    let mut i: usize = 0;
    proof {
        assert(rules@.subrange(0, 0) =~= Seq::<Rule>::empty());
        assert(subgroups@.map_values(|sn: SubgroupNames| (sn.group@, sn.subgroup@)) =~= Seq::<
            (Seq<char>, Seq<char>),
        >::empty());
    }
    while i < rules.len()
        invariant
            i <= rules@.len(),
            subgroups@.map_values(|sn: SubgroupNames| (sn.group@, sn.subgroup@))
                == spec_subgroup_keys(rules@.subrange(0, i as int)),
            forall|k: int|
                0 <= k < subgroups@.len() ==> (#[trigger] subgroups@[k]).names@.map_values(
                    |nm: String| nm@,
                ) == spec_subgroup_patterns(
                    rules@.subrange(0, i as int),
                    (subgroups@[k].group@, subgroups@[k].subgroup@),
                ),
            forall|k: int| 0 <= k < subgroups@.len() ==> (#[trigger] subgroups@[k]).names@.len()
                > 0,
        decreases rules@.len() - i,
    {
        let rule = &rules[i];
        let ghost prefix = rules@.subrange(0, i as int);
        let ghost keys_pre = spec_subgroup_keys(prefix);
        proof {
            assert(rules@.subrange(0, i as int + 1) =~= prefix.push(rules@[i as int]));
            assert(prefix.push(rules@[i as int]).drop_last() =~= prefix);
            lemma_subgroup_keys_distinct(prefix);
        }
        let mut found: Option<usize> = None;
        let mut j: usize = 0;
        while j < subgroups.len()
            invariant
                j <= subgroups@.len(),
                match found {
                    Some(f) => f < j && subgroups@[f as int].group@ == rule.group@
                        && subgroups@[f as int].subgroup@ == rule.subgroup@,
                    None => forall|k: int|
                        0 <= k < j ==> !((#[trigger] subgroups@[k]).group@ == rule.group@
                            && subgroups@[k].subgroup@ == rule.subgroup@),
                },
            decreases subgroups@.len() - j,
        {
            if found.is_none() && subgroups[j].group.eq(&rule.group) && subgroups[j].subgroup.eq(
                &rule.subgroup,
            ) {
                found = Some(j);
            }
            j = j + 1;
        }
        let ghost old_subgroups = subgroups@;
        match found {
            Some(f) => {
                subgroups[f].names.push(rule.pattern.clone());
                proof {
                    assert(subgroups@ =~= old_subgroups.update(f as int, subgroups@[f as int]));
                    // The rule's key is already among the keys, so the
                    // key list does not change.
                    assert(keys_pre[f as int] == rule_key(rules@[i as int]));
                    assert(keys_pre.contains(rule_key(rules@[i as int])));
                    assert(subgroups@.map_values(|sn: SubgroupNames| (sn.group@, sn.subgroup@))
                        =~= keys_pre);
                    assert forall|k: int| 0 <= k < subgroups@.len() implies (
                    #[trigger] subgroups@[k]).names@.map_values(|nm: String| nm@)
                        == spec_subgroup_patterns(
                        prefix.push(rules@[i as int]),
                        (subgroups@[k].group@, subgroups@[k].subgroup@),
                    ) by {
                        lemma_patterns_push(
                            prefix,
                            rules@[i as int],
                            (subgroups@[k].group@, subgroups@[k].subgroup@),
                        );
                        if k == f {
                            assert(subgroups@[k].names@.map_values(|nm: String| nm@)
                                =~= old_subgroups[k].names@.map_values(|nm: String| nm@).push(
                                rules@[i as int].pattern@,
                            ));
                        } else {
                            assert(subgroups@[k] == old_subgroups[k]);
                            // Keys are distinct, so this subgroup's key
                            // is not the rule's key.
                            assert(keys_pre[k] == (subgroups@[k].group@, subgroups@[k].subgroup@));
                            assert(keys_pre[k] != keys_pre[f as int]);
                        }
                    }
                }
            },
            None => {
                let mut names: Vec<String> = Vec::new();
                names.push(rule.pattern.clone());
                let entry = SubgroupNames {
                    group: rule.group.clone(),
                    subgroup: rule.subgroup.clone(),
                    names,
                };
                subgroups.push(entry);
                proof {
                    // No existing key equals the rule's key.
                    assert forall|w: int| 0 <= w < keys_pre.len() implies keys_pre[w] != rule_key(
                        rules@[i as int],
                    ) by {
                        assert(keys_pre[w] == (old_subgroups[w].group@, old_subgroups[w].subgroup@));
                    }
                    if keys_pre.contains(rule_key(rules@[i as int])) {
                        let w = choose|w: int|
                            0 <= w < keys_pre.len() && keys_pre[w] == rule_key(rules@[i as int]);
                        assert(false);
                    }
                    assert(subgroups@.map_values(|sn: SubgroupNames| (sn.group@, sn.subgroup@))
                        =~= keys_pre.push(rule_key(rules@[i as int])));
                    assert forall|k: int| 0 <= k < subgroups@.len() implies (
                    #[trigger] subgroups@[k]).names@.map_values(|nm: String| nm@)
                        == spec_subgroup_patterns(
                        prefix.push(rules@[i as int]),
                        (subgroups@[k].group@, subgroups@[k].subgroup@),
                    ) by {
                        lemma_patterns_push(
                            prefix,
                            rules@[i as int],
                            (subgroups@[k].group@, subgroups@[k].subgroup@),
                        );
                        if k < old_subgroups.len() {
                            assert(subgroups@[k] == old_subgroups[k]);
                            assert(keys_pre[k] == (subgroups@[k].group@, subgroups@[k].subgroup@));
                        } else {
                            // The new subgroup: no earlier rule carries
                            // its key, so its patterns over the prefix
                            // are empty.
                            assert forall|t: int| 0 <= t < prefix.len() implies rule_key(
                                #[trigger] prefix[t],
                            ) != (subgroups@[k].group@, subgroups@[k].subgroup@) by {
                                assert(prefix[t] == rules@[t]);
                                lemma_subgroup_keys_cover(prefix, t);
                            }
                            lemma_patterns_empty(
                                prefix,
                                (subgroups@[k].group@, subgroups@[k].subgroup@),
                            );
                            assert(subgroups@[k].names@.map_values(|nm: String| nm@)
                                =~= Seq::<Seq<char>>::empty().push(rules@[i as int].pattern@));
                        }
                    }
                }
            },
        }
        i = i + 1;
    }
    proof {
        assert(rules@.subrange(0, i as int) =~= rules@);
    }
    let ghost keysv = spec_subgroup_keys(rules@);
    let mut processes: Vec<TestProcess> = Vec::new();
    let mut next_pid: u32 = 1000;
    let mut s: usize = 0;
    proof {
        assert(keysv.subrange(0, 0) =~= Seq::<(Seq<char>, Seq<char>)>::empty());
        assert(processes@.map_values(|tp: TestProcess| (tp.group@, tp.subgroup@, tp.name@))
            =~= Seq::<(Seq<char>, Seq<char>, Seq<char>)>::empty());
    }
    while s < subgroups.len()
        invariant
            s <= subgroups@.len(),
            keysv == spec_subgroup_keys(rules@),
            subgroups@.map_values(|sn: SubgroupNames| (sn.group@, sn.subgroup@)) == keysv,
            forall|k: int|
                0 <= k < subgroups@.len() ==> (#[trigger] subgroups@[k]).names@.map_values(
                    |nm: String| nm@,
                ) == spec_subgroup_patterns(
                    rules@,
                    (subgroups@[k].group@, subgroups@[k].subgroup@),
                ),
            forall|k: int| 0 <= k < subgroups@.len() ==> (#[trigger] subgroups@[k]).names@.len()
                > 0,
            processes@.map_values(|tp: TestProcess| (tp.group@, tp.subgroup@, tp.name@))
                == spec_subgroup_records(
                rules@,
                *cfg,
                keysv.subrange(0, s as int),
                min_per_subgroup as int,
            ),
            forall|k: int| 0 <= k < processes@.len() ==> test_process_plausible(
                #[trigger] processes@[k],
            ),
        decreases subgroups@.len() - s,
    {
        let entry = &subgroups[s];
        let ghost key_s = keysv[s as int];
        let ghost pats = spec_subgroup_patterns(rules@, key_s);
        proof {
            assert(key_s == (entry.group@, entry.subgroup@));
            assert(entry.names@.map_values(|nm: String| nm@) == pats);
            assert(pats.len() == entry.names@.len());
            assert(keysv.subrange(0, s as int + 1).drop_last() =~= keysv.subrange(0, s as int));
            assert(keysv.subrange(0, s as int + 1).last() == key_s);
        }
        // A subgroup whose sample name the policy drops generates
        // nothing.
        let name_ref = entry.names[0].as_str();
        proof {
            assert(entry.names@.map_values(|nm: String| nm@)[0] == entry.names@[0]@);
            assert(name_ref.spec_bytes() == chars_bytes(pats[0]));
        }
        let keep = match classify_process_with_config(name_ref, rules, cfg) {
            Some(_) => true,
            None => false,
        };
        proof {
            assert(keep == spec_subgroup_kept(rules@, *cfg, key_s));
        }
        if keep {
            let mut n: usize = 0;
            proof {
                assert(processes@.map_values(
                    |tp: TestProcess| (tp.group@, tp.subgroup@, tp.name@),
                ) + Seq::new(0, |i: int| (key_s.0, key_s.1, pats[i % (pats.len() as int)]))
                    =~= processes@.map_values(
                    |tp: TestProcess| (tp.group@, tp.subgroup@, tp.name@),
                ));
            }
            while n < min_per_subgroup
                invariant
                    n <= min_per_subgroup,
                    s < subgroups@.len(),
                    key_s == (subgroups@[s as int].group@, subgroups@[s as int].subgroup@),
                    pats == spec_subgroup_patterns(rules@, key_s),
                    subgroups@[s as int].names@.map_values(|nm: String| nm@) == pats,
                    subgroups@[s as int].names@.len() == pats.len() > 0,
                    processes@.map_values(|tp: TestProcess| (tp.group@, tp.subgroup@, tp.name@))
                        == spec_subgroup_records(
                        rules@,
                        *cfg,
                        keysv.subrange(0, s as int),
                        min_per_subgroup as int,
                    ) + Seq::new(
                        n as nat,
                        |i: int| (key_s.0, key_s.1, pats[i % (pats.len() as int)]),
                    ),
                    forall|k: int| 0 <= k < processes@.len() ==> test_process_plausible(
                        #[trigger] processes@[k],
                    ),
                decreases min_per_subgroup - n,
            {
                let entry = &subgroups[s];
                let idx = n % entry.names.len();
                let name = entry.names[idx].clone();
                proof {
                    assert(entry.names@.map_values(|nm: String| nm@)[idx as int]
                        == entry.names@[idx as int]@);
                    assert(name@ == pats[(n as int) % (pats.len() as int)]);
                }
                let ghost prev_map = processes@.map_values(
                    |tp: TestProcess| (tp.group@, tp.subgroup@, tp.name@),
                );
                let tp = make_test_process(
                    next_pid,
                    name,
                    entry.group.clone(),
                    entry.subgroup.clone(),
                );
                let ghost tp_triple = (tp.group@, tp.subgroup@, tp.name@);
                processes.push(tp);
                proof {
                    assert(processes@.map_values(
                        |q: TestProcess| (q.group@, q.subgroup@, q.name@),
                    ) =~= prev_map.push(tp_triple));
                    assert(Seq::new(
                        n as nat + 1,
                        |i: int| (key_s.0, key_s.1, pats[i % (pats.len() as int)]),
                    ) =~= Seq::new(
                        n as nat,
                        |i: int| (key_s.0, key_s.1, pats[i % (pats.len() as int)]),
                    ).push(tp_triple));
                }
                if next_pid < u32::MAX {
                    next_pid = next_pid + 1;
                }
                n = n + 1;
            }
            proof {
                assert(spec_subgroup_block(rules@, *cfg, key_s, min_per_subgroup as int)
                    =~= Seq::new(
                    min_per_subgroup as nat,
                    |i: int| (key_s.0, key_s.1, pats[i % (pats.len() as int)]),
                ));
            }
        } else {
            proof {
                assert(spec_subgroup_block(rules@, *cfg, key_s, min_per_subgroup as int)
                    =~= Seq::<(Seq<char>, Seq<char>, Seq<char>)>::empty());
                assert(processes@.map_values(
                    |tp: TestProcess| (tp.group@, tp.subgroup@, tp.name@),
                ) + Seq::<(Seq<char>, Seq<char>, Seq<char>)>::empty() =~= processes@.map_values(
                    |tp: TestProcess| (tp.group@, tp.subgroup@, tp.name@),
                ));
            }
        }
        s = s + 1;
    }
    proof {
        assert(keysv.subrange(0, s as int) =~= keysv);
    }
    let ghost subgroup_part = spec_subgroup_records(
        rules@,
        *cfg,
        keysv,
        min_per_subgroup as int,
    );
    if !cfg.disable_others {
        let mut n: usize = 0;
        proof {
            assert(processes@.map_values(|tp: TestProcess| (tp.group@, tp.subgroup@, tp.name@))
                + Seq::new(0, |i: int| ("other"@, "other"@, "process-"@ + dec_chars(i + 1)))
                =~= processes@.map_values(
                |tp: TestProcess| (tp.group@, tp.subgroup@, tp.name@),
            ));
        }
        while n < others_count
            invariant
                n <= others_count,
                processes@.map_values(|tp: TestProcess| (tp.group@, tp.subgroup@, tp.name@))
                    == subgroup_part + Seq::new(
                    n as nat,
                    |i: int| ("other"@, "other"@, "process-"@ + dec_chars(i + 1)),
                ),
                forall|k: int| 0 <= k < processes@.len() ==> test_process_plausible(
                    #[trigger] processes@[k],
                ),
            decreases others_count - n,
        {
            let name = other_name((n as u64) + 1);
            let ghost prev_map = processes@.map_values(
                |tp: TestProcess| (tp.group@, tp.subgroup@, tp.name@),
            );
            let tp = make_test_process(next_pid, name, new_label_other(), new_label_other());
            let ghost tp_triple = (tp.group@, tp.subgroup@, tp.name@);
            processes.push(tp);
            proof {
                assert(tp_triple == ("other"@, "other"@, "process-"@ + dec_chars(n as int + 1)));
                assert(processes@.map_values(|q: TestProcess| (q.group@, q.subgroup@, q.name@))
                    =~= prev_map.push(tp_triple));
                assert(Seq::new(
                    n as nat + 1,
                    |i: int| ("other"@, "other"@, "process-"@ + dec_chars(i + 1)),
                ) =~= Seq::new(
                    n as nat,
                    |i: int| ("other"@, "other"@, "process-"@ + dec_chars(i + 1)),
                ).push(tp_triple));
            }
            if next_pid < u32::MAX {
                next_pid = next_pid + 1;
            }
            n = n + 1;
        }
        proof {
            if others_count > 0 {
                assert(spec_other_records(others_count as int) =~= Seq::new(
                    others_count as nat,
                    |i: int| ("other"@, "other"@, "process-"@ + dec_chars(i + 1)),
                ));
            } else {
                assert(spec_other_records(others_count as int) =~= Seq::new(
                    0,
                    |i: int| ("other"@, "other"@, "process-"@ + dec_chars(i + 1)),
                ));
            }
        }
    } else {
        proof {
            assert(processes@.map_values(|tp: TestProcess| (tp.group@, tp.subgroup@, tp.name@))
                + Seq::<(Seq<char>, Seq<char>, Seq<char>)>::empty() =~= processes@.map_values(
                |tp: TestProcess| (tp.group@, tp.subgroup@, tp.name@),
            ));
        }
    }
    TestData { version, generated_at, processes }
}

/// The catch-all label.
fn new_label_other() -> (r: String)
    ensures
        r@ == "other"@,
    {
    let s = "other";
    s.to_owned()
}

} // verus!
