//! The request-time aggregator and ranker: classifies the snapshot's
//! processes, enforces the cardinality cap on the "other" group, groups
//! by (group, subgroup), sums each bucket, and ranks each bucket's
//! members by USS with stable ties.

use vstd::prelude::*;
use vstd::string::StringSliceAdditionalSpecFns;

use crate::cache::ProcMem;
use crate::classify::{
    chars_bytes, classify_process_with_config, is_other_label, label_is_other, Rule,
    spec_classify_policy,
};
use crate::config::Config;

verus! {

/// Sum of a sequence of integers.
pub open spec fn sum_int(s: Seq<int>) -> int
    decreases s.len(),
{
    if s.len() == 0 {
        0
    } else {
        sum_int(s.drop_last()) + s.last()
    }
}

/// Appending adds to the sum.
pub proof fn lemma_sum_int_push(s: Seq<int>, v: int)
    ensures
        sum_int(s.push(v)) == sum_int(s) + v,
{
    assert(s.push(v).drop_last() =~= s);
}

/// Replacing one element shifts the sum by the difference.
pub proof fn lemma_sum_int_update(s: Seq<int>, j: int, v: int)
    requires
        0 <= j < s.len(),
    ensures
        sum_int(s.update(j, v)) == sum_int(s) - s[j] + v,
    decreases s.len(),
{
    if j == s.len() - 1 {
        assert(s.update(j, v).drop_last() =~= s.drop_last());
        assert(s.update(j, v).last() == v);
    } else {
        assert(s.update(j, v).drop_last() =~= s.drop_last().update(j, v));
        assert(s.update(j, v).last() == s.last());
        lemma_sum_int_update(s.drop_last(), j, v);
    }
}

/// In a sequence of nonnegative integers, every element is at most the
/// sum.
pub proof fn lemma_sum_int_element_bound(s: Seq<int>, i: int)
    requires
        0 <= i < s.len(),
        forall|k: int| 0 <= k < s.len() ==> #[trigger] s[k] >= 0,
    ensures
        s[i] <= sum_int(s),
    decreases s.len(),
{
    lemma_sum_int_nonneg(s.drop_last());
    if i == s.len() - 1 {
    } else {
        assert(forall|k: int| 0 <= k < s.drop_last().len() ==> #[trigger] s.drop_last()[k]
            >= 0);
        lemma_sum_int_element_bound(s.drop_last(), i);
    }
}

/// A sum of nonnegative integers is nonnegative.
pub proof fn lemma_sum_int_nonneg(s: Seq<int>)
    requires
        forall|k: int| 0 <= k < s.len() ==> #[trigger] s[k] >= 0,
    ensures
        sum_int(s) >= 0,
    decreases s.len(),
{
    if s.len() > 0 {
        assert(forall|k: int| 0 <= k < s.drop_last().len() ==> #[trigger] s.drop_last()[k]
            >= 0);
        lemma_sum_int_nonneg(s.drop_last());
    }
}

/// A process the aggregator accepted, with the labels its name drew.
#[derive(Debug, Clone)]
pub struct ClassifiedProc {
    pub proc: ProcMem,
    pub group: String,
    pub subgroup: String,
}

impl ClassifiedProc {
    /// A classified process as the specifications see it.
    pub open spec fn view_triple(self) -> (ProcMem, Seq<char>, Seq<char>) {
        (self.proc, self.group@, self.subgroup@)
    }
}

/// The name of a sampled process, as the classifier's byte matchers
/// see it.
pub open spec fn name_bytes(p: ProcMem) -> Seq<u8> {
    chars_bytes(p.name@)
}

/// The effective cap on processes of the "other" group.
pub open spec fn spec_other_limit(cfg: Config) -> int {
    match cfg.top_n_others {
        Some(n) => n as int,
        None => 10,
    }
}

/// Which processes of a snapshot the aggregator keeps, in encounter
/// order, with their labels: classification with policy first, then
/// the cardinality cap on the "other" group, counted from `used`.
/// A process dropped here enters no export and no bucket sum.
pub open spec fn spec_accepted(
    ps: Seq<ProcMem>,
    rules: Seq<Rule>,
    cfg: Config,
    used: int,
) -> Seq<(ProcMem, Seq<char>, Seq<char>)>
    decreases ps.len(),
{
    if ps.len() == 0 {
        Seq::<(ProcMem, Seq<char>, Seq<char>)>::empty()
    } else {
        let p = ps[0];
        let rest = ps.drop_first();
        match spec_classify_policy(name_bytes(p), rules, cfg) {
            None => spec_accepted(rest, rules, cfg, used),
            Some(pair) => {
                if is_other_label(pair.0) {
                    if used >= spec_other_limit(cfg) {
                        spec_accepted(rest, rules, cfg, used)
                    } else {
                        seq![(p, pair.0, pair.1)] + spec_accepted(rest, rules, cfg, used + 1)
                    }
                } else {
                    seq![(p, pair.0, pair.1)] + spec_accepted(rest, rules, cfg, used)
                }
            },
        }
    }
}

/// Classifies the snapshot and applies the "other" cardinality cap.
///
/// Returns exactly the accepted processes, in encounter order, each
/// with its (group, subgroup) labels.
pub fn accept_processes(processes: &Vec<ProcMem>, rules: &Vec<Rule>, cfg: &Config) -> (r: Vec<
    ClassifiedProc,
>)
    ensures
        r@.map_values(|c: ClassifiedProc| c.view_triple()) == spec_accepted(
            processes@,
            rules@,
            *cfg,
            0,
        ),
{
    let mut out: Vec<ClassifiedProc> = Vec::new();
    let mut other_used: usize = 0;
    let mut i: usize = 0;
    let other_limit = match cfg.top_n_others {
        Some(n) => n,
        None => 10,
    };
    proof {
        assert(processes@.subrange(0, processes@.len() as int) =~= processes@);
        assert(out@.map_values(|c: ClassifiedProc| c.view_triple()) + spec_accepted(
            processes@,
            rules@,
            *cfg,
            0,
        ) =~= spec_accepted(processes@, rules@, *cfg, 0));
    }
    while i < processes.len()
        invariant
            i <= processes@.len(),
            other_limit == spec_other_limit(*cfg),
            spec_accepted(processes@, rules@, *cfg, 0) == out@.map_values(
                |c: ClassifiedProc| c.view_triple(),
            ) + spec_accepted(
                processes@.subrange(i as int, processes@.len() as int),
                rules@,
                *cfg,
                other_used as int,
            ),
        decreases processes@.len() - i,
    {
        let p = &processes[i];
        let ghost rest = processes@.subrange(i as int, processes@.len() as int);
        proof {
            assert(rest[0] == processes@[i as int]);
            assert(rest.drop_first() =~= processes@.subrange(
                i as int + 1,
                processes@.len() as int,
            ));
        }
        let name_ref = p.name.as_str();
        proof {
            assert(name_ref.spec_bytes() == name_bytes(processes@[i as int]));
        }
        match classify_process_with_config(name_ref, rules, cfg) {
            None => {},
            Some(pair) => {
                let is_other = label_is_other(pair.0.as_str());
                if is_other && other_used >= other_limit {
                    // The cap on "other" processes is reached: dropped
                    // entirely, not merely left out of the ranking.
                } else {
                    if is_other {
                        other_used = other_used + 1;
                    }
                    let ghost prev_map = out@.map_values(|c: ClassifiedProc| c.view_triple());
                    let cp = ClassifiedProc {
                        proc: p.duplicate(),
                        group: pair.0,
                        subgroup: pair.1,
                    };
                    proof {
                        assert(cp.proc == processes@[i as int]);
                    }
                    let ghost cp_view = cp.view_triple();
                    out.push(cp);
                    proof {
                        assert(out@.map_values(|c: ClassifiedProc| c.view_triple())
                            =~= prev_map.push(cp_view));
                        assert(prev_map.push(cp_view) + spec_accepted(
                            rest.drop_first(),
                            rules@,
                            *cfg,
                            other_used as int,
                        ) =~= prev_map + (seq![cp_view] + spec_accepted(
                            rest.drop_first(),
                            rules@,
                            *cfg,
                            other_used as int,
                        )));
                    }
                }
            },
        }
        i = i + 1;
    }
    proof {
        assert(processes@.subrange(i as int, processes@.len() as int)
            =~= Seq::<ProcMem>::empty());
        assert(out@.map_values(|c: ClassifiedProc| c.view_triple()) + spec_accepted(
            Seq::<ProcMem>::empty(),
            rules@,
            *cfg,
            other_used as int,
        ) =~= out@.map_values(|c: ClassifiedProc| c.view_triple()));
    }
    out
}

/// One (group, subgroup) bucket of a request's aggregation pass, with
/// its members in encounter order.
#[derive(Debug, Clone)]
pub struct Bucket {
    pub group: String,
    pub subgroup: String,
    pub members: Vec<ProcMem>,
}

/// The members a bucket with the given labels holds: the accepted
/// processes carrying exactly those labels, in encounter order.
pub open spec fn spec_members(
    acc: Seq<(ProcMem, Seq<char>, Seq<char>)>,
    g: Seq<char>,
    sg: Seq<char>,
) -> Seq<ProcMem> {
    acc.filter(|t: (ProcMem, Seq<char>, Seq<char>)| t.1 == g && t.2 == sg).map_values(
        |t: (ProcMem, Seq<char>, Seq<char>)| t.0,
    )
}

/// The plain processes of a run of accepted entries.
pub open spec fn procs_of(acc: Seq<(ProcMem, Seq<char>, Seq<char>)>) -> Seq<ProcMem> {
    acc.map_values(|t: (ProcMem, Seq<char>, Seq<char>)| t.0)
}

/// The five per-process metric totals of a process list: (rss, pss,
/// uss, cpu thousandths of a percent, cpu milliseconds).
pub open spec fn proc_totals(ps: Seq<ProcMem>) -> (int, int, int, int, int) {
    (
        sum_int(ps.map_values(|p: ProcMem| p.rss as int)),
        sum_int(ps.map_values(|p: ProcMem| p.pss as int)),
        sum_int(ps.map_values(|p: ProcMem| p.uss as int)),
        sum_int(ps.map_values(|p: ProcMem| p.cpu_millipercent as int)),
        sum_int(ps.map_values(|p: ProcMem| p.cpu_time_ms as int)),
    )
}

/// The five metric totals over all buckets' members.
pub open spec fn bucket_totals(bs: Seq<Bucket>) -> (int, int, int, int, int) {
    (
        sum_int(bs.map_values(|b: Bucket| proc_totals(b.members@).0)),
        sum_int(bs.map_values(|b: Bucket| proc_totals(b.members@).1)),
        sum_int(bs.map_values(|b: Bucket| proc_totals(b.members@).2)),
        sum_int(bs.map_values(|b: Bucket| proc_totals(b.members@).3)),
        sum_int(bs.map_values(|b: Bucket| proc_totals(b.members@).4)),
    )
}

/// Appending a process adds its metrics to the totals.
pub proof fn lemma_proc_totals_push(ps: Seq<ProcMem>, p: ProcMem)
    ensures
        proc_totals(ps.push(p)).0 == proc_totals(ps).0 + p.rss,
        proc_totals(ps.push(p)).1 == proc_totals(ps).1 + p.pss,
        proc_totals(ps.push(p)).2 == proc_totals(ps).2 + p.uss,
        proc_totals(ps.push(p)).3 == proc_totals(ps).3 + p.cpu_millipercent,
        proc_totals(ps.push(p)).4 == proc_totals(ps).4 + p.cpu_time_ms,
{
    assert(ps.push(p).map_values(|q: ProcMem| q.rss as int) =~= ps.map_values(
        |q: ProcMem| q.rss as int,
    ).push(p.rss as int));
    lemma_sum_int_push(ps.map_values(|q: ProcMem| q.rss as int), p.rss as int);
    assert(ps.push(p).map_values(|q: ProcMem| q.pss as int) =~= ps.map_values(
        |q: ProcMem| q.pss as int,
    ).push(p.pss as int));
    lemma_sum_int_push(ps.map_values(|q: ProcMem| q.pss as int), p.pss as int);
    assert(ps.push(p).map_values(|q: ProcMem| q.uss as int) =~= ps.map_values(
        |q: ProcMem| q.uss as int,
    ).push(p.uss as int));
    lemma_sum_int_push(ps.map_values(|q: ProcMem| q.uss as int), p.uss as int);
    assert(ps.push(p).map_values(|q: ProcMem| q.cpu_millipercent as int) =~= ps.map_values(
        |q: ProcMem| q.cpu_millipercent as int,
    ).push(p.cpu_millipercent as int));
    lemma_sum_int_push(
        ps.map_values(|q: ProcMem| q.cpu_millipercent as int),
        p.cpu_millipercent as int,
    );
    assert(ps.push(p).map_values(|q: ProcMem| q.cpu_time_ms as int) =~= ps.map_values(
        |q: ProcMem| q.cpu_time_ms as int,
    ).push(p.cpu_time_ms as int));
    lemma_sum_int_push(ps.map_values(|q: ProcMem| q.cpu_time_ms as int), p.cpu_time_ms as int);
}

/// Appending a process to one bucket adds its metrics to the bucket
/// totals.
pub proof fn lemma_bucket_totals_update(bs: Seq<Bucket>, j: int, b2: Bucket, p: ProcMem)
    requires
        0 <= j < bs.len(),
        b2.members@ == bs[j].members@.push(p),
    ensures
        bucket_totals(bs.update(j, b2)).0 == bucket_totals(bs).0 + p.rss,
        bucket_totals(bs.update(j, b2)).1 == bucket_totals(bs).1 + p.pss,
        bucket_totals(bs.update(j, b2)).2 == bucket_totals(bs).2 + p.uss,
        bucket_totals(bs.update(j, b2)).3 == bucket_totals(bs).3 + p.cpu_millipercent,
        bucket_totals(bs.update(j, b2)).4 == bucket_totals(bs).4 + p.cpu_time_ms,
{
    lemma_proc_totals_push(bs[j].members@, p);
    assert(bs.update(j, b2).map_values(|b: Bucket| proc_totals(b.members@).0)
        =~= bs.map_values(|b: Bucket| proc_totals(b.members@).0).update(
        j,
        proc_totals(b2.members@).0,
    ));
    lemma_sum_int_update(
        bs.map_values(|b: Bucket| proc_totals(b.members@).0),
        j,
        proc_totals(b2.members@).0,
    );
    assert(bs.update(j, b2).map_values(|b: Bucket| proc_totals(b.members@).1)
        =~= bs.map_values(|b: Bucket| proc_totals(b.members@).1).update(
        j,
        proc_totals(b2.members@).1,
    ));
    lemma_sum_int_update(
        bs.map_values(|b: Bucket| proc_totals(b.members@).1),
        j,
        proc_totals(b2.members@).1,
    );
    assert(bs.update(j, b2).map_values(|b: Bucket| proc_totals(b.members@).2)
        =~= bs.map_values(|b: Bucket| proc_totals(b.members@).2).update(
        j,
        proc_totals(b2.members@).2,
    ));
    lemma_sum_int_update(
        bs.map_values(|b: Bucket| proc_totals(b.members@).2),
        j,
        proc_totals(b2.members@).2,
    );
    assert(bs.update(j, b2).map_values(|b: Bucket| proc_totals(b.members@).3)
        =~= bs.map_values(|b: Bucket| proc_totals(b.members@).3).update(
        j,
        proc_totals(b2.members@).3,
    ));
    lemma_sum_int_update(
        bs.map_values(|b: Bucket| proc_totals(b.members@).3),
        j,
        proc_totals(b2.members@).3,
    );
    assert(bs.update(j, b2).map_values(|b: Bucket| proc_totals(b.members@).4)
        =~= bs.map_values(|b: Bucket| proc_totals(b.members@).4).update(
        j,
        proc_totals(b2.members@).4,
    ));
    lemma_sum_int_update(
        bs.map_values(|b: Bucket| proc_totals(b.members@).4),
        j,
        proc_totals(b2.members@).4,
    );
}

/// Appending a bucket adds its member totals to the bucket totals.
pub proof fn lemma_bucket_totals_push(bs: Seq<Bucket>, b: Bucket)
    ensures
        bucket_totals(bs.push(b)).0 == bucket_totals(bs).0 + proc_totals(b.members@).0,
        bucket_totals(bs.push(b)).1 == bucket_totals(bs).1 + proc_totals(b.members@).1,
        bucket_totals(bs.push(b)).2 == bucket_totals(bs).2 + proc_totals(b.members@).2,
        bucket_totals(bs.push(b)).3 == bucket_totals(bs).3 + proc_totals(b.members@).3,
        bucket_totals(bs.push(b)).4 == bucket_totals(bs).4 + proc_totals(b.members@).4,
{
    assert(bs.push(b).map_values(|c: Bucket| proc_totals(c.members@).0) =~= bs.map_values(
        |c: Bucket| proc_totals(c.members@).0,
    ).push(proc_totals(b.members@).0));
    lemma_sum_int_push(
        bs.map_values(|c: Bucket| proc_totals(c.members@).0),
        proc_totals(b.members@).0,
    );
    assert(bs.push(b).map_values(|c: Bucket| proc_totals(c.members@).1) =~= bs.map_values(
        |c: Bucket| proc_totals(c.members@).1,
    ).push(proc_totals(b.members@).1));
    lemma_sum_int_push(
        bs.map_values(|c: Bucket| proc_totals(c.members@).1),
        proc_totals(b.members@).1,
    );
    assert(bs.push(b).map_values(|c: Bucket| proc_totals(c.members@).2) =~= bs.map_values(
        |c: Bucket| proc_totals(c.members@).2,
    ).push(proc_totals(b.members@).2));
    lemma_sum_int_push(
        bs.map_values(|c: Bucket| proc_totals(c.members@).2),
        proc_totals(b.members@).2,
    );
    assert(bs.push(b).map_values(|c: Bucket| proc_totals(c.members@).3) =~= bs.map_values(
        |c: Bucket| proc_totals(c.members@).3,
    ).push(proc_totals(b.members@).3));
    lemma_sum_int_push(
        bs.map_values(|c: Bucket| proc_totals(c.members@).3),
        proc_totals(b.members@).3,
    );
    assert(bs.push(b).map_values(|c: Bucket| proc_totals(c.members@).4) =~= bs.map_values(
        |c: Bucket| proc_totals(c.members@).4,
    ).push(proc_totals(b.members@).4));
    lemma_sum_int_push(
        bs.map_values(|c: Bucket| proc_totals(c.members@).4),
        proc_totals(b.members@).4,
    );
}

/// How one more accepted entry changes a bucket's member list: it
/// joins the bucket carrying its labels and no other.
pub proof fn lemma_members_push(
    acc: Seq<(ProcMem, Seq<char>, Seq<char>)>,
    t: (ProcMem, Seq<char>, Seq<char>),
    g: Seq<char>,
    sg: Seq<char>,
)
    ensures
        spec_members(acc.push(t), g, sg) == if t.1 == g && t.2 == sg {
            spec_members(acc, g, sg).push(t.0)
        } else {
            spec_members(acc, g, sg)
        },
{
    reveal(Seq::filter);
    let pred = |u: (ProcMem, Seq<char>, Seq<char>)| u.1 == g && u.2 == sg;
    assert(acc.push(t).drop_last() =~= acc);
    assert(acc.push(t).last() == t);
    if pred(t) {
        assert(acc.push(t).filter(pred) == acc.filter(pred).push(t));
        assert(acc.filter(pred).push(t).map_values(
            |u: (ProcMem, Seq<char>, Seq<char>)| u.0,
        ) =~= acc.filter(pred).map_values(|u: (ProcMem, Seq<char>, Seq<char>)| u.0).push(
            t.0,
        ));
    } else {
        assert(acc.push(t).filter(pred) == acc.filter(pred));
    }
}

/// A label pair no accepted entry carries has no members.
pub proof fn lemma_members_empty(
    acc: Seq<(ProcMem, Seq<char>, Seq<char>)>,
    g: Seq<char>,
    sg: Seq<char>,
)
    requires
        forall|t: int| 0 <= t < acc.len() ==> !((#[trigger] acc[t]).1 == g && acc[t].2 == sg),
    ensures
        spec_members(acc, g, sg) == Seq::<ProcMem>::empty(),
    decreases acc.len(),
{
    reveal(Seq::filter);
    if acc.len() > 0 {
        let dl = acc.drop_last();
        assert(forall|t: int| 0 <= t < dl.len() ==> dl[t] == #[trigger] acc[t]);
        lemma_members_empty(dl, g, sg);
        assert(!((acc.last()).1 == g && acc.last().2 == sg));
        assert(acc =~= dl.push(acc.last()));
        lemma_members_push(dl, acc.last(), g, sg);
    }
}

/// Groups the accepted processes into (group, subgroup) buckets.
///
/// Buckets appear in order of first encounter, keys are distinct, each
/// bucket holds exactly the accepted members carrying its labels in
/// encounter order, and the five metric totals over all buckets equal
/// the totals over all accepted processes -- nothing is lost and
/// nothing counted twice.
pub fn group_into_buckets(accepted: &Vec<ClassifiedProc>) -> (r: Vec<Bucket>)
    ensures
        forall|j: int|
            0 <= j < r@.len() ==> (#[trigger] r@[j]).members@ == spec_members(
                accepted@.map_values(|c: ClassifiedProc| c.view_triple()),
                r@[j].group@,
                r@[j].subgroup@,
            ),
        forall|j: int| 0 <= j < r@.len() ==> (#[trigger] r@[j]).members@.len() > 0,
        forall|j1: int, j2: int|
            0 <= j1 < j2 < r@.len() ==> !((#[trigger] r@[j1]).group@ == (
            #[trigger] r@[j2]).group@ && r@[j1].subgroup@ == r@[j2].subgroup@),
        forall|t: int|
            0 <= t < accepted@.len() ==> exists|j: int|
                0 <= j < r@.len() && (#[trigger] r@[j]).group@ == (
                #[trigger] accepted@[t]).view_triple().1 && r@[j].subgroup@
                    == accepted@[t].view_triple().2,
        bucket_totals(r@) == proc_totals(
            procs_of(accepted@.map_values(|c: ClassifiedProc| c.view_triple())),
        ),
{
    let ghost accv = accepted@.map_values(|c: ClassifiedProc| c.view_triple());
    let mut buckets: Vec<Bucket> = Vec::new();
    let mut i: usize = 0;
    proof {
        assert(accv.subrange(0, 0) =~= Seq::<(ProcMem, Seq<char>, Seq<char>)>::empty());
        assert(procs_of(accv.subrange(0, 0)) =~= Seq::<ProcMem>::empty());
        assert(buckets@.map_values(|b: Bucket| proc_totals(b.members@).0) =~= Seq::<
            int,
        >::empty());
        assert(buckets@.map_values(|b: Bucket| proc_totals(b.members@).1) =~= Seq::<
            int,
        >::empty());
        assert(buckets@.map_values(|b: Bucket| proc_totals(b.members@).2) =~= Seq::<
            int,
        >::empty());
        assert(buckets@.map_values(|b: Bucket| proc_totals(b.members@).3) =~= Seq::<
            int,
        >::empty());
        assert(buckets@.map_values(|b: Bucket| proc_totals(b.members@).4) =~= Seq::<
            int,
        >::empty());
    }
    while i < accepted.len()
        invariant
            i <= accepted@.len(),
            accv == accepted@.map_values(|c: ClassifiedProc| c.view_triple()),
            forall|j: int|
                0 <= j < buckets@.len() ==> (#[trigger] buckets@[j]).members@ == spec_members(
                    accv.subrange(0, i as int),
                    buckets@[j].group@,
                    buckets@[j].subgroup@,
                ),
            forall|j: int| 0 <= j < buckets@.len() ==> (#[trigger] buckets@[j]).members@.len()
                > 0,
            forall|j1: int, j2: int|
                0 <= j1 < j2 < buckets@.len() ==> !((#[trigger] buckets@[j1]).group@ == (
                #[trigger] buckets@[j2]).group@ && buckets@[j1].subgroup@
                    == buckets@[j2].subgroup@),
            forall|t: int|
                0 <= t < i ==> exists|j: int|
                    0 <= j < buckets@.len() && (#[trigger] buckets@[j]).group@ == (
                    #[trigger] accv[t]).1 && buckets@[j].subgroup@ == accv[t].2,
            bucket_totals(buckets@) == proc_totals(procs_of(accv.subrange(0, i as int))),
        decreases accepted@.len() - i,
    {
        let cp = &accepted[i];
        let ghost t = accv[i as int];
        let ghost prefix = accv.subrange(0, i as int);
        proof {
            assert(t == accepted@[i as int].view_triple());
            assert(accv.subrange(0, i as int + 1).drop_last() =~= prefix);
            assert(accv.subrange(0, i as int + 1) =~= prefix.push(t));
            assert(procs_of(prefix.push(t)) =~= procs_of(prefix).push(t.0));
        }
        // Find the bucket already carrying these labels, if any.
        let mut found: Option<usize> = None;
        let mut j: usize = 0;
        while j < buckets.len()
            invariant
                j <= buckets@.len(),
                match found {
                    Some(f) => f < j && (buckets@[f as int].group@ == cp.group@
                        && buckets@[f as int].subgroup@ == cp.subgroup@),
                    None => forall|k: int|
                        0 <= k < j ==> !((#[trigger] buckets@[k]).group@ == cp.group@
                            && buckets@[k].subgroup@ == cp.subgroup@),
                },
            decreases buckets@.len() - j,
        {
            if found.is_none() && buckets[j].group.eq(&cp.group) && buckets[j].subgroup.eq(
                &cp.subgroup,
            ) {
                found = Some(j);
            }
            j = j + 1;
        }
        let ghost old_buckets = buckets@;
        match found {
            Some(f) => {
                let pm = cp.proc.duplicate();
                proof {
                    assert(pm == t.0);
                }
                buckets[f].members.push(pm);
                proof {
                    assert(buckets@[f as int].members@ == old_buckets[f as int].members@.push(
                        t.0,
                    ));
                    assert(buckets@ =~= old_buckets.update(f as int, buckets@[f as int]));
                    lemma_bucket_totals_update(
                        old_buckets,
                        f as int,
                        buckets@[f as int],
                        t.0,
                    );
                    lemma_proc_totals_push(procs_of(prefix), t.0);
                    assert forall|jj: int| 0 <= jj < buckets@.len() implies (
                    #[trigger] buckets@[jj]).members@ == spec_members(
                        prefix.push(t),
                        buckets@[jj].group@,
                        buckets@[jj].subgroup@,
                    ) by {
                        lemma_members_push(prefix, t, buckets@[jj].group@, buckets@[jj].subgroup@);
                        if jj != f {
                            assert(buckets@[jj] == old_buckets[jj]);
                        }
                    }
                    assert forall|tt: int| 0 <= tt < i + 1 implies exists|jj: int|
                        0 <= jj < buckets@.len() && (#[trigger] buckets@[jj]).group@ == (
                        #[trigger] accv[tt]).1 && buckets@[jj].subgroup@ == accv[tt].2 by {
                        if tt < i {
                            let jj = choose|jj: int|
                                0 <= jj < old_buckets.len() && (#[trigger] old_buckets[jj]).group@
                                    == accv[tt].1 && old_buckets[jj].subgroup@ == accv[tt].2;
                            assert(buckets@[jj].group@ == accv[tt].1 && buckets@[jj].subgroup@
                                == accv[tt].2);
                        } else {
                            assert(buckets@[f as int].group@ == accv[tt].1
                                && buckets@[f as int].subgroup@ == accv[tt].2);
                        }
                    }
                }
            },
            None => {
                let pm = cp.proc.duplicate();
                proof {
                    assert(pm == t.0);
                }
                let mut b = Bucket {
                    group: cp.group.clone(),
                    subgroup: cp.subgroup.clone(),
                    members: Vec::new(),
                };
                b.members.push(pm);
                let ghost bv = b;
                buckets.push(b);
                proof {
                    assert(buckets@ =~= old_buckets.push(bv));
                    assert(bv.members@ =~= Seq::<ProcMem>::empty().push(t.0));
                    lemma_proc_totals_push(Seq::<ProcMem>::empty(), t.0);
                    lemma_bucket_totals_push(old_buckets, bv);
                    lemma_proc_totals_push(procs_of(prefix), t.0);
                    assert forall|jj: int| 0 <= jj < buckets@.len() implies (
                    #[trigger] buckets@[jj]).members@ == spec_members(
                        prefix.push(t),
                        buckets@[jj].group@,
                        buckets@[jj].subgroup@,
                    ) by {
                        lemma_members_push(prefix, t, buckets@[jj].group@, buckets@[jj].subgroup@);
                        if jj < old_buckets.len() {
                            assert(buckets@[jj] == old_buckets[jj]);
                        } else {
                            // The new bucket: no earlier accepted entry
                            // carries its labels, so its filtered member
                            // list over the prefix is empty.
                            assert forall|tt: int| 0 <= tt < prefix.len() implies !((
                            #[trigger] prefix[tt]).1 == bv.group@ && prefix[tt].2
                                == bv.subgroup@) by {
                                if prefix[tt].1 == bv.group@ && prefix[tt].2 == bv.subgroup@ {
                                    assert(prefix[tt] == accv[tt]);
                                    let jj = choose|jj: int|
                                        0 <= jj < old_buckets.len() && (
                                        #[trigger] old_buckets[jj]).group@ == accv[tt].1
                                            && old_buckets[jj].subgroup@ == accv[tt].2;
                                    assert(!(old_buckets[jj].group@ == cp.group@
                                        && old_buckets[jj].subgroup@ == cp.subgroup@));
                                }
                            }
                            lemma_members_empty(prefix, bv.group@, bv.subgroup@);
                        }
                    }
                    assert forall|tt: int| 0 <= tt < i + 1 implies exists|jj: int|
                        0 <= jj < buckets@.len() && (#[trigger] buckets@[jj]).group@ == (
                        #[trigger] accv[tt]).1 && buckets@[jj].subgroup@ == accv[tt].2 by {
                        if tt < i {
                            let jj = choose|jj: int|
                                0 <= jj < old_buckets.len() && (#[trigger] old_buckets[jj]).group@
                                    == accv[tt].1 && old_buckets[jj].subgroup@ == accv[tt].2;
                            assert(buckets@[jj].group@ == accv[tt].1 && buckets@[jj].subgroup@
                                == accv[tt].2);
                        } else {
                            assert(buckets@[old_buckets.len() as int].group@ == accv[tt].1
                                && buckets@[old_buckets.len() as int].subgroup@ == accv[tt].2);
                        }
                    }
                }
            },
        }
        i = i + 1;
    }
    proof {
        assert(accv.subrange(0, i as int) =~= accv);
        assert forall|t: int| 0 <= t < accepted@.len() implies exists|j: int|
            0 <= j < buckets@.len() && (#[trigger] buckets@[j]).group@ == (
            #[trigger] accepted@[t]).view_triple().1 && buckets@[j].subgroup@
                == accepted@[t].view_triple().2 by {
            assert(accv[t] == accepted@[t].view_triple());
            let jj = choose|jj: int|
                0 <= jj < buckets@.len() && (#[trigger] buckets@[jj]).group@ == accv[t].1
                    && buckets@[jj].subgroup@ == accv[t].2;
            assert(0 <= jj < buckets@.len() && buckets@[jj].group@
                == accepted@[t].view_triple().1 && buckets@[jj].subgroup@
                == accepted@[t].view_triple().2);
        }
    }
    buckets
}

/// A bucket member annotated with its encounter position.
#[derive(Debug, Clone)]
pub struct SortedMember {
    pub proc: ProcMem,
    pub source_index: usize,
}

/// The ranking order: USS descending, ties broken by encounter
/// position ascending -- a stable sort's order.
pub open spec fn spec_ranks_before(a: SortedMember, b: SortedMember) -> bool {
    a.proc.uss > b.proc.uss || (a.proc.uss == b.proc.uss && a.source_index < b.source_index)
}

/// `s` is the members of a bucket arranged in ranking order: the same
/// processes, each tagged with its encounter position, positions
/// distinct, ordered by USS descending with encounter order breaking
/// ties. Exactly one arrangement satisfies this.
pub open spec fn spec_sorted_of(members: Seq<ProcMem>, s: Seq<SortedMember>) -> bool {
    &&& s.len() == members.len()
    &&& forall|i: int|
        0 <= i < s.len() ==> (#[trigger] s[i]).source_index < members.len()
            && members[s[i].source_index as int] == s[i].proc
    &&& forall|i: int, j: int|
        0 <= i < j < s.len() ==> (#[trigger] s[i]).source_index != (
        #[trigger] s[j]).source_index
    &&& forall|i: int, j: int|
        0 <= i < j < s.len() ==> spec_ranks_before(#[trigger] s[i], #[trigger] s[j])
}

/// Arranges a bucket's members in ranking order.
///
/// A stable sort: members with equal USS keep their encounter order,
/// witnessed by the ascending source positions.
pub fn sort_members(members: &Vec<ProcMem>) -> (r: Vec<SortedMember>)
    ensures
        spec_sorted_of(members@, r@),
{
    let mut out: Vec<SortedMember> = Vec::new();
    let mut k: usize = 0;
    while k < members.len()
        invariant
            k <= members@.len(),
            out@.len() == k,
            forall|i: int|
                0 <= i < out@.len() ==> (#[trigger] out@[i]).source_index < k
                    && members@[out@[i].source_index as int] == out@[i].proc,
            forall|i: int, j: int|
                0 <= i < j < out@.len() ==> (#[trigger] out@[i]).source_index != (
                #[trigger] out@[j]).source_index,
            forall|i: int, j: int|
                0 <= i < j < out@.len() ==> spec_ranks_before(
                    #[trigger] out@[i],
                    #[trigger] out@[j],
                ),
        decreases members@.len() - k,
    {
        let x = SortedMember { proc: members[k].duplicate(), source_index: k };
        let mut p: usize = 0;
        while p < out.len() && out[p].proc.uss >= x.proc.uss
            invariant
                p <= out@.len(),
                x.proc.uss == members@[k as int].uss,
                forall|i: int| 0 <= i < p ==> (#[trigger] out@[i]).proc.uss >= x.proc.uss,
            decreases out@.len() - p,
        {
            p = p + 1;
        }
        let ghost old_out = out@;
        out.insert(p, x);
        proof {
            assert(out@ =~= old_out.insert(p as int, x));
            assert forall|i: int| 0 <= i < out@.len() implies (
            #[trigger] out@[i]).source_index < k + 1 && members@[out@[i].source_index as int]
                == out@[i].proc by {
                if i < p {
                    assert(out@[i] == old_out[i]);
                } else if i == p {
                    assert(out@[i] == x);
                } else {
                    assert(out@[i] == old_out[i - 1]);
                }
            }
            assert forall|i: int, j: int| 0 <= i < j < out@.len() implies (
            #[trigger] out@[i]).source_index != (#[trigger] out@[j]).source_index by {
                if i == p || j == p {
                    assert(x.source_index == k);
                }
            }
            assert forall|i: int, j: int| 0 <= i < j < out@.len() implies spec_ranks_before(
                #[trigger] out@[i],
                #[trigger] out@[j],
            ) by {
                if j == p {
                    assert(out@[i] == old_out[i]);
                    assert(old_out[i].proc.uss >= x.proc.uss);
                    assert(old_out[i].source_index < k);
                } else if i == p {
                    assert(out@[j] == old_out[j - 1]);
                    if p < old_out.len() {
                        assert(old_out[p as int].proc.uss < x.proc.uss);
                        if j - 1 > p {
                            assert(spec_ranks_before(old_out[p as int], old_out[j - 1]));
                        }
                    }
                } else if i < p && j > p {
                    assert(out@[i] == old_out[i]);
                    assert(out@[j] == old_out[j - 1]);
                    assert(spec_ranks_before(old_out[i], old_out[j - 1]));
                } else if i < p && j < p {
                    assert(out@[i] == old_out[i]);
                    assert(out@[j] == old_out[j]);
                } else {
                    assert(out@[i] == old_out[i - 1]);
                    assert(out@[j] == old_out[j - 1]);
                }
            }
        }
        k = k + 1;
    }
    out
}

/// A share of a bucket total, in hundredths of a percent: the value
/// over the total, scaled; nothing when the total is zero, so no
/// percentage is emitted for an empty denominator.
pub open spec fn spec_pct_centi(v: int, total: int) -> Option<int> {
    if total <= 0 {
        None
    } else {
        Some((v * 10000) / total)
    }
}

/// Computes a member's share of a bucket total, guarding the zero
/// denominator.
pub fn pct_centi(v: u64, total: u128) -> (r: Option<u64>)
    requires
        v <= total,
    ensures
        match r {
            Some(p) => total > 0 && p == spec_pct_centi(v as int, total as int)->0,
            None => total == 0,
        },
{
    if total == 0 {
        return None;
    }
    let wide: u128 = (v as u128) * 10000 / total;
    proof {
        assert((v as int) * 10000 / (total as int) <= 10000) by (nonlinear_arith)
            requires
                0 < total <= u128::MAX,
                0 <= v <= total,
        ;
        assert((v as int) * 10000 >= 0) by (nonlinear_arith)
            requires
                v >= 0,
        ;
    }
    Some(wide as u64)
}


/// How a percentage field relates to the value and the bucket total it
/// was computed from.
pub open spec fn pct_matches(o: Option<u64>, v: int, total: int) -> bool {
    match o {
        Some(p) => total > 0 && p == (v * 10000) / total,
        None => total <= 0,
    }
}

/// Every member's metrics are bounded by the bucket totals.
pub proof fn lemma_member_le_totals(members: Seq<ProcMem>, idx: int)
    requires
        0 <= idx < members.len(),
    ensures
        members[idx].rss <= proc_totals(members).0,
        members[idx].pss <= proc_totals(members).1,
        members[idx].uss <= proc_totals(members).2,
        members[idx].cpu_time_ms <= proc_totals(members).4,
{
    let m0 = members.map_values(|p: ProcMem| p.rss as int);
    assert(forall|k: int| 0 <= k < m0.len() ==> #[trigger] m0[k] >= 0);
    lemma_sum_int_element_bound(m0, idx);
    let m1 = members.map_values(|p: ProcMem| p.pss as int);
    assert(forall|k: int| 0 <= k < m1.len() ==> #[trigger] m1[k] >= 0);
    lemma_sum_int_element_bound(m1, idx);
    let m2 = members.map_values(|p: ProcMem| p.uss as int);
    assert(forall|k: int| 0 <= k < m2.len() ==> #[trigger] m2[k] >= 0);
    lemma_sum_int_element_bound(m2, idx);
    let m4 = members.map_values(|p: ProcMem| p.cpu_time_ms as int);
    assert(forall|k: int| 0 <= k < m4.len() ==> #[trigger] m4[k] >= 0);
    lemma_sum_int_element_bound(m4, idx);
}

/// The five metric totals of a member list, computed exactly.
pub fn sum_members(members: &Vec<ProcMem>) -> (r: (u128, u128, u128, u128, u128))
    ensures
        r.0 == proc_totals(members@).0,
        r.1 == proc_totals(members@).1,
        r.2 == proc_totals(members@).2,
        r.3 == proc_totals(members@).3,
        r.4 == proc_totals(members@).4,
{
    let mut rss: u128 = 0;
    let mut pss: u128 = 0;
    let mut uss: u128 = 0;
    let mut cpu_mp: u128 = 0;
    let mut cpu_ms: u128 = 0;
    let mut i: usize = 0;
    proof {
        assert(members@.subrange(0, 0) =~= Seq::<ProcMem>::empty());
    }
    while i < members.len()
        invariant
            i <= members@.len(),
            rss == proc_totals(members@.subrange(0, i as int)).0,
            pss == proc_totals(members@.subrange(0, i as int)).1,
            uss == proc_totals(members@.subrange(0, i as int)).2,
            cpu_mp == proc_totals(members@.subrange(0, i as int)).3,
            cpu_ms == proc_totals(members@.subrange(0, i as int)).4,
            rss <= i * (u64::MAX as int),
            pss <= i * (u64::MAX as int),
            uss <= i * (u64::MAX as int),
            cpu_mp <= i * (u64::MAX as int),
            cpu_ms <= i * (u64::MAX as int),
        decreases members@.len() - i,
    {
        let p = &members[i];
        proof {
            assert(members@.subrange(0, i as int + 1) =~= members@.subrange(
                0,
                i as int,
            ).push(members@[i as int]));
            lemma_proc_totals_push(members@.subrange(0, i as int), members@[i as int]);
            assert((i + 1) * (u64::MAX as int) == i * (u64::MAX as int) + u64::MAX)
                by (nonlinear_arith);
            assert(i * (u64::MAX as int) + u64::MAX < u128::MAX) by (nonlinear_arith)
                requires
                    0 <= i < u64::MAX as int,
            ;
        }
        rss = rss + p.rss as u128;
        pss = pss + p.pss as u128;
        uss = uss + p.uss as u128;
        cpu_mp = cpu_mp + p.cpu_millipercent as u128;
        cpu_ms = cpu_ms + p.cpu_time_ms as u128;
        i = i + 1;
    }
    proof {
        assert(members@.subrange(0, i as int) =~= members@);
    }
    (rss, pss, uss, cpu_mp, cpu_ms)
}

/// One kept member of a bucket's Top-N ranking, with its 1-based rank
/// and its shares of the bucket totals, in hundredths of a percent.
#[derive(Debug, Clone)]
pub struct RankedMember {
    pub rank: usize,
    pub source_index: usize,
    pub proc: ProcMem,
    pub rss_pct_centi: Option<u64>,
    pub pss_pct_centi: Option<u64>,
    pub uss_pct_centi: Option<u64>,
    pub cpu_time_pct_centi: Option<u64>,
}

/// The effective Top-N depth for subgroup buckets.
pub open spec fn spec_top_subgroup(cfg: Config) -> int {
    match cfg.top_n_subgroup {
        Some(n) => n as int,
        None => 3,
    }
}

/// A bucket whose group or subgroup names the catch-all, up to case.
pub open spec fn spec_is_other_bucket(g: Seq<char>, sg: Seq<char>) -> bool {
    is_other_label(g) || crate::classify::is_others_label(g) || is_other_label(sg)
        || crate::classify::is_others_label(sg)
}

/// How many members of a bucket the ranking keeps: the catch-all
/// bucket's own depth or the subgroup depth, floored at one.
pub open spec fn spec_bucket_limit(g: Seq<char>, sg: Seq<char>, cfg: Config) -> int {
    let n = if spec_is_other_bucket(g, sg) {
        spec_other_limit(cfg)
    } else {
        spec_top_subgroup(cfg)
    };
    if n < 1 {
        1
    } else {
        n
    }
}

/// Computes the effective ranking depth of a bucket.
pub fn bucket_limit(group: &str, subgroup: &str, cfg: &Config) -> (r: usize)
    ensures
        r == spec_bucket_limit(group@, subgroup@, *cfg),
{
    let is_other = crate::classify::label_is_other(group)
        || crate::classify::label_is_others(group) || crate::classify::label_is_other(
        subgroup,
    ) || crate::classify::label_is_others(subgroup);
    let n = if is_other {
        match cfg.top_n_others {
            Some(n) => n,
            None => 10,
        }
    } else {
        match cfg.top_n_subgroup {
            Some(n) => n,
            None => 3,
        }
    };
    if n < 1 {
        1
    } else {
        n
    }
}

/// The ranking of a bucket: `r` is the first `limit` entries of `s`,
/// the members in ranking order, each tagged with its 1-based rank and
/// its shares of the bucket totals.
pub open spec fn spec_ranked_of(
    members: Seq<ProcMem>,
    s: Seq<SortedMember>,
    r: Seq<RankedMember>,
    limit: int,
    rss_total: int,
    pss_total: int,
    uss_total: int,
    cpu_total: int,
) -> bool {
    &&& spec_sorted_of(members, s)
    &&& r.len() == if limit < s.len() {
        limit
    } else {
        s.len() as int
    }
    &&& forall|j: int|
        0 <= j < r.len() ==> {
            &&& (#[trigger] r[j]).rank == j + 1
            &&& r[j].proc == s[j].proc
            &&& r[j].source_index == s[j].source_index
            &&& pct_matches(r[j].rss_pct_centi, s[j].proc.rss as int, rss_total)
            &&& pct_matches(r[j].pss_pct_centi, s[j].proc.pss as int, pss_total)
            &&& pct_matches(r[j].uss_pct_centi, s[j].proc.uss as int, uss_total)
            &&& pct_matches(r[j].cpu_time_pct_centi, s[j].proc.cpu_time_ms as int, cpu_total)
        }
}

/// Ranks a bucket: sorts the members by USS descending with stable
/// ties, keeps the first `limit`, and computes each kept member's
/// share of the bucket totals.
pub fn rank_bucket(
    members: &Vec<ProcMem>,
    limit: usize,
    rss_sum: u128,
    pss_sum: u128,
    uss_sum: u128,
    cpu_time_sum: u128,
) -> (r: Vec<RankedMember>)
    requires
        rss_sum == proc_totals(members@).0,
        pss_sum == proc_totals(members@).1,
        uss_sum == proc_totals(members@).2,
        cpu_time_sum == proc_totals(members@).4,
    ensures
        exists|s: Seq<SortedMember>|
            #[trigger] spec_ranked_of(
                members@,
                s,
                r@,
                limit as int,
                rss_sum as int,
                pss_sum as int,
                uss_sum as int,
                cpu_time_sum as int,
            ),
{
    let sorted = sort_members(members);
    let n = if limit < sorted.len() {
        limit
    } else {
        sorted.len()
    };
    let mut out: Vec<RankedMember> = Vec::new();
    let mut j: usize = 0;
    while j < n
        invariant
            j <= n,
            n == if (limit as int) < sorted@.len() {
                limit as int
            } else {
                sorted@.len() as int
            },
            spec_sorted_of(members@, sorted@),
            rss_sum == proc_totals(members@).0,
            pss_sum == proc_totals(members@).1,
            uss_sum == proc_totals(members@).2,
            cpu_time_sum == proc_totals(members@).4,
            out@.len() == j,
            forall|jj: int|
                0 <= jj < out@.len() ==> {
                    &&& (#[trigger] out@[jj]).rank == jj + 1
                    &&& out@[jj].proc == sorted@[jj].proc
                    &&& out@[jj].source_index == sorted@[jj].source_index
                    &&& pct_matches(
                        out@[jj].rss_pct_centi,
                        sorted@[jj].proc.rss as int,
                        rss_sum as int,
                    )
                    &&& pct_matches(
                        out@[jj].pss_pct_centi,
                        sorted@[jj].proc.pss as int,
                        pss_sum as int,
                    )
                    &&& pct_matches(
                        out@[jj].uss_pct_centi,
                        sorted@[jj].proc.uss as int,
                        uss_sum as int,
                    )
                    &&& pct_matches(
                        out@[jj].cpu_time_pct_centi,
                        sorted@[jj].proc.cpu_time_ms as int,
                        cpu_time_sum as int,
                    )
                },
        decreases n - j,
    {
        let sm = &sorted[j];
        proof {
            lemma_member_le_totals(members@, sm.source_index as int);
        }
        let rss_pct = pct_centi(sm.proc.rss, rss_sum);
        let pss_pct = pct_centi(sm.proc.pss, pss_sum);
        let uss_pct = pct_centi(sm.proc.uss, uss_sum);
        let cpu_pct = pct_centi(sm.proc.cpu_time_ms, cpu_time_sum);
        out.push(RankedMember {
            rank: j + 1,
            source_index: sm.source_index,
            proc: sm.proc.duplicate(),
            rss_pct_centi: rss_pct,
            pss_pct_centi: pss_pct,
            uss_pct_centi: uss_pct,
            cpu_time_pct_centi: cpu_pct,
        });
        j = j + 1;
    }
    proof {
        assert(spec_ranked_of(
            members@,
            sorted@,
            out@,
            limit as int,
            rss_sum as int,
            pss_sum as int,
            uss_sum as int,
            cpu_time_sum as int,
        ));
    }
    out
}


/// One bucket's full report: labels, members, the five sums, and the
/// Top-N ranking.
#[derive(Debug, Clone)]
pub struct BucketReport {
    pub group: String,
    pub subgroup: String,
    pub members: Vec<ProcMem>,
    pub rss_sum: u128,
    pub pss_sum: u128,
    pub uss_sum: u128,
    pub cpu_millipercent_sum: u128,
    pub cpu_time_ms_sum: u128,
    pub ranked: Vec<RankedMember>,
}

/// What one bucket report states about the accepted processes: its
/// members are exactly the accepted entries carrying its labels in
/// encounter order, its sums are their exact totals, and its ranking
/// is the stable USS-descending Top-N with the configured depth.
pub open spec fn spec_bucket_report_ok(
    b: BucketReport,
    acc: Seq<(ProcMem, Seq<char>, Seq<char>)>,
    cfg: Config,
) -> bool {
    &&& b.members@ == spec_members(acc, b.group@, b.subgroup@)
    &&& b.members@.len() > 0
    &&& b.rss_sum == proc_totals(b.members@).0
    &&& b.pss_sum == proc_totals(b.members@).1
    &&& b.uss_sum == proc_totals(b.members@).2
    &&& b.cpu_millipercent_sum == proc_totals(b.members@).3
    &&& b.cpu_time_ms_sum == proc_totals(b.members@).4
    &&& exists|s: Seq<SortedMember>|
        #[trigger] spec_ranked_of(
            b.members@,
            s,
            b.ranked@,
            spec_bucket_limit(b.group@, b.subgroup@, cfg),
            b.rss_sum as int,
            b.pss_sum as int,
            b.uss_sum as int,
            b.cpu_time_ms_sum as int,
        )
}

/// Every accepted entry's label pair is some bucket's label pair:
/// no accepted process is missing from the bucket reports.
pub open spec fn spec_buckets_cover(
    bs: Seq<BucketReport>,
    acc: Seq<(ProcMem, Seq<char>, Seq<char>)>,
) -> bool {
    forall|t: int|
        0 <= t < acc.len() ==> exists|j: int|
            0 <= j < bs.len() && (#[trigger] bs[j]).group@ == (#[trigger] acc[t]).1
                && bs[j].subgroup@ == acc[t].2
}

/// What one scrape's aggregation pass yields: the accepted processes
/// (the per-process export) and the per-bucket reports.
#[derive(Debug, Clone)]
pub struct AggregationResult {
    pub accepted: Vec<ClassifiedProc>,
    pub buckets: Vec<BucketReport>,
}

/// Runs the whole request-time pass over a committed snapshot.
///
/// The accepted list is exactly the classified snapshot with the
/// "other" cap applied in encounter order; the buckets partition it by
/// label pair with exact sums and stable Top-N rankings; and the five
/// grand totals over all buckets equal the totals over all accepted
/// processes, so nothing a bucket reports is lost or counted twice.
pub fn aggregate(processes: &Vec<ProcMem>, rules: &Vec<Rule>, cfg: &Config) -> (r:
    AggregationResult)
    ensures
        r.accepted@.map_values(|c: ClassifiedProc| c.view_triple()) == spec_accepted(
            processes@,
            rules@,
            *cfg,
            0,
        ),
        forall|j: int|
            0 <= j < r.buckets@.len() ==> spec_bucket_report_ok(
                #[trigger] r.buckets@[j],
                spec_accepted(processes@, rules@, *cfg, 0),
                *cfg,
            ),
        forall|j1: int, j2: int|
            0 <= j1 < j2 < r.buckets@.len() ==> !((#[trigger] r.buckets@[j1]).group@ == (
            #[trigger] r.buckets@[j2]).group@ && r.buckets@[j1].subgroup@
                == r.buckets@[j2].subgroup@),
        spec_buckets_cover(r.buckets@, spec_accepted(processes@, rules@, *cfg, 0)),
        sum_int(r.buckets@.map_values(|b: BucketReport| b.rss_sum as int)) == proc_totals(
            procs_of(spec_accepted(processes@, rules@, *cfg, 0)),
        ).0,
        sum_int(r.buckets@.map_values(|b: BucketReport| b.pss_sum as int)) == proc_totals(
            procs_of(spec_accepted(processes@, rules@, *cfg, 0)),
        ).1,
        sum_int(r.buckets@.map_values(|b: BucketReport| b.uss_sum as int)) == proc_totals(
            procs_of(spec_accepted(processes@, rules@, *cfg, 0)),
        ).2,
        sum_int(r.buckets@.map_values(|b: BucketReport| b.cpu_millipercent_sum as int))
            == proc_totals(procs_of(spec_accepted(processes@, rules@, *cfg, 0))).3,
        sum_int(r.buckets@.map_values(|b: BucketReport| b.cpu_time_ms_sum as int))
            == proc_totals(procs_of(spec_accepted(processes@, rules@, *cfg, 0))).4,
{
    let accepted = accept_processes(processes, rules, cfg);
    let ghost accv = spec_accepted(processes@, rules@, *cfg, 0);
    let buckets = group_into_buckets(&accepted);
    let mut reports: Vec<BucketReport> = Vec::new();
    let mut j: usize = 0;
    while j < buckets.len()
        invariant
            j <= buckets@.len(),
            accv == accepted@.map_values(|c: ClassifiedProc| c.view_triple()),
            reports@.len() == j,
            forall|jj: int|
                0 <= jj < buckets@.len() ==> (#[trigger] buckets@[jj]).members@ == spec_members(
                    accv,
                    buckets@[jj].group@,
                    buckets@[jj].subgroup@,
                ),
            forall|jj: int| 0 <= jj < buckets@.len() ==> (
            #[trigger] buckets@[jj]).members@.len() > 0,
            forall|jj: int|
                0 <= jj < j ==> spec_bucket_report_ok(#[trigger] reports@[jj], accv, *cfg),
            forall|jj: int|
                0 <= jj < j ==> (#[trigger] reports@[jj]).group@ == buckets@[jj].group@
                    && reports@[jj].subgroup@ == buckets@[jj].subgroup@
                    && reports@[jj].members@ == buckets@[jj].members@,
        decreases buckets@.len() - j,
    {
        let b = &buckets[j];
        let sums = sum_members(&b.members);
        let limit = bucket_limit(b.group.as_str(), b.subgroup.as_str(), cfg);
        let ranked = rank_bucket(&b.members, limit, sums.0, sums.1, sums.2, sums.4);
        let ghost witness = choose|s: Seq<SortedMember>|
            #[trigger] spec_ranked_of(
                b.members@,
                s,
                ranked@,
                limit as int,
                sums.0 as int,
                sums.1 as int,
                sums.2 as int,
                sums.4 as int,
            );
        let report = BucketReport {
            group: b.group.clone(),
            subgroup: b.subgroup.clone(),
            members: crate::cache::clone_proc_list(&b.members),
            rss_sum: sums.0,
            pss_sum: sums.1,
            uss_sum: sums.2,
            cpu_millipercent_sum: sums.3,
            cpu_time_ms_sum: sums.4,
            ranked,
        };
        proof {
            assert(report.group@ == buckets@[j as int].group@);
            assert(report.subgroup@ == buckets@[j as int].subgroup@);
            assert(report.members@ == buckets@[j as int].members@);
            assert(limit as int == spec_bucket_limit(report.group@, report.subgroup@, *cfg));
            assert(spec_ranked_of(
                report.members@,
                witness,
                report.ranked@,
                spec_bucket_limit(report.group@, report.subgroup@, *cfg),
                report.rss_sum as int,
                report.pss_sum as int,
                report.uss_sum as int,
                report.cpu_time_ms_sum as int,
            ));
            assert(spec_bucket_report_ok(report, accv, *cfg));
        }
        reports.push(report);
        j = j + 1;
    }
    proof {
        // The grand totals over the reports are the grand totals over
        // the buckets' members, which the grouping tied to the
        // accepted processes.
        assert(reports@.map_values(|b: BucketReport| b.rss_sum as int) =~= buckets@.map_values(
            |b: Bucket| proc_totals(b.members@).0,
        ));
        assert(reports@.map_values(|b: BucketReport| b.pss_sum as int) =~= buckets@.map_values(
            |b: Bucket| proc_totals(b.members@).1,
        ));
        assert(reports@.map_values(|b: BucketReport| b.uss_sum as int) =~= buckets@.map_values(
            |b: Bucket| proc_totals(b.members@).2,
        ));
        assert(reports@.map_values(|b: BucketReport| b.cpu_millipercent_sum as int)
            =~= buckets@.map_values(|b: Bucket| proc_totals(b.members@).3));
        assert(reports@.map_values(|b: BucketReport| b.cpu_time_ms_sum as int)
            =~= buckets@.map_values(|b: Bucket| proc_totals(b.members@).4));
        assert forall|t: int| 0 <= t < accv.len() implies exists|jj: int|
            0 <= jj < reports@.len() && (#[trigger] reports@[jj]).group@ == (
            #[trigger] accv[t]).1 && reports@[jj].subgroup@ == accv[t].2 by {
            assert(accv[t] == accepted@[t].view_triple());
            let jj = choose|jj: int|
                0 <= jj < buckets@.len() && (#[trigger] buckets@[jj]).group@
                    == accepted@[t].view_triple().1 && buckets@[jj].subgroup@
                    == accepted@[t].view_triple().2;
            assert(0 <= jj < reports@.len() && reports@[jj].group@ == accv[t].1
                && reports@[jj].subgroup@ == accv[t].2);
        }
        assert(spec_buckets_cover(reports@, accv));
    }
    AggregationResult { accepted, buckets: reports }
}

/// Top-N selection is stable: within a ranking, members of equal USS
/// appear in their original encounter order.
pub proof fn lemma_ranking_stable(
    members: Seq<ProcMem>,
    s: Seq<SortedMember>,
    r: Seq<RankedMember>,
    limit: int,
    rss_total: int,
    pss_total: int,
    uss_total: int,
    cpu_total: int,
    j1: int,
    j2: int,
)
    requires
        spec_ranked_of(members, s, r, limit, rss_total, pss_total, uss_total, cpu_total),
        0 <= j1 < j2 < r.len(),
        r[j1].proc.uss == r[j2].proc.uss,
    ensures
        r[j1].source_index < r[j2].source_index,
{
    assert(spec_ranks_before(s[j1], s[j2]));
}

} // verus!
