use proc_mem_exporter::aggregate::{aggregate, AggregationResult, BucketReport};
use proc_mem_exporter::cache::ProcMem;
use proc_mem_exporter::classify::{builtin_rules, Rule};
use proc_mem_exporter::config::Config;

fn proc(pid: u32, name: &str, rss: u64, pss: u64, uss: u64) -> ProcMem {
    ProcMem {
        pid,
        name: name.to_owned(),
        rss,
        pss,
        uss,
        cpu_millipercent: 1000,
        cpu_time_ms: 2000,
    }
}

fn bucket<'a>(r: &'a AggregationResult, group: &str, subgroup: &str) -> &'a BucketReport {
    r.buckets
        .iter()
        .find(|b| b.group == group && b.subgroup == subgroup)
        .expect("bucket present")
}

#[test]
fn top_two_of_three_database_processes() {
    // Three processes of one bucket; a ranking depth of two keeps the
    // two largest by USS, while the sums still cover all three.
    let rules = builtin_rules();
    let mut cfg = Config::new();
    cfg.top_n_subgroup = Some(2);
    let mb = 1024 * 1024;
    let processes = vec![
        proc(1, "postgres", 600 * mb, 550 * mb, 500 * mb),
        proc(2, "postgres", 400 * mb, 350 * mb, 300 * mb),
        proc(3, "postgres", 200 * mb, 150 * mb, 100 * mb),
    ];
    let r = aggregate(&processes, &rules, &cfg);
    let b = bucket(&r, "db", "postgres");
    assert_eq!(b.members.len(), 3);
    assert_eq!(b.rss_sum, (600 + 400 + 200) as u128 * mb as u128);
    assert_eq!(b.ranked.len(), 2);
    assert_eq!(b.ranked[0].rank, 1);
    assert_eq!(b.ranked[0].proc.uss, 500 * mb);
    assert_eq!(b.ranked[1].rank, 2);
    assert_eq!(b.ranked[1].proc.uss, 300 * mb);
    assert!(b.ranked.iter().all(|m| m.proc.uss != 100 * mb));
}

#[test]
fn other_cardinality_cap_drops_excess_entirely() {
    // Fifteen unclassified processes with a cap of ten: ten are
    // exported, and the bucket sums cover only those ten.
    let rules = builtin_rules();
    let mut cfg = Config::new();
    cfg.top_n_others = Some(10);
    let mut processes = Vec::new();
    for i in 0..15u32 {
        processes.push(proc(i, "unknownproc", 100, 100, 100));
    }
    let r = aggregate(&processes, &rules, &cfg);
    assert_eq!(r.accepted.len(), 10);
    let b = bucket(&r, "other", "other");
    assert_eq!(b.members.len(), 10);
    assert_eq!(b.rss_sum, 1000);
    assert_eq!(b.uss_sum, 1000);
}

#[test]
fn disable_others_removes_unknowns_everywhere() {
    // A process classifying into the catch-all is absent from every
    // export and every sum when the catch-all is disabled.
    let rules = builtin_rules();
    let mut cfg = Config::new();
    cfg.disable_others = true;
    let processes = vec![
        proc(1, "mysqld", 100, 100, 100),
        proc(2, "unknownproc", 999, 999, 999),
    ];
    let r = aggregate(&processes, &rules, &cfg);
    assert_eq!(r.accepted.len(), 1);
    assert_eq!(r.accepted[0].proc.name, "mysqld");
    assert!(r.buckets.iter().all(|b| b.group != "other"));
    let total: u128 = r.buckets.iter().map(|b| b.rss_sum).sum();
    assert_eq!(total, 100);
}

#[test]
fn bucket_sums_equal_accepted_totals() {
    // The grand total over all buckets equals the total over all
    // accepted processes, across several buckets.
    let rules = builtin_rules();
    let cfg = Config::new();
    let processes = vec![
        proc(1, "mysqld", 10, 11, 12),
        proc(2, "nginx", 20, 21, 22),
        proc(3, "mysqld", 30, 31, 32),
        proc(4, "unknownproc", 40, 41, 42),
    ];
    let r = aggregate(&processes, &rules, &cfg);
    assert_eq!(r.accepted.len(), 4);
    let rss_total: u128 = r.buckets.iter().map(|b| b.rss_sum).sum();
    let pss_total: u128 = r.buckets.iter().map(|b| b.pss_sum).sum();
    let uss_total: u128 = r.buckets.iter().map(|b| b.uss_sum).sum();
    assert_eq!(rss_total, 10 + 20 + 30 + 40);
    assert_eq!(pss_total, 11 + 21 + 31 + 41);
    assert_eq!(uss_total, 12 + 22 + 32 + 42);
}

#[test]
fn ranking_is_stable_for_equal_uss() {
    // Members with equal USS keep their encounter order in the
    // ranking.
    let rules = builtin_rules();
    let mut cfg = Config::new();
    cfg.top_n_subgroup = Some(4);
    let processes = vec![
        proc(11, "mysqld", 1, 1, 50),
        proc(12, "mysqld", 1, 1, 50),
        proc(13, "mysqld", 1, 1, 99),
        proc(14, "mysqld", 1, 1, 50),
    ];
    let r = aggregate(&processes, &rules, &cfg);
    let b = bucket(&r, "db", "mysql");
    let pids: Vec<u32> = b.ranked.iter().map(|m| m.proc.pid).collect();
    assert_eq!(pids, vec![13, 11, 12, 14]);
}

#[test]
fn ranking_depth_is_floored_at_one() {
    let rules = builtin_rules();
    let mut cfg = Config::new();
    cfg.top_n_subgroup = Some(0);
    let processes = vec![proc(1, "mysqld", 1, 1, 1), proc(2, "mysqld", 2, 2, 2)];
    let r = aggregate(&processes, &rules, &cfg);
    let b = bucket(&r, "db", "mysql");
    assert_eq!(b.ranked.len(), 1);
    assert_eq!(b.ranked[0].proc.pid, 2);
}

#[test]
fn percentages_are_shares_of_the_bucket() {
    let rules = builtin_rules();
    let mut cfg = Config::new();
    cfg.top_n_subgroup = Some(2);
    let processes = vec![
        proc(1, "mysqld", 300, 300, 300),
        proc(2, "mysqld", 100, 100, 100),
    ];
    let r = aggregate(&processes, &rules, &cfg);
    let b = bucket(&r, "db", "mysql");
    // 300 of 400 is 75 percent, in hundredths of a percent.
    assert_eq!(b.ranked[0].rss_pct_centi, Some(7500));
    assert_eq!(b.ranked[1].rss_pct_centi, Some(2500));
    assert_eq!(b.ranked[0].uss_pct_centi, Some(7500));
}

#[test]
fn zero_total_emits_no_percentage() {
    let rules = builtin_rules();
    let cfg = Config::new();
    let processes = vec![proc(1, "mysqld", 0, 0, 0)];
    let r = aggregate(&processes, &rules, &cfg);
    let b = bucket(&r, "db", "mysql");
    assert_eq!(b.ranked[0].rss_pct_centi, None);
    assert_eq!(b.ranked[0].pss_pct_centi, None);
    assert_eq!(b.ranked[0].uss_pct_centi, None);
}

#[test]
fn cpu_time_percentage_uses_cpu_time_sums() {
    let rules = builtin_rules();
    let mut cfg = Config::new();
    cfg.top_n_subgroup = Some(2);
    let mut a = proc(1, "mysqld", 10, 10, 10);
    a.cpu_time_ms = 900;
    let mut b2 = proc(2, "mysqld", 10, 10, 9);
    b2.cpu_time_ms = 100;
    let r = aggregate(&vec![a, b2], &rules, &cfg);
    let b = bucket(&r, "db", "mysql");
    assert_eq!(b.cpu_time_ms_sum, 1000);
    assert_eq!(b.ranked[0].cpu_time_pct_centi, Some(9000));
    assert_eq!(b.ranked[1].cpu_time_pct_centi, Some(1000));
}

#[test]
fn custom_rule_table_drives_bucketing() {
    let rules = vec![Rule {
        pattern: "worker".to_owned(),
        exact: false,
        group: "app".to_owned(),
        subgroup: "workers".to_owned(),
    }];
    let cfg = Config::new();
    let processes = vec![proc(1, "worker-1", 5, 5, 5)];
    let r = aggregate(&processes, &rules, &cfg);
    let b = bucket(&r, "app", "workers");
    assert_eq!(b.members.len(), 1);
}

#[test]
fn empty_snapshot_aggregates_to_nothing() {
    let rules = builtin_rules();
    let cfg = Config::new();
    let r = aggregate(&Vec::new(), &rules, &cfg);
    assert!(r.accepted.is_empty());
    assert!(r.buckets.is_empty());
}

#[test]
fn other_bucket_uses_its_own_ranking_depth() {
    let rules = builtin_rules();
    let mut cfg = Config::new();
    cfg.top_n_subgroup = Some(1);
    cfg.top_n_others = Some(3);
    let mut processes = Vec::new();
    for i in 0..4u32 {
        processes.push(proc(i, "unknownproc", 10 + i as u64, 10, 10 + i as u64));
    }
    processes.push(proc(100, "mysqld", 1, 1, 1));
    processes.push(proc(101, "mysqld", 2, 2, 2));
    let r = aggregate(&processes, &rules, &cfg);
    let other = bucket(&r, "other", "other");
    // The catch-all keeps three ranked members; ordinary buckets one.
    assert_eq!(other.members.len(), 3);
    assert_eq!(other.ranked.len(), 3);
    let db = bucket(&r, "db", "mysql");
    assert_eq!(db.members.len(), 2);
    assert_eq!(db.ranked.len(), 1);
}
