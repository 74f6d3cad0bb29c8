use proc_mem_exporter::cache::{
    dedup_by_pid, health_status, HealthMessage, HealthStatus, MetricsCache, ProcMem,
};
use proc_mem_exporter::cpu::{cpu_time_ms_from_ticks, CpuTracker};
use proc_mem_exporter::enumerate::{
    collect_candidates, parse_stat_ticks, parse_vmrss_kb, pid_of_name, resolve_name,
    self_cpu_millipercent, ProcEntry,
};
use proc_mem_exporter::sample::{parse_memory_summary, SampleError};

#[test]
fn smaps_rollup_single_aggregates() {
    let content = "00400000-7fff ---p 00000000 00:00 0 [rollup]\nRss: 1024 kB\nPss: 512 kB\nPrivate_Clean: 100 kB\nPrivate_Dirty: 200 kB\nShared_Clean: 50 kB\n";
    let m = parse_memory_summary(content.as_bytes()).unwrap();
    assert_eq!(m.rss_bytes, 1024 * 1024);
    assert_eq!(m.pss_bytes, 512 * 1024);
    assert_eq!(m.uss_bytes, 300 * 1024);
}

#[test]
fn smaps_many_mappings_accumulate() {
    let content = "Rss: 10 kB\nPss: 5 kB\nPrivate_Clean: 1 kB\nPrivate_Dirty: 2 kB\nRss: 30 kB\nPss: 15 kB\nPrivate_Clean: 3 kB\nPrivate_Dirty: 4 kB\n";
    let m = parse_memory_summary(content.as_bytes()).unwrap();
    assert_eq!(m.rss_bytes, 40 * 1024);
    assert_eq!(m.pss_bytes, 20 * 1024);
    assert_eq!(m.uss_bytes, 10 * 1024);
}

#[test]
fn malformed_field_line_discards_everything() {
    // The parse is all-or-nothing: sums already made are not returned.
    let content = "Rss: 10 kB\nPss: oops kB\n";
    assert_eq!(
        parse_memory_summary(content.as_bytes()),
        Err(SampleError::Malformed)
    );
}

#[test]
fn field_line_without_value_is_malformed() {
    assert_eq!(
        parse_memory_summary("Rss:\n".as_bytes()),
        Err(SampleError::Malformed)
    );
}

#[test]
fn unrelated_lines_are_skipped() {
    let content = "VmFlags: rd ex\nheader line without fields\n";
    let m = parse_memory_summary(content.as_bytes()).unwrap();
    assert_eq!(m.rss_bytes, 0);
    assert_eq!(m.uss_bytes, 0);
}

#[test]
fn cpu_tracker_first_observation_is_zero() {
    let mut t = CpuTracker::new();
    let r = t.observe(42, 5000, 100000);
    assert_eq!(r.cpu_millipercent, 0);
    assert_eq!(r.cpu_time_ms, 5000);
}

#[test]
fn cpu_tracker_exact_delta_rate() {
    let mut t = CpuTracker::new();
    t.observe(42, 5000, 100000);
    // 500 ms of CPU over 2000 ms of wall clock: 25 percent, in
    // thousandths of a percent.
    let r = t.observe(42, 5500, 102000);
    assert_eq!(r.cpu_millipercent, 25000);
}

#[test]
fn cpu_tracker_clamps_nonpositive_deltas() {
    let mut t = CpuTracker::new();
    t.observe(7, 5000, 100000);
    let r = t.observe(7, 4000, 102000);
    assert_eq!(r.cpu_millipercent, 0);
    let r = t.observe(8, 1000, 100000);
    assert_eq!(r.cpu_millipercent, 0);
    let mut t2 = CpuTracker::new();
    t2.observe(9, 1000, 100000);
    let r = t2.observe(9, 2000, 100000);
    assert_eq!(r.cpu_millipercent, 0);
}

#[test]
fn cpu_tracker_overwrites_history_every_time() {
    let mut t = CpuTracker::new();
    t.observe(1, 1000, 10000);
    t.observe(1, 1000, 12000);
    // The second observation replaced the first, so the delta is
    // against the 12000 ms timestamp, not the 10000 ms one.
    let r = t.observe(1, 2000, 13000);
    assert_eq!(r.cpu_millipercent, 100000);
}

#[test]
fn cpu_tracker_can_exceed_hundred_percent() {
    let mut t = CpuTracker::new();
    t.observe(2, 0, 10000);
    // 4000 ms of CPU over 1000 ms of wall clock: a multi-threaded
    // process at 400 percent, not clamped.
    let r = t.observe(2, 4000, 11000);
    assert_eq!(r.cpu_millipercent, 400000);
}

#[test]
fn ticks_convert_to_milliseconds() {
    assert_eq!(cpu_time_ms_from_ticks(250, 100), Some(2500));
    assert_eq!(cpu_time_ms_from_ticks(1, 0), None);
}

#[test]
fn pid_names_must_be_numeric() {
    assert_eq!(pid_of_name(b"1234"), Some(1234));
    assert_eq!(pid_of_name(b"self"), None);
    assert_eq!(pid_of_name(b""), None);
    assert_eq!(pid_of_name(b"12a"), None);
    assert_eq!(pid_of_name(b"99999999999"), None);
}

#[test]
fn candidates_are_capped_and_filtered() {
    let entries = vec![
        ProcEntry { name: b"1".to_vec(), has_mem_source: true },
        ProcEntry { name: b"self".to_vec(), has_mem_source: true },
        ProcEntry { name: b"2".to_vec(), has_mem_source: false },
        ProcEntry { name: b"3".to_vec(), has_mem_source: true },
        ProcEntry { name: b"4".to_vec(), has_mem_source: true },
    ];
    assert_eq!(collect_candidates(&entries, 2), vec![1, 3]);
    assert_eq!(collect_candidates(&entries, 10), vec![1, 3, 4]);
    assert_eq!(collect_candidates(&entries, 0), Vec::<u32>::new());
}

#[test]
fn name_resolution_prefers_comm() {
    let comm = b"bash\n".to_vec();
    let cmdline = b"/usr/bin/zsh\0-l\0".to_vec();
    assert_eq!(
        resolve_name(Some(&comm), Some(&cmdline)),
        Some(b"bash".to_vec())
    );
}

#[test]
fn name_resolution_falls_back_to_cmdline_basename() {
    let cmdline = b"/usr/bin/zsh\0-l\0".to_vec();
    assert_eq!(resolve_name(None, Some(&cmdline)), Some(b"zsh".to_vec()));
    let empty_comm = b"\n".to_vec();
    assert_eq!(
        resolve_name(Some(&empty_comm), Some(&cmdline)),
        Some(b"zsh".to_vec())
    );
}

#[test]
fn name_resolution_with_nothing_skips() {
    assert_eq!(resolve_name(None, None), None);
    let empty = b"".to_vec();
    assert_eq!(resolve_name(Some(&empty), Some(&empty)), None);
    let slash_only = b"/\0".to_vec();
    assert_eq!(resolve_name(None, Some(&slash_only)), None);
}

#[test]
fn vmrss_is_read_from_status() {
    let content = "Name: exporter\nVmPeak: 200 kB\nVmRSS: 1500 kB\n";
    assert_eq!(parse_vmrss_kb(content.as_bytes()), Some(1500));
    assert_eq!(parse_vmrss_kb("Name: x\n".as_bytes()), None);
}

#[test]
fn stat_ticks_come_from_fields_fourteen_and_fifteen() {
    let content = "1234 (comm) S 1 1 1 0 -1 4194560 1 2 3 4 500 600 7 8 20 0 1 0";
    assert_eq!(parse_stat_ticks(content.as_bytes()), Some((500, 600)));
    assert_eq!(parse_stat_ticks("1 (x) S".as_bytes()), None);
}

#[test]
fn self_cpu_share_of_uptime() {
    // 1100 ticks at 100 ticks per second is 11000 ms of CPU; over an
    // uptime of 100.00 s that is 11 percent.
    assert_eq!(self_cpu_millipercent(1100, 100, 10000), Some(11000));
    assert_eq!(self_cpu_millipercent(1100, 0, 10000), None);
    assert_eq!(self_cpu_millipercent(1100, 100, 0), None);
}

#[test]
fn snapshot_refresh_never_shows_a_mix() {
    // A reader that proceeds mid-update sees the whole old snapshot;
    // after the commit it sees exactly the new one.
    let mut cache = MetricsCache::new();
    let old_list = vec![ProcMem {
        pid: 1,
        name: "a".to_owned(),
        rss: 1,
        pss: 1,
        uss: 1,
        cpu_millipercent: 0,
        cpu_time_ms: 0,
    }];
    cache.commit_update(old_list, 1000, 5);
    cache.begin_update();
    assert!(!cache.reader_may_proceed());
    assert_eq!(cache.processes.len(), 1);
    assert_eq!(cache.processes[0].pid, 1);
    let new_list = vec![
        ProcMem {
            pid: 2,
            name: "b".to_owned(),
            rss: 2,
            pss: 2,
            uss: 2,
            cpu_millipercent: 0,
            cpu_time_ms: 0,
        },
        ProcMem {
            pid: 3,
            name: "c".to_owned(),
            rss: 3,
            pss: 3,
            uss: 3,
            cpu_millipercent: 0,
            cpu_time_ms: 0,
        },
    ];
    cache.commit_update(new_list, 2000, 6);
    assert!(cache.reader_may_proceed());
    let pids: Vec<u32> = cache.processes.iter().map(|p| p.pid).collect();
    assert_eq!(pids, vec![2, 3]);
}

#[test]
fn failed_refresh_keeps_previous_snapshot() {
    let mut cache = MetricsCache::new();
    let list = vec![ProcMem {
        pid: 1,
        name: "a".to_owned(),
        rss: 1,
        pss: 1,
        uss: 1,
        cpu_millipercent: 0,
        cpu_time_ms: 0,
    }];
    cache.commit_update(list, 1000, 5);
    cache.begin_update();
    cache.fail_update();
    assert_eq!(cache.processes.len(), 1);
    assert!(!cache.update_success);
    assert_eq!(cache.last_updated_ms, Some(1000));
}

#[test]
fn health_reflects_cache_state() {
    let mut cache = MetricsCache::new();
    let (status, message) = health_status(&cache);
    assert_eq!(status, HealthStatus::Unavailable);
    assert_eq!(message, HealthMessage::UpdateFailed);
    cache.commit_update(Vec::new(), 1000, 5);
    let (status, message) = health_status(&cache);
    assert_eq!(status, HealthStatus::Ready);
    assert_eq!(message, HealthMessage::Healthy);
    cache.begin_update();
    let (status, message) = health_status(&cache);
    assert_eq!(status, HealthStatus::Unavailable);
    assert_eq!(message, HealthMessage::Updating);
}

#[test]
fn oversized_memory_sum_is_overflow() {
    let content = "Rss: 99999999999999999999 kB\n";
    assert_eq!(
        parse_memory_summary(content.as_bytes()),
        Err(SampleError::Overflow)
    );
    let content = "Rss: 18014398509481984 kB\n";
    // 2^54 KiB is 2^64 bytes: one past what 64 bits hold.
    assert_eq!(
        parse_memory_summary(content.as_bytes()),
        Err(SampleError::Overflow)
    );
}

#[test]
fn empty_summary_sums_to_zero() {
    let m = parse_memory_summary(b"").unwrap();
    assert_eq!((m.rss_bytes, m.pss_bytes, m.uss_bytes), (0, 0, 0));
}

#[test]
fn repeated_pids_collapse_to_the_last_record() {
    let mk = |pid: u32, rss: u64| ProcMem {
        pid,
        name: format!("p{pid}"),
        rss,
        pss: rss,
        uss: rss,
        cpu_millipercent: 0,
        cpu_time_ms: 0,
    };
    let input = vec![mk(1, 10), mk(2, 20), mk(1, 30), mk(3, 40), mk(2, 50)];
    let out = dedup_by_pid(input);
    assert_eq!(out.len(), 3);
    let find = |pid: u32| out.iter().find(|p| p.pid == pid).unwrap().rss;
    assert_eq!(find(1), 30);
    assert_eq!(find(2), 50);
    assert_eq!(find(3), 40);
}
