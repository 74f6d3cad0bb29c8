use proc_mem_exporter::system::{
    memory_used_ratio_ppm, parse_cpu_stats, parse_load_average, parse_meminfo, CpuStat,
    CpuStatsCache, LoadAvgError, MemInfoError,
};

#[test]
fn test_parse_load_average() {
    let result = parse_load_average("0.52 0.58 0.59 2/1190 12345".as_bytes());
    assert!(result.is_ok());
    let load = result.unwrap();
    assert!((load.one_min_centi as f64 / 100.0 - 0.52).abs() < 0.001);
    assert!((load.five_min_centi as f64 / 100.0 - 0.58).abs() < 0.001);
    assert!((load.fifteen_min_centi as f64 / 100.0 - 0.59).abs() < 0.001);
}

#[test]
fn test_parse_load_average_invalid() {
    let result = parse_load_average("0.52 0.58".as_bytes());
    assert!(result.is_err());

    let result = parse_load_average("abc def ghi 1/2 3".as_bytes());
    assert!(result.is_err());
}

#[test]
fn load_average_exact_centi_values() {
    let load = parse_load_average("1.05 0.9 12 2/1190 12345".as_bytes()).unwrap();
    assert_eq!(load.one_min_centi, 105);
    assert_eq!(load.five_min_centi, 90);
    assert_eq!(load.fifteen_min_centi, 1200);
}

#[test]
fn load_average_truncates_extra_fraction_digits() {
    let load = parse_load_average("0.529 0.581 0.599".as_bytes()).unwrap();
    assert_eq!(load.one_min_centi, 52);
    assert_eq!(load.five_min_centi, 58);
    assert_eq!(load.fifteen_min_centi, 59);
}

#[test]
fn load_average_too_few_fields_error() {
    assert_eq!(
        parse_load_average("0.52 0.58".as_bytes()),
        Err(LoadAvgError::TooFewFields)
    );
}

#[test]
fn load_average_bad_field_errors_name_the_field() {
    assert_eq!(
        parse_load_average("x 0.58 0.59".as_bytes()),
        Err(LoadAvgError::BadOneMin)
    );
    assert_eq!(
        parse_load_average("0.52 y 0.59".as_bytes()),
        Err(LoadAvgError::BadFiveMin)
    );
    assert_eq!(
        parse_load_average("0.52 0.58 z".as_bytes()),
        Err(LoadAvgError::BadFifteenMin)
    );
}

#[test]
fn meminfo_reads_total_and_available() {
    let content = "MemTotal:       16316412 kB\nMemFree:         1122084 kB\nMemAvailable:    8915036 kB\n";
    let info = parse_meminfo(content.as_bytes()).unwrap();
    assert_eq!(info.total_bytes, 16316412 * 1024);
    assert_eq!(info.available_bytes, 8915036 * 1024);
}

#[test]
fn meminfo_missing_field_is_an_error() {
    let content = "MemTotal:       16316412 kB\nMemFree:         1122084 kB\n";
    assert_eq!(
        parse_meminfo(content.as_bytes()),
        Err(MemInfoError::FieldMissing)
    );
}

#[test]
fn meminfo_oversized_value_is_an_error() {
    let content = "MemTotal: 99999999999999999999 kB\nMemAvailable: 1 kB\n";
    // The total field's digits exceed 64 bits, so the line does not
    // provide the field at all.
    assert_eq!(
        parse_meminfo(content.as_bytes()),
        Err(MemInfoError::FieldMissing)
    );
}

#[test]
fn cpu_stats_parses_total_and_cores() {
    let content = "cpu  100 5 50 1000 20 3 2 1\ncpu0 50 2 25 500 10 1 1 0\nintr 12345\n";
    let entries = parse_cpu_stats(content.as_bytes()).unwrap();
    assert_eq!(entries.len(), 2);
    assert_eq!(entries[0].name, b"cpu".to_vec());
    assert_eq!(
        entries[0].stat,
        CpuStat { user: 100, nice: 5, system: 50, idle: 1000, iowait: 20, irq: 3, softirq: 2, steal: 1 }
    );
    assert_eq!(entries[1].name, b"cpu0".to_vec());
    assert_eq!(entries[1].stat.idle, 500);
}

#[test]
fn cpu_stats_without_steal_reads_zero() {
    // Only six counters: not a usable CPU line.
    let content = "cpu 1 2 3 4 5 6\n";
    assert!(parse_cpu_stats(content.as_bytes()).is_err());
    // Seven counters: usable, with the missing steal read as zero.
    let content = "cpu 1 2 3 4 5 6 7\n";
    let entries = parse_cpu_stats(content.as_bytes()).unwrap();
    assert_eq!(entries.len(), 1);
    assert_eq!(entries[0].stat.softirq, 7);
    assert_eq!(entries[0].stat.steal, 0);
}

#[test]
fn cpu_stats_empty_record_is_an_error() {
    assert!(parse_cpu_stats("intr 5\nctxt 7\n".as_bytes()).is_err());
}

#[test]
fn usage_ratios_first_sample_is_empty() {
    let mut cache = CpuStatsCache::new();
    let entries = parse_cpu_stats("cpu 100 0 0 100 0 0 0 0\n".as_bytes()).unwrap();
    let ratios = cache.calculate_usage_ratios(entries);
    assert!(ratios.is_empty());
}

#[test]
fn usage_ratios_exact_delta() {
    let mut cache = CpuStatsCache::new();
    let first = parse_cpu_stats("cpu 100 0 0 100 0 0 0 0\n".as_bytes()).unwrap();
    cache.calculate_usage_ratios(first);
    // Total grew by 200 ticks, idle by 50: 150 active of 200.
    let second = parse_cpu_stats("cpu 250 0 0 150 0 0 0 0\n".as_bytes()).unwrap();
    let ratios = cache.calculate_usage_ratios(second);
    assert_eq!(ratios.len(), 1);
    assert_eq!(ratios[0].0, b"cpu".to_vec());
    assert_eq!(ratios[0].1, 750000);
}

#[test]
fn usage_ratios_zero_delta_is_zero() {
    let mut cache = CpuStatsCache::new();
    let first = parse_cpu_stats("cpu 100 0 0 100 0 0 0 0\n".as_bytes()).unwrap();
    cache.calculate_usage_ratios(first);
    let same = parse_cpu_stats("cpu 100 0 0 100 0 0 0 0\n".as_bytes()).unwrap();
    let ratios = cache.calculate_usage_ratios(same);
    assert_eq!(ratios[0].1, 0);
}

#[test]
fn memory_used_ratio_exact() {
    assert_eq!(memory_used_ratio_ppm(1000, 250), 750000);
    assert_eq!(memory_used_ratio_ppm(0, 250), 0);
    assert_eq!(memory_used_ratio_ppm(100, 200), 0);
}

#[test]
fn cpu_stat_totals() {
    let s = CpuStat { user: 1, nice: 2, system: 3, idle: 4, iowait: 5, irq: 6, softirq: 7, steal: 8 };
    assert_eq!(s.total(), 36);
    assert_eq!(s.idle_total(), 9);
}
