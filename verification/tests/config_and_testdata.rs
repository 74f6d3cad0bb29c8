use proc_mem_exporter::cache::below_min_uss;
use proc_mem_exporter::classify::builtin_rules;
use proc_mem_exporter::cli::{ConfigFormat, LogLevel, MetricsError};
use proc_mem_exporter::config::{
    resolve_buffer_config, validate_effective_config, Config, ConfigError, SearchMode,
};
use proc_mem_exporter::testdata::{
    filter_test_processes, generate_test_data, u64_to_dec, TestProcess,
};

fn test_proc(pid: u32, name: &str, uss: u64) -> TestProcess {
    TestProcess {
        pid,
        name: name.to_owned(),
        group: "g".to_owned(),
        subgroup: "s".to_owned(),
        rss: uss,
        pss: uss,
        uss,
        cpu_millipercent: 0,
        cpu_time_ms: 0,
    }
}

#[test]
fn default_config_is_valid() {
    assert!(validate_effective_config(&Config::new()).is_ok());
}

#[test]
fn all_metrics_disabled_is_fatal() {
    let mut cfg = Config::new();
    cfg.enable_rss = Some(false);
    cfg.enable_pss = Some(false);
    cfg.enable_uss = Some(false);
    cfg.enable_cpu = Some(false);
    assert_eq!(
        validate_effective_config(&cfg),
        Err(ConfigError::AllMetricsDisabled)
    );
    cfg.enable_cpu = Some(true);
    assert!(validate_effective_config(&cfg).is_ok());
}

#[test]
fn search_mode_without_list_is_fatal() {
    let mut cfg = Config::new();
    cfg.search_mode = Some(SearchMode::Include);
    assert_eq!(
        validate_effective_config(&cfg),
        Err(ConfigError::SearchModeWithoutList)
    );
    cfg.search_list = vec!["db".to_owned()];
    assert!(validate_effective_config(&cfg).is_ok());
}

#[test]
fn buffer_sizes_prefer_cli_then_config_then_defaults() {
    let mut cfg = Config::new();
    cfg.io_buffer_kb = Some(64);
    let b = resolve_buffer_config(Some(32), None, None, &cfg);
    assert_eq!(b.io_kb, 32);
    let b = resolve_buffer_config(None, None, None, &cfg);
    assert_eq!(b.io_kb, 64);
    assert_eq!(b.smaps_kb, 512);
    assert_eq!(b.smaps_rollup_kb, 256);
}

#[test]
fn min_uss_threshold_is_in_kib() {
    let mut cfg = Config::new();
    cfg.min_uss_kb = Some(10);
    assert!(below_min_uss(10239, &cfg));
    assert!(!below_min_uss(10240, &cfg));
    let cfg = Config::new();
    assert!(!below_min_uss(0, &cfg));
}

#[test]
fn test_data_filter_applies_name_and_threshold() {
    let mut cfg = Config::new();
    cfg.min_uss_kb = Some(1);
    cfg.exclude_names = vec!["skipme".to_owned()];
    let records = vec![
        test_proc(1, "keep", 2048),
        test_proc(2, "skipme", 2048),
        test_proc(3, "small", 512),
    ];
    let kept = filter_test_processes(records, &cfg);
    assert_eq!(kept.len(), 1);
    assert_eq!(kept[0].pid, 1);
    assert_eq!(kept[0].name, "keep");
    assert_eq!(kept[0].uss, 2048);
}

#[test]
fn generated_sample_stays_in_range() {
    let rules = builtin_rules();
    let cfg = Config::new();
    let data = generate_test_data(
        2,
        3,
        &rules,
        &cfg,
        "1.0".to_owned(),
        "2024-01-01T00:00:00Z".to_owned(),
    );
    assert_eq!(data.version, "1.0");
    assert_eq!(data.generated_at, "2024-01-01T00:00:00Z");
    assert!(!data.processes.is_empty());
    for p in &data.processes {
        assert!(p.rss >= 10 * 1024 * 1024);
        assert!(p.rss < 2 * 1024 * 1024 * 1024);
        assert!(p.pss < p.rss);
        assert!(p.uss < p.pss);
        assert!(p.cpu_millipercent < 100000);
        assert!(p.cpu_time_ms < 10_000_000);
    }
    assert!(data.processes.iter().any(|p| p.group == "other"));
}

#[test]
fn generated_sample_honors_disable_others() {
    let rules = builtin_rules();
    let mut cfg = Config::new();
    cfg.disable_others = true;
    let data = generate_test_data(
        1,
        5,
        &rules,
        &cfg,
        "1.0".to_owned(),
        "now".to_owned(),
    );
    assert!(data.processes.iter().all(|p| !p.name.starts_with("process-")));
}

#[test]
fn decimal_rendering_is_exact() {
    assert_eq!(u64_to_dec(0), b"0".to_vec());
    assert_eq!(u64_to_dec(7), b"7".to_vec());
    assert_eq!(u64_to_dec(105), b"105".to_vec());
    assert_eq!(u64_to_dec(18446744073709551615), b"18446744073709551615".to_vec());
}

#[test]
fn generated_other_records_carry_numbered_names() {
    // The catch-all records are named "process-1", "process-2", ...:
    // this only holds if the byte-to-string conversion behind the
    // generator preserves its input exactly.
    let rules = builtin_rules();
    let cfg = Config::new();
    let data = generate_test_data(0, 3, &rules, &cfg, "1.0".to_owned(), "now".to_owned());
    let names: Vec<&str> = data
        .processes
        .iter()
        .filter(|p| p.group == "other")
        .map(|p| p.name.as_str())
        .collect();
    assert_eq!(names, vec!["process-1", "process-2", "process-3"]);
}

#[test]
fn log_level_off_means_errors_only() {
    assert_eq!(LogLevel::Off.effective(), LogLevel::Error);
    assert_eq!(LogLevel::Debug.effective(), LogLevel::Debug);
}

#[test]
fn cli_value_enums_compare() {
    assert_eq!(ConfigFormat::Yaml, ConfigFormat::Yaml);
    assert_ne!(ConfigFormat::Yaml, ConfigFormat::Json);
    assert_eq!(MetricsError::EncodingFailed, MetricsError::EncodingFailed);
}
