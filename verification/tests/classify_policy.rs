use proc_mem_exporter::classify::{
    builtin_rules, classify_process_raw, classify_process_with_config, label_is_other,
    should_include_process, Rule,
};
use proc_mem_exporter::config::{Config, SearchMode};

fn rule(pattern: &str, exact: bool, group: &str, subgroup: &str) -> Rule {
    Rule {
        pattern: pattern.to_owned(),
        exact,
        group: group.to_owned(),
        subgroup: subgroup.to_owned(),
    }
}

#[test]
fn classify_known_name_exact() {
    let rules = builtin_rules();
    let (g, sg) = classify_process_raw("mysqld", &rules);
    assert_eq!(g, "db");
    assert_eq!(sg, "mysql");
}

#[test]
fn classify_substring_pattern() {
    let rules = builtin_rules();
    let (g, sg) = classify_process_raw("postgres: autovacuum worker", &rules);
    assert_eq!(g, "db");
    assert_eq!(sg, "postgres");
}

#[test]
fn classify_unknown_name_is_other_unknown() {
    let rules = builtin_rules();
    let (g, sg) = classify_process_raw("somethingelse", &rules);
    assert_eq!(g, "other");
    assert_eq!(sg, "unknown");
}

#[test]
fn classify_is_total_and_repeatable() {
    let rules = builtin_rules();
    for name in ["mysqld", "", "x", "postgres", "\u{00e9}clair"] {
        let a = classify_process_raw(name, &rules);
        let b = classify_process_raw(name, &rules);
        assert_eq!(a, b);
    }
}

#[test]
fn classify_first_match_wins() {
    let rules = vec![
        rule("a", false, "g1", "s1"),
        rule("ab", false, "g2", "s2"),
    ];
    let (g, sg) = classify_process_raw("ab", &rules);
    assert_eq!(g, "g1");
    assert_eq!(sg, "s1");
}

#[test]
fn policy_disable_others_drops_unknowns() {
    let rules = builtin_rules();
    let mut cfg = Config::new();
    cfg.disable_others = true;
    assert!(classify_process_with_config("somethingelse", &rules, &cfg).is_none());
    assert!(classify_process_with_config("mysqld", &rules, &cfg).is_some());
}

#[test]
fn policy_normalizes_other_subgroup() {
    let rules = builtin_rules();
    let cfg = Config::new();
    let (g, sg) = classify_process_with_config("somethingelse", &rules, &cfg).unwrap();
    assert_eq!(g, "other");
    assert_eq!(sg, "other");
}

#[test]
fn policy_include_mode_keeps_only_listed() {
    let rules = builtin_rules();
    let mut cfg = Config::new();
    cfg.search_mode = Some(SearchMode::Include);
    cfg.search_list = vec!["db".to_owned()];
    assert!(classify_process_with_config("mysqld", &rules, &cfg).is_some());
    assert!(classify_process_with_config("nginx", &rules, &cfg).is_none());
}

#[test]
fn policy_include_mode_matches_subgroup_too() {
    let rules = builtin_rules();
    let mut cfg = Config::new();
    cfg.search_mode = Some(SearchMode::Include);
    cfg.search_list = vec!["nginx".to_owned()];
    assert!(classify_process_with_config("nginx", &rules, &cfg).is_some());
    assert!(classify_process_with_config("mysqld", &rules, &cfg).is_none());
}

#[test]
fn policy_exclude_mode_drops_listed() {
    let rules = builtin_rules();
    let mut cfg = Config::new();
    cfg.search_mode = Some(SearchMode::Exclude);
    cfg.search_list = vec!["db".to_owned()];
    assert!(classify_process_with_config("mysqld", &rules, &cfg).is_none());
    assert!(classify_process_with_config("nginx", &rules, &cfg).is_some());
}

#[test]
fn include_filter_requires_a_match() {
    let mut cfg = Config::new();
    cfg.include_names = vec!["ngin".to_owned()];
    assert!(should_include_process("nginx", &cfg));
    assert!(!should_include_process("mysqld", &cfg));
}

#[test]
fn exclude_filter_drops_matches() {
    let mut cfg = Config::new();
    cfg.exclude_names = vec!["sql".to_owned()];
    assert!(!should_include_process("mysqld", &cfg));
    assert!(should_include_process("nginx", &cfg));
}

#[test]
fn empty_filters_include_everything() {
    let cfg = Config::new();
    assert!(should_include_process("anything", &cfg));
}

#[test]
fn other_label_is_case_insensitive() {
    assert!(label_is_other("other"));
    assert!(label_is_other("OTHER"));
    assert!(label_is_other("Other"));
    assert!(!label_is_other("others"));
    assert!(!label_is_other("db"));
}
