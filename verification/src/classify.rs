//! Name-based classification of processes into (group, subgroup) label
//! pairs, with the user-configured include/exclude/disable policy on top.

use vstd::prelude::*;
use vstd::string::StringSliceAdditionalSpecFns;

use crate::config::{Config, SearchMode};
use crate::text::{
    bytes_contain, bytes_eq, bytes_eq_ignore_case, contains_bytes, eq_ignore_case,
};

verus! {

/// The UTF-8 bytes of a character sequence; how a label or a name looks
/// to the byte-level matchers.
pub open spec fn chars_bytes(cs: Seq<char>) -> Seq<u8> {
    vstd::utf8::encode_utf8(cs)
}

/// One classification rule: a pattern against the process's display
/// name, and the label pair it yields.
#[derive(Debug, Clone)]
pub struct Rule {
    pub pattern: String,
    /// Exact name match; otherwise the pattern matches as a substring.
    pub exact: bool,
    pub group: String,
    pub subgroup: String,
}

/// Whether a rule matches a process name (given as bytes).
pub open spec fn rule_matches(name: Seq<u8>, r: Rule) -> bool {
    if r.exact {
        name == chars_bytes(r.pattern@)
    } else {
        contains_bytes(name, chars_bytes(r.pattern@))
    }
}

/// Index of the first matching rule, or -1 when none matches.
pub open spec fn spec_first_match(name: Seq<u8>, rules: Seq<Rule>) -> int
    decreases rules.len(),
{
    if rules.len() == 0 {
        -1
    } else if rule_matches(name, rules[0]) {
        0
    } else {
        let t = spec_first_match(name, rules.drop_first());
        if t == -1 {
            -1
        } else {
            1 + t
        }
    }
}

pub proof fn lemma_first_match_bounds(name: Seq<u8>, rules: Seq<Rule>)
    ensures
        -1 <= spec_first_match(name, rules) < rules.len(),
        spec_first_match(name, rules) >= 0 ==> rule_matches(
            name,
            rules[spec_first_match(name, rules)],
        ),
        spec_first_match(name, rules) == -1 ==> forall|i: int|
            0 <= i < rules.len() ==> !rule_matches(name, #[trigger] rules[i]),
    decreases rules.len(),
{
    if rules.len() == 0 {
    } else if rule_matches(name, rules[0]) {
    } else {
        lemma_first_match_bounds(name, rules.drop_first());
        if spec_first_match(name, rules) == -1 {
            assert forall|i: int| 0 <= i < rules.len() implies !rule_matches(
                name,
                #[trigger] rules[i],
            ) by {
                if i > 0 {
                    assert(rules.drop_first()[i - 1] == rules[i]);
                }
            }
        } else {
            assert(rules.drop_first()[spec_first_match(name, rules.drop_first())]
                == rules[spec_first_match(name, rules)]);
        }
    }
}

/// `spec_first_match` is pinned down by its characteristic properties.
pub proof fn lemma_first_match_is(name: Seq<u8>, rules: Seq<Rule>, k: int)
    requires
        0 <= k < rules.len(),
        forall|i: int| 0 <= i < k ==> !rule_matches(name, #[trigger] rules[i]),
        rule_matches(name, rules[k]),
    ensures
        spec_first_match(name, rules) == k,
    decreases rules.len(),
{
    if k == 0 {
    } else {
        assert(!rule_matches(name, rules[0]));
        assert forall|i: int| 0 <= i < k - 1 implies !rule_matches(
            name,
            #[trigger] rules.drop_first()[i],
        ) by {
            assert(rules.drop_first()[i] == rules[i + 1]);
        }
        assert(rules.drop_first()[k - 1] == rules[k]);
        lemma_first_match_is(name, rules.drop_first(), k - 1);
    }
}

/// The raw classification of a name against a rule table: the first
/// matching rule's labels, or ("other", "unknown") when none matches.
pub open spec fn spec_classify(name: Seq<u8>, rules: Seq<Rule>) -> (Seq<char>, Seq<char>) {
    let k = spec_first_match(name, rules);
    if k >= 0 {
        (rules[k].group@, rules[k].subgroup@)
    } else {
        ("other"@, "unknown"@)
    }
}

/// Classifies a process display name against the rule table.
///
/// Total: every name yields a pair, and the pair is a function of the
/// name and the table alone, so repeated calls agree.
pub fn classify_process_raw(name: &str, rules: &Vec<Rule>) -> (r: (String, String))
    ensures
        (r.0@, r.1@) == spec_classify(name.spec_bytes(), rules@),
{
    let name_bytes = name.as_bytes();
    let mut i: usize = 0;
    while i < rules.len()
        invariant
            i <= rules@.len(),
            name_bytes@ == name.spec_bytes(),
            forall|k: int| 0 <= k < i ==> !rule_matches(name_bytes@, #[trigger] rules@[k]),
        decreases rules@.len() - i,
    {
        let rule = &rules[i];
        let pat_bytes = rule.pattern.as_str().as_bytes();
        let matched = if rule.exact {
            bytes_eq(name_bytes, pat_bytes)
        } else {
            bytes_contain(name_bytes, pat_bytes)
        };
        if matched {
            proof {
                lemma_first_match_is(name_bytes@, rules@, i as int);
            }
            return (rule.group.clone(), rule.subgroup.clone());
        }
        i = i + 1;
    }
    proof {
        if spec_first_match(name_bytes@, rules@) >= 0 {
            lemma_first_match_bounds(name_bytes@, rules@);
        }
    }
    (new_strlit_other(), new_strlit_unknown())
}

/// The default group label.
fn new_strlit_other() -> (r: String)
    ensures
        r@ == "other"@,
{
    let s = "other";
    s.to_owned()
}

/// The default subgroup label.
fn new_strlit_unknown() -> (r: String)
    ensures
        r@ == "unknown"@,
{
    let s = "unknown";
    s.to_owned()
}

/// Case-insensitive comparison of a label against the word "other".
pub open spec fn is_other_label(l: Seq<char>) -> bool {
    eq_ignore_case(chars_bytes(l), chars_bytes("other"@))
}

/// Whether a label equals "other" up to ASCII case.
pub fn label_is_other(l: &str) -> (r: bool)
    ensures
        r == is_other_label(l@),
{
    bytes_eq_ignore_case(l.as_bytes(), "other".as_bytes())
}

/// Case-insensitive comparison of a label against the word "others".
pub open spec fn is_others_label(l: Seq<char>) -> bool {
    eq_ignore_case(chars_bytes(l), chars_bytes("others"@))
}

/// Whether a label equals "others" up to ASCII case.
pub fn label_is_others(l: &str) -> (r: bool)
    ensures
        r == is_others_label(l@),
{
    bytes_eq_ignore_case(l.as_bytes(), "others".as_bytes())
}

/// A label list contains a label (exact match).
pub open spec fn list_has_label(list: Seq<String>, l: Seq<char>) -> bool {
    exists|i: int| 0 <= i < list.len() && #[trigger] list[i]@ == l
}

/// Membership of a label in a configured list, by exact string equality.
pub fn label_in_list(list: &Vec<String>, l: &String) -> (r: bool)
    ensures
        r == list_has_label(list@, l@),
{
    let mut i: usize = 0;
    while i < list.len()
        invariant
            i <= list@.len(),
            forall|k: int| 0 <= k < i ==> #[trigger] list@[k]@ != l@,
        decreases list@.len() - i,
    {
        if list[i].eq(l) {
            return true;
        }
        i = i + 1;
    }
    false
}

/// What the configured policy makes of a raw classification.
///
/// Mirrors the policy order: the disable-others switch on the raw group,
/// then the include/exclude allow-list, then normalization of every
/// "other" group's subgroup to "other".
pub open spec fn spec_classify_policy(
    name: Seq<u8>,
    rules: Seq<Rule>,
    cfg: Config,
) -> Option<(Seq<char>, Seq<char>)> {
    let (g, sg) = spec_classify(name, rules);
    if cfg.disable_others && is_other_label(g) {
        None
    } else if match cfg.search_mode {
        Some(SearchMode::Include) => !(list_has_label(cfg.search_list@, g) || list_has_label(
            cfg.search_list@,
            sg,
        )),
        Some(SearchMode::Exclude) => list_has_label(cfg.search_list@, g) || list_has_label(
            cfg.search_list@,
            sg,
        ),
        None => false,
    } {
        None
    } else if is_other_label(g) {
        Some((g, "other"@))
    } else {
        Some((g, sg))
    }
}

/// Classifies a name and applies the configured policy.
pub fn classify_process_with_config(name: &str, rules: &Vec<Rule>, cfg: &Config) -> (r:
    Option<(String, String)>)
    ensures
        match r {
            Some(p) => spec_classify_policy(name.spec_bytes(), rules@, *cfg) == Some(
                (p.0@, p.1@),
            ),
            None => spec_classify_policy(name.spec_bytes(), rules@, *cfg) is None,
        },
{
    let (g, sg) = classify_process_raw(name, rules);
    let other_group = label_is_other(g.as_str());
    if cfg.disable_others && other_group {
        return None;
    }
    let listed = label_in_list(&cfg.search_list, &g) || label_in_list(&cfg.search_list, &sg);
    let dropped = match cfg.search_mode {
        Some(SearchMode::Include) => !listed,
        Some(SearchMode::Exclude) => listed,
        None => false,
    };
    if dropped {
        return None;
    }
    if other_group {
        Some((g, new_strlit_other()))
    } else {
        Some((g, sg))
    }
}

/// Classification is total and repeatable: any two results that meet
/// the classifier's contract for the same name and the same rule table
/// are equal, so repeated calls with an unchanged table agree; and the
/// classifier never fails -- when no rule matches, the pair is the
/// catch-all ("other", "unknown").
pub proof fn lemma_classify_total_and_deterministic(
    name: Seq<u8>,
    rules: Seq<Rule>,
    r1: (Seq<char>, Seq<char>),
    r2: (Seq<char>, Seq<char>),
)
    requires
        r1 == spec_classify(name, rules),
        r2 == spec_classify(name, rules),
    ensures
        r1 == r2,
        (forall|i: int| 0 <= i < rules.len() ==> !rule_matches(name, #[trigger] rules[i]))
            ==> r1 == ("other"@, "unknown"@),
{
    lemma_first_match_bounds(name, rules);
    if forall|i: int| 0 <= i < rules.len() ==> !rule_matches(name, #[trigger] rules[i]) {
        if spec_first_match(name, rules) >= 0 {
            assert(rule_matches(name, rules[spec_first_match(name, rules)]));
        }
    }
}

/// One entry of the built-in rule table.
fn rule(pattern: &str, exact: bool, group: &str, subgroup: &str) -> (r: Rule)
    ensures
        r.pattern@ == pattern@,
        r.exact == exact,
        r.group@ == group@,
        r.subgroup@ == subgroup@,
{
    Rule { pattern: pattern.to_owned(), exact, group: group.to_owned(), subgroup: subgroup.to_owned() }
}

/// The rule table's entries, as the specifications see them:
/// (pattern, exact-match, group, subgroup).
pub open spec fn rule_fields(r: Rule) -> (Seq<char>, bool, Seq<char>, Seq<char>) {
    (r.pattern@, r.exact, r.group@, r.subgroup@)
}

/// What the built-in table holds, entry by entry.
pub open spec fn spec_builtin_table() -> Seq<(Seq<char>, bool, Seq<char>, Seq<char>)> {
    seq![
        ("postgres"@, false, "db"@, "postgres"@),
        ("mysqld"@, true, "db"@, "mysql"@),
        ("mariadbd"@, true, "db"@, "mysql"@),
        ("redis-server"@, true, "db"@, "redis"@),
        ("mongod"@, true, "db"@, "mongodb"@),
        ("clickhouse"@, false, "db"@, "clickhouse"@),
        ("nginx"@, false, "web"@, "nginx"@),
        ("apache2"@, true, "web"@, "apache"@),
        ("httpd"@, true, "web"@, "apache"@),
        ("haproxy"@, true, "web"@, "haproxy"@),
        ("varnishd"@, true, "web"@, "varnish"@),
        ("dockerd"@, true, "container"@, "docker"@),
        ("containerd"@, true, "container"@, "containerd"@),
        ("kubelet"@, true, "container"@, "kubernetes"@),
        ("kube-apiserver"@, true, "container"@, "kubernetes"@),
        ("etcd"@, true, "container"@, "etcd"@),
        ("systemd"@, true, "system"@, "systemd"@),
        ("systemd-journald"@, true, "system"@, "journald"@),
        ("sshd"@, false, "system"@, "ssh"@),
        ("cron"@, true, "system"@, "cron"@),
        ("dbus-daemon"@, true, "system"@, "dbus"@),
        ("rsyslogd"@, true, "system"@, "syslog"@),
        ("java"@, true, "runtime"@, "java"@),
        ("python"@, false, "runtime"@, "python"@),
        ("node"@, true, "runtime"@, "node"@),
        ("ruby"@, true, "runtime"@, "ruby"@),
        ("php-fpm"@, false, "runtime"@, "php"@),
        ("prometheus"@, true, "monitoring"@, "prometheus"@),
        ("grafana"@, false, "monitoring"@, "grafana"@),
        ("alertmanager"@, true, "monitoring"@, "alertmanager"@),
    ]
}

/// The built-in classification table: exact display names of common
/// services, plus a few substring patterns for families of workers,
/// first match winning. Built once at startup and passed by shared
/// reference; never mutated afterwards. The entries are exactly the
/// specification's table.
pub fn builtin_rules() -> (r: Vec<Rule>)
    ensures
        r@.map_values(|u: Rule| rule_fields(u)) == spec_builtin_table(),
        r@.len() > 0,
{
    let mut t: Vec<Rule> = Vec::new();
    t.push(rule("postgres", false, "db", "postgres"));
    t.push(rule("mysqld", true, "db", "mysql"));
    t.push(rule("mariadbd", true, "db", "mysql"));
    t.push(rule("redis-server", true, "db", "redis"));
    t.push(rule("mongod", true, "db", "mongodb"));
    t.push(rule("clickhouse", false, "db", "clickhouse"));
    t.push(rule("nginx", false, "web", "nginx"));
    t.push(rule("apache2", true, "web", "apache"));
    t.push(rule("httpd", true, "web", "apache"));
    t.push(rule("haproxy", true, "web", "haproxy"));
    t.push(rule("varnishd", true, "web", "varnish"));
    t.push(rule("dockerd", true, "container", "docker"));
    t.push(rule("containerd", true, "container", "containerd"));
    t.push(rule("kubelet", true, "container", "kubernetes"));
    t.push(rule("kube-apiserver", true, "container", "kubernetes"));
    t.push(rule("etcd", true, "container", "etcd"));
    t.push(rule("systemd", true, "system", "systemd"));
    t.push(rule("systemd-journald", true, "system", "journald"));
    t.push(rule("sshd", false, "system", "ssh"));
    t.push(rule("cron", true, "system", "cron"));
    t.push(rule("dbus-daemon", true, "system", "dbus"));
    t.push(rule("rsyslogd", true, "system", "syslog"));
    t.push(rule("java", true, "runtime", "java"));
    t.push(rule("python", false, "runtime", "python"));
    t.push(rule("node", true, "runtime", "node"));
    t.push(rule("ruby", true, "runtime", "ruby"));
    t.push(rule("php-fpm", false, "runtime", "php"));
    t.push(rule("prometheus", true, "monitoring", "prometheus"));
    t.push(rule("grafana", false, "monitoring", "grafana"));
    t.push(rule("alertmanager", true, "monitoring", "alertmanager"));
    proof {
        assert(t@.map_values(|u: Rule| rule_fields(u)) =~= spec_builtin_table());
    }
    t
}

/// Name-based include/exclude filtering ahead of sampling.
///
/// A process passes when the include list is empty or some include
/// pattern occurs in its name, and no exclude pattern occurs in it.
pub open spec fn spec_should_include(name: Seq<u8>, cfg: Config) -> bool {
    &&& (cfg.include_names@.len() == 0 || exists|i: int|
        0 <= i < cfg.include_names@.len() && contains_bytes(
            name,
            chars_bytes(#[trigger] cfg.include_names@[i]@),
        ))
    &&& (forall|i: int|
        0 <= i < cfg.exclude_names@.len() ==> !contains_bytes(
            name,
            chars_bytes(#[trigger] cfg.exclude_names@[i]@),
        ))
}

/// Applies the configured name filters to a process name.
pub fn should_include_process(name: &str, cfg: &Config) -> (r: bool)
    ensures
        r == spec_should_include(name.spec_bytes(), *cfg),
{
    let name_bytes = name.as_bytes();
    let mut included = cfg.include_names.len() == 0;
    let mut i: usize = 0;
    while i < cfg.include_names.len()
        invariant
            i <= cfg.include_names@.len(),
            name_bytes@ == name.spec_bytes(),
            included == (cfg.include_names@.len() == 0 || exists|k: int|
                0 <= k < i && contains_bytes(
                    name_bytes@,
                    chars_bytes(#[trigger] cfg.include_names@[k]@),
                )),
        decreases cfg.include_names@.len() - i,
    {
        if bytes_contain(name_bytes, cfg.include_names[i].as_str().as_bytes()) {
            included = true;
        }
        i = i + 1;
    }
    if !included {
        return false;
    }
    let mut j: usize = 0;
    while j < cfg.exclude_names.len()
        invariant
            j <= cfg.exclude_names@.len(),
            name_bytes@ == name.spec_bytes(),
            forall|k: int|
                0 <= k < j ==> !contains_bytes(
                    name_bytes@,
                    chars_bytes(#[trigger] cfg.exclude_names@[k]@),
                ),
        decreases cfg.exclude_names@.len() - j,
    {
        if bytes_contain(name_bytes, cfg.exclude_names[j].as_str().as_bytes()) {
            return false;
        }
        j = j + 1;
    }
    true
}

} // verus!
