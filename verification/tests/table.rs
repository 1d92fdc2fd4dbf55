use rule_table::headers::HeadersConf;
use rule_table::matching::{MatchRule, MatchRules};
use rule_table::merge::{lookup_key, MergedConf, TableEntry, WithMatchRules};

fn compile(rules: Vec<WithMatchRules<MatchRules, HeadersConf>>) -> Vec<TableEntry> {
    rule_table::merge::into_merged(rules)
}

fn match_rule(s: &str) -> MatchRule {
    match s.find('/') {
        None => MatchRule { host: s.to_owned(), path: String::new(), prefix: true },
        Some(slash) => {
            let host = &s[..slash];
            let rest = &s[slash + 1..];
            let (path, prefix) = if rest == "*" {
                ("", true)
            } else if let Some(stripped) = rest.strip_suffix("/*") {
                (stripped, true)
            } else {
                (rest, false)
            };
            MatchRule { host: host.to_owned(), path: path.to_owned(), prefix }
        }
    }
}

fn match_rules(
    include_pats: &str,
    exclude_pats: &str,
    name: &str,
    value: &str,
) -> WithMatchRules<MatchRules, HeadersConf> {
    let included = include_pats.split(' ').filter(|p| !p.is_empty()).map(match_rule).collect();
    let excluded = exclude_pats.split(' ').filter(|p| !p.is_empty()).map(match_rule).collect();
    WithMatchRules {
        match_rules: MatchRules { included, excluded },
        conf: HeadersConf { headers: vec![(name.to_owned(), value.to_owned())] },
    }
}

fn merged_conf(exact: &str, prefix: &str) -> MergedConf {
    fn to_headers(headers: &str) -> Vec<(String, String)> {
        headers
            .split(',')
            .filter(|h| !h.is_empty())
            .map(|h| h.split_once(':').unwrap())
            .map(|(n, v)| (n.trim().to_owned(), v.trim().to_owned()))
            .collect()
    }

    MergedConf { exact: to_headers(exact), prefix: to_headers(prefix) }
}

fn fixture() -> Vec<WithMatchRules<MatchRules, HeadersConf>> {
    vec![
        match_rules("/*", "example.com", "X-Test1", "1"),
        match_rules("example.com", "/*", "X-Test2", "2"),
        match_rules("/*", "/test", "X-Test3", "3"),
        match_rules("example.com/test/*", "/test", "X-Test4", "4"),
        match_rules(
            "localhost/ localhost/test/subdir/*",
            "localhost/test",
            "X-Test5",
            "5",
        ),
        match_rules("localhost/test/*", "/test/subdir", "X-Test6", "6"),
        match_rules("localhost:8000", "", "X-Test3", "3"),
    ]
}

fn assert_entry(table: &Vec<TableEntry>, host: &str, path: &str, exact: &str, prefix: &str) {
    let got = lookup_key(table, host, path)
        .unwrap_or_else(|| panic!("missing entry for ({host:?}, {path:?})"));
    assert_eq!(*got, merged_conf(exact, prefix), "at ({host:?}, {path:?})");
}

#[test]
fn into_merged() {
    let merged = compile(fixture());
    assert_eq!(merged.len(), 8);

    assert_entry(&merged, "", "", "X-Test1: 1, X-Test3: 3", "X-Test1: 1, X-Test3: 3");
    assert_entry(&merged, "", "test", "X-Test1: 1", "X-Test1: 1, X-Test3: 3");
    assert_entry(
        &merged,
        "example.com",
        "",
        "X-Test2: 2, X-Test3: 3",
        "X-Test2: 2, X-Test3: 3",
    );
    assert_entry(
        &merged,
        "example.com",
        "test",
        "X-Test2: 2, X-Test4: 4",
        "X-Test2: 2, X-Test3: 3, X-Test4: 4",
    );
    assert_entry(
        &merged,
        "localhost",
        "",
        "X-Test1: 1, X-Test3: 3, X-Test5: 5",
        "X-Test1: 1, X-Test3: 3",
    );
    assert_entry(
        &merged,
        "localhost",
        "test",
        "X-Test1: 1, X-Test6: 6",
        "X-Test1: 1, X-Test3: 3, X-Test6: 6",
    );
    assert_entry(
        &merged,
        "localhost",
        "test/subdir",
        "X-Test1: 1, X-Test3: 3, X-Test5: 5, X-Test6: 6",
        "X-Test1: 1, X-Test3: 3, X-Test5: 5, X-Test6: 6",
    );
    assert_entry(
        &merged,
        "localhost:8000",
        "test",
        "X-Test1: 1, X-Test3: 3",
        "X-Test1: 1, X-Test3: 3",
    );
}

#[test]
fn scenario_literal_rules() {
    let rules = vec![
        match_rules("/*", "example.com", "X-Test1", "1"),
        match_rules("example.com", "/*", "X-Test2", "2"),
        match_rules("/*", "/test", "X-Test3", "3"),
        match_rules("example.com/test/*", "/test", "X-Test4", "4"),
    ];
    let merged = compile(rules);
    assert_entry(&merged, "", "", "X-Test1: 1, X-Test3: 3", "X-Test1: 1, X-Test3: 3");
    assert_entry(
        &merged,
        "example.com",
        "test",
        "X-Test2: 2, X-Test4: 4",
        "X-Test2: 2, X-Test3: 3, X-Test4: 4",
    );
}

#[test]
fn empty_rule_list_keeps_global_root() {
    let merged = compile(Vec::new());
    assert_eq!(merged.len(), 1);
    assert_eq!(merged[0].0, (String::new(), String::new()));
    assert_eq!(merged[0].1, merged_conf("", ""));
}

#[test]
fn compilation_is_deterministic() {
    let first = compile(fixture());
    let second = compile(fixture());
    assert_eq!(first, second);
}

#[test]
fn more_specific_rule_wins_same_header() {
    // Two rules set the same header: the host-specific one is more specific
    // and its value wins at its host; elsewhere the generic value remains.
    let rules = vec![
        match_rules("/*", "", "X-Who", "generic"),
        match_rules("example.com", "", "X-Who", "host"),
    ];
    let merged = compile(rules);
    assert_entry(&merged, "", "", "X-Who: generic", "X-Who: generic");
    assert_entry(&merged, "example.com", "", "X-Who: host", "X-Who: host");
}

#[test]
fn equal_specificity_later_rule_wins() {
    let rules = vec![
        match_rules("/*", "", "X-Who", "first"),
        match_rules("/*", "", "X-Who", "second"),
    ];
    let merged = compile(rules);
    assert_entry(&merged, "", "", "X-Who: second", "X-Who: second");
}

// The consumer's ancestor walk: try the key itself, then strip path
// segments at `/` boundaries, then fall back to the any-host key space.
fn ancestor_walk<'a>(table: &'a Vec<TableEntry>, host: &str, path: &str) -> &'a MergedConf {
    fn walk_host<'a>(
        table: &'a Vec<TableEntry>,
        host: &str,
        path: &str,
    ) -> Option<&'a MergedConf> {
        let mut p = path.to_owned();
        loop {
            if let Some(conf) = lookup_key(table, host, &p) {
                return Some(conf);
            }
            if p.is_empty() {
                return None;
            }
            p = match p.rfind('/') {
                Some(m) => p[..m].to_owned(),
                None => String::new(),
            };
        }
    }
    walk_host(table, host, path)
        .or_else(|| walk_host(table, "", path))
        .expect("the walk always ends at the global root")
}

#[test]
fn compaction_preserves_walk_answers() {
    // Keys of the uncompacted key space that compaction removes must keep
    // their prefix answer reachable through the ancestor walk.
    let merged = compile(fixture());
    assert!(lookup_key(&merged, "", "test/subdir").is_none());
    assert_eq!(
        ancestor_walk(&merged, "", "test/subdir").prefix,
        merged_conf("", "X-Test1: 1, X-Test3: 3").prefix
    );
    assert!(lookup_key(&merged, "example.com", "test/subdir").is_none());
    assert_eq!(
        ancestor_walk(&merged, "example.com", "test/subdir").prefix,
        merged_conf("", "X-Test2: 2, X-Test3: 3, X-Test4: 4").prefix
    );
    assert!(lookup_key(&merged, "localhost:8000", "").is_none());
    assert_eq!(
        ancestor_walk(&merged, "localhost:8000", "").prefix,
        merged_conf("", "X-Test1: 1, X-Test3: 3").prefix
    );
}

#[test]
fn disjoint_headers_both_appear() {
    let rules = vec![
        match_rules("/*", "", "X-B", "2"),
        match_rules("example.com", "", "X-A", "1"),
    ];
    let merged = compile(rules);
    assert_entry(&merged, "example.com", "", "X-A: 1, X-B: 2", "X-A: 1, X-B: 2");
}
