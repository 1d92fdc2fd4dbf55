use rule_table::rewrite::{PathMatcher, RewriteConf, RewriteRule, RewriteType};

#[test]
fn path_matcher_parse() {
    let m = PathMatcher::parse("/*");
    assert_eq!(m.path, "");
    assert!(m.prefix);

    let m = PathMatcher::parse("*");
    assert_eq!(m.path, "");
    assert!(m.prefix);

    let m = PathMatcher::parse("/dir/*");
    assert_eq!(m.path, "dir");
    assert!(m.prefix);

    let m = PathMatcher::parse("/file.txt");
    assert_eq!(m.path, "file.txt");
    assert!(!m.prefix);

    let m = PathMatcher::parse("/a/b/");
    assert_eq!(m.path, "a/b");
    assert!(!m.prefix);
}

#[test]
fn rewrite_rule_default() {
    let rule = RewriteRule::default();
    assert_eq!(rule.from.path, "");
    assert!(rule.from.prefix);
    assert!(rule.from_regex.is_none());
    assert!(rule.query_regex.is_none());
    assert_eq!(rule.rewrite_type, RewriteType::Internal);
    assert_eq!(rule.to.interpolate(|_| None), b"/".to_vec());
}

#[test]
fn rewrite_conf_default_is_empty() {
    let conf = RewriteConf::default();
    assert!(conf.rewrite_rules.is_empty());
}
