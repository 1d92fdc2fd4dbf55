use rule_table::regex_match::RegexMatch;

#[test]
fn regex_match() {
    let regex_match = RegexMatch::try_from("abc").unwrap();
    assert!(regex_match.matches("abc"));
    assert!(regex_match.matches("aabcc"));
    assert!(!regex_match.matches("ab"));
    assert!(!regex_match.matches("bc"));

    let regex_match = RegexMatch::try_from("^abc$").unwrap();
    assert!(regex_match.matches("abc"));
    assert!(!regex_match.matches("aabcc"));
    assert!(!regex_match.matches("ab"));
    assert!(!regex_match.matches("bc"));

    let regex_match = RegexMatch::try_from("!abc").unwrap();
    assert!(!regex_match.matches("abc"));
    assert!(!regex_match.matches("aabcc"));
    assert!(regex_match.matches("ab"));
    assert!(regex_match.matches("bc"));

    let regex_match = RegexMatch::try_from("!^abc$").unwrap();
    assert!(!regex_match.matches("abc"));
    assert!(regex_match.matches("aabcc"));
    assert!(regex_match.matches("ab"));
    assert!(regex_match.matches("bc"));
}

#[test]
fn regex_negation_inverts_raw_result() {
    // For every pattern and value: matches == (negate ? !raw : raw).
    let raw = RegexMatch::try_from("\\d+").unwrap();
    let negated = RegexMatch::try_from("!\\d+").unwrap();
    for value in ["abc", "a1b", "123", "", "x y z", "0"] {
        assert_eq!(negated.matches(value), !raw.matches(value));
    }
}

#[test]
fn regex_compile_failure_is_reported() {
    let err = RegexMatch::try_from("(").unwrap_err();
    assert_eq!(err.pattern, "(");

    // The pattern carried by the error has the negation marker removed.
    let err = RegexMatch::try_from("!)").unwrap_err();
    assert_eq!(err.pattern, ")");
}

#[test]
fn regex_equality_is_by_source_text() {
    let a = RegexMatch::try_from("a+").unwrap();
    let b = RegexMatch::try_from("a+").unwrap();
    let c = RegexMatch::try_from("aa*").unwrap();
    let d = RegexMatch::try_from("!a+").unwrap();
    assert!(a == b);
    // Same matching behaviour, different spelling: not equal.
    assert!(a != c);
    assert!(a != d);
}
