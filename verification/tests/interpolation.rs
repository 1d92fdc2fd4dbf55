use rule_table::interpolation::VariableInterpolation;

#[test]
fn variable_interpolation() {
    assert_eq!(
        VariableInterpolation::from("abcd").interpolate(|_| panic!("Unexpected lookup call")),
        b"abcd".to_vec()
    );

    assert_eq!(
        VariableInterpolation::from("ab${xyz}cd").interpolate(|_| None),
        b"ab${xyz}cd".to_vec()
    );

    assert_eq!(
        VariableInterpolation::from("ab${xyz}cd").interpolate(|name| {
            if name == "xyz" {
                Some(b"resolved")
            } else {
                None
            }
        }),
        b"abresolvedcd".to_vec()
    );

    assert_eq!(
        VariableInterpolation::from("a${x}${y}bc${z}d").interpolate(|name| {
            if name == "x" {
                Some(b"x resolved")
            } else if name == "z" {
                Some(b"z resolved")
            } else {
                None
            }
        }),
        b"ax resolved${y}bcz resolvedd".to_vec()
    );

    assert_eq!(
        VariableInterpolation::from("${a${x}").interpolate(|name| {
            if name == "x" {
                Some(b"resolved")
            } else {
                None
            }
        }),
        b"${aresolved".to_vec()
    );
}

#[test]
fn interpolation_round_trip_on_misses() {
    let cases = [
        "",
        "plain text",
        "${}",
        "${a}${b}",
        "a$b{c}d",
        "${unclosed",
        "${bad name} and ${good_1}",
        "trailing ${",
        "${a${x}",
        "unicode \u{00e9}\u{00df} ${v}",
    ];
    for s in cases {
        assert_eq!(
            VariableInterpolation::parse(s).interpolate(|_| None),
            s.as_bytes().to_vec(),
            "round trip failed for {s:?}"
        );
    }
}

#[test]
fn interpolation_resolves_adjacent_variables() {
    let parsed = VariableInterpolation::parse("${a}${b}");
    let out = parsed.interpolate(|name| {
        if name == "a" {
            Some(b"1".as_slice())
        } else if name == "b" {
            Some(b"2".as_slice())
        } else {
            None
        }
    });
    assert_eq!(out, b"12".to_vec());
}

#[test]
fn interpolation_empty_name_is_a_variable() {
    let parsed = VariableInterpolation::parse("x${}y");
    let out = parsed.interpolate(|name| {
        if name.is_empty() {
            Some(b"here".as_slice())
        } else {
            None
        }
    });
    assert_eq!(out, b"xherey".to_vec());
}
