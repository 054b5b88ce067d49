use config::path::from_str;
use config::path::Expression;

#[test]
fn test_id() {
    let parsed: Expression = from_str("abcd").unwrap();
    assert_eq!(
        format!("{parsed:#?}"),
        "Identifier(\n    \"abcd\",\n)"
    );
}

#[test]
fn test_id_dash() {
    let parsed: Expression = from_str("abcd-efgh").unwrap();
    assert_eq!(
        format!("{parsed:#?}"),
        "Identifier(\n    \"abcd-efgh\",\n)"
    );
}

#[test]
fn test_child() {
    let parsed: Expression = from_str("abcd.efgh").unwrap();
    assert_eq!(
        format!("{parsed:#?}"),
        "Child(\n    Identifier(\n        \"abcd\",\n    ),\n    \"efgh\",\n)"
    );

    let parsed: Expression = from_str("abcd.efgh.ijkl").unwrap();
    assert_eq!(
        format!("{parsed:#?}"),
        "Child(\n    Child(\n        Identifier(\n            \"abcd\",\n        ),\n        \"efgh\",\n    ),\n    \"ijkl\",\n)"
    );
}

#[test]
fn test_subscript() {
    let parsed: Expression = from_str("abcd[12]").unwrap();
    assert_eq!(
        format!("{parsed:#?}"),
        "Subscript(\n    Identifier(\n        \"abcd\",\n    ),\n    12,\n)"
    );
}

#[test]
fn test_subscript_neg() {
    let parsed: Expression = from_str("abcd[-1]").unwrap();
    assert_eq!(
        format!("{parsed:#?}"),
        "Subscript(\n    Identifier(\n        \"abcd\",\n    ),\n    -1,\n)"
    );
}

#[test]
fn test_invalid_identifier() {
    let err = from_str("!").unwrap_err();
    assert_eq!(
        err.render(),
        "!\n^\ninvalid identifier\nexpected ASCII alphanumeric, `_`, `-`"
    );
}

#[test]
fn test_invalid_child() {
    let err = from_str("a..").unwrap_err();
    assert_eq!(
        err.render(),
        "a..\n  ^\ninvalid identifier\nexpected ASCII alphanumeric, `_`, `-`"
    );
}

#[test]
fn test_invalid_subscript() {
    let err = from_str("a[b]").unwrap_err();
    assert_eq!(
        err.render(),
        "a[b]\n  ^\ninvalid subscript\nexpected integer"
    );
}

#[test]
fn test_incomplete_subscript() {
    let err = from_str("a[0").unwrap_err();
    assert_eq!(
        err.render(),
        "a[0\n   ^\ninvalid subscript\nexpected `]`"
    );
}

#[test]
fn test_invalid_postfix() {
    let err = from_str("a!b").unwrap_err();
    assert_eq!(
        err.render(),
        "a!b\n  ^\ninvalid postfix\nexpected `[`, `.`"
    );
}
