use landlock::{Access, AccessFs, AccessNet, Scope, ABI};
use landlockconfig::access;
use landlockconfig::access::AccessItemError;
use landlockconfig::expand::VecStringIterator;
use landlockconfig::variable::{StringSet, Variables};
use landlockconfig::{Name, TemplateString, TemplateToken};

fn parse(s: &str) -> Result<TemplateString, landlockconfig::TemplateError> {
    TemplateString::parse(s)
}

fn parse_err(s: &str) -> String {
    TemplateString::parse(s).unwrap_err().message()
}

#[test]
fn test_visit_str_plain_text() {
    assert_eq!(
        parse("bar").unwrap(),
        TemplateString(vec![TemplateToken::Text("bar".to_string())])
    );
}

#[test]
fn test_visit_str_empty_string() {
    assert_eq!(parse("").unwrap(), TemplateString(vec![]));
}

#[test]
fn test_visit_str_single_variable() {
    assert_eq!(
        parse("${foo}").unwrap(),
        TemplateString(vec![TemplateToken::Var(Name::from_str("foo").unwrap())])
    );
}

#[test]
fn test_visit_str_text_and_variable() {
    assert_eq!(
        parse("${foo} bar").unwrap(),
        TemplateString(vec![
            TemplateToken::Var(Name::from_str("foo").unwrap()),
            TemplateToken::Text(" bar".to_string()),
        ])
    );
}

#[test]
fn test_visit_str_multiple_variables() {
    assert_eq!(
        parse("${foo} bar ${baz}").unwrap(),
        TemplateString(vec![
            TemplateToken::Var(Name::from_str("foo").unwrap()),
            TemplateToken::Text(" bar ".to_string()),
            TemplateToken::Var(Name::from_str("baz").unwrap())
        ])
    );
}

#[test]
fn test_visit_str_escaped_variable() {
    assert_eq!(
        parse("$${escaped}").unwrap(),
        TemplateString(vec![TemplateToken::Text("${escaped}".to_string())])
    );
}

#[test]
fn test_visit_str_escaped_non_variable() {
    assert_eq!(
        parse("$$foo").unwrap(),
        TemplateString(vec![TemplateToken::Text("$foo".to_string())])
    );
}

#[test]
fn test_visit_str_escaped_variable_with_text() {
    assert_eq!(
        parse("foo $${escaped} baz").unwrap(),
        TemplateString(vec![TemplateToken::Text("foo ${escaped} baz".to_string())])
    );
}

#[test]
fn test_visit_str_unclosed_variable() {
    assert_eq!(
        parse_err("${unclosed"),
        "unclosed variable reference starting at position 0"
    );
    assert_eq!(
        parse_err(" ${unclosed"),
        "unclosed variable reference starting at position 1"
    );
}

#[test]
fn test_visit_str_invalid_variable_first_char() {
    assert_eq!(
        parse_err(" ${0}"),
        "invalid variable name at position 3: invalid first character in name (must be ASCII alphabetic): 0"
    );
}

#[test]
fn test_visit_str_invalid_variable_name() {
    assert_eq!(
        parse_err("${invalid-name}"),
        "invalid variable name at position 2: invalid character(s) in name (must be ASCII alphanumeric or '_'): invalid-name"
    );
}

#[test]
fn test_visit_str_empty_variable() {
    assert_eq!(
        parse_err("  ${}"),
        "invalid variable name at position 4: name cannot be empty"
    );
}

fn assert_invalid_var_name(name: &str) {
    assert!(Name::from_str(name).is_err());
    assert!(Variables::try_from(vec![(name.to_string(), vec!["value".to_string()])]).is_err());
}

#[test]
fn test_variable_name_invalid() {
    // Start with digit
    assert_invalid_var_name("1foo");

    // Start with underscore
    assert_invalid_var_name("_foo");

    // Single non-ascii alphabetic character
    assert_invalid_var_name("\u{c0}");

    // Contain non-letter character
    assert_invalid_var_name("e\u{20ac}");

    // Leading space
    assert_invalid_var_name(" foo");

    // Space in middle
    assert_invalid_var_name("foo bar");

    // Trailing space
    assert_invalid_var_name("foo ");

    // Contain hyphen
    assert_invalid_var_name("foo-bar");

    // Contain non-ASCII characters
    assert_invalid_var_name("foo_\u{e7}\u{eb}");
}

fn assert_valid_var_name(name: &str) {
    assert!(Name::from_str(name).is_ok());
    assert!(Variables::try_from(vec![(name.to_string(), vec!["value".to_string()])]).is_ok());
}

#[test]
fn test_variable_name_valid() {
    // Single uppercase letter
    assert_valid_var_name("F");

    // All uppercase
    assert_valid_var_name("FOO");

    // Capitalized first letter
    assert_valid_var_name("Foo");

    // Single lowercase letter
    assert_valid_var_name("f");

    // Mixed case
    assert_valid_var_name("fOo");

    // Standard lowercase identifier
    assert_valid_var_name("foo");

    // Trailing underscore
    assert_valid_var_name("foo_");

    // Multiple consecutive underscores
    assert_valid_var_name("foo__bar");

    // Middle underscore
    assert_valid_var_name("foo_bar");
}

fn set_of(items: &[&str]) -> StringSet {
    let mut s = StringSet::new();
    for i in items {
        s.insert(i.to_string());
    }
    s
}

fn drain(iter: &mut VecStringIterator) -> Vec<String> {
    let mut out = Vec::new();
    while let Some(s) = iter.next() {
        out.push(s);
    }
    out
}

#[test]
fn test_vec_string_iterator_empty_vec() {
    let vec: Vec<StringSet> = vec![];
    let mut iter = VecStringIterator::new(&vec);
    assert_eq!(iter.next(), None);
    assert_eq!(iter.next(), None);
}

#[test]
fn test_vec_string_iterator_single_empty_set() {
    let vec = vec![StringSet::new()];
    let mut iter = VecStringIterator::new(&vec);
    assert_eq!(iter.next(), None);
    assert_eq!(iter.next(), None);
}

#[test]
fn test_vec_string_iterator_one_set() {
    // The set keeps its members sorted, so enumeration ignores insertion
    // order.
    let vec = vec![set_of(&["b", "a"])];
    let mut iter = VecStringIterator::new(&vec);

    assert_eq!(iter.next(), Some("a".to_string()));
    assert_eq!(iter.next(), Some("b".to_string()));
    assert_eq!(iter.next(), None);
    assert_eq!(iter.next(), None);
}

#[test]
fn test_vec_string_iterator_two_sets() {
    let vec = vec![set_of(&["a", "b"]), set_of(&["2", "1", "3"])];
    let mut iter = VecStringIterator::new(&vec);

    // Collect all results and compare.
    let results = drain(&mut iter);

    // Cartesian product of the sets.
    let expected = ["a1", "a2", "a3", "b1", "b2", "b3"].map(|s| s.to_string());
    assert_eq!(results, expected);
}

#[test]
fn test_vec_string_iterator_three_sets() {
    let vec = vec![
        set_of(&["a", "b"]),
        set_of(&["2", "1", "3"]),
        set_of(&["Y", "X"]),
    ];
    let mut iter = VecStringIterator::new(&vec);

    let results = drain(&mut iter);

    // Cartesian product of the sets.
    let expected = [
        "a1X", "a1Y", "a2X", "a2Y", "a3X", "a3Y", "b1X", "b1Y", "b2X", "b2Y", "b3X", "b3Y",
    ]
    .map(|s| s.to_string());
    assert_eq!(results, expected);
}

#[test]
fn test_vec_string_iterator_with_empty_set() {
    let vec = vec![set_of(&["a"]), StringSet::new(), set_of(&["Y"])];
    let mut iter = VecStringIterator::new(&vec);

    assert_eq!(iter.next(), None);
    assert_eq!(iter.next(), None);
}

#[test]
fn test_template_round_trip() {
    let t = parse("before/${foo}/${bar}/after").unwrap();
    assert_eq!(parse(&t.serialize()).unwrap(), t);

    // A lone dollar in a text run, and a trailing one in the last token,
    // both survive the round trip.
    let u = parse("a$b").unwrap();
    assert_eq!(parse(&u.serialize()).unwrap(), u);
    let v = parse("foo$").unwrap();
    assert_eq!(parse(&v.serialize()).unwrap(), v);
}

#[test]
fn test_resolve_cartesian() {
    let vars = Variables::try_from(vec![
        ("foo".to_string(), vec!["a".to_string(), "b".to_string()]),
        (
            "bar".to_string(),
            vec!["X".to_string(), "Y".to_string(), "Z".to_string()],
        ),
    ])
    .unwrap();
    let t = parse("before/${foo}/${bar}/after").unwrap();
    let sets = vars.resolve(&t).unwrap();
    let mut iter = VecStringIterator::new(&sets);
    let results = drain(&mut iter);
    let expected = [
        "before/a/X/after",
        "before/a/Y/after",
        "before/a/Z/after",
        "before/b/X/after",
        "before/b/Y/after",
        "before/b/Z/after",
    ]
    .map(|s| s.to_string());
    assert_eq!(results, expected);
}

#[test]
fn test_resolve_missing_variable() {
    let vars = Variables::try_from(vec![(
        "foo".to_string(),
        vec!["a".to_string(), "b".to_string()],
    )])
    .unwrap();
    let t = parse("${foo}/${bar}").unwrap();
    assert!(vars.resolve(&t).is_err());
}

#[test]
fn test_access_groups() {
    assert_eq!(access::fs_from_all(1), 0x1fff);
    assert_eq!(access::fs_from_all(2), 0x3fff);
    assert_eq!(access::fs_read_execute(1), 0xd);
    assert_eq!(access::fs_read_execute(2), 0x200d);
    assert_eq!(access::fs_read_write(1), 0x1fff & !0x1);
    assert_eq!(access::net_from_all(3), 0);
    assert_eq!(access::net_from_all(4), 0x3);
    assert_eq!(access::scope_from_all(5), 0);
    assert_eq!(access::scope_from_all(6), 0x3);
    assert_eq!(
        access::fs_item_bits("execute", None),
        Ok(access::FS_EXECUTE)
    );
    assert_eq!(
        access::fs_item_bits("abi.all", Some(2)),
        Ok(access::fs_from_all(2))
    );
    assert_eq!(
        access::fs_item_bits("abi.all", None),
        Err(AccessItemError::MissingVersion)
    );
    assert_eq!(
        access::fs_item_bits("nonsense", None),
        Err(AccessItemError::Unknown)
    );
}

#[test]
fn test_access_matches_landlock() {
    for v in 1..=6u32 {
        let abi = ABI::from(v as i32);
        assert_eq!(access::fs_from_all(v), AccessFs::from_all(abi).bits());
        assert_eq!(access::fs_from_read(v), AccessFs::from_read(abi).bits());
        assert_eq!(access::net_from_all(v), AccessNet::from_all(abi).bits());
        assert_eq!(access::scope_from_all(v), Scope::from_all(abi).bits());
    }
}
