use landlockconfig::access::{
    fs_from_all, fs_read_execute, fs_read_write, FS_EXECUTE, FS_READ_DIR, FS_READ_FILE, FS_REFER,
    NET_BIND_TCP,
};
use landlockconfig::aggregate::{aggregate_outcomes, matches_config_file, AggregateError};
use landlockconfig::fragment::{
    ConfigError, ConfigFormat, Fragment, RawPathRule, RawPortRule, RawRuleset, RawVariable,
};
use landlockconfig::resolve::normalize_path;
use landlockconfig::variable::Variables;
use landlockconfig::{Config, TemplateString};

fn empty_fragment() -> Fragment {
    Fragment {
        abi: None,
        variable: None,
        ruleset: None,
        path_beneath: None,
        net_port: None,
    }
}

fn fs_ruleset(items: &[&str]) -> RawRuleset {
    RawRuleset {
        handled_access_fs: Some(items.iter().map(|s| s.to_string()).collect()),
        handled_access_net: None,
        scoped: None,
    }
}

fn path_rule(items: &[&str], parents: &[&str]) -> RawPathRule {
    RawPathRule {
        allowed_access: items.iter().map(|s| s.to_string()).collect(),
        parent: parents.iter().map(|s| s.to_string()).collect(),
    }
}

#[test]
fn test_empty_configuration() {
    assert_eq!(
        Config::from_fragment(&empty_fragment()).unwrap_err(),
        ConfigError::EmptyConfiguration
    );
}

#[test]
fn test_empty_handled_access_fs() {
    let mut f = empty_fragment();
    f.ruleset = Some(vec![fs_ruleset(&[])]);
    assert_eq!(
        Config::from_fragment(&f).unwrap_err(),
        ConfigError::EmptyCollection
    );
}

#[test]
fn test_empty_ruleset_statement() {
    let mut f = empty_fragment();
    f.ruleset = Some(vec![RawRuleset {
        handled_access_fs: None,
        handled_access_net: None,
        scoped: None,
    }]);
    assert_eq!(
        Config::from_fragment(&f).unwrap_err(),
        ConfigError::EmptyRuleset
    );
}

#[test]
fn test_unknown_handled_access_fs() {
    let mut f = empty_fragment();
    f.ruleset = Some(vec![fs_ruleset(&["foo"])]);
    assert_eq!(
        Config::from_fragment(&f).unwrap_err(),
        ConfigError::UnknownAccessItem("foo".to_string())
    );
}

#[test]
fn test_access_fs_with_value() {
    let mut f = empty_fragment();
    f.abi = Some(2);
    f.ruleset = Some(vec![fs_ruleset(&["abi.all"])]);
    let c = Config::from_fragment(&f).unwrap();
    assert_eq!(c.handled_fs, fs_from_all(2));
}

#[test]
fn test_access_fs_without_value() {
    let mut f = empty_fragment();
    f.ruleset = Some(vec![fs_ruleset(&["abi.all"])]);
    assert_eq!(
        Config::from_fragment(&f).unwrap_err(),
        ConfigError::MissingTargetVersion
    );
}

#[test]
fn test_zero() {
    let mut f = empty_fragment();
    f.abi = Some(0);
    f.ruleset = Some(vec![fs_ruleset(&["execute"])]);
    assert_eq!(
        Config::from_fragment(&f).unwrap_err(),
        ConfigError::InvalidAbi(0)
    );
}

#[test]
fn test_negative() {
    let mut f = empty_fragment();
    f.abi = Some(-1);
    f.ruleset = Some(vec![fs_ruleset(&["execute"])]);
    assert_eq!(
        Config::from_fragment(&f).unwrap_err(),
        ConfigError::InvalidAbi(-1)
    );
}

#[test]
fn test_p31() {
    let mut f = empty_fragment();
    f.abi = Some(1i64 << 31);
    f.ruleset = Some(vec![fs_ruleset(&["abi.all"])]);
    assert_eq!(
        Config::from_fragment(&f).unwrap_err(),
        ConfigError::InvalidAbi(1i64 << 31)
    );
}

#[test]
fn test_i32() {
    // The largest accepted version behaves like the newest known catalog.
    let mut f = empty_fragment();
    f.abi = Some(2147483647);
    f.ruleset = Some(vec![fs_ruleset(&["abi.all"])]);
    let c = Config::from_fragment(&f).unwrap();
    assert_eq!(c.handled_fs, fs_from_all(6));
}

#[test]
fn test_v1_read_execute() {
    let rx = fs_read_execute(1);
    assert_eq!(rx, FS_EXECUTE | FS_READ_FILE | FS_READ_DIR);
    assert!(rx & FS_EXECUTE != 0);
    // Refer only exists since the second generation.
    assert!(rx & FS_REFER == 0);
}

#[test]
fn test_v2_read_execute() {
    let rx = fs_read_execute(2);
    assert!(rx & FS_EXECUTE != 0);
    assert!(rx & FS_REFER != 0);
}

#[test]
fn test_v1_read_write() {
    let rw = fs_read_write(1);
    assert_eq!(rw, fs_from_all(1) & !FS_EXECUTE);
    assert!(rw & FS_EXECUTE == 0);
    assert!(rw & FS_REFER == 0);
}

#[test]
fn test_v2_read_write() {
    let rw = fs_read_write(2);
    assert!(rw & FS_EXECUTE == 0);
    assert!(rw & FS_REFER != 0);
}

#[test]
fn test_infer_handled_access_fs() {
    // A rule alone implicitly declares its access handled.
    let mut f = empty_fragment();
    f.path_beneath = Some(vec![path_rule(&["execute"], &["a"])]);
    let c = Config::from_fragment(&f).unwrap();
    assert_eq!(c.handled_fs, FS_EXECUTE);
    assert_eq!(
        c.rules_path_beneath,
        vec![(TemplateString::from_text("a"), FS_EXECUTE)]
    );
}

#[test]
fn test_empty_ruleset() {
    let mut c1 = Config::empty();
    c1.handled_fs = FS_EXECUTE;
    let c2 = c1.clone();
    c1.compose(&c2);
    assert_eq!(c1, c2);
}

#[test]
fn test_different_ruleset() {
    let mut c1 = Config::empty();
    c1.handled_fs = FS_EXECUTE;
    let mut c2 = Config::empty();
    c2.handled_net = NET_BIND_TCP;
    c1.compose(&c2);
    assert_eq!(c1, Config::empty());
}

#[test]
fn test_compose_v1_v2_without_one_right() {
    let c1_access = fs_from_all(1);
    let mut c1 = Config::empty();
    c1.handled_fs = c1_access;
    c1.rules_path_beneath = vec![
        (TemplateString::from_text("/c1"), c1_access),
        (TemplateString::from_text("/common"), c1_access),
    ];

    let c2_access = fs_from_all(2) & !0x2; // every v2 right but write_file
    let mut c2 = Config::empty();
    c2.handled_fs = c2_access;
    c2.rules_path_beneath = vec![
        (TemplateString::from_text("/c2"), c2_access),
        (TemplateString::from_text("/common"), c2_access),
    ];

    c1.compose(&c2);
    let mut expect = Config::empty();
    expect.handled_fs = c1_access & c2_access;
    expect.rules_path_beneath = vec![
        (TemplateString::from_text("/c1"), c1_access & c2_access),
        (TemplateString::from_text("/c2"), c1_access & c2_access),
        (TemplateString::from_text("/common"), c1_access & c2_access),
    ];
    assert_eq!(c1, expect);
}

#[test]
fn test_compose_exclusive() {
    // Implicit handled sets {execute} and {read_file} share nothing, so the
    // composition enforces nothing.
    let mut fa = empty_fragment();
    fa.path_beneath = Some(vec![path_rule(&["execute"], &["a"])]);
    let mut a = Config::from_fragment(&fa).unwrap();

    let mut fb = empty_fragment();
    fb.path_beneath = Some(vec![
        path_rule(&["read_file"], &["a"]),
        path_rule(&["read_file"], &["b"]),
    ]);
    let b = Config::from_fragment(&fb).unwrap();

    a.compose(&b);
    let r = a.resolve().unwrap();
    assert_eq!(r.handled_fs, 0);
    assert_eq!(r.rules_path_beneath, vec![]);
}

#[test]
fn test_resolve_variable_rule() {
    let mut f = empty_fragment();
    f.variable = Some(vec![RawVariable {
        name: "foo".to_string(),
        literal: Some(vec!["a".to_string(), "b".to_string()]),
    }]);
    f.path_beneath = Some(vec![path_rule(&["execute"], &["${foo}"])]);
    let c = Config::from_fragment(&f).unwrap();
    let r = c.resolve().unwrap();
    assert_eq!(r.handled_fs, FS_EXECUTE);
    assert_eq!(
        r.rules_path_beneath,
        vec![("a".to_string(), FS_EXECUTE), ("b".to_string(), FS_EXECUTE)]
    );
}

#[test]
fn test_normalization_path_beneath() {
    let mut f = empty_fragment();
    f.path_beneath = Some(vec![path_rule(
        &["execute"],
        &[".", "./", "a/./b", ".//", "a/////b"],
    )]);
    let c = Config::from_fragment(&f).unwrap();
    let r = c.resolve().unwrap();
    assert_eq!(
        r.rules_path_beneath,
        vec![
            (".".to_string(), FS_EXECUTE),
            ("a/b".to_string(), FS_EXECUTE)
        ]
    );

    // ".." is deliberately left unresolved.
    assert_eq!(normalize_path("c/../c"), "c/../c");
    assert_ne!(normalize_path("c/../c"), "c");
}

#[test]
fn test_resolve_missing_variable_fails() {
    let mut f = empty_fragment();
    f.path_beneath = Some(vec![path_rule(&["execute"], &["${foo}"])]);
    let c = Config::from_fragment(&f).unwrap();
    assert!(c.resolve().is_err());
}

#[test]
fn test_template_parse_error_in_fragment() {
    let mut f = empty_fragment();
    f.path_beneath = Some(vec![path_rule(&["execute"], &["${unclosed"])]);
    match Config::from_fragment(&f).unwrap_err() {
        ConfigError::Template(e) => {
            assert_eq!(
                e.message(),
                "unclosed variable reference starting at position 0"
            );
        }
        other => panic!("unexpected error: {:?}", other),
    }
}

#[test]
fn test_aggregate_one_malformed() {
    let mut fa = empty_fragment();
    fa.ruleset = Some(vec![fs_ruleset(&["execute"])]);
    let a = Config::from_fragment(&fa).unwrap();
    let mut fb = empty_fragment();
    fb.ruleset = Some(vec![fs_ruleset(&["read_file"])]);
    let b = Config::from_fragment(&fb).unwrap();
    let outcomes = vec![
        ("a.json".to_string(), Ok(a)),
        ("bad.json".to_string(), Err("empty configuration".to_string())),
        ("b.json".to_string(), Ok(b)),
    ];
    match aggregate_outcomes(outcomes).unwrap_err() {
        AggregateError::ParseFiles(errs) => {
            assert_eq!(
                errs,
                vec![("bad.json".to_string(), "empty configuration".to_string())]
            );
        }
        AggregateError::NoConfigFile => panic!("wrong error"),
    }
}

#[test]
fn test_aggregate_no_config_file() {
    assert_eq!(
        aggregate_outcomes(vec![]).unwrap_err(),
        AggregateError::NoConfigFile
    );
}

#[test]
fn test_aggregate_composes() {
    let mut fa = empty_fragment();
    fa.ruleset = Some(vec![fs_ruleset(&["execute", "read_file"])]);
    let a = Config::from_fragment(&fa).unwrap();
    let mut fb = empty_fragment();
    fb.ruleset = Some(vec![fs_ruleset(&["execute"])]);
    let b = Config::from_fragment(&fb).unwrap();
    let outcomes = vec![("a.json".to_string(), Ok(a)), ("b.json".to_string(), Ok(b))];
    let c = aggregate_outcomes(outcomes).unwrap();
    assert_eq!(c.handled_fs, FS_EXECUTE);
}

#[test]
fn test_matches_config_file() {
    assert!(matches_config_file("policy.json", &ConfigFormat::Json));
    assert!(!matches_config_file(".hidden.json", &ConfigFormat::Json));
    assert!(!matches_config_file("policy.toml", &ConfigFormat::Json));
    assert!(matches_config_file("policy.toml", &ConfigFormat::Toml));
    assert!(!matches_config_file("json", &ConfigFormat::Json));
    assert!(!matches_config_file(".json", &ConfigFormat::Json));
}

#[test]
fn test_build_plan() {
    let mut f = empty_fragment();
    f.path_beneath = Some(vec![path_rule(&["execute"], &["a"])]);
    f.net_port = Some(vec![RawPortRule {
        allowed_access: vec!["bind_tcp".to_string()],
        port: vec![443],
    }]);
    let c = Config::from_fragment(&f).unwrap();
    let r = c.resolve().unwrap();
    let plan = r.build_plan().unwrap();
    assert_eq!(plan.handle_fs, Some(FS_EXECUTE));
    assert_eq!(plan.handle_net, Some(NET_BIND_TCP));
    assert_eq!(plan.scope, None);
    assert_eq!(plan.path_rules, vec![("a".to_string(), FS_EXECUTE)]);
    assert_eq!(plan.port_rules, vec![(443u16, NET_BIND_TCP)]);
}

#[test]
fn test_build_plan_port_out_of_range() {
    let mut f = empty_fragment();
    f.net_port = Some(vec![RawPortRule {
        allowed_access: vec!["bind_tcp".to_string()],
        port: vec![65536],
    }]);
    let c = Config::from_fragment(&f).unwrap();
    let r = c.resolve().unwrap();
    assert!(r.build_plan().is_err());
}

#[test]
fn test_variables_union_on_redeclaration() {
    let mut f = empty_fragment();
    f.variable = Some(vec![
        RawVariable {
            name: "foo".to_string(),
            literal: Some(vec!["a".to_string()]),
        },
        RawVariable {
            name: "foo".to_string(),
            literal: Some(vec!["b".to_string()]),
        },
    ]);
    f.path_beneath = Some(vec![path_rule(&["execute"], &["${foo}"])]);
    let c = Config::from_fragment(&f).unwrap();
    let r = c.resolve().unwrap();
    assert_eq!(
        r.rules_path_beneath,
        vec![("a".to_string(), FS_EXECUTE), ("b".to_string(), FS_EXECUTE)]
    );
}

#[test]
fn test_compose_shared_variable_resolves_both() {
    let mut fa = empty_fragment();
    fa.ruleset = Some(vec![fs_ruleset(&["read_file"])]);
    fa.variable = Some(vec![RawVariable {
        name: "foo".to_string(),
        literal: Some(vec!["a".to_string(), "b".to_string()]),
    }]);
    fa.path_beneath = Some(vec![path_rule(&["execute"], &["${foo}"])]);
    let mut a = Config::from_fragment(&fa).unwrap();

    let mut fb = empty_fragment();
    fb.ruleset = Some(vec![fs_ruleset(&["execute"])]);
    fb.variable = Some(vec![RawVariable {
        name: "foo".to_string(),
        literal: None,
    }]);
    fb.path_beneath = Some(vec![
        path_rule(&["read_file"], &["${foo}"]),
        path_rule(&["read_file"], &["x/${foo}"]),
    ]);
    let b = Config::from_fragment(&fb).unwrap();

    a.compose(&b);
    let r = a.resolve().unwrap();
    assert_eq!(r.handled_fs, FS_EXECUTE | FS_READ_FILE);
    assert_eq!(
        r.rules_path_beneath,
        vec![
            ("a".to_string(), FS_EXECUTE | FS_READ_FILE),
            ("b".to_string(), FS_EXECUTE | FS_READ_FILE),
            ("x/a".to_string(), FS_READ_FILE),
            ("x/b".to_string(), FS_READ_FILE),
        ]
    );
}

#[test]
fn test_compose_commutes_and_resolves_identically() {
    let mut fa = empty_fragment();
    fa.variable = Some(vec![RawVariable {
        name: "foo".to_string(),
        literal: Some(vec!["a".to_string()]),
    }]);
    fa.ruleset = Some(vec![fs_ruleset(&["read_file"])]);
    fa.path_beneath = Some(vec![path_rule(&["execute"], &["${foo}"])]);
    let a = Config::from_fragment(&fa).unwrap();

    let mut fb = empty_fragment();
    fb.ruleset = Some(vec![fs_ruleset(&["execute"])]);
    fb.path_beneath = Some(vec![path_rule(&["read_file"], &["a"])]);
    let b = Config::from_fragment(&fb).unwrap();

    let mut ab = a.clone();
    ab.compose(&b);
    let mut ba = b.clone();
    ba.compose(&a);
    assert_eq!(ab, ba);
    assert_eq!(ab.resolve().unwrap(), ba.resolve().unwrap());

    // Idempotence on each operand.
    let mut aa = a.clone();
    aa.compose(&a);
    assert_eq!(aa, a);
}

#[test]
fn test_compose_intersection_safety() {
    let mut fa = empty_fragment();
    fa.ruleset = Some(vec![fs_ruleset(&["execute", "read_file"])]);
    fa.path_beneath = Some(vec![path_rule(&["execute", "read_file"], &["a"])]);
    let mut a = Config::from_fragment(&fa).unwrap();
    let ha = a.handled_fs;

    let mut fb = empty_fragment();
    fb.ruleset = Some(vec![fs_ruleset(&["execute", "read_dir"])]);
    let b = Config::from_fragment(&fb).unwrap();
    let hb = b.handled_fs;

    a.compose(&b);
    for (_, access) in &a.rules_path_beneath {
        assert_eq!(access & ha, *access);
        assert_eq!(access & hb, *access);
    }
}

#[test]
fn test_variables_try_from_roundtrip() {
    let vars = Variables::try_from(vec![(
        "foo".to_string(),
        vec!["a".to_string(), "b".to_string()],
    )])
    .unwrap();
    let t = TemplateString::parse("${foo}").unwrap();
    assert!(vars.resolve(&t).is_ok());
}

#[test]
fn test_empty_variable_section() {
    let mut f = empty_fragment();
    f.variable = Some(vec![]);
    f.ruleset = Some(vec![fs_ruleset(&["execute"])]);
    assert_eq!(
        Config::from_fragment(&f).unwrap_err(),
        ConfigError::EmptyCollection
    );
}

#[test]
fn test_empty_ruleset_section() {
    let mut f = empty_fragment();
    f.ruleset = Some(vec![]);
    f.path_beneath = Some(vec![path_rule(&["execute"], &["a"])]);
    assert_eq!(
        Config::from_fragment(&f).unwrap_err(),
        ConfigError::EmptyCollection
    );
}

#[test]
fn test_empty_path_beneath_section() {
    let mut f = empty_fragment();
    f.path_beneath = Some(vec![]);
    f.ruleset = Some(vec![fs_ruleset(&["execute"])]);
    assert_eq!(
        Config::from_fragment(&f).unwrap_err(),
        ConfigError::EmptyCollection
    );
}

#[test]
fn test_empty_net_port_section() {
    let mut f = empty_fragment();
    f.net_port = Some(vec![]);
    f.ruleset = Some(vec![fs_ruleset(&["execute"])]);
    assert_eq!(
        Config::from_fragment(&f).unwrap_err(),
        ConfigError::EmptyCollection
    );
}

#[test]
fn test_empty_variable_literal() {
    let mut f = empty_fragment();
    f.variable = Some(vec![RawVariable {
        name: "foo".to_string(),
        literal: Some(vec![]),
    }]);
    assert_eq!(
        Config::from_fragment(&f).unwrap_err(),
        ConfigError::EmptyCollection
    );
}

#[test]
fn test_invalid_variable_name_in_fragment() {
    let mut f = empty_fragment();
    f.variable = Some(vec![RawVariable {
        name: "1foo".to_string(),
        literal: Some(vec!["x".to_string()]),
    }]);
    match Config::from_fragment(&f).unwrap_err() {
        ConfigError::Name(_) => {}
        other => panic!("unexpected error: {:?}", other),
    }
}

#[test]
fn test_handled_unions_across_statements() {
    let mut f = empty_fragment();
    f.ruleset = Some(vec![fs_ruleset(&["execute"]), fs_ruleset(&["read_file"])]);
    f.path_beneath = Some(vec![path_rule(&["read_dir"], &["a"])]);
    let c = Config::from_fragment(&f).unwrap();
    // Statement bits union across repeats, and rule access is augmented in.
    assert_eq!(c.handled_fs, FS_EXECUTE | FS_READ_FILE | FS_READ_DIR);
}

#[test]
fn test_rule_access_unions_on_duplicate_parent() {
    let mut f = empty_fragment();
    f.path_beneath = Some(vec![
        path_rule(&["execute"], &["a"]),
        path_rule(&["read_file"], &["a", "b"]),
    ]);
    let c = Config::from_fragment(&f).unwrap();
    assert_eq!(
        c.rules_path_beneath,
        vec![
            (TemplateString::from_text("a"), FS_EXECUTE | FS_READ_FILE),
            (TemplateString::from_text("b"), FS_READ_FILE),
        ]
    );
}
