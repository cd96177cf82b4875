use rustcop::config::{
    parse_document, Config, ConfigError, ImportsConfig, LintConfig, ModulesConfig, Override,
    TomlValue,
};

fn text<'a>(v: Option<&'a TomlValue>) -> Option<&'a str> {
    match v {
        Some(TomlValue::String(s)) => Some(s.as_str()),
        _ => None,
    }
}

fn boolean(v: Option<&TomlValue>) -> Option<bool> {
    match v {
        Some(TomlValue::Boolean(b)) => Some(*b),
        _ => None,
    }
}

fn config_of(toml_str: &str) -> Config {
    Config {
        raw: parse_document(toml_str).unwrap(),
        config_dir: None,
    }
}

#[test]
fn test_get_nested_config() {
    let toml_str = r#"
            [lints.disallow_super_imports]
            severity = "error"
            
            [lints.another_rule]
            severity = "warning"
        "#;

    let config = config_of(toml_str);

    let lint = config.get_nested(&["lints", "disallow_super_imports"]).unwrap();
    assert_eq!(text(rustcop::config::get_exec(lint, "severity")), Some("error"));

    let lint2 = config.get_nested(&["lints", "another_rule"]).unwrap();
    assert_eq!(text(rustcop::config::get_exec(lint2, "severity")), Some("warning"));

    // Non-existent lint falls back to the default
    assert!(config.get_nested(&["lints", "nonexistent"]).is_none());
    assert_eq!(LintConfig::default().severity, "none");
}

#[test]
fn test_merge_tables() {
    let base_toml = r#"
            [imports]
            group_imports = true
            import_granularity = "crate"
            
            [lints.rule1]
            severity = "warning"
        "#;

    let override_toml = r#"
            [imports]
            group_imports = false
            
            [lints.rule1]
            message = "Custom"
            
            [lints.rule2]
            severity = "error"
        "#;

    let mut base = parse_document(base_toml).unwrap();
    let override_val = parse_document(override_toml).unwrap();

    Config::merge_tables(&mut base, &override_val);

    let config = Config {
        raw: base,
        config_dir: None,
    };

    // Scalar should be replaced
    let imports = config.get_section("imports").unwrap();
    assert_eq!(boolean(rustcop::config::get_exec(imports, "group_imports")), Some(false));
    // But unspecified values should remain
    assert_eq!(text(rustcop::config::get_exec(imports, "import_granularity")), Some("crate"));

    // Tables should be merged recursively
    let rule1 = config.get_nested(&["lints", "rule1"]).unwrap();
    assert_eq!(text(rustcop::config::get_exec(rule1, "severity")), Some("warning")); // Original value preserved
    assert_eq!(text(rustcop::config::get_exec(rule1, "message")), Some("Custom"));

    let rule2 = config.get_nested(&["lints", "rule2"]).unwrap();
    assert_eq!(text(rustcop::config::get_exec(rule2, "severity")), Some("error")); // New value added
}

#[test]
fn test_version_validation() {
    let valid_toml = r#"
            version = 1
            [imports]
            group_imports = true
        "#;

    let raw = parse_document(valid_toml).unwrap();
    assert!(Config::validate_version(&raw).is_ok());

    let invalid_toml = r#"
            version = 2
            [imports]
            group_imports = true
        "#;

    let raw = parse_document(invalid_toml).unwrap();
    assert!(Config::validate_version(&raw).is_err());

    // Missing version should produce warning but not error
    let no_version_toml = r#"
            [imports]
            group_imports = true
        "#;

    let raw = parse_document(no_version_toml).unwrap();
    assert!(Config::validate_version(&raw).is_ok());
}

#[test]
fn test_override_matching() {
    let override_config = Override {
        files: vec!["tests/**/*.rs".to_string(), "**/*_test.rs".to_string()],
        exclude: vec!["tests/ignored/**".to_string()],
        config: TomlValue::Table(Vec::new()),
    };

    // Should match files in tests/
    assert!(Config::matches_override(&override_config, "tests/foo.rs").unwrap());

    assert!(Config::matches_override(&override_config, "tests/subdir/bar.rs").unwrap());

    // Should match *_test.rs anywhere
    assert!(Config::matches_override(&override_config, "src/my_test.rs").unwrap());

    // Should not match excluded paths
    assert!(!Config::matches_override(&override_config, "tests/ignored/foo.rs").unwrap());

    // Should not match non-matching paths
    assert!(!Config::matches_override(&override_config, "src/main.rs").unwrap());
}

#[test]
fn test_get_config_missing_section() {
    let config = Config::empty();

    // Should return default when section doesn't exist
    assert!(config.get_section("imports").is_none());
    let imports = ImportsConfig::default();
    assert_eq!(imports.import_granularity, "crate");
}

#[test]
fn defaults_of_sections() {
    let imports = ImportsConfig::default();
    assert!(imports.group_imports);
    assert_eq!(imports.import_merge_behaviour, "always");
    assert_eq!(imports.preferred_import_order, vec!["std", "extern_crate", "crate", "self", "super"]);
    assert_eq!(imports.allowed_import_prefixes, vec!["std", "extern_crate", "crate", "self"]);
    let modules = ModulesConfig::default();
    assert_eq!(modules.severity, "none");
    assert!(modules.allowed_lib_exports.is_empty());
}

#[test]
fn version_errors_have_their_messages() {
    let raw = parse_document("version = 7").unwrap();
    let err = Config::validate_version(&raw).unwrap_err();
    assert!(matches!(err, ConfigError::UnsupportedVersion { version: 7 }));
    assert_eq!(
        err.message(),
        "Unsupported config version: 7. Only version 1 is supported."
    );
    let raw = parse_document("version = -12").unwrap();
    assert_eq!(
        Config::validate_version(&raw).unwrap_err().message(),
        "Unsupported config version: -12. Only version 1 is supported."
    );
    let raw = parse_document("version = \"1\"").unwrap();
    assert_eq!(
        Config::validate_version(&raw).unwrap_err().message(),
        "Invalid version field: must be an integer"
    );
}

#[test]
fn text_that_is_not_toml_is_a_parse_error() {
    assert!(matches!(
        Config::from_text("[imports", None),
        Err(ConfigError::Parse { .. })
    ));
    let c = Config::from_text("version = 1\ntreat_warnings_as_errors = true\n", Some("dir".to_string())).unwrap();
    assert!(c.treat_warnings_as_errors());
    assert!(c.require_suppression_justification());
    assert_eq!(c.config_dir.as_deref(), Some("dir"));
}

#[test]
fn switches_default_when_unset() {
    let c = Config::empty();
    assert!(!c.treat_warnings_as_errors());
    assert!(c.require_suppression_justification());
    let c = config_of("require_suppression_justification = false\ntreat_warnings_as_errors = \"yes\"\n");
    assert!(!c.require_suppression_justification());
    assert!(!c.treat_warnings_as_errors());
}

#[test]
fn arrays_are_replaced_not_appended() {
    let mut base = parse_document("list = [1, 2]\nkeep = 3\n").unwrap();
    let over = parse_document("list = [9]\n").unwrap();
    Config::merge_tables(&mut base, &over);
    let c = Config { raw: base, config_dir: None };
    match c.get_section("list") {
        Some(TomlValue::Array(a)) => {
            assert_eq!(a.len(), 1);
            assert!(matches!(a[0], TomlValue::Integer(9)));
        }
        _ => panic!("expected an array"),
    }
    assert!(matches!(c.get_section("keep"), Some(TomlValue::Integer(3))));
}

#[test]
fn layers_merge_outermost_first() {
    let outer = parse_document("[imports]\ngroup_imports = true\nsort = true\n").unwrap();
    let inner = parse_document("[imports]\ngroup_imports = false\n").unwrap();
    let c = Config::from_layers(&[outer, inner], Some("root".to_string()));
    let imports = c.get_section("imports").unwrap();
    assert_eq!(boolean(rustcop::config::get_exec(imports, "group_imports")), Some(false));
    assert_eq!(boolean(rustcop::config::get_exec(imports, "sort")), Some(true));
    assert!(Config::is_root(&parse_document("root = true").unwrap()));
    assert!(!Config::is_root(&parse_document("root = 1").unwrap()));
}

#[test]
fn overrides_apply_to_matching_files() {
    let text_cfg = r#"
        [lints.disallow_super_imports]
        severity = "error"

        [[overrides]]
        files = ["tests/**/*.rs"]
        [overrides.lints.disallow_super_imports]
        severity = "none"
    "#;
    let mut c = Config { raw: parse_document(text_cfg).unwrap(), config_dir: Some("/work".to_string()) };
    c.apply_overrides_for_file("/work/tests/a.rs").unwrap();
    let lint = c.get_nested(&["lints", "disallow_super_imports"]).unwrap();
    assert_eq!(text(rustcop::config::get_exec(lint, "severity")), Some("none"));

    let mut c = Config { raw: parse_document(text_cfg).unwrap(), config_dir: Some("/work".to_string()) };
    c.apply_overrides_for_file("/work/src/a.rs").unwrap();
    let lint = c.get_nested(&["lints", "disallow_super_imports"]).unwrap();
    assert_eq!(text(rustcop::config::get_exec(lint, "severity")), Some("error"));

    let mut c = Config { raw: parse_document(text_cfg).unwrap(), config_dir: None };
    assert!(matches!(c.apply_overrides_for_file("/work/src/a.rs"), Err(ConfigError::MissingConfigDir)));
}

#[test]
fn invalid_pattern_is_a_glob_error() {
    let bad = Override {
        files: vec!["a[".to_string()],
        exclude: Vec::new(),
        config: TomlValue::Table(Vec::new()),
    };
    let err = Config::matches_override(&bad, "a.rs").unwrap_err();
    assert!(matches!(err, ConfigError::Glob { .. }));
    assert!(!err.message().is_empty());
    let none = Override {
        files: Vec::new(),
        exclude: Vec::new(),
        config: TomlValue::Table(Vec::new()),
    };
    assert!(!Config::matches_override(&none, "a.rs").unwrap());
}

#[test]
fn exclude_patterns_are_read_too() {
    let bad_exclude = Override {
        files: Vec::new(),
        exclude: vec!["a[".to_string()],
        config: TomlValue::Table(Vec::new()),
    };
    assert!(matches!(
        Config::matches_override(&bad_exclude, "a.rs"),
        Err(ConfigError::Glob { .. })
    ));
    let only_exclude = Override {
        files: Vec::new(),
        exclude: vec!["*.md".to_string()],
        config: TomlValue::Table(Vec::new()),
    };
    assert!(!Config::matches_override(&only_exclude, "a.rs").unwrap());
}
