use rustcop::config::ModulesConfig;
use rustcop::diagnostic::Severity;
use rustcop::rules::modules::ModulesRule;
use rustcop::rules::Rule;

#[test]
fn test_sorts_module_declarations() {
    let input = "use std::path::PathBuf;\npub mod suppression;\npub mod config;\npub mod rules;\npub use rustcop_macros::*;\n";

    let rule = ModulesRule {
        enabled: true,
        severity: Severity::Error,
        preferred_module_order: vec!["local".to_string(), "crate".to_string()],
    };

    let fixed = rule.fix(input);
    let expected = "use std::path::PathBuf;\n\npub mod config;\npub mod rules;\npub mod suppression;\n\npub use rustcop_macros::*;\n";
    assert_eq!(fixed, expected);
}

#[test]
fn test_pub_use_is_own_sorted_group() {
    let input = "pub use zed::Thing;\nuse std::fmt;\npub mod config;\npub use alpha::Thing;\n";

    let rule = ModulesRule {
        enabled: true,
        severity: Severity::Error,
        preferred_module_order: vec!["local".to_string(), "crate".to_string()],
    };

    let fixed = rule.fix(input);
    let expected = "use std::fmt;\n\npub mod config;\n\npub use alpha::Thing;\npub use zed::Thing;\n";
    assert_eq!(fixed, expected);
}

#[test]
fn test_use_group_order_is_preserved() {
    let input = "use std::fmt;\nuse clap::Parser;\nuse config::Config;\npub mod config;\npub use zed::Thing;\npub use alpha::Thing;\n";

    let rule = ModulesRule {
        enabled: true,
        severity: Severity::Error,
        preferred_module_order: vec!["local".to_string(), "crate".to_string()],
    };

    let fixed = rule.fix(input);
    let expected = "use std::fmt;\nuse clap::Parser;\nuse config::Config;\n\npub mod config;\n\npub use alpha::Thing;\npub use zed::Thing;\n";
    assert_eq!(fixed, expected);
}

fn enabled_rule() -> ModulesRule {
    ModulesRule {
        enabled: true,
        severity: Severity::Warning,
        preferred_module_order: vec!["local".to_string(), "crate".to_string(), "in_crate".to_string()],
    }
}

#[test]
fn sorted_file_is_unchanged_and_not_reported() {
    let rule = enabled_rule();
    let input = "use std::fmt;\n\npub mod a;\npub mod b;\n";
    assert_eq!(rule.fix(input), input);
    assert!(rule.check(input, "src/lib.rs").is_empty());
}

#[test]
fn unsorted_lib_is_reported_on_line_one() {
    let rule = enabled_rule();
    let input = "pub mod b;\npub mod a;\n";
    let diags = rule.check(input, "src/lib.rs");
    assert_eq!(diags.len(), 1);
    assert_eq!(diags[0].rule_id, "RC3001");
    assert_eq!(diags[0].line, 1);
    assert_eq!(diags[0].severity, Severity::Warning);
    assert_eq!(
        diags[0].message,
        "Module declarations are not sorted according to configured module order"
    );
    assert!(rule.check(input, "src/main.rs").is_empty());
    assert_eq!(rule.fix(input), "pub mod a;\npub mod b;\n");
}

#[test]
fn categories_follow_the_preferred_order() {
    let rule = enabled_rule();
    let input = "pub(super) mod v;\npub(in crate::x) mod w;\npub(crate) mod y;\npub mod z;\n";
    assert_eq!(
        rule.fix(input),
        "pub mod z;\npub(crate) mod y;\npub(in crate::x) mod w;\npub(super) mod v;\n"
    );
    let sorted = "pub mod z;\npub(crate) mod y;\npub(in crate::x) mod w;\npub(super) mod v;\n";
    assert_eq!(rule.fix(sorted), sorted);
    let two = ModulesRule {
        enabled: true,
        severity: Severity::Error,
        preferred_module_order: vec!["local".to_string(), "crate".to_string()],
    };
    assert_eq!(two.fix("pub(crate) mod b;\npub mod a;\n"), "pub mod a;\npub(crate) mod b;\n");
}

#[test]
fn disabled_rule_does_nothing() {
    let mut rule = enabled_rule();
    rule.enabled = false;
    let input = "pub mod b;\npub mod a;\n";
    assert_eq!(rule.fix(input), input);
    assert!(rule.check(input, "lib.rs").is_empty());
}

#[test]
fn attached_comments_move_with_their_declaration() {
    let rule = enabled_rule();
    let input = "// about b\npub mod b;\npub mod a;\n\nfn f() {}\n";
    assert_eq!(rule.fix(input), "pub mod a;\n// about b\npub mod b;\n\nfn f() {}\n");
}

#[test]
fn from_config_reads_the_section() {
    let rule = ModulesRule::from_config(&ModulesConfig::default());
    assert!(!rule.enabled);
    let mut cfg = ModulesConfig::default();
    cfg.severity = "error".to_string();
    let rule = ModulesRule::from_config(&cfg);
    assert!(rule.enabled);
    assert_eq!(rule.severity, Severity::Error);
    assert_eq!(rule.preferred_module_order, vec!["local", "crate", "super", "in_crate"]);
}
