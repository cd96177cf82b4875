use rustcop::config::ExportsConfig;
use rustcop::diagnostic::Severity;
use rustcop::rules::exports::ExportsRule;
use rustcop::rules::Rule;

#[test]
fn test_reports_disallowed_pub_mod_exports() {
    let content = "pub mod config;\npub mod secret;\n";

    let rule = ExportsRule {
        enabled: true,
        severity: Severity::Error,
        allowed_lib_exports: ["config".to_string()].into_iter().collect(),
    };

    let diags = rule.check(content, "lib.rs");
    assert_eq!(diags.len(), 1);
    assert!(diags[0].message.contains("secret"));
}

#[test]
fn test_reports_disallowed_pub_use_reexports() {
    let content = "pub use config::Config;\npub use secret::Hidden;\npub use crate::{config, secret as alias};\n";

    let rule = ExportsRule {
        enabled: true,
        severity: Severity::Error,
        allowed_lib_exports: ["config".to_string()].into_iter().collect(),
    };

    let diags = rule.check(content, "lib.rs");
    assert!(diags.iter().any(|d| d.message.contains("secret")));
}

#[test]
fn test_empty_allowlist_is_unconstrained() {
    let content = "pub mod secret;\npub use secret::Hidden;\n";

    let rule = ExportsRule {
        enabled: true,
        severity: Severity::Error,
        allowed_lib_exports: Vec::new(),
    };

    let diags = rule.check(content, "lib.rs");
    assert!(diags.is_empty());
}

#[test]
fn test_non_lib_file_is_ignored() {
    let content = "pub mod secret;\n";
    let rule = ExportsRule {
        enabled: true,
        severity: Severity::Error,
        allowed_lib_exports: ["config".to_string()].into_iter().collect(),
    };

    let diags = rule.check(content, "main.rs");
    assert!(diags.is_empty());
}

#[test]
fn findings_carry_line_message_and_severity() {
    let rule = ExportsRule {
        enabled: true,
        severity: Severity::Warning,
        allowed_lib_exports: vec!["config".to_string()],
    };
    let content = "pub mod config;\n\npub use crate::{secret, other::Thing};\npub use std::*;\n";
    let diags = rule.check(content, "src/lib.rs");
    let msgs: Vec<&str> = diags.iter().map(|d| d.message.as_str()).collect();
    assert_eq!(
        msgs,
        vec![
            "Module `secret` is re-exported from lib.rs but is not in exports.allowed_lib_exports",
            "Module `other` is re-exported from lib.rs but is not in exports.allowed_lib_exports",
            "Module `std` is re-exported from lib.rs but is not in exports.allowed_lib_exports",
        ]
    );
    assert_eq!(diags[0].line, 3);
    assert_eq!(diags[2].line, 4);
    assert!(diags.iter().all(|d| d.severity == Severity::Warning && d.rule_id == "RC3002"));
}

#[test]
fn module_export_message() {
    let rule = ExportsRule {
        enabled: true,
        severity: Severity::Error,
        allowed_lib_exports: vec!["config".to_string()],
    };
    let diags = rule.check("pub mod secret;\n", "lib.rs");
    assert_eq!(
        diags[0].message,
        "Module `secret` is exported from lib.rs but is not in exports.allowed_lib_exports"
    );
    assert_eq!(diags[0].line, 1);
}

#[test]
fn fix_leaves_content_alone() {
    let rule = ExportsRule {
        enabled: true,
        severity: Severity::Error,
        allowed_lib_exports: vec!["config".to_string()],
    };
    assert_eq!(rule.fix("pub mod secret;\n"), "pub mod secret;\n");
}

#[test]
fn from_config_maps_severity() {
    let rule = ExportsRule::from_config(&ExportsConfig::default());
    assert!(!rule.enabled);
    let cfg = ExportsConfig {
        severity: "warning".to_string(),
        allowed_lib_exports: vec!["a".to_string()],
    };
    let rule = ExportsRule::from_config(&cfg);
    assert!(rule.enabled);
    assert_eq!(rule.severity, Severity::Warning);
    assert_eq!(rule.allowed_lib_exports, vec!["a".to_string()]);
}
