use rustcop::config::LintConfig;
use rustcop::diagnostic::Severity;
use rustcop::rules::super_imports::DisallowSuperImportsRule;
use rustcop::rules::Rule;

#[test]
fn test_detects_super_import() {
    let content = "use super::foo;\n";
    let rule = DisallowSuperImportsRule { enabled: true };
    let diags = rule.check(content, "test.rs");
    assert_eq!(diags.len(), 1);
    assert_eq!(diags[0].rule_id, "RC2001");
}

#[test]
fn test_detects_pub_super_import() {
    let content = "pub use super::bar;\n";
    let rule = DisallowSuperImportsRule { enabled: true };
    let diags = rule.check(content, "test.rs");
    assert_eq!(diags.len(), 1);
}

#[test]
fn test_allows_other_imports() {
    let content = "use std::fs;\nuse crate::foo;\n";
    let rule = DisallowSuperImportsRule { enabled: true };
    let diags = rule.check(content, "test.rs");
    assert_eq!(diags.len(), 0);
}

#[test]
fn test_disabled_when_severity_none() {
    let content = "use super::foo;\n";
    let rule = DisallowSuperImportsRule { enabled: false };
    let diags = rule.check(content, "test.rs");
    assert_eq!(diags.len(), 0);
}

#[test]
fn each_super_import_line_is_reported() {
    let rule = DisallowSuperImportsRule { enabled: true };
    let content = "use std::fs;\n    use super::a;\nfn f() {}\npub use super::b;\n";
    let diags = rule.check(content, "x.rs");
    assert_eq!(diags.len(), 2);
    assert_eq!(diags[0].line, 2);
    assert_eq!(diags[1].line, 4);
    assert_eq!(diags[0].severity, Severity::Error);
    assert_eq!(diags[0].message, "Use of `super::` imports is disallowed");
    assert_eq!(diags[1].file, "x.rs");
    assert_eq!(rule.fix(content), content);
}

#[test]
fn severity_none_disables() {
    let rule = DisallowSuperImportsRule::from_config(&LintConfig::default());
    assert!(!rule.enabled);
    let rule = DisallowSuperImportsRule::from_config(&LintConfig { severity: "error".to_string() });
    assert!(rule.enabled);
}

#[test]
fn super_imports_with_any_visibility_are_reported() {
    let rule = DisallowSuperImportsRule { enabled: true };
    assert_eq!(rule.check("pub(crate) use super::foo;\n", "test.rs").len(), 1);
    assert_eq!(rule.check("pub(in crate::a) use super::x;\n", "test.rs").len(), 1);
    assert_eq!(rule.check("pub  use super::y;\n", "test.rs").len(), 1);
    assert!(rule.check("pub(crate) use crate::supervisor;\n", "test.rs").is_empty());
}
