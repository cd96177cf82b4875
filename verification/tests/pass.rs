use rustcop::diagnostic::Severity;
use rustcop::pass::{process_file, RuleSet};
use rustcop::rules::imports::ImportFormattingRule;
use rustcop::rules::modules::ModulesRule;
use rustcop::rules::super_imports::DisallowSuperImportsRule;
use rustcop::suppression::SuppressionParser;

fn all_rules() -> RuleSet {
    RuleSet {
        imports: ImportFormattingRule::new(true, true, true),
        modules: ModulesRule {
            enabled: true,
            severity: Severity::Warning,
            preferred_module_order: vec!["local".to_string(), "crate".to_string()],
        },
        super_imports: DisallowSuperImportsRule { enabled: true },
    }
}

#[test]
fn fixing_pass_rewrites_imports() {
    let rules = all_rules();
    let input = "use std::io;\nuse std::fmt;\n";
    let parser = SuppressionParser::parse(input);
    let report = process_file(&rules, &parser, input, "src/main.rs", true, true);
    assert_eq!(report.findings.len(), 1);
    assert_eq!(report.findings[0].rule_id, "RC1001");
    assert_eq!(report.findings[0].line, 1);
    assert!(!report.findings[0].suppressed);
    assert_eq!(report.fixed, vec![true]);
    assert!(report.changed);
    assert_eq!(report.content, "use std::{fmt, io};\n");
    assert!(report.unjustified.is_empty());
    assert!(!report.lib_file);
}

#[test]
fn checking_pass_changes_nothing() {
    let rules = all_rules();
    let input = "use std::io;\nuse std::fmt;\nuse super::x;\n";
    let parser = SuppressionParser::parse(input);
    let report = process_file(&rules, &parser, input, "src/main.rs", false, true);
    assert_eq!(report.content, input);
    assert!(!report.changed);
    assert!(report.fixed.iter().all(|f| !f));
    let ids: Vec<&str> = report.findings.iter().map(|d| d.rule_id.as_str()).collect();
    assert_eq!(ids, vec!["RC1001", "RC2001"]);
    assert_eq!(report.findings[1].line, 3);
    assert_eq!(report.findings[1].severity, Severity::Error);
}

#[test]
fn module_rule_works_on_the_text_the_import_rule_left() {
    let rules = all_rules();
    let input = "pub mod b;\npub mod a;\n";
    let parser = SuppressionParser::parse(input);
    let report = process_file(&rules, &parser, input, "src/lib.rs", true, true);
    assert!(report.lib_file);
    assert_eq!(report.findings.len(), 1);
    assert_eq!(report.findings[0].rule_id, "RC3001");
    assert_eq!(report.fixed, vec![true]);
    assert_eq!(report.content, "pub mod a;\npub mod b;\n");
    assert!(report.changed);
}

#[test]
fn file_marker_blocks_every_fix() {
    let rules = all_rules();
    let input = "// rustcop:ignore-file\nuse std::io;\nuse std::fmt;\n";
    let parser = SuppressionParser::parse(input);
    let report = process_file(&rules, &parser, input, "src/main.rs", true, false);
    assert!(!report.findings.is_empty());
    assert!(report.findings.iter().all(|d| d.suppressed));
    assert!(report.fixed.iter().all(|f| !f));
    assert!(!report.changed);
    assert_eq!(report.content, input);
}

#[test]
fn suppressed_findings_keep_their_justification() {
    let rules = all_rules();
    let input = "// rustcop:ignore RC2001: shared helpers\nuse super::x;\n";
    let parser = SuppressionParser::parse(input);
    let report = process_file(&rules, &parser, input, "src/main.rs", true, true);
    let super_finding = report
        .findings
        .iter()
        .find(|d| d.rule_id == "RC2001")
        .expect("super import reported");
    assert_eq!(super_finding.line, 2);
    assert!(super_finding.suppressed);
    assert_eq!(super_finding.suppression_justification.as_deref(), Some("shared helpers"));
    assert!(report.unjustified.is_empty());
}

#[test]
fn unjustified_directives_are_reported_when_required() {
    let rules = all_rules();
    let input = "// rustcop:ignore\nfn a() {}\n";
    let parser = SuppressionParser::parse(input);
    let required = process_file(&rules, &parser, input, "src/main.rs", false, true);
    assert_eq!(required.unjustified.len(), 1);
    assert_eq!(required.unjustified[0].rule_id, "RC9002");
    assert_eq!(required.unjustified[0].line, 1);
    assert_eq!(
        required.unjustified[0].message,
        "Suppression missing justification: suppression on line 2"
    );
    let optional = process_file(&rules, &parser, input, "src/main.rs", false, false);
    assert!(optional.unjustified.is_empty());
}
