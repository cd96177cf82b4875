use rustcop::diagnostic::{Diagnostic, Severity};
use rustcop::report::{apply_suppressions, missing_justification_findings, run_fails, tally};
use rustcop::suppression::SuppressionParser;

fn diag(rule: &str, line: usize, sev: Severity) -> Diagnostic {
    Diagnostic {
        rule_id: rule.to_string(),
        message: "m".to_string(),
        file: "f.rs".to_string(),
        line,
        severity: sev,
        suppressed: false,
        suppression_justification: None,
    }
}

#[test]
fn suppressed_findings_take_the_justification() {
    let parser = SuppressionParser::parse("\n// rustcop:ignore RC2001: legacy\nuse super::a;\n");
    let diags = vec![diag("RC2001", 3, Severity::Error), diag("RC2001", 4, Severity::Error)];
    let marked = apply_suppressions(&parser, diags);
    assert!(marked[0].suppressed);
    assert_eq!(marked[0].suppression_justification.as_deref(), Some("legacy"));
    assert!(!marked[1].suppressed);
    assert_eq!(tally(&marked), (1, 1, 0));
}

#[test]
fn failing_runs() {
    assert!(run_fails(false, 1, 0, false));
    assert!(run_fails(false, 0, 3, false));
    assert!(!run_fails(false, 0, 0, true));
    assert!(run_fails(true, 1, 0, false));
    assert!(!run_fails(true, 0, 3, false));
    assert!(run_fails(true, 0, 3, true));
    assert!(!run_fails(true, 0, 0, true));
    let diags = vec![diag("A", 1, Severity::Warning), diag("B", 2, Severity::Error)];
    assert_eq!(tally(&diags), (2, 1, 1));
}

#[test]
fn directives_without_justification_are_reported() {
    let parser = SuppressionParser::parse("// rustcop:ignore RC1001\nx\n// rustcop:ignore\ny\n// rustcop:ignore RC1: ok\nz\n");
    let found = missing_justification_findings(&parser, "f.rs");
    let msgs: Vec<&str> = found.iter().map(|d| d.message.as_str()).collect();
    assert_eq!(
        msgs,
        vec![
            "Suppression missing justification: suppression for rule RC1001 on line 2",
            "Suppression missing justification: suppression on line 4",
        ]
    );
    assert_eq!(found[0].line, 1);
    assert_eq!(found[1].line, 3);
    assert!(found.iter().all(|d| d.rule_id == "RC9002" && d.severity == Severity::Error));
    let parser = SuppressionParser::parse("// rustcop:ignore-file\n");
    let found = missing_justification_findings(&parser, "f.rs");
    assert_eq!(found.len(), 0);
}

#[test]
fn unjustified_item_attribute_is_reported_on_its_line() {
    let parser = SuppressionParser::parse("#[rustcop::ignore]\nfn f() {\n}\n");
    let found = missing_justification_findings(&parser, "f.rs");
    assert_eq!(found.len(), 1);
    assert_eq!(found[0].line, 1);
    assert_eq!(
        found[0].message,
        "Suppression missing justification: suppression on lines 2 to 3"
    );
}

#[test]
fn numbers_are_written_in_decimal() {
    assert_eq!(rustcop::text::int_text(-42), "-42");
    assert_eq!(rustcop::text::int_text(i64::MIN), "-9223372036854775808");
    assert_eq!(rustcop::text::int_text(1907), "1907");
    assert_eq!(rustcop::text::count_text(0), "0");
    assert_eq!(rustcop::text::count_text(usize::MAX), usize::MAX.to_string());
}
