use rustcop::diagnostic::{Diagnostic, Severity};
use rustcop::output::{sarif_log, severity_level, unique_rules, OutputFormat};

#[test]
fn test_format_detection() {
    assert_eq!(
        OutputFormat::from_path("output.sarif"),
        Some(OutputFormat::Sarif)
    );
    assert_eq!(
        OutputFormat::from_path("output.json"),
        Some(OutputFormat::Json)
    );
    assert_eq!(OutputFormat::from_path("output.txt"), None);
}

#[test]
fn extension_case_is_ignored() {
    assert_eq!(OutputFormat::for_extension("SARIF"), Some(OutputFormat::Sarif));
    assert_eq!(OutputFormat::for_extension("Json"), Some(OutputFormat::Json));
    assert_eq!(OutputFormat::for_extension("xml"), None);
    assert_eq!(OutputFormat::from_path("reports/out.SARIF"), Some(OutputFormat::Sarif));
    assert_eq!(OutputFormat::from_path("no_extension"), None);
}

fn diag(rule: &str, message: &str, sev: Severity) -> Diagnostic {
    Diagnostic {
        rule_id: rule.to_string(),
        message: message.to_string(),
        file: "test.rs".to_string(),
        line: 1,
        severity: sev,
        suppressed: false,
        suppression_justification: None,
    }
}

#[test]
fn rules_listed_once_in_first_order() {
    let diags = vec![
        diag("RC2001", "first", Severity::Error),
        diag("RC1001", "second", Severity::Warning),
        diag("RC2001", "third", Severity::Error),
    ];
    let rules = unique_rules(&diags);
    assert_eq!(
        rules,
        vec![
            ("RC2001".to_string(), "first".to_string()),
            ("RC1001".to_string(), "second".to_string()),
        ]
    );
    assert!(unique_rules(&[]).is_empty());
}

#[test]
fn levels_name_severities() {
    assert_eq!(severity_level(Severity::Error), "error");
    assert_eq!(severity_level(Severity::Warning), "warning");
}

#[test]
fn dotfiles_have_no_extension() {
    assert_eq!(OutputFormat::from_path("reports/.json"), None);
    assert_eq!(OutputFormat::from_path("reports/a.b.json"), Some(OutputFormat::Json));
    assert_eq!(OutputFormat::from_path("out.sarif/."), Some(OutputFormat::Sarif));
}

#[test]
fn sarif_log_has_one_result_per_finding() {
    let mut suppressed = diag("RC1002", "Suppressed diagnostic", Severity::Warning);
    suppressed.suppressed = true;
    suppressed.suppression_justification = Some("Performance optimization".to_string());
    let diags = vec![diag("RC1001", "Normal diagnostic", Severity::Error), suppressed];
    let log = sarif_log(&diags, "0.1.0");
    assert_eq!(log.version, "2.1.0");
    assert_eq!(log.tool_name, "rustcop");
    assert_eq!(log.tool_version, "0.1.0");
    assert_eq!(log.rules.len(), 2);
    assert_eq!(log.results.len(), 2);
    assert_eq!(log.results[0].level, "error");
    assert!(log.results[0].suppression.is_none());
    assert_eq!(log.results[1].level, "warning");
    let sup = log.results[1].suppression.as_ref().unwrap();
    assert_eq!(sup.kind, "inSource");
    assert_eq!(sup.justification.as_deref(), Some("Performance optimization"));
}
