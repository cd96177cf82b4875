use rustcop::suppression::{Suppression, SuppressionParser};

#[test]
fn test_file_level_suppression_comment() {
    let content = r#"// rustcop:ignore-file
use std::fs;
use std::collections::HashMap;
"#;

    let parser = SuppressionParser::parse(content);
    assert_eq!(parser.suppressions.len(), 1);
    assert!(matches!(
        parser.suppressions[0],
        Suppression::FileLevel { .. }
    ));
    assert!(parser.is_suppressed(1, "RC1001"));
    assert!(parser.is_suppressed(100, "RC9999"));
}

#[test]
fn test_file_level_suppression_attribute() {
    let content = r#"#![rustcop::ignore]
use std::fs;
"#;

    let parser = SuppressionParser::parse(content);
    assert!(matches!(
        parser.suppressions[0],
        Suppression::FileLevel { .. }
    ));
}

#[test]
fn test_line_level_suppression_all_rules() {
    let content = r#"
// rustcop:ignore
use std::fs;
use std::collections::HashMap;
"#;

    let parser = SuppressionParser::parse(content);
    assert!(parser.is_suppressed(3, "RC1001"));
    assert!(parser.is_suppressed(3, "RC9999"));
    assert!(!parser.is_suppressed(4, "RC1001"));
}

#[test]
fn test_line_level_suppression_specific_rules() {
    let content = r#"
// rustcop:ignore RC1001
use std::fs;
// rustcop:ignore RC1001, RC1002
use std::collections::HashMap;
"#;

    let parser = SuppressionParser::parse(content);
    assert!(parser.is_suppressed(3, "RC1001"));
    assert!(!parser.is_suppressed(3, "RC1002"));

    assert!(parser.is_suppressed(5, "RC1001"));
    assert!(parser.is_suppressed(5, "RC1002"));
    assert!(!parser.is_suppressed(5, "RC9999"));
}

#[test]
fn test_no_space_variant() {
    let content = r#"
//rustcop:ignore RC1001
use std::fs;
"#;

    let parser = SuppressionParser::parse(content);
    assert!(parser.is_suppressed(3, "RC1001"));
}

#[test]
fn test_no_suppressions() {
    let content = r#"
use std::fs;
use std::collections::HashMap;
"#;

    let parser = SuppressionParser::parse(content);
    assert_eq!(parser.suppressions.len(), 0);
    assert!(!parser.is_suppressed(2, "RC1001"));
}

#[test]
fn test_suppression_with_justification() {
    let content = r#"
// rustcop:ignore RC1001: This is a legacy API
use std::fs;
"#;

    let parser = SuppressionParser::parse(content);
    assert_eq!(parser.suppressions.len(), 1);
    assert!(parser.is_suppressed(3, "RC1001"));

    if let Suppression::SpecificRule { justification, .. } = &parser.suppressions[0] {
        assert_eq!(justification.as_deref(), Some("This is a legacy API"));
    } else {
        panic!("Expected SpecificRule");
    }
}

#[test]
fn test_multiple_rules_share_justification() {
    let content = r#"
// rustcop:ignore RC1001, RC1002: Performance critical section
use std::fs;
"#;

    let parser = SuppressionParser::parse(content);
    assert_eq!(parser.suppressions.len(), 2);
    assert!(parser.is_suppressed(3, "RC1001"));
    assert!(parser.is_suppressed(3, "RC1002"));

    // Both rules should share the same justification
    for suppression in &parser.suppressions {
        if let Suppression::SpecificRule { justification, .. } = suppression {
            assert_eq!(
                justification.as_deref(),
                Some("Performance critical section")
            );
        } else {
            panic!("Expected SpecificRule");
        }
    }
}

#[test]
fn test_stacked_suppressions_different_justifications() {
    let content = r#"
// rustcop:ignore RC1001: Reason one
// rustcop:ignore RC1002: Reason two  
use std::fs;
"#;

    let parser = SuppressionParser::parse(content);
    assert_eq!(parser.suppressions.len(), 2);

    // First suppression targets line 3 (line 2 + 1), second targets line 4 (line 3 + 1)
    assert!(parser.is_suppressed(3, "RC1001"));
    assert!(parser.is_suppressed(4, "RC1002"));

    // Check each has different justification
    let rc1001 = parser
        .suppressions
        .iter()
        .find(|s| matches!(s, Suppression::SpecificRule { rule, .. } if rule == "RC1001"))
        .unwrap();

    let rc1002 = parser
        .suppressions
        .iter()
        .find(|s| matches!(s, Suppression::SpecificRule { rule, .. } if rule == "RC1002"))
        .unwrap();

    if let Suppression::SpecificRule { justification, .. } = rc1001 {
        assert_eq!(justification.as_deref(), Some("Reason one"));
    }

    if let Suppression::SpecificRule { justification, .. } = rc1002 {
        assert_eq!(justification.as_deref(), Some("Reason two"));
    }
}

#[test]
fn test_get_suppressions_without_justification() {
    let content = r#"
// rustcop:ignore RC1001: With justification
// rustcop:ignore RC1002
use std::fs;
"#;

    let parser = SuppressionParser::parse(content);
    let without_justification = parser.get_suppressions_without_justification();

    assert_eq!(without_justification.len(), 1);
    if let Suppression::SpecificRule {
        rule,
        justification,
        ..
    } = without_justification[0]
    {
        assert_eq!(rule, "RC1002");
        assert!(justification.is_none());
    }
}

#[test]
fn file_marker_after_twenty_lines_is_not_file_level() {
    let mut content = String::new();
    for _ in 0..20 {
        content.push_str("\n");
    }
    content.push_str("// rustcop:ignore-file\nuse std::fs;\n");
    let parser = SuppressionParser::parse(&content);
    assert!(!matches!(parser.suppressions.first(), Some(Suppression::FileLevel { .. })));
    assert!(!parser.is_suppressed(1, "RC1001"));
}

#[test]
fn file_marker_suppresses_every_rule_on_every_line() {
    let parser = SuppressionParser::parse("fn a() {}\n    //rustcop:ignore-file\n");
    for line in [0usize, 1, 2, 50, 10_000] {
        assert!(parser.is_suppressed(line, "RC1001"));
        assert!(parser.is_suppressed(line, "anything"));
    }
    let parser = SuppressionParser::parse("#![rustcop::allow]\n");
    assert!(parser.is_suppressed(7, "RC2001"));
}

#[test]
fn comment_covers_only_the_next_line() {
    let parser = SuppressionParser::parse("let x = 1; // rustcop:ignore RC2001\nuse super::a;\n");
    assert!(parser.is_suppressed(2, "RC2001"));
    assert!(!parser.is_suppressed(1, "RC2001"));
    assert!(!parser.is_suppressed(3, "RC2001"));
    assert!(!parser.is_suppressed(2, "RC1001"));
}

#[test]
fn justification_without_rules_covers_all_rules() {
    let parser = SuppressionParser::parse("// rustcop:ignore: generated code\nuse a::b;\n");
    assert_eq!(parser.suppressions.len(), 1);
    match &parser.suppressions[0] {
        Suppression::LineLevel { line, justification } => {
            assert_eq!(*line, 2);
            assert_eq!(justification.as_deref(), Some("generated code"));
        }
        _ => panic!("Expected LineLevel"),
    }
    assert!(parser.is_suppressed(2, "RC9999"));
    assert_eq!(parser.justification_for(2, "RC1"), Some("generated code".to_string()));
    assert_eq!(parser.justification_for(3, "RC1"), None);
}

#[test]
fn empty_rule_names_are_dropped() {
    let parser = SuppressionParser::parse("// rustcop:ignore RC1, ,RC2,\nx\n");
    assert_eq!(parser.suppressions.len(), 2);
    assert!(parser.is_suppressed(2, "RC1"));
    assert!(parser.is_suppressed(2, "RC2"));
}

#[test]
fn attribute_on_a_function_suppresses_it() {
    let parser = SuppressionParser::parse("#[rustcop::ignore]\nfn my_function() { }\n");
    assert!(parser.is_suppressed(2, "RC1001"));
    assert!(!parser.is_suppressed(1, "RC1001"));
    assert!(!parser.is_suppressed(3, "RC1001"));
}

#[test]
fn attribute_naming_rules_covers_the_whole_item() {
    let content = "#[rustcop::ignore(RC1001, justification = \"Legacy API compatibility\")]\n#[rustcop::ignore(RC1002, justification = \"Required for backwards compatibility\")]\nfn f() {\n    let x = 1;\n}\nfn g() {}\n";
    let parser = SuppressionParser::parse(content);
    for line in 3..=5 {
        assert!(parser.is_suppressed(line, "RC1001"));
        assert!(parser.is_suppressed(line, "RC1002"));
        assert!(!parser.is_suppressed(line, "RC2001"));
    }
    assert!(!parser.is_suppressed(6, "RC1001"));
    assert_eq!(
        parser.justification_for(4, "RC1001").as_deref(),
        Some("Legacy API compatibility")
    );
    assert_eq!(
        parser.justification_for(4, "RC1002").as_deref(),
        Some("Required for backwards compatibility")
    );
    assert!(parser.get_suppressions_without_justification().is_empty());
}
