use rustcop::config::ImportsConfig;
use rustcop::diagnostic::Severity;
use rustcop::rules::imports::{cmp_use_nodes, ImportFormattingRule};
use rustcop::syntax::UseNode;
use rustcop::rules::Rule;

#[test]
fn test_bad_format_to_good_format() {
    let input = r#"use criterion::{Criterion, criterion_group, criterion_main};
use documentdb_gateway_core::{
    configuration::{CertInputType, CertificateOptions, DocumentDBSetupConfiguration},
    postgres::{ conn_mgmt::{ run_request_with_retries, Connection, ConnectionPool, ConnectionSource, PgPoolSettings, QueryOptions, RequestOptions, }, ScopedTransaction, },
    requests::request_tracker::RequestTracker,
};"#;

    let expected = r#"use criterion::{criterion_group, criterion_main, Criterion};
use documentdb_gateway_core::{
    configuration::{CertInputType, CertificateOptions, DocumentDBSetupConfiguration},
    postgres::{
        conn_mgmt::{
            run_request_with_retries, Connection, ConnectionPool, ConnectionSource, PgPoolSettings,
            QueryOptions, RequestOptions,
        },
        ScopedTransaction,
    },
    requests::request_tracker::RequestTracker,
};"#;

    let rule = ImportFormattingRule::new(true, true, true);
    let result = rule.format_imports(input);
    assert_eq!(result.trim(), expected.trim(), "\n\nGot:\n{result}");
}

#[test]
fn test_simple_single_line() {
    let input = "use std::collections::HashMap;\n";
    let rule = ImportFormattingRule::new(true, true, true);
    let result = rule.format_imports(input);
    assert_eq!(result, input);
}

#[test]
fn test_sorting_within_braces() {
    let input = "use std::{fmt, collections::HashMap, io};\n";
    let expected = "use std::{collections::HashMap, fmt, io};\n";
    let rule = ImportFormattingRule::new(true, true, true);
    let result = rule.format_imports(input);
    assert_eq!(result, expected);
}

#[test]
fn test_grouping() {
    let input = "use crate::foo;\nuse std::io;\nuse serde::Serialize;\n";
    let expected = "use std::io;\n\nuse serde::Serialize;\n\nuse crate::foo;\n";
    let rule = ImportFormattingRule::new(true, true, true);
    let result = rule.format_imports(input);
    assert_eq!(result, expected);
}

#[test]
fn test_merge_same_root() {
    let input = "use std::io;\nuse std::fmt;\n";
    let expected = "use std::{fmt, io};\n";
    let rule = ImportFormattingRule::new(true, true, true);
    let result = rule.format_imports(input);
    assert_eq!(result, expected);
}

#[test]
fn test_pub_visibility() {
    let input = "pub use serde::{Deserialize, Serialize};\n";
    let rule = ImportFormattingRule::new(true, true, true);
    let result = rule.format_imports(input);
    assert_eq!(result, input);
}

#[test]
fn test_attribute_attached_import_left_alone() {
    let input = "#[cfg(feature = \"io_uring\")]\nuse std::path::PathBuf;\nuse std::collections::HashMap;\n";

    let expected = "use std::collections::HashMap;\n#[cfg(feature = \"io_uring\")]\nuse std::path::PathBuf;\n";

    let rule = ImportFormattingRule::new(true, true, true);
    let result = rule.format_imports(input);
    assert_eq!(result, expected);
}

#[test]
fn test_tagged_import_stays_with_group_not_merged() {
    let input = "use serde::Deserialize;\n#[cfg(feature = \"io_uring\")]\nuse serde::Serialize;\nuse std::fmt;\n";

    let expected = "use std::fmt;\n\nuse serde::Deserialize;\n#[cfg(feature = \"io_uring\")]\nuse serde::Serialize;\n";

    let rule = ImportFormattingRule::new(true, true, true);
    let result = rule.format_imports(input);
    assert_eq!(result, expected);
}

#[test]
fn test_comment_moves_with_sorted_import() {
    let input = r#"// keep this with serde import
use serde::Serialize;
use std::fmt;
"#;

    let expected = r#"use std::fmt;

// keep this with serde import
use serde::Serialize;
"#;

    let rule = ImportFormattingRule::new(true, true, true);
    let result = rule.format_imports(input);
    assert_eq!(result, expected);
}

#[test]
fn check_reports_exactly_when_fix_changes() {
    let rule = ImportFormattingRule::new(true, true, true);
    let messy = "use std::io;\nuse std::fmt;\n";
    let diags = rule.check(messy, "src/main.rs");
    assert_eq!(diags.len(), 1);
    assert_eq!(diags[0].rule_id, "RC1001");
    assert_eq!(diags[0].line, 1);
    assert_eq!(diags[0].file, "src/main.rs");
    assert_eq!(diags[0].severity, Severity::Warning);
    assert!(!diags[0].suppressed);
    assert_eq!(
        diags[0].message,
        "Import statements are not properly formatted. Run `rustcop fix` to auto-fix."
    );
    assert_ne!(rule.fix(messy), messy);

    let clean = "use std::{fmt, io};\n";
    assert!(rule.check(clean, "src/main.rs").is_empty());
    assert_eq!(rule.fix(clean), clean);
}

#[test]
fn fixing_twice_changes_nothing_more() {
    let rule = ImportFormattingRule::new(true, true, true);
    let input = "use crate::b;\nuse tokio::sync::Mutex;\nuse std::io;\nuse std::fmt;\n\nfn main() {}\n";
    let once = rule.fix(input);
    assert_eq!(
        once,
        "use std::{fmt, io};\n\nuse tokio::sync::Mutex;\n\nuse crate::b;\n\nfn main() {}\n"
    );
    assert_eq!(rule.fix(&once), once);
}

#[test]
fn file_without_imports_is_unchanged() {
    let rule = ImportFormattingRule::new(true, true, true);
    let input = "fn main() {}\n";
    assert_eq!(rule.format_imports(input), input);
    assert_eq!(rule.format_imports(""), "");
}

#[test]
fn unparsable_region_is_left_alone() {
    let rule = ImportFormattingRule::new(true, true, true);
    let input = "use std::{io;\nuse std::fmt;\n";
    assert_eq!(rule.format_imports(input), input);
}

#[test]
fn without_sorting_order_is_kept() {
    let rule = ImportFormattingRule::new(true, false, false);
    let input = "use crate::foo;\nuse std::io;\n";
    assert_eq!(rule.format_imports(input), "use crate::foo;\n\nuse std::io;\n");
    let rule = ImportFormattingRule::new(false, false, false);
    assert_eq!(rule.format_imports(input), input);
}

#[test]
fn lines_before_and_after_the_region_are_kept() {
    let rule = ImportFormattingRule::new(true, true, true);
    let input = "mod a;\nuse std::io;\nuse std::fmt;\n\n\n\nstruct A;";
    assert_eq!(
        rule.format_imports(input),
        "mod a;\nuse std::{fmt, io};\n\nstruct A;"
    );
}

#[test]
fn case_categories_order_names() {
    let rule = ImportFormattingRule::new(true, true, true);
    let input = "use a::{MAX, Thing, value};\n";
    assert_eq!(rule.format_imports(input), "use a::{value, Thing, MAX};\n");
}

#[test]
fn super_imports_are_not_merged() {
    let rule = ImportFormattingRule::new(true, true, true);
    let input = "use super::a;\nuse super::b;\n";
    assert_eq!(rule.format_imports(input), input);
}

#[test]
fn from_config_follows_the_section() {
    let mut cfg = ImportsConfig::default();
    cfg.sort = false;
    let rule = ImportFormattingRule::from_config(&cfg);
    assert!(rule.group);
    assert!(!rule.sort);
    assert!(rule.merge);
    cfg.group = false;
    cfg.merge = false;
    let rule = ImportFormattingRule::from_config(&cfg);
    assert!(!rule.group && !rule.sort && !rule.merge);
    let rule = ImportFormattingRule::from_config(&ImportsConfig::default());
    assert!(rule.group && rule.sort && rule.merge);
}

#[test]
fn long_group_wraps_at_line_width() {
    let rule = ImportFormattingRule::new(true, true, true);
    let input = "use aaaaaaaaaa::{bbbbbbbbbbbbbbbbbbbb, cccccccccccccccccccc, dddddddddddddddddddd, eeeeeeeeeeeeeeeeeeee, ffffffffffffffffffff};\n";
    let expected = "use aaaaaaaaaa::{\n    bbbbbbbbbbbbbbbbbbbb, cccccccccccccccccccc, dddddddddddddddddddd, eeeeeeeeeeeeeeeeeeee,\n    ffffffffffffffffffff,\n};\n";
    assert_eq!(rule.format_imports(input), expected);
}

#[test]
fn nested_braces_are_expanded_over_lines() {
    let rule = ImportFormattingRule::new(true, true, true);
    let input = "use a::{b::{c, d}};\n";
    assert_eq!(rule.format_imports(input), "use a::{\n    b::{c, d},\n};\n");
    let flat = "use a::{c, d};\n";
    assert_eq!(rule.format_imports(flat), flat);
}

#[test]
fn node_order_follows_rustfmt() {
    let name = |s: &str| UseNode::Name { ident: s.chars().collect(), rename: None };
    let slf = UseNode::Slf { rename: None };
    let group = UseNode::Group { items: vec![name("a")] };
    assert_eq!(cmp_use_nodes(&slf, &name("a")), -1);
    assert_eq!(cmp_use_nodes(&name("value"), &name("Thing")), -1);
    assert_eq!(cmp_use_nodes(&name("Thing"), &name("MAX")), -1);
    assert_eq!(cmp_use_nodes(&name("b"), &name("a")), 1);
    assert_eq!(cmp_use_nodes(&name("a"), &name("a")), 0);
    assert_eq!(cmp_use_nodes(&UseNode::Glob, &group), -1);
    assert_eq!(cmp_use_nodes(&group, &name("z")), 1);
}

#[test]
fn self_comes_first_in_braces() {
    let rule = ImportFormattingRule::new(true, true, true);
    let input = "use std::{self, fmt};\n";
    assert_eq!(rule.format_imports(input), input);
    assert_eq!(rule.format_imports("use std::{fmt, self};\n"), input);
}

#[test]
fn merging_drops_every_repeat() {
    let rule = ImportFormattingRule::new(true, true, true);
    let input = "use std::io;\nuse std::fmt;\nuse std::io;\n";
    assert_eq!(rule.format_imports(input), "use std::{fmt, io};\n");
}
