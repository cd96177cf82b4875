use rustcop::rules::text_imports::ImportFormattingRule;
use rustcop::rules::Rule;

#[test]
fn test_grouping_and_sorting() {
    let input = "\
use dashmap::DashMap;
use std::sync::Arc;
use crate::foo;
";
    let rule = ImportFormattingRule::new(true, true, true);
    let output = rule.format_imports(input);
    let expected = "\
use std::sync::Arc;

use dashmap::DashMap;

use crate::foo;
";
    assert_eq!(output, expected);
}

#[test]
fn test_merging_same_crate() {
    let input = "\
use std::sync::Arc;
use std::collections::HashMap;
";
    let rule = ImportFormattingRule::new(true, true, true);
    let output = rule.format_imports(input);
    let expected = "\
use std::{collections::HashMap, sync::Arc};
";
    assert_eq!(output, expected);
}

#[test]
fn test_multiline_use() {
    let input = "\
use tokio::{
    task::JoinHandle,
    time::{Duration, Instant},
};
use std::sync::Arc;
";
    let rule = ImportFormattingRule::new(true, true, true);
    let output = rule.format_imports(input);
    let expected = "\
use std::sync::Arc;

use tokio::{task::JoinHandle, time::{Duration, Instant}};
";
    assert_eq!(output, expected);
}

#[test]
fn test_full_example() {
    let input = "\
use dashmap::DashMap;
use std::sync::Arc;
use tokio::{
    task::JoinHandle,
    time::{Duration, Instant},
};
use tokio_postgres::IsolationLevel;

use crate::context::transaction::{GatewayTransaction, RequestTransactionInfo, TransactionNumber};
use crate::{
    context::{ConnectionContext, SessionId},
    error::{DocumentDBError, ErrorCode, Result},
    postgres::{conn_mgmt::Connection, PgDataClient},
};
";
    let rule = ImportFormattingRule::new(true, true, true);
    let output = rule.format_imports(input);

    // std first, then external, then internal
    assert!(output.starts_with("use std::sync::Arc;\n"));
    assert!(output.contains("\nuse dashmap::DashMap;\n"));
    assert!(output.contains("\nuse crate::"));
}

#[test]
fn test_no_change_when_already_formatted() {
    let input = "\
use std::sync::Arc;

use dashmap::DashMap;

use crate::foo;
";
    let rule = ImportFormattingRule::new(true, true, true);
    let output = rule.format_imports(input);
    assert_eq!(output, input);
}

#[test]
fn test_preserves_code_after_imports() {
    let input = "\
use std::sync::Arc;
use dashmap::DashMap;

pub struct Foo;
";
    let rule = ImportFormattingRule::new(true, true, true);
    let output = rule.format_imports(input);
    assert!(output.contains("pub struct Foo;"));
}

#[test]
fn test_pub_use() {
    let input = "\
pub use crate::bar;
use std::sync::Arc;
";
    let rule = ImportFormattingRule::new(true, true, true);
    let output = rule.format_imports(input);
    // pub use and non-pub use should not be merged
    assert!(output.contains("pub use crate::bar;"));
    assert!(output.contains("use std::sync::Arc;"));
}

#[test]
fn bare_import_merges_as_self() {
    let rule = ImportFormattingRule::new(true, true, true);
    let input = "use serde;\nuse serde::Serialize;\n";
    assert_eq!(rule.format_imports(input), "use serde::{self, Serialize};\n");
}

#[test]
fn duplicate_items_are_merged_once() {
    let rule = ImportFormattingRule::new(true, true, true);
    let input = "use std::io;\nuse std::io;\n";
    assert_eq!(rule.format_imports(input), "use std::io;\n");
}

#[test]
fn long_lists_are_written_one_per_line() {
    let rule = ImportFormattingRule::new(true, true, true);
    let input = "use aaaaaaaaaaaaaaaaaaaa::{bbbbbbbbbbbbbbbbbbbbbbbbb, ccccccccccccccccccccccccc, ddddddddddddddddddddddddd, eeeeeeeee};\n";
    let expected = "use aaaaaaaaaaaaaaaaaaaa::{\n    bbbbbbbbbbbbbbbbbbbbbbbbb,\n    ccccccccccccccccccccccccc,\n    ddddddddddddddddddddddddd,\n    eeeeeeeee,\n};\n";
    assert_eq!(rule.format_imports(input), expected);
}

#[test]
fn restricted_visibility_is_kept() {
    let rule = ImportFormattingRule::new(true, true, true);
    let input = "pub(crate) use crate::a;\npub(crate) use crate::b;\n";
    assert_eq!(rule.format_imports(input), "pub(crate) use crate::{a, b};\n");
}

#[test]
fn check_and_fix_agree() {
    let rule = ImportFormattingRule::new(true, true, true);
    let messy = "use std::io;\nuse std::fmt;\n";
    assert_eq!(rule.check(messy, "a.rs").len(), 1);
    assert_eq!(rule.fix(messy), "use std::{fmt, io};\n");
    let clean = "use std::{fmt, io};\n";
    assert!(rule.check(clean, "a.rs").is_empty());
}

#[test]
fn trailing_comment_ends_a_statement() {
    let rule = ImportFormattingRule::new(true, true, true);
    let input = "use a::b; // note\nuse c::d;\n";
    assert_eq!(rule.format_imports(input), "use a::b;\nuse c::d;\n");
}
