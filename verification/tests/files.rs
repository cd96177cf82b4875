use rustcop::config::parse_document;
use rustcop::files::{is_rust_file, restrict_decision, should_restrict_to_src, workspace_members};

#[test]
fn rust_files_are_found_by_extension() {
    assert!(is_rust_file("src/lib.rs"));
    assert!(is_rust_file("a.rs"));
    assert!(!is_rust_file("README.md"));
    assert!(!is_rust_file("rs"));
}

#[test]
fn workspace_roots_are_restricted_to_src() {
    assert!(should_restrict_to_src("."));
    assert!(should_restrict_to_src(".."));
    assert!(should_restrict_to_src("project"));
    assert!(!should_restrict_to_src("project/src"));
    assert!(!should_restrict_to_src("project/src/rules"));
    assert!(restrict_decision("", &[]));
    assert!(!restrict_decision("x", &["a".to_string(), "src".to_string()]));
}

#[test]
fn plain_workspace_members_are_listed() {
    let manifest = parse_document(
        "[workspace]\nmembers = [\"core\", \"crates/*\", \"cli\", 3, \"a?b\"]\n",
    )
    .unwrap();
    assert_eq!(workspace_members(&manifest), vec!["core".to_string(), "cli".to_string()]);
    let manifest = parse_document("[package]\nname = \"x\"\n").unwrap();
    assert!(workspace_members(&manifest).is_empty());
}

#[test]
fn portable_paths_follow_component_rules() {
    assert!(is_rust_file("a/./b.rs"));
    assert!(is_rust_file("a.rs/"));
    assert!(!is_rust_file(".rs"));
    assert!(!is_rust_file("a/b.rs/.."));
    assert!(should_restrict_to_src("a/.."));
    assert!(!should_restrict_to_src("src/."));
    assert!(!should_restrict_to_src("/work/src/rules"));
    assert!(should_restrict_to_src("/work/crates/x"));
}
