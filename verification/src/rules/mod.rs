//! The rules and the interface they share.
use vstd::prelude::*;

use crate::diagnostic::Diagnostic;
use crate::lexis::chars_eq;
use crate::paths::{file_name_of, portable_path, spec_file_name};
use crate::text::{contains_str, str_chars};

pub mod exports;
pub mod imports;
pub mod modules;
pub mod super_imports;
pub mod text_imports;

verus! {

/// A lint/style rule that can check source files and optionally auto-fix violations.
pub trait Rule {
    /// Unique rule identifier (e.g., "RC1001").
    fn id(&self) -> &str;

    /// Human-readable rule name.
    fn name(&self) -> &str;

    /// Check file content for violations and return diagnostics.
    fn check(&self, content: &str, file: &str) -> Vec<Diagnostic>;

    /// Return the fixed content. If no fix is needed, returns the original content unchanged.
    fn fix(&self, content: &str) -> String;
}

/// A portable path whose file name is `lib.rs`.
pub open spec fn names_lib_file(file: Seq<char>) -> bool {
    spec_file_name(file) == Some("lib.rs"@)
}

/// Whether the path names a file called `lib.rs`, as `Path::file_name`
/// sees it: for a portable path, whether its file name is `lib.rs`; a path
/// that does not contain `lib.rs` never does.
pub fn is_lib_file(file: &str) -> (r: bool)
    ensures
        r ==> contains_str(file@, "lib.rs"@),
        portable_path(file@) ==> r == names_lib_file(file@),
{
    let lib = str_chars("lib.rs");
    match file_name_of(file) {
        Some(n) => {
            let nc = str_chars(n.as_str());
            proof {
                reveal_strlit("lib.rs");
            }
            chars_eq(nc.as_slice(), lib.as_slice())
        },
        None => false,
    }
}

} // verus!
