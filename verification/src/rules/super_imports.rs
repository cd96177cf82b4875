//! RC2001: `use super::…` imports, with any visibility, are reported as
//! errors.
use vstd::prelude::*;

use crate::diagnostic::{diag_views, finding, DiagModel, Diagnostic, Severity};
use crate::rules::Rule;
use crate::text::{
    char_index, copy_chars, has_prefix, index_of_char, lemma_index_of_char, lines, lines_of,
    slice_chars, starts_with, str_chars, trim, trim_chars, view_all,
};

verus! {

broadcast use vstd::std_specs::vec::group_vec_axioms;

/// Rule that disallows `super::` imports
pub struct DisallowSuperImportsRule {
    pub enabled: bool,
}

/// A trimmed line without its leading visibility: `pub` or `pub(..)`
/// and the spaces after it.
pub open spec fn after_visibility(t: Seq<char>) -> Seq<char> {
    if has_prefix(t, "pub("@) {
        match index_of_char(t, ')') {
            Some(k) => trim(t.skip(k + 1)),
            None => t,
        }
    } else if has_prefix(t, "pub "@) {
        trim(t.skip(3))
    } else {
        t
    }
}

/// A trimmed line that imports through `super`: a `use` item, with any
/// visibility, whose path starts with `super::`.
pub open spec fn is_super_import(t: Seq<char>) -> bool {
    has_prefix(after_visibility(t), "use super::"@)
}

fn after_visibility_exec(t: &[char]) -> (r: Vec<char>)
    ensures
        r@ == after_visibility(t@),
{
    let open = str_chars("pub(");
    let spaced = str_chars("pub ");
    if starts_with(t, open.as_slice()) {
        proof {
            lemma_index_of_char(t@, ')');
        }
        match char_index(t, ')') {
            Some(k) => {
                let n = t.len();
                assert(k < n);
                let rest = slice_chars(t, k + 1, n);
                assert(rest@ =~= t@.skip(k + 1));
                trim_chars(rest.as_slice())
            },
            None => copy_chars(t),
        }
    } else if starts_with(t, spaced.as_slice()) {
        proof {
            reveal_strlit("pub ");
        }
        let rest = slice_chars(t, 3, t.len());
        assert(rest@ =~= t@.skip(3));
        trim_chars(rest.as_slice())
    } else {
        copy_chars(t)
    }
}

pub open spec fn super_message() -> Seq<char> {
    "Use of `super::` imports is disallowed"@
}

/// One error per line that imports through `super`, with its 1-based
/// number, in line order.
pub open spec fn super_findings(lines: Seq<Seq<char>>, file: Seq<char>) -> Seq<DiagModel>
    decreases lines.len(),
{
    if lines.len() == 0 {
        seq![]
    } else {
        let rest = super_findings(lines.drop_last(), file);
        if is_super_import(trim(lines.last())) {
            rest.push(finding("RC2001"@, super_message(), file, lines.len() as int, Severity::Error))
        } else {
            rest
        }
    }
}

pub open spec fn spec_super_check(rule_enabled: bool, content: Seq<char>, file: Seq<char>) -> Seq<
    DiagModel,
> {
    if rule_enabled {
        super_findings(lines_of(content), file)
    } else {
        seq![]
    }
}

impl DisallowSuperImportsRule {
    /// Enabled unless the configured severity is `none`.
    pub fn from_config(lint: &crate::config::LintConfig) -> (r: Self)
        ensures
            r.enabled == (lint.severity@ != "none"@),
    {
        let sev = str_chars(lint.severity.as_str());
        let none = str_chars("none");
        DisallowSuperImportsRule { enabled: !crate::lexis::chars_eq(sev.as_slice(), none.as_slice()) }
    }
}

impl Rule for DisallowSuperImportsRule {
    fn id(&self) -> (r: &str)
        ensures
            r@ == "RC2001"@,
    {
        "RC2001"
    }

    fn name(&self) -> (r: &str)
        ensures
            r@ == "DisallowSuperImports"@,
    {
        "DisallowSuperImports"
    }

    fn check(&self, content: &str, file: &str) -> (r: Vec<Diagnostic>)
        ensures
            diag_views(r@) == spec_super_check(self.enabled, content@, file@),
    {
        let mut diagnostics: Vec<Diagnostic> = Vec::new();
        if !self.enabled {
            assert(diag_views(diagnostics@) =~= Seq::<DiagModel>::empty());
            return diagnostics;
        }
        let chars = str_chars(content);
        let ls = lines(chars.as_slice());
        let ghost lv = view_all(ls@);
        let p1 = str_chars("use super::");
        let mut i: usize = 0;
        assert(diag_views(diagnostics@) =~= super_findings(lv.take(0), file@));
        while i < ls.len()
            invariant
                i <= ls.len(),
                lv == view_all(ls@),
                p1@ == "use super::"@,
                diag_views(diagnostics@) == super_findings(lv.take(i as int), file@),
            decreases ls.len() - i,
        {
            let trimmed = trim_chars(ls[i].as_slice());
            assert(lv.take(i + 1).drop_last() =~= lv.take(i as int));
            assert(lv.take(i + 1).last() == ls@[i as int]@);
            let item = after_visibility_exec(trimmed.as_slice());
            if starts_with(item.as_slice(), p1.as_slice()) {
                let d = Diagnostic {
                    rule_id: "RC2001".to_owned(),
                    message: "Use of `super::` imports is disallowed".to_owned(),
                    file: file.to_owned(),
                    line: i + 1,
                    severity: Severity::Error,
                    suppressed: false,
                    suppression_justification: None,
                };
                let ghost before = diagnostics@;
                diagnostics.push(d);
                assert(diag_views(diagnostics@) =~= diag_views(before).push(d@));
            }
            i += 1;
        }
        assert(lv.take(ls.len() as int) =~= lv);
        diagnostics
    }

    /// No auto-fix for this rule: the content comes back unchanged.
    fn fix(&self, content: &str) -> (r: String)
        ensures
            r@ == content@,
    {
        content.to_owned()
    }
}

} // verus!
