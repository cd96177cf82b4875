//! One pass of the rules over a file's text: each rule checks the text as
//! the rules before it left it, its findings are matched against the file's
//! suppression directives, and in a fixing pass a rule with an open finding
//! rewrites the text.
use vstd::prelude::*;

use crate::diagnostic::{diag_views, DiagModel, Diagnostic};
use crate::lexis::chars_eq;
use crate::report::{apply_suppressions, mark, missing_findings, missing_justification_findings};
use crate::rules::imports::{spec_format_imports, spec_imports_check, ImportFormattingRule};
use crate::rules::modules::{spec_modules_check, spec_modules_fix, ModulesRule};
use crate::rules::super_imports::{spec_super_check, DisallowSuperImportsRule};
use crate::paths::portable_path;
use crate::rules::{is_lib_file, names_lib_file, Rule};
use crate::suppression::{
    law_file_marker_suppresses_everything, spec_has_file_level_suppression, spec_is_suppressed,
    spec_parse,
    SuppressionModel, SuppressionParser,
};
use crate::text::{contains_str, str_chars};

verus! {

broadcast use vstd::std_specs::vec::group_vec_axioms;

/// The rules a run applies, in the order it applies them.
pub struct RuleSet {
    pub imports: ImportFormattingRule,
    pub modules: ModulesRule,
    pub super_imports: DisallowSuperImportsRule,
}

/// What one pass over a file found and did.
pub struct FileReport {
    /// Every finding of the rules, in rule order, with the directives
    /// applied.
    pub findings: Vec<Diagnostic>,
    /// For each finding, whether its rule rewrote the text in this pass.
    pub fixed: Vec<bool>,
    /// The findings about directives without a justification, when a
    /// justification is required.
    pub unjustified: Vec<Diagnostic>,
    /// The text after the pass.
    pub content: String,
    /// Whether some rule rewrote the text.
    pub changed: bool,
    /// Whether the file was taken for a crate root (`lib.rs`).
    pub lib_file: bool,
}

/// The findings with the directives applied.
pub open spec fn marked(ds: Seq<DiagModel>, sups: Seq<SuppressionModel>) -> Seq<DiagModel> {
    ds.map_values(|d: DiagModel| mark(d, sups))
}

/// Some finding is not suppressed.
pub open spec fn has_open(ds: Seq<DiagModel>) -> bool {
    exists|i: int| 0 <= i < ds.len() && !(#[trigger] ds[i]).suppressed
}

/// One rule's turn on `text`, given what its check found and what its fix
/// makes of the text: the findings with the directives applied, whether the
/// rule rewrites the text (a fixing pass, an open finding, and a fix that
/// changes the text), and the text after the turn.
pub open spec fn turn(
    found: Seq<DiagModel>,
    fixed_text: Seq<char>,
    text: Seq<char>,
    sups: Seq<SuppressionModel>,
    is_fix: bool,
) -> (Seq<DiagModel>, bool, Seq<char>) {
    let ds = marked(found, sups);
    let rewrites = is_fix && has_open(ds) && fixed_text != text;
    (ds, rewrites, if rewrites {
        fixed_text
    } else {
        text
    })
}

pub open spec fn imports_turn(
    rules: RuleSet,
    sups: Seq<SuppressionModel>,
    text: Seq<char>,
    file: Seq<char>,
    is_fix: bool,
) -> (Seq<DiagModel>, bool, Seq<char>) {
    let r = rules.imports;
    turn(
        spec_imports_check(r.group, r.sort, r.merge, text, file),
        spec_format_imports(r.group, r.sort, r.merge, text),
        text,
        sups,
        is_fix,
    )
}

pub open spec fn modules_turn(
    rules: RuleSet,
    sups: Seq<SuppressionModel>,
    text: Seq<char>,
    file: Seq<char>,
    is_lib: bool,
    is_fix: bool,
) -> (Seq<DiagModel>, bool, Seq<char>) {
    let r = rules.modules;
    turn(
        spec_modules_check(r.enabled, r.severity, r.preferred(), is_lib, text, file),
        spec_modules_fix(r.enabled, r.preferred(), text),
        text,
        sups,
        is_fix,
    )
}

/// The super-imports rule has no fix: its turn never rewrites.
pub open spec fn super_turn(
    rules: RuleSet,
    sups: Seq<SuppressionModel>,
    text: Seq<char>,
    file: Seq<char>,
    is_fix: bool,
) -> (Seq<DiagModel>, bool, Seq<char>) {
    turn(spec_super_check(rules.super_imports.enabled, text, file), text, text, sups, is_fix)
}

/// `n` copies of `b`.
pub open spec fn flags(n: nat, b: bool) -> Seq<bool> {
    Seq::new(n, |_i: int| b)
}

/// A pass: the import rule, then the module rule on the text it left, then
/// the super-imports rule. The findings of all three in that order, for
/// each finding whether its rule rewrote the text, the final text, and
/// whether any rule rewrote it.
pub open spec fn spec_pass(
    rules: RuleSet,
    sups: Seq<SuppressionModel>,
    content: Seq<char>,
    file: Seq<char>,
    is_lib: bool,
    is_fix: bool,
) -> (Seq<DiagModel>, Seq<bool>, Seq<char>, bool) {
    let a = imports_turn(rules, sups, content, file, is_fix);
    let b = modules_turn(rules, sups, a.2, file, is_lib, is_fix);
    let c = super_turn(rules, sups, b.2, file, is_fix);
    (
        a.0 + b.0 + c.0,
        flags(a.0.len(), a.1) + flags(b.0.len(), b.1) + flags(c.0.len(), c.1),
        c.2,
        a.1 || b.1 || c.1,
    )
}

fn any_open(ds: &Vec<Diagnostic>) -> (r: bool)
    ensures
        r == has_open(diag_views(ds@)),
{
    let ghost dv = diag_views(ds@);
    let mut i: usize = 0;
    while i < ds.len()
        invariant
            i <= ds.len(),
            dv == diag_views(ds@),
            forall|k: int| 0 <= k < i ==> (#[trigger] dv[k]).suppressed,
        decreases ds.len() - i,
    {
        assert(dv[i as int] == ds@[i as int]@);
        if !ds[i].suppressed {
            return true;
        }
        i += 1;
    }
    false
}

fn same_text(a: &str, b: &str) -> (r: bool)
    ensures
        r == (a@ == b@),
{
    let x = str_chars(a);
    let y = str_chars(b);
    chars_eq(x.as_slice(), y.as_slice())
}

/// Appends a turn's findings, each flagged with whether the turn rewrote the
/// text.
fn record_turn(
    findings: &mut Vec<Diagnostic>,
    fixed: &mut Vec<bool>,
    ds: Vec<Diagnostic>,
    rewrote: bool,
)
    ensures
        diag_views(final(findings)@) == diag_views(old(findings)@) + diag_views(ds@),
        final(fixed)@ == old(fixed)@ + flags(ds@.len(), rewrote),
{
    let n = ds.len();
    let mut ds = ds;
    let ghost before = findings@;
    let ghost added = ds@;
    findings.append(&mut ds);
    assert(diag_views(findings@) =~= diag_views(before) + diag_views(added));
    let ghost fixed_before = fixed@;
    let mut i: usize = 0;
    while i < n
        invariant
            i <= n,
            n == added.len(),
            fixed@ == fixed_before + flags(i as nat, rewrote),
        decreases n - i,
    {
        fixed.push(rewrote);
        i += 1;
        assert(fixed@ =~= fixed_before + flags(i as nat, rewrote));
    }
}

/// Runs the rules over one file's text as the command does: each rule's
/// findings are matched against the directives `parser` read from the file,
/// and in a fixing pass a rule with an open finding rewrites the text when
/// its fix changes it. With `require_justification`, the directives without
/// a justification are reported too.
pub fn process_file(
    rules: &RuleSet,
    parser: &SuppressionParser,
    content: &str,
    file: &str,
    is_fix: bool,
    require_justification: bool,
) -> (r: FileReport)
    ensures
        r.lib_file ==> contains_str(file@, "lib.rs"@),
        portable_path(file@) ==> r.lib_file == names_lib_file(file@),
        (diag_views(r.findings@), r.fixed@, r.content@, r.changed) == spec_pass(
            *rules,
            parser.sups(),
            content@,
            file@,
            r.lib_file,
            is_fix,
        ),
        diag_views(r.unjustified@) == if require_justification {
            missing_findings(parser.sups(), file@)
        } else {
            Seq::<DiagModel>::empty()
        },
{
    let ghost sups = parser.sups();
    let lib = is_lib_file(file);
    let mut findings: Vec<Diagnostic> = Vec::new();
    let mut fixed: Vec<bool> = Vec::new();

    let ghost a = imports_turn(*rules, sups, content@, file@, is_fix);
    let ds = apply_suppressions(parser, rules.imports.check(content, file));
    let mut text: String = content.to_owned();
    let mut rewrote = false;
    if is_fix && any_open(&ds) {
        let f = rules.imports.fix(content);
        if !same_text(f.as_str(), content) {
            text = f;
            rewrote = true;
        }
    }
    let imports_rewrote = rewrote;
    assert(diag_views(ds@) == a.0 && rewrote == a.1 && text@ == a.2);
    record_turn(&mut findings, &mut fixed, ds, rewrote);

    let ghost b = modules_turn(*rules, sups, a.2, file@, lib, is_fix);
    let ds = apply_suppressions(parser, rules.modules.check_file(text.as_str(), file, lib));
    let mut rewrote = false;
    if is_fix && any_open(&ds) {
        let f = rules.modules.fix(text.as_str());
        if !same_text(f.as_str(), text.as_str()) {
            text = f;
            rewrote = true;
        }
    }
    let modules_rewrote = rewrote;
    assert(diag_views(ds@) == b.0 && rewrote == b.1 && text@ == b.2);
    record_turn(&mut findings, &mut fixed, ds, rewrote);

    let ghost c = super_turn(*rules, sups, b.2, file@, is_fix);
    let ds = apply_suppressions(parser, rules.super_imports.check(text.as_str(), file));
    let mut rewrote = false;
    if is_fix && any_open(&ds) {
        let f = rules.super_imports.fix(text.as_str());
        if !same_text(f.as_str(), text.as_str()) {
            text = f;
            rewrote = true;
        }
    }
    assert(diag_views(ds@) == c.0 && rewrote == c.1 && text@ == c.2);
    record_turn(&mut findings, &mut fixed, ds, rewrote);

    let unjustified = if require_justification {
        missing_justification_findings(parser, file)
    } else {
        Vec::new()
    };
    assert(diag_views(findings@) =~= a.0 + b.0 + c.0);
    FileReport {
        findings,
        fixed,
        unjustified,
        content: text,
        changed: imports_rewrote || modules_rewrote || rewrote,
        lib_file: lib,
    }
}

// ---------------------------------------------------------------------------
// Laws
// ---------------------------------------------------------------------------

proof fn lemma_check_turn(
    found: Seq<DiagModel>,
    fixed_text: Seq<char>,
    text: Seq<char>,
    sups: Seq<SuppressionModel>,
)
    ensures
        !turn(found, fixed_text, text, sups, false).1,
        turn(found, fixed_text, text, sups, false).2 == text,
{
}

/// A checking pass modifies nothing: the text comes out as it went in, and
/// no finding is marked as fixed.
pub proof fn law_check_pass_changes_nothing(
    rules: RuleSet,
    sups: Seq<SuppressionModel>,
    content: Seq<char>,
    file: Seq<char>,
    is_lib: bool,
)
    ensures
        spec_pass(rules, sups, content, file, is_lib, false).2 == content,
        !spec_pass(rules, sups, content, file, is_lib, false).3,
        forall|i: int|
            0 <= i < spec_pass(rules, sups, content, file, is_lib, false).1.len() ==> !(
            #[trigger] spec_pass(rules, sups, content, file, is_lib, false).1[i]),
{
    let p = spec_pass(rules, sups, content, file, is_lib, false);
    let a = imports_turn(rules, sups, content, file, false);
    let b = modules_turn(rules, sups, a.2, file, is_lib, false);
    let c = super_turn(rules, sups, b.2, file, false);
    assert(!a.1 && !b.1 && !c.1);
    assert forall|i: int| 0 <= i < p.1.len() implies !(#[trigger] p.1[i]) by {
        let fa = flags(a.0.len(), a.1);
        let fb = flags(b.0.len(), b.1);
        let fc = flags(c.0.len(), c.1);
        assert(p.1 == fa + fb + fc);
        if i < fa.len() {
            assert(p.1[i] == fa[i]);
        } else if i < fa.len() + fb.len() {
            assert(p.1[i] == fb[i - fa.len()]);
        } else {
            assert(p.1[i] == fc[i - fa.len() - fb.len()]);
        }
    }
}

/// Every rule is suppressed on every line.
pub open spec fn covers_everything(sups: Seq<SuppressionModel>) -> bool {
    forall|line: int, rule_id: Seq<char>| #[trigger] spec_is_suppressed(sups, line, rule_id)
}

proof fn lemma_all_suppressed_turn(
    found: Seq<DiagModel>,
    fixed_text: Seq<char>,
    text: Seq<char>,
    sups: Seq<SuppressionModel>,
)
    requires
        covers_everything(sups),
    ensures
        forall|i: int|
            0 <= i < turn(found, fixed_text, text, sups, true).0.len() ==> (
            #[trigger] turn(found, fixed_text, text, sups, true).0[i]).suppressed,
        !turn(found, fixed_text, text, sups, true).1,
        turn(found, fixed_text, text, sups, true).2 == text,
{
    let ds = marked(found, sups);
    assert forall|i: int| 0 <= i < ds.len() implies (#[trigger] ds[i]).suppressed by {
        assert(spec_is_suppressed(sups, found[i].line, found[i].rule_id));
    }
}

proof fn lemma_marker_covers_everything(content: Seq<char>)
    requires
        spec_has_file_level_suppression(content),
    ensures
        covers_everything(spec_parse(content)),
{
    assert forall|line: int, rule_id: Seq<char>| #[trigger] spec_is_suppressed(
        spec_parse(content),
        line,
        rule_id,
    ) by {
        law_file_marker_suppresses_everything(content, line, rule_id);
    }
}

/// A file with a file-level suppression marker is left as it is, even by a
/// fixing pass: every finding in it is suppressed, and no rule rewrites it.
pub proof fn law_file_marker_blocks_fixes(
    rules: RuleSet,
    content: Seq<char>,
    file: Seq<char>,
    is_lib: bool,
)
    requires
        spec_has_file_level_suppression(content),
    ensures
        spec_pass(rules, spec_parse(content), content, file, is_lib, true).2 == content,
        !spec_pass(rules, spec_parse(content), content, file, is_lib, true).3,
        forall|i: int|
            0 <= i < spec_pass(rules, spec_parse(content), content, file, is_lib, true).0.len()
                ==> (#[trigger] spec_pass(
                rules,
                spec_parse(content),
                content,
                file,
                is_lib,
                true,
            ).0[i]).suppressed,
{
    let sups = spec_parse(content);
    lemma_marker_covers_everything(content);
    let p = spec_pass(rules, sups, content, file, is_lib, true);
    let r = rules.imports;
    let m = rules.modules;
    let a = imports_turn(rules, sups, content, file, true);
    lemma_all_suppressed_turn(
        spec_imports_check(r.group, r.sort, r.merge, content, file),
        spec_format_imports(r.group, r.sort, r.merge, content),
        content,
        sups,
    );
    let b = modules_turn(rules, sups, a.2, file, is_lib, true);
    lemma_all_suppressed_turn(
        spec_modules_check(m.enabled, m.severity, m.preferred(), is_lib, a.2, file),
        spec_modules_fix(m.enabled, m.preferred(), a.2),
        a.2,
        sups,
    );
    let c = super_turn(rules, sups, b.2, file, true);
    lemma_all_suppressed_turn(
        spec_super_check(rules.super_imports.enabled, b.2, file),
        b.2,
        b.2,
        sups,
    );
    assert forall|i: int| 0 <= i < p.0.len() implies (#[trigger] p.0[i]).suppressed by {
        assert(p.0 == a.0 + b.0 + c.0);
        if i < a.0.len() {
            assert(p.0[i] == a.0[i]);
        } else if i < a.0.len() + b.0.len() {
            assert(p.0[i] == b.0[i - a.0.len()]);
        } else {
            assert(p.0[i] == c.0[i - a.0.len() - b.0.len()]);
        }
    }
}

} // verus!
