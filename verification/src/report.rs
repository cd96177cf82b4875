//! What a run decides from the findings: which are suppressed, how many
//! count, whether the run fails, and the findings about suppressions that
//! lack a justification.
use vstd::prelude::*;

use crate::diagnostic::{diag_views, finding, DiagModel, Diagnostic, Severity};
use crate::suppression::{
    first_applying, justification_of, spec_is_suppressed, text_view, unjustified, Suppression,
    SuppressionModel, SuppressionParser,
};
use crate::text::{chars_to_string, count_text, decimal, push_all, str_chars};

verus! {

broadcast use vstd::std_specs::vec::group_vec_axioms;

/// A finding after the directives are applied: one a directive covers is
/// marked suppressed and takes that directive's justification.
pub open spec fn mark(d: DiagModel, sups: Seq<SuppressionModel>) -> DiagModel {
    if spec_is_suppressed(sups, d.line, d.rule_id) {
        DiagModel {
            suppressed: true,
            suppression_justification: match first_applying(sups, d.line, d.rule_id) {
                Some(s) => justification_of(s),
                None => None,
            },
            ..d
        }
    } else {
        d
    }
}

/// The findings with the file's directives applied, in order.
pub fn apply_suppressions(parser: &SuppressionParser, diagnostics: Vec<Diagnostic>) -> (r: Vec<
    Diagnostic,
>)
    ensures
        diag_views(r@) == diag_views(diagnostics@).map_values(
            |d: DiagModel| mark(d, parser.sups()),
        ),
{
    let ghost dv = diag_views(diagnostics@);
    let ghost target = dv.map_values(|d: DiagModel| mark(d, parser.sups()));
    let mut out: Vec<Diagnostic> = Vec::new();
    let mut rest = diagnostics;
    let ghost orig = rest@;
    let ghost mut j: int = 0;
    assert(rest@ =~= orig.skip(0));
    assert(diag_views(out@) =~= target.take(0));
    while rest.len() > 0
        invariant
            0 <= j <= orig.len(),
            rest@ == orig.skip(j),
            dv == diag_views(orig),
            target == dv.map_values(|d: DiagModel| mark(d, parser.sups())),
            diag_views(out@) == target.take(j),
        decreases rest.len(),
    {
        let d = rest.remove(0);
        assert(d == orig[j]);
        let hit = parser.is_suppressed(d.line, d.rule_id.as_str());
        let nd = if hit {
            let j2 = parser.justification_for(d.line, d.rule_id.as_str());
            Diagnostic {
                rule_id: d.rule_id,
                message: d.message,
                file: d.file,
                line: d.line,
                severity: d.severity,
                suppressed: true,
                suppression_justification: j2,
            }
        } else {
            d
        };
        proof {
            assert(dv[j] == orig[j]@);
            assert(nd@ == target[j]);
        }
        let ghost old_out = out@;
        out.push(nd);
        proof {
            assert(rest@ =~= orig.skip(j + 1));
            assert(diag_views(out@) =~= diag_views(old_out).push(nd@));
            assert(target.take(j + 1) =~= target.take(j).push(target[j]));
            j = j + 1;
        }
    }
    assert(target.take(j) =~= target);
    out
}

/// How many findings are not suppressed, and of those how many are errors
/// and how many warnings.
pub open spec fn count_open(diags: Seq<DiagModel>) -> (nat, nat, nat)
    decreases diags.len(),
{
    if diags.len() == 0 {
        (0, 0, 0)
    } else {
        let (t, e, w) = count_open(diags.drop_last());
        let d = diags.last();
        if d.suppressed {
            (t, e, w)
        } else if d.severity == Severity::Error {
            (t + 1, e + 1, w)
        } else {
            (t + 1, e, w + 1)
        }
    }
}

proof fn lemma_count_open_bound(diags: Seq<DiagModel>)
    ensures
        count_open(diags).0 <= diags.len(),
        count_open(diags).1 <= count_open(diags).0,
        count_open(diags).2 <= count_open(diags).0,
    decreases diags.len(),
{
    if diags.len() > 0 {
        lemma_count_open_bound(diags.drop_last());
    }
}

/// Counts of the findings that are not suppressed: all, errors, warnings.
pub fn tally(diagnostics: &[Diagnostic]) -> (r: (usize, usize, usize))
    ensures
        (r.0 as nat, r.1 as nat, r.2 as nat) == count_open(diag_views(diagnostics@)),
{
    let ghost dv = diag_views(diagnostics@);
    let mut total: usize = 0;
    let mut errors: usize = 0;
    let mut warnings: usize = 0;
    let mut i: usize = 0;
    while i < diagnostics.len()
        invariant
            i <= diagnostics.len(),
            dv == diag_views(diagnostics@),
            (total as nat, errors as nat, warnings as nat) == count_open(dv.take(i as int)),
            total <= i,
        decreases diagnostics.len() - i,
    {
        proof {
            lemma_count_open_bound(dv.take(i as int));
        }
        let ghost t = dv.take(i + 1);
        assert(t.drop_last() =~= dv.take(i as int));
        assert(t.last() == diagnostics@[i as int]@);
        let d = &diagnostics[i];
        if !d.suppressed {
            total += 1;
            match d.severity {
                Severity::Error => {
                    errors += 1;
                },
                Severity::Warning => {
                    warnings += 1;
                },
            }
        }
        i += 1;
    }
    assert(dv.take(diagnostics.len() as int) =~= dv);
    (total, errors, warnings)
}

/// Whether a run exits with a failure: a check fails on any finding left
/// open, error or warning; the pass that follows a fix fails on an error
/// left, and on a warning left when warnings count as errors.
pub fn run_fails(is_fix: bool, errors: usize, warnings: usize, treat_warnings_as_errors: bool) -> (r:
    bool)
    ensures
        r == if is_fix {
            errors > 0 || (treat_warnings_as_errors && warnings > 0)
        } else {
            errors > 0 || warnings > 0
        },
{
    if is_fix {
        errors > 0 || (treat_warnings_as_errors && warnings > 0)
    } else {
        errors > 0 || warnings > 0
    }
}

/// The line a directive was written on: the line before the one it covers
/// for a comment (0 for a directive on line 0), line 1 for a file-level
/// marker, the attribute's line for an item attribute.
pub open spec fn directive_line(s: SuppressionModel) -> int {
    match s {
        SuppressionModel::FileLevel { .. } => 1,
        SuppressionModel::LineLevel { line, .. } => if line >= 1 {
            line - 1
        } else {
            0
        },
        SuppressionModel::SpecificRule { line, .. } => if line >= 1 {
            line - 1
        } else {
            0
        },
        SuppressionModel::ItemLevel { attribute_line, .. } => attribute_line,
        SuppressionModel::ItemRule { attribute_line, .. } => attribute_line,
    }
}

/// How a directive is described in the finding about it.
pub open spec fn describe(s: SuppressionModel) -> Seq<char> {
    match s {
        SuppressionModel::FileLevel { .. } => "file-level suppression"@,
        SuppressionModel::LineLevel { line, .. } => "suppression on line "@ + decimal(line),
        SuppressionModel::SpecificRule { line, rule, .. } => "suppression for rule "@ + rule
            + " on line "@ + decimal(line),
        SuppressionModel::ItemLevel { first_line, last_line, .. } => "suppression on lines "@
            + decimal(first_line) + " to "@ + decimal(last_line),
        SuppressionModel::ItemRule { first_line, last_line, rule, .. } => "suppression for rule "@
            + rule + " on lines "@ + decimal(first_line) + " to "@ + decimal(last_line),
    }
}

/// One error (RC9002) per directive without a justification, on the line
/// the directive was written, unless a directive covers RC9002 there.
pub open spec fn missing_findings(sups: Seq<SuppressionModel>, file: Seq<char>) -> Seq<DiagModel> {
    missing_from(unjustified(sups), sups, file)
}

pub open spec fn missing_from(
    todo: Seq<SuppressionModel>,
    sups: Seq<SuppressionModel>,
    file: Seq<char>,
) -> Seq<DiagModel>
    decreases todo.len(),
{
    if todo.len() == 0 {
        seq![]
    } else {
        let rest = missing_from(todo.drop_last(), sups, file);
        let s = todo.last();
        if spec_is_suppressed(sups, directive_line(s), "RC9002"@) {
            rest
        } else {
            rest.push(
                finding(
                    "RC9002"@,
                    "Suppression missing justification: "@ + describe(s),
                    file,
                    directive_line(s),
                    Severity::Error,
                ),
            )
        }
    }
}

fn describe_exec(s: &Suppression) -> (r: Vec<char>)
    ensures
        r@ == describe(s@),
{
    match s {
        Suppression::FileLevel { .. } => str_chars("file-level suppression"),
        Suppression::LineLevel { line, .. } => {
            let mut m = str_chars("suppression on line ");
            let n = count_text(*line);
            let nc = str_chars(n.as_str());
            push_all(&mut m, nc.as_slice());
            m
        },
        Suppression::SpecificRule { line, rule, .. } => {
            let mut m = str_chars("suppression for rule ");
            let rc = str_chars(rule.as_str());
            push_all(&mut m, rc.as_slice());
            let mid = str_chars(" on line ");
            push_all(&mut m, mid.as_slice());
            let n = count_text(*line);
            let nc = str_chars(n.as_str());
            push_all(&mut m, nc.as_slice());
            m
        },
        Suppression::ItemLevel { first_line, last_line, .. } => {
            let mut m = str_chars("suppression on lines ");
            let a = str_chars(count_text(*first_line).as_str());
            push_all(&mut m, a.as_slice());
            let to = str_chars(" to ");
            push_all(&mut m, to.as_slice());
            let b = str_chars(count_text(*last_line).as_str());
            push_all(&mut m, b.as_slice());
            m
        },
        Suppression::ItemRule { first_line, last_line, rule, .. } => {
            let mut m = str_chars("suppression for rule ");
            let rc = str_chars(rule.as_str());
            push_all(&mut m, rc.as_slice());
            let mid = str_chars(" on lines ");
            push_all(&mut m, mid.as_slice());
            let a = str_chars(count_text(*first_line).as_str());
            push_all(&mut m, a.as_slice());
            let to = str_chars(" to ");
            push_all(&mut m, to.as_slice());
            let b = str_chars(count_text(*last_line).as_str());
            push_all(&mut m, b.as_slice());
            m
        },
    }
}

/// The findings about directives that lack a justification, for a run that
/// requires them.
pub fn missing_justification_findings(parser: &SuppressionParser, file: &str) -> (r: Vec<
    Diagnostic,
>)
    ensures
        diag_views(r@) == missing_findings(parser.sups(), file@),
{
    let todo = parser.get_suppressions_without_justification();
    let ghost tv = todo@.map_values(|s: &Suppression| s@);
    let mut out: Vec<Diagnostic> = Vec::new();
    let mut i: usize = 0;
    assert(diag_views(out@) =~= missing_from(tv.take(0), parser.sups(), file@));
    while i < todo.len()
        invariant
            i <= todo.len(),
            tv == todo@.map_values(|s: &Suppression| s@),
            tv == unjustified(parser.sups()),
            diag_views(out@) == missing_from(tv.take(i as int), parser.sups(), file@),
        decreases todo.len() - i,
    {
        let s = todo[i];
        assert(tv[i as int] == s@);
        assert(tv.take(i + 1).drop_last() =~= tv.take(i as int));
        assert(tv.take(i + 1).last() == s@);
        let line: usize = match s {
            Suppression::FileLevel { .. } => 1,
            Suppression::LineLevel { line, .. } => if *line >= 1 {
                *line - 1
            } else {
                0
            },
            Suppression::SpecificRule { line, .. } => if *line >= 1 {
                *line - 1
            } else {
                0
            },
            Suppression::ItemLevel { attribute_line, .. } => *attribute_line,
            Suppression::ItemRule { attribute_line, .. } => *attribute_line,
        };
        if !parser.is_suppressed(line, "RC9002") {
            let mut m = str_chars("Suppression missing justification: ");
            let desc = describe_exec(s);
            push_all(&mut m, desc.as_slice());
            let d = Diagnostic {
                rule_id: "RC9002".to_owned(),
                message: chars_to_string(m.as_slice()),
                file: file.to_owned(),
                line,
                severity: Severity::Error,
                suppressed: false,
                suppression_justification: None,
            };
            let ghost old_out = out@;
            out.push(d);
            assert(diag_views(out@) =~= diag_views(old_out).push(d@));
        }
        i += 1;
    }
    assert(tv.take(todo.len() as int) =~= tv);
    out
}

} // verus!
