//! Structured output: the format chosen by a file's extension, and the
//! pieces of a SARIF report that depend on the findings.
use vstd::prelude::*;

use crate::diagnostic::{diag_views, DiagModel, Diagnostic, Severity};
use crate::lexis::chars_eq;
use crate::paths::{extension_of, portable_path, spec_extension};
use crate::text::{contains_str, str_chars};

verus! {

broadcast use vstd::std_specs::vec::group_vec_axioms;

/// Output format detected from file extension
#[derive(Debug, Clone, Copy, PartialEq, Eq, Structural)]
pub enum OutputFormat {
    Sarif,
    Json,
}

/// Name for the result of `str::to_lowercase` (Unicode lowercase mapping).
pub uninterp spec fn lowercase(s: Seq<char>) -> Seq<char>;

/// Every character is ASCII.
pub open spec fn ascii_text(s: Seq<char>) -> bool {
    forall|i: int| 0 <= i < s.len() ==> (s[i] as u32) < 128
}

/// The ASCII lowercase of a character: `A`..`Z` to `a`..`z`, others kept.
pub open spec fn ascii_lower(c: char) -> char {
    if 'A' <= c && c <= 'Z' {
        ((c as u32) + 32) as char
    } else {
        c
    }
}

/// Calls `str::to_lowercase`. Claimed: the result is the named `lowercase`
/// of the text; for ASCII text, each character lowered as ASCII.
#[verifier::external_body]
fn to_lowercase(s: &str) -> (r: String)
    ensures
        r@ == lowercase(s@),
        ascii_text(s@) ==> r@ == s@.map_values(|c: char| ascii_lower(c)),
{
    s.to_lowercase()
}

/// The format an extension stands for, compared without case.
pub open spec fn format_for_extension(ext: Seq<char>) -> Option<OutputFormat> {
    let l = if ascii_text(ext) {
        ext.map_values(|c: char| ascii_lower(c))
    } else {
        lowercase(ext)
    };
    if l == "sarif"@ {
        Some(OutputFormat::Sarif)
    } else if l == "json"@ {
        Some(OutputFormat::Json)
    } else {
        None
    }
}

impl OutputFormat {
    /// The format an extension stands for (`sarif` or `json`, any case).
    pub fn for_extension(ext: &str) -> (r: Option<Self>)
        ensures
            r == format_for_extension(ext@),
    {
        let lower = to_lowercase(ext);
        let l = str_chars(lower.as_str());
        let sarif = str_chars("sarif");
        let json = str_chars("json");
        if chars_eq(l.as_slice(), sarif.as_slice()) {
            Some(OutputFormat::Sarif)
        } else if chars_eq(l.as_slice(), json.as_slice()) {
            Some(OutputFormat::Json)
        } else {
            None
        }
    }

    /// Detect format from file extension: the format of the extension
    /// `Path::extension` finds, if any. For a portable path that is the
    /// format of its extension; for any path, a format found is that of some
    /// part of the path that follows a `.`.
    pub fn from_path(path: &str) -> (r: Option<Self>)
        ensures
            r matches Some(f) ==> exists|e: Seq<char>|
                contains_str(path@, seq!['.'] + e) && #[trigger] format_for_extension(e) == Some(
                    f,
                ),
            portable_path(path@) ==> r == match spec_extension(path@) {
                Some(e) => format_for_extension(e),
                None => None,
            },
    {
        match extension_of(path) {
            Some(ext) => {
                let r = Self::for_extension(ext.as_str());
                assert(r matches Some(f) ==> contains_str(path@, seq!['.'] + ext@)
                    && format_for_extension(ext@) == Some(f));
                r
            },
            None => None,
        }
    }
}

/// The SARIF level of a severity.
pub open spec fn spec_level(s: Severity) -> Seq<char> {
    match s {
        Severity::Error => "error"@,
        Severity::Warning => "warning"@,
    }
}

pub fn severity_level(s: Severity) -> (r: &'static str)
    ensures
        r@ == spec_level(s),
{
    match s {
        Severity::Error => "error",
        Severity::Warning => "warning",
    }
}

/// One entry per rule, in the order the rules first occur, with the message
/// of that first finding.
pub open spec fn first_rules(diags: Seq<DiagModel>) -> Seq<(Seq<char>, Seq<char>)>
    decreases diags.len(),
{
    if diags.len() == 0 {
        seq![]
    } else {
        let rest = first_rules(diags.drop_last());
        let d = diags.last();
        if rest.map_values(|p: (Seq<char>, Seq<char>)| p.0).contains(d.rule_id) {
            rest
        } else {
            rest.push((d.rule_id, d.message))
        }
    }
}

/// The rules a report describes: each rule once, first occurrence first,
/// with the message of its first finding.
pub fn unique_rules(diagnostics: &[Diagnostic]) -> (r: Vec<(String, String)>)
    ensures
        r@.map_values(|p: (String, String)| (p.0@, p.1@)) == first_rules(diag_views(diagnostics@)),
{
    let ghost dv = diag_views(diagnostics@);
    let mut out: Vec<(String, String)> = Vec::new();
    let mut i: usize = 0;
    while i < diagnostics.len()
        invariant
            i <= diagnostics.len(),
            dv == diag_views(diagnostics@),
            out@.map_values(|p: (String, String)| (p.0@, p.1@)) == first_rules(
                dv.take(i as int),
            ),
        decreases diagnostics.len() - i,
    {
        let d = &diagnostics[i];
        let ghost t = dv.take(i + 1);
        assert(t.drop_last() =~= dv.take(i as int));
        assert(t.last() == d@);
        let ghost ov = out@.map_values(|p: (String, String)| (p.0@, p.1@));
        let rid = str_chars(d.rule_id.as_str());
        let mut seen = false;
        let mut k: usize = 0;
        while k < out.len()
            invariant
                k <= out.len(),
                rid@ == d.rule_id@,
                ov == out@.map_values(|p: (String, String)| (p.0@, p.1@)),
                seen == exists|q: int| 0 <= q < k && #[trigger] ov[q].0 == d.rule_id@,
            decreases out.len() - k,
        {
            let c = str_chars(out[k].0.as_str());
            assert(ov[k as int].0 == out@[k as int].0@);
            if chars_eq(c.as_slice(), rid.as_slice()) {
                seen = true;
            }
            k += 1;
        }
        proof {
            let keys = ov.map_values(|p: (Seq<char>, Seq<char>)| p.0);
            if seen {
                let q = choose|q: int| 0 <= q < out.len() && #[trigger] ov[q].0 == d.rule_id@;
                assert(keys[q] == d.rule_id@);
            } else {
                assert forall|q: int| 0 <= q < keys.len() implies keys[q] != d.rule_id@ by {
                    assert(keys[q] == ov[q].0);
                }
            }
        }
        if !seen {
            let ghost old_out = out@;
            out.push((d.rule_id.clone(), d.message.clone()));
            assert(out@.map_values(|p: (String, String)| (p.0@, p.1@)) =~= old_out.map_values(
                |p: (String, String)| (p.0@, p.1@),
            ).push((d.rule_id@, d.message@)));
        }
        i += 1;
    }
    assert(dv.take(diagnostics.len() as int) =~= dv);
    out
}

/// A report describes each rule once: the rule ids of `first_rules` are
/// pairwise different, and every rule of a finding is among them.
pub proof fn law_rules_listed_once(diags: Seq<DiagModel>)
    ensures
        forall|i: int, j: int|
            0 <= i < j < first_rules(diags).len() ==> (#[trigger] first_rules(diags)[i]).0 != (
            #[trigger] first_rules(diags)[j]).0,
        forall|k: int|
            0 <= k < diags.len() ==> first_rules(diags).map_values(
                |p: (Seq<char>, Seq<char>)| p.0,
            ).contains(#[trigger] diags[k].rule_id),
    decreases diags.len(),
{
    if diags.len() > 0 {
        let prev = diags.drop_last();
        law_rules_listed_once(prev);
        let rest = first_rules(prev);
        let keys = rest.map_values(|p: (Seq<char>, Seq<char>)| p.0);
        let r = first_rules(diags);
        let rkeys = r.map_values(|p: (Seq<char>, Seq<char>)| p.0);
        let d = diags.last();
        if !keys.contains(d.rule_id) {
            assert forall|i: int, j: int| 0 <= i < j < r.len() implies (#[trigger] r[i]).0 != (
            #[trigger] r[j]).0 by {
                if j == rest.len() {
                    assert(r[i] == rest[i]);
                    assert(keys[i] == rest[i].0);
                } else {
                    assert(r[i] == rest[i]);
                    assert(r[j] == rest[j]);
                }
            }
        }
        assert forall|k: int| 0 <= k < diags.len() implies rkeys.contains(
            #[trigger] diags[k].rule_id,
        ) by {
            if k < prev.len() {
                assert(prev[k] == diags[k]);
                assert(keys.contains(prev[k].rule_id));
                let w = choose|w: int| 0 <= w < keys.len() && keys[w] == prev[k].rule_id;
                assert(rkeys[w] == keys[w]);
            } else if keys.contains(d.rule_id) {
                let w = choose|w: int| 0 <= w < keys.len() && keys[w] == d.rule_id;
                assert(rkeys[w] == keys[w]);
            } else {
                assert(rkeys[rest.len() as int] == d.rule_id);
            }
        }
    }
}

// ---------------------------------------------------------------------------
// SARIF log
// ---------------------------------------------------------------------------

/// An in-source suppression of a SARIF result.
pub struct SarifSuppression {
    pub kind: String,
    pub justification: Option<String>,
}

/// One SARIF result: a finding with its rule, level, message and place.
pub struct SarifResult {
    pub rule_id: String,
    pub level: String,
    pub message: String,
    pub uri: String,
    pub start_line: usize,
    pub suppression: Option<SarifSuppression>,
}

/// A SARIF log of one run of the tool.
pub struct SarifLog {
    pub version: String,
    pub tool_name: String,
    pub tool_version: String,
    pub information_uri: String,
    /// Each rule once, with the message of its first finding.
    pub rules: Vec<(String, String)>,
    pub results: Vec<SarifResult>,
}

pub struct SarifSuppressionView {
    pub kind: Seq<char>,
    pub justification: Option<Seq<char>>,
}

pub struct SarifResultView {
    pub rule_id: Seq<char>,
    pub level: Seq<char>,
    pub message: Seq<char>,
    pub uri: Seq<char>,
    pub start_line: int,
    pub suppression: Option<SarifSuppressionView>,
}

pub struct SarifLogView {
    pub version: Seq<char>,
    pub tool_name: Seq<char>,
    pub tool_version: Seq<char>,
    pub information_uri: Seq<char>,
    pub rules: Seq<(Seq<char>, Seq<char>)>,
    pub results: Seq<SarifResultView>,
}

pub open spec fn opt_text(o: Option<String>) -> Option<Seq<char>> {
    match o {
        Some(t) => Some(t@),
        None => None,
    }
}

impl View for SarifSuppression {
    type V = SarifSuppressionView;

    open spec fn view(&self) -> SarifSuppressionView {
        SarifSuppressionView { kind: self.kind@, justification: opt_text(self.justification) }
    }
}

impl View for SarifResult {
    type V = SarifResultView;

    open spec fn view(&self) -> SarifResultView {
        SarifResultView {
            rule_id: self.rule_id@,
            level: self.level@,
            message: self.message@,
            uri: self.uri@,
            start_line: self.start_line as int,
            suppression: match self.suppression {
                Some(x) => Some(x@),
                None => None,
            },
        }
    }
}

impl View for SarifLog {
    type V = SarifLogView;

    open spec fn view(&self) -> SarifLogView {
        SarifLogView {
            version: self.version@,
            tool_name: self.tool_name@,
            tool_version: self.tool_version@,
            information_uri: self.information_uri@,
            rules: self.rules@.map_values(|p: (String, String)| (p.0@, p.1@)),
            results: self.results@.map_values(|x: SarifResult| x@),
        }
    }
}

/// The SARIF result of a finding: its rule, the level of its severity, its
/// message, file and line, and for a suppressed finding an in-source
/// suppression carrying the justification.
pub open spec fn spec_sarif_result(d: DiagModel) -> SarifResultView {
    SarifResultView {
        rule_id: d.rule_id,
        level: spec_level(d.severity),
        message: d.message,
        uri: d.file,
        start_line: d.line,
        suppression: if d.suppressed {
            Some(
                SarifSuppressionView {
                    kind: "inSource"@,
                    justification: d.suppression_justification,
                },
            )
        } else {
            None
        },
    }
}

/// The SARIF 2.1.0 log of a run: the tool `rustcop` at the given version,
/// each rule once in first-occurrence order, and one result per finding, in
/// order.
pub open spec fn spec_sarif_log(diags: Seq<DiagModel>, tool_version: Seq<char>) -> SarifLogView {
    SarifLogView {
        version: "2.1.0"@,
        tool_name: "rustcop"@,
        tool_version,
        information_uri: "https://github.com/tsharp/rustcop"@,
        rules: first_rules(diags),
        results: diags.map_values(|d: DiagModel| spec_sarif_result(d)),
    }
}

fn copy_opt_text(o: &Option<String>) -> (r: Option<String>)
    ensures
        opt_text(r) == opt_text(*o),
{
    match o {
        Some(t) => Some(t.clone()),
        None => None,
    }
}

fn sarif_result(d: &Diagnostic) -> (r: SarifResult)
    ensures
        r@ == spec_sarif_result(d@),
{
    let suppression = if d.suppressed {
        Some(
            SarifSuppression {
                kind: "inSource".to_owned(),
                justification: copy_opt_text(&d.suppression_justification),
            },
        )
    } else {
        None
    };
    proof {
        reveal_strlit("inSource");
    }
    SarifResult {
        rule_id: d.rule_id.clone(),
        level: severity_level(d.severity).to_owned(),
        message: d.message.clone(),
        uri: d.file.clone(),
        start_line: d.line,
        suppression,
    }
}

/// The SARIF log of the findings, for the tool at `tool_version`.
pub fn sarif_log(diagnostics: &[Diagnostic], tool_version: &str) -> (r: SarifLog)
    ensures
        r@ == spec_sarif_log(diag_views(diagnostics@), tool_version@),
        r.results@.len() == diagnostics@.len(),
        forall|i: int|
            0 <= i < diagnostics@.len() ==> {
                let x = #[trigger] r.results@[i];
                let d = diagnostics@[i];
                &&& x.rule_id@ == d.rule_id@
                &&& x.message@ == d.message@
                &&& x.uri@ == d.file@
                &&& x.start_line == d.line
                &&& (x.suppression is Some <==> d.suppressed)
            },
{
    let ghost dv = diag_views(diagnostics@);
    let mut results: Vec<SarifResult> = Vec::new();
    let mut i: usize = 0;
    while i < diagnostics.len()
        invariant
            i <= diagnostics.len(),
            dv == diag_views(diagnostics@),
            results@.map_values(|x: SarifResult| x@) == dv.take(i as int).map_values(
                |d: DiagModel| spec_sarif_result(d),
            ),
        decreases diagnostics.len() - i,
    {
        let x = sarif_result(&diagnostics[i]);
        let ghost before = results@;
        results.push(x);
        assert(results@.map_values(|x: SarifResult| x@) =~= before.map_values(
            |x: SarifResult| x@,
        ).push(x@));
        assert(dv.take(i + 1).map_values(|d: DiagModel| spec_sarif_result(d)) =~= dv.take(
            i as int,
        ).map_values(|d: DiagModel| spec_sarif_result(d)).push(spec_sarif_result(dv[i as int])));
        i += 1;
    }
    assert(dv.take(diagnostics.len() as int) =~= dv);
    proof {
        reveal_strlit("2.1.0");
        reveal_strlit("rustcop");
        reveal_strlit("https://github.com/tsharp/rustcop");
    }
    proof {
        law_sarif_results_follow_findings(dv, tool_version@);
    }
    let r = SarifLog {
        version: "2.1.0".to_owned(),
        tool_name: "rustcop".to_owned(),
        tool_version: tool_version.to_owned(),
        information_uri: "https://github.com/tsharp/rustcop".to_owned(),
        rules: unique_rules(diagnostics),
        results,
    };
    assert forall|i: int| 0 <= i < diagnostics@.len() implies {
        let x = #[trigger] r.results@[i];
        let d = diagnostics@[i];
        &&& x.rule_id@ == d.rule_id@
        &&& x.message@ == d.message@
        &&& x.uri@ == d.file@
        &&& x.start_line == d.line
        &&& (x.suppression is Some <==> d.suppressed)
    } by {
        assert(r@.results[i] == r.results@[i]@);
        assert(dv[i] == diagnostics@[i]@);
    }
    r
}

/// A SARIF log has one result per finding, in order, and each result
/// carries its finding's own rule, message, file and line; its level is
/// `error` for an error and `warning` for a warning; it has a suppression
/// exactly when the finding is suppressed, of kind `inSource` with the
/// finding's justification.
pub proof fn law_sarif_results_follow_findings(diags: Seq<DiagModel>, tool_version: Seq<char>)
    ensures
        spec_sarif_log(diags, tool_version).results.len() == diags.len(),
        spec_sarif_log(diags, tool_version).version == "2.1.0"@,
        spec_sarif_log(diags, tool_version).tool_version == tool_version,
        forall|i: int|
            0 <= i < diags.len() ==> {
                let r = #[trigger] spec_sarif_log(diags, tool_version).results[i];
                let d = diags[i];
                &&& r.rule_id == d.rule_id
                &&& r.message == d.message
                &&& r.uri == d.file
                &&& r.start_line == d.line
                &&& (d.severity == Severity::Error ==> r.level == "error"@)
                &&& (d.severity == Severity::Warning ==> r.level == "warning"@)
                &&& (r.suppression is Some <==> d.suppressed)
                &&& (d.suppressed ==> r.suppression == Some(
                    SarifSuppressionView {
                        kind: "inSource"@,
                        justification: d.suppression_justification,
                    },
                ))
            },
{
}

} // verus!
