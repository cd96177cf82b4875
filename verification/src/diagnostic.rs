//! Findings reported by the rules.
use vstd::prelude::*;

verus! {

/// How serious a finding is.
#[derive(Debug, Clone, Copy, PartialEq, Eq, Structural)]
pub enum Severity {
    Warning,
    Error,
}

/// One finding: which rule, what it says, where, and whether an in-source
/// directive suppressed it.
#[derive(Debug, Clone)]
pub struct Diagnostic {
    pub rule_id: String,
    pub message: String,
    pub file: String,
    pub line: usize,
    pub severity: Severity,
    pub suppressed: bool,
    pub suppression_justification: Option<String>,
}

/// A finding as plain values.
pub struct DiagModel {
    pub rule_id: Seq<char>,
    pub message: Seq<char>,
    pub file: Seq<char>,
    pub line: int,
    pub severity: Severity,
    pub suppressed: bool,
    pub suppression_justification: Option<Seq<char>>,
}

impl View for Diagnostic {
    type V = DiagModel;

    open spec fn view(&self) -> DiagModel {
        DiagModel {
            rule_id: self.rule_id@,
            message: self.message@,
            file: self.file@,
            line: self.line as int,
            severity: self.severity,
            suppressed: self.suppressed,
            suppression_justification: match self.suppression_justification {
                Some(j) => Some(j@),
                None => None,
            },
        }
    }
}

pub open spec fn diag_views(s: Seq<Diagnostic>) -> Seq<DiagModel> {
    s.map_values(|d: Diagnostic| d@)
}

/// An unsuppressed finding with these fields.
pub open spec fn finding(
    rule_id: Seq<char>,
    message: Seq<char>,
    file: Seq<char>,
    line: int,
    severity: Severity,
) -> DiagModel {
    DiagModel {
        rule_id,
        message,
        file,
        line,
        severity,
        suppressed: false,
        suppression_justification: None,
    }
}

/// `d` is an unsuppressed finding with exactly these fields.
pub open spec fn reports(
    d: Diagnostic,
    rule_id: Seq<char>,
    message: Seq<char>,
    file: Seq<char>,
    line: int,
    severity: Severity,
) -> bool {
    &&& d.rule_id@ == rule_id
    &&& d.message@ == message
    &&& d.file@ == file
    &&& d.line == line
    &&& d.severity == severity
    &&& !d.suppressed
    &&& d.suppression_justification is None
}

} // verus!
