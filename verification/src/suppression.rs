//! In-source directives that switch findings off: a marker that covers the
//! whole file, or a comment that covers the line after it, for every rule or
//! for the rules it names, with an optional justification after a colon.
use vstd::prelude::*;

use crate::lexis::chars_eq;
use crate::text::{
    brace_delta, char_index, chars_to_string, contains, contains_str, find, find_str, has_prefix,
    index_of_char, lemma_index_of_char, lines, lines_of, slice_chars, split_char, split_chars,
    starts_with, str_chars, strip_cr, trim, trim_chars, view_all,
};

verus! {

broadcast use vstd::std_specs::vec::group_vec_axioms;

/// Represents a suppression directive
#[derive(Debug, Clone, PartialEq)]
pub enum Suppression {
    /// Suppress all rules for the entire file
    FileLevel { justification: Option<String> },
    /// Suppress all rules on a specific line
    LineLevel { line: usize, justification: Option<String> },
    /// Suppress a specific rule on a specific line
    SpecificRule { line: usize, rule: String, justification: Option<String> },
    /// Suppress all rules on the lines of the item under an outer
    /// `#[rustcop::ignore]` attribute written on `attribute_line`
    ItemLevel { attribute_line: usize, first_line: usize, last_line: usize, justification: Option<String> },
    /// Suppress one rule on the lines of the item under an outer
    /// `#[rustcop::ignore(..)]` attribute written on `attribute_line`
    ItemRule {
        attribute_line: usize,
        first_line: usize,
        last_line: usize,
        rule: String,
        justification: Option<String>,
    },
}

/// A directive as plain values.
pub enum SuppressionModel {
    FileLevel { justification: Option<Seq<char>> },
    LineLevel { line: int, justification: Option<Seq<char>> },
    SpecificRule { line: int, rule: Seq<char>, justification: Option<Seq<char>> },
    ItemLevel { attribute_line: int, first_line: int, last_line: int, justification: Option<Seq<char>> },
    ItemRule {
        attribute_line: int,
        first_line: int,
        last_line: int,
        rule: Seq<char>,
        justification: Option<Seq<char>>,
    },
}

pub open spec fn text_view(o: Option<String>) -> Option<Seq<char>> {
    match o {
        Some(s) => Some(s@),
        None => None,
    }
}

impl View for Suppression {
    type V = SuppressionModel;

    open spec fn view(&self) -> SuppressionModel {
        match self {
            Suppression::FileLevel { justification } => SuppressionModel::FileLevel {
                justification: text_view(*justification),
            },
            Suppression::LineLevel { line, justification } => SuppressionModel::LineLevel {
                line: *line as int,
                justification: text_view(*justification),
            },
            Suppression::SpecificRule { line, rule, justification } =>
                SuppressionModel::SpecificRule {
                line: *line as int,
                rule: rule@,
                justification: text_view(*justification),
            },
            Suppression::ItemLevel { attribute_line, first_line, last_line, justification } =>
                SuppressionModel::ItemLevel {
                attribute_line: *attribute_line as int,
                first_line: *first_line as int,
                last_line: *last_line as int,
                justification: text_view(*justification),
            },
            Suppression::ItemRule { attribute_line, first_line, last_line, rule, justification } =>
                SuppressionModel::ItemRule {
                attribute_line: *attribute_line as int,
                first_line: *first_line as int,
                last_line: *last_line as int,
                rule: rule@,
                justification: text_view(*justification),
            },
        }
    }
}

pub open spec fn suppression_views(s: Seq<Suppression>) -> Seq<SuppressionModel> {
    s.map_values(|x: Suppression| x@)
}

// ---------------------------------------------------------------------------
// File-level markers
// ---------------------------------------------------------------------------

/// How many leading lines are searched for a file-level marker.
pub open spec fn file_marker_window() -> int {
    20
}

/// A trimmed line that switches the whole file off.
pub open spec fn is_file_marker(t: Seq<char>) -> bool {
    ||| has_prefix(t, "// rustcop:ignore-file"@)
    ||| has_prefix(t, "//rustcop:ignore-file"@)
    ||| contains_str(t, "#![rustcop::ignore]"@)
    ||| contains_str(t, "#![ rustcop :: ignore ]"@)
    ||| contains_str(t, "#![rustcop::allow]"@)
}

/// One of the first twenty lines, trimmed, is a file-level marker.
pub open spec fn spec_has_file_level_suppression(content: Seq<char>) -> bool {
    let ls = lines_of(content);
    exists|i: int|
        0 <= i < ls.len() && i < file_marker_window() && #[trigger] is_file_marker(trim(ls[i]))
}

// ---------------------------------------------------------------------------
// Line comments
// ---------------------------------------------------------------------------

/// The pieces of a comma-separated list, trimmed, without the empty ones.
pub open spec fn clean_rules(parts: Seq<Seq<char>>) -> Seq<Seq<char>>
    decreases parts.len(),
{
    if parts.len() == 0 {
        seq![]
    } else {
        let rest = clean_rules(parts.drop_last());
        let t = trim(parts.last());
        if t.len() > 0 {
            rest.push(t)
        } else {
            rest
        }
    }
}

pub open spec fn rule_list(s: Seq<char>) -> Seq<Seq<char>> {
    clean_rules(split_char(s, ','))
}

/// Rules and justification of the text after a marker: what precedes the
/// first colon names the rules, what follows it is the justification.
pub open spec fn spec_extract_justification(a: Seq<char>) -> (
    Option<Seq<Seq<char>>>,
    Option<Seq<char>>,
) {
    match index_of_char(a, ':') {
        Some(p) => {
            let rules_part = trim(a.take(p));
            let justification = trim(a.skip(p + 1));
            if rules_part.len() == 0 {
                (None, Some(justification))
            } else {
                (Some(rule_list(rules_part)), Some(justification))
            }
        },
        None => if a.len() == 0 {
            (None, None)
        } else {
            (Some(rule_list(a)), None)
        },
    }
}

/// The trimmed text after the first comment marker, if there is one.
pub open spec fn after_marker(t: Seq<char>) -> Option<Seq<char>> {
    let m1 = "// rustcop:ignore"@;
    let m2 = "//rustcop:ignore"@;
    match find_str(t, m1) {
        Some(p) => Some(trim(t.skip(p + m1.len()))),
        None => match find_str(t, m2) {
            Some(p) => Some(trim(t.skip(p + m2.len()))),
            None => None,
        },
    }
}

pub open spec fn specific_rules(rules: Seq<Seq<char>>, line: int, j: Option<Seq<char>>) -> Seq<
    SuppressionModel,
> {
    rules.map_values(
        |r: Seq<char>| SuppressionModel::SpecificRule { line, rule: r, justification: j },
    )
}

/// What a comment on line `line_num` (1-based) suppresses: the next line,
/// for each rule it names or, naming none, for every rule.
pub open spec fn spec_parse_comment_suppressions(line: Seq<char>, line_num: int) -> Seq<
    SuppressionModel,
> {
    match after_marker(trim(line)) {
        None => seq![],
        Some(a) => {
            let (rules, j) = spec_extract_justification(a);
            match rules {
                Some(rs) => specific_rules(rs, line_num + 1, j),
                None => seq![SuppressionModel::LineLevel { line: line_num + 1, justification: j }],
            }
        },
    }
}

/// The comment directives of all lines, in line order.
pub open spec fn comment_suppressions_from(lines: Seq<Seq<char>>) -> Seq<SuppressionModel>
    decreases lines.len(),
{
    if lines.len() == 0 {
        seq![]
    } else {
        comment_suppressions_from(lines.drop_last()) + spec_parse_comment_suppressions(
            lines.last(),
            lines.len() as int,
        )
    }
}

// ---------------------------------------------------------------------------
// Item attributes
// ---------------------------------------------------------------------------

pub open spec fn attr_marker() -> Seq<char> {
    "#[rustcop::ignore"@
}

/// The text before the first `c`, or all of it.
pub open spec fn take_until(s: Seq<char>, c: char) -> Seq<char> {
    match index_of_char(s, c) {
        Some(k) => s.take(k),
        None => s,
    }
}

/// The text inside the first pair of double quotes (to the end when the
/// closing quote is missing); none without a quote.
pub open spec fn quoted(s: Seq<char>) -> Option<Seq<char>> {
    match index_of_char(s, '"') {
        Some(q) => Some(take_until(s.skip(q + 1), '"')),
        None => None,
    }
}

/// The rules and justification of an outer `#[rustcop::ignore]` or
/// `#[rustcop::ignore(RULE, .., justification = "..")]` attribute on a
/// trimmed line; none for any other line. No rules means every rule.
pub open spec fn attr_args(t: Seq<char>) -> Option<(Seq<Seq<char>>, Option<Seq<char>>)> {
    if !has_prefix(t, attr_marker()) {
        None
    } else {
        let rest = t.skip(attr_marker().len() as int);
        if rest.len() > 0 && rest[0] == ']' {
            Some((seq![], None))
        } else if rest.len() > 0 && rest[0] == '(' {
            let inner = rest.drop_first();
            match find_str(inner, "justification"@) {
                Some(p) => Some((rule_list(inner.take(p)), quoted(inner.skip(p + 13)))),
                None => Some((rule_list(take_until(inner, ')')), None)),
            }
        } else {
            None
        }
    }
}

/// The first line from `j` on that is not an attribute, a comment or blank:
/// where the item under an attribute starts.
pub open spec fn item_start(lines: Seq<Seq<char>>, j: int) -> int
    decreases lines.len() - j,
{
    if j < 0 || j >= lines.len() {
        lines.len() as int
    } else {
        let t = trim(lines[j]);
        if has_prefix(t, "#["@) || has_prefix(t, "//"@) || t.len() == 0 {
            item_start(lines, j + 1)
        } else {
            j
        }
    }
}

/// Where an item that starts at or before `j` ends, `depth` being the
/// brace depth before line `j`: the first line after which the braces are
/// balanced and that holds a brace or a `;`; the last line when there is
/// none.
pub open spec fn item_end(lines: Seq<Seq<char>>, j: int, depth: int) -> int
    decreases lines.len() - j,
{
    if j < 0 || j >= lines.len() {
        lines.len() - 1
    } else {
        let d = depth + brace_delta(lines[j]);
        if d <= 0 && (lines[j].contains('{') || lines[j].contains('}') || lines[j].contains(';')) {
            j
        } else {
            item_end(lines, j + 1, d)
        }
    }
}

/// What an attribute on the line at index `i` suppresses: every rule, or
/// each rule it names, on the 1-based lines of the item under it.
pub open spec fn spec_attr_suppressions(lines: Seq<Seq<char>>, i: int) -> Seq<SuppressionModel> {
    match attr_args(trim(lines[i])) {
        None => seq![],
        Some((rules, j)) => {
            let s = item_start(lines, i + 1);
            if s >= lines.len() {
                seq![]
            } else {
                let e = item_end(lines, s, 0);
                if rules.len() == 0 {
                    seq![
                        SuppressionModel::ItemLevel {
                            attribute_line: i + 1,
                            first_line: s + 1,
                            last_line: e + 1,
                            justification: j,
                        },
                    ]
                } else {
                    rules.map_values(
                        |r: Seq<char>|
                            SuppressionModel::ItemRule {
                                attribute_line: i + 1,
                                first_line: s + 1,
                                last_line: e + 1,
                                rule: r,
                                justification: j,
                            },
                    )
                }
            }
        },
    }
}

/// The attribute directives of the first `n` lines, in line order.
pub open spec fn attr_suppressions_upto(lines: Seq<Seq<char>>, n: int) -> Seq<SuppressionModel>
    decreases n,
{
    if n <= 0 || n > lines.len() {
        seq![]
    } else {
        attr_suppressions_upto(lines, n - 1) + spec_attr_suppressions(lines, n - 1)
    }
}

/// The directives of a file: a single file-level one when a marker is
/// found, else those of its comments followed by those of its item
/// attributes.
pub open spec fn spec_parse(content: Seq<char>) -> Seq<SuppressionModel> {
    if spec_has_file_level_suppression(content) {
        seq![SuppressionModel::FileLevel { justification: None }]
    } else {
        comment_suppressions_from(lines_of(content)) + attr_suppressions_upto(
            lines_of(content),
            lines_of(content).len() as int,
        )
    }
}

/// Whether directive `s` covers `rule_id` on `line`.
pub open spec fn applies(s: SuppressionModel, line: int, rule_id: Seq<char>) -> bool {
    match s {
        SuppressionModel::FileLevel { .. } => true,
        SuppressionModel::LineLevel { line: l, .. } => l == line,
        SuppressionModel::SpecificRule { line: l, rule, .. } => l == line && rule == rule_id,
        SuppressionModel::ItemLevel { first_line, last_line, .. } => first_line <= line
            <= last_line,
        SuppressionModel::ItemRule { first_line, last_line, rule, .. } => first_line <= line
            <= last_line && rule == rule_id,
    }
}

pub open spec fn spec_is_suppressed(sups: Seq<SuppressionModel>, line: int, rule_id: Seq<char>) -> bool {
    exists|k: int| 0 <= k < sups.len() && #[trigger] applies(sups[k], line, rule_id)
}

/// The first directive that covers `rule_id` on `line`.
pub open spec fn first_applying(sups: Seq<SuppressionModel>, line: int, rule_id: Seq<char>) -> Option<
    SuppressionModel,
>
    decreases sups.len(),
{
    if sups.len() == 0 {
        None
    } else if applies(sups[0], line, rule_id) {
        Some(sups[0])
    } else {
        first_applying(sups.drop_first(), line, rule_id)
    }
}

pub open spec fn justification_of(s: SuppressionModel) -> Option<Seq<char>> {
    match s {
        SuppressionModel::FileLevel { justification } => justification,
        SuppressionModel::LineLevel { justification, .. } => justification,
        SuppressionModel::SpecificRule { justification, .. } => justification,
        SuppressionModel::ItemLevel { justification, .. } => justification,
        SuppressionModel::ItemRule { justification, .. } => justification,
    }
}

pub open spec fn lacks_justification(s: SuppressionModel) -> bool {
    justification_of(s) is None
}

/// The directives without a justification, in order.
pub open spec fn unjustified(sups: Seq<SuppressionModel>) -> Seq<SuppressionModel>
    decreases sups.len(),
{
    if sups.len() == 0 {
        seq![]
    } else {
        let rest = unjustified(sups.drop_last());
        if lacks_justification(sups.last()) {
            rest.push(sups.last())
        } else {
            rest
        }
    }
}

/// A file's lines are no more than its characters.
pub proof fn lemma_lines_count(s: Seq<char>)
    ensures
        lines_of(s).len() <= s.len(),
    decreases s.len(),
{
    if s.len() > 0 {
        lemma_index_of_char(s, '\n');
        if let Some(i) = index_of_char(s, '\n') {
            lemma_lines_count(s.skip(i + 1));
        }
    }
}

/// Parse suppression directives from source code
pub struct SuppressionParser {
    pub suppressions: Vec<Suppression>,
}

impl SuppressionParser {
    /// The directives as plain values.
    pub open spec fn sups(&self) -> Seq<SuppressionModel> {
        suppression_views(self.suppressions@)
    }

    /// Parse suppressions from source code
    pub fn parse(content: &str) -> (r: Self)
        requires
            content@.len() < usize::MAX,
        ensures
            r.sups() == spec_parse(content@),
    {
        let mut suppressions: Vec<Suppression> = Vec::new();
        if Self::has_file_level_suppression(content) {
            suppressions.push(Suppression::FileLevel { justification: None });
            let r = SuppressionParser { suppressions };
            assert(r.sups() =~= seq![SuppressionModel::FileLevel { justification: None }]);
            return r;
        }
        let chars = str_chars(content);
        let ls = lines(chars.as_slice());
        let ghost lv = view_all(ls@);
        proof {
            lemma_lines_count(content@);
        }
        let mut i: usize = 0;
        assert(suppression_views(suppressions@) =~= comment_suppressions_from(lv.take(0)));
        while i < ls.len()
            invariant
                i <= ls.len(),
                ls.len() < usize::MAX,
                lv == view_all(ls@),
                suppression_views(suppressions@) == comment_suppressions_from(lv.take(i as int)),
            decreases ls.len() - i,
        {
            let mut line_sups = Self::parse_comment_suppressions(ls[i].as_slice(), i + 1);
            let ghost before = suppressions@;
            let ghost added = line_sups@;
            suppressions.append(&mut line_sups);
            proof {
                assert(lv.take(i + 1).drop_last() =~= lv.take(i as int));
                assert(lv.take(i + 1).last() == ls@[i as int]@);
                assert(suppression_views(suppressions@) =~= suppression_views(before)
                    + suppression_views(added));
            }
            i += 1;
        }
        assert(lv.take(ls.len() as int) =~= lv);
        let ghost comments = suppression_views(suppressions@);
        proof {
            crate::text::lemma_lines_small(content@);
        }
        let mut attrs: Vec<Suppression> = Vec::new();
        let mut i: usize = 0;
        assert(suppression_views(attrs@) =~= attr_suppressions_upto(lv, 0));
        while i < ls.len()
            invariant
                i <= ls.len(),
                ls.len() < usize::MAX,
                lv == view_all(ls@),
                lv.len() == ls.len(),
                crate::text::small_lines(lv),
                suppression_views(attrs@) == attr_suppressions_upto(lv, i as int),
            decreases ls.len() - i,
        {
            let mut found = attr_suppressions_exec(&ls, i);
            let ghost before = attrs@;
            let ghost added = found@;
            attrs.append(&mut found);
            assert(suppression_views(attrs@) =~= suppression_views(before) + suppression_views(
                added,
            ));
            i += 1;
        }
        let ghost av = suppression_views(attrs@);
        suppressions.append(&mut attrs);
        assert(suppression_views(suppressions@) =~= comments + av);
        SuppressionParser { suppressions }
    }

    /// Check if file has file-level suppression
    fn has_file_level_suppression(content: &str) -> (r: bool)
        ensures
            r == spec_has_file_level_suppression(content@),
    {
        let chars = str_chars(content);
        let ls = lines(chars.as_slice());
        let ghost lv = view_all(ls@);
        let m1 = str_chars("// rustcop:ignore-file");
        let m2 = str_chars("//rustcop:ignore-file");
        let m3 = str_chars("#![rustcop::ignore]");
        let m4 = str_chars("#![ rustcop :: ignore ]");
        let m5 = str_chars("#![rustcop::allow]");
        let mut i: usize = 0;
        while i < ls.len() && i < 20
            invariant
                i <= ls.len(),
                i <= 20,
                lv == view_all(ls@),
                lv == lines_of(content@),
                m1@ == "// rustcop:ignore-file"@,
                m2@ == "//rustcop:ignore-file"@,
                m3@ == "#![rustcop::ignore]"@,
                m4@ == "#![ rustcop :: ignore ]"@,
                m5@ == "#![rustcop::allow]"@,
                forall|k: int| 0 <= k < i ==> !#[trigger] is_file_marker(trim(lv[k])),
            decreases ls.len() - i,
        {
            let trimmed = trim_chars(ls[i].as_slice());
            assert(lv[i as int] == ls@[i as int]@);
            let t = trimmed.as_slice();
            if starts_with(t, m1.as_slice()) || starts_with(t, m2.as_slice()) || contains(
                t,
                m3.as_slice(),
            ) || contains(t, m4.as_slice()) || contains(t, m5.as_slice()) {
                assert(is_file_marker(trim(lv[i as int])));
                return true;
            }
            i += 1;
        }
        false
    }

    /// Extract justification from a suppression comment
    /// Justifications come after a colon: "// rustcop:ignore: Justification here"
    fn extract_justification(after_marker: &[char]) -> (r: (Option<Vec<Vec<char>>>, Option<Vec<char>>))
        ensures
            (match r.0 {
                Some(v) => Some(view_all(v@)),
                None => None,
            }, match r.1 {
                Some(v) => Some(v@),
                None => None,
            }) == spec_extract_justification(after_marker@),
    {
        match char_index(after_marker, ':') {
            Some(colon_pos) => {
                proof {
                    lemma_index_of_char(after_marker@, ':');
                }
                let head = slice_chars(after_marker, 0, colon_pos);
                let rules_part = trim_chars(head.as_slice());
                let tail = slice_chars(after_marker, colon_pos + 1, after_marker.len());
                let justification = trim_chars(tail.as_slice());
                assert(head@ =~= after_marker@.take(colon_pos as int));
                assert(tail@ =~= after_marker@.skip(colon_pos + 1));
                if rules_part.len() == 0 {
                    (None, Some(justification))
                } else {
                    (Some(rules_of(rules_part.as_slice())), Some(justification))
                }
            },
            None => {
                if after_marker.len() == 0 {
                    (None, None)
                } else {
                    (Some(rules_of(after_marker)), None)
                }
            },
        }
    }

    /// Parse a comment-based suppression on a single line
    /// Returns a vector of suppressions since one comment can suppress multiple rules
    fn parse_comment_suppressions(line: &[char], line_num: usize) -> (r: Vec<Suppression>)
        requires
            line_num < usize::MAX,
        ensures
            suppression_views(r@) == spec_parse_comment_suppressions(line@, line_num as int),
    {
        let trimmed = trim_chars(line);
        let target_line = line_num + 1;
        let m1 = str_chars("// rustcop:ignore");
        let m2 = str_chars("//rustcop:ignore");
        let after: Option<Vec<char>> = match find(trimmed.as_slice(), m1.as_slice()) {
            Some(pos) => {
                proof {
                    crate::text::lemma_find_from(trimmed@, m1@, 0);
                    assert(crate::text::occurs_at(trimmed@, m1@, pos as int));
                }
                let rest = slice_chars(trimmed.as_slice(), pos + m1.len(), trimmed.len());
                assert(rest@ =~= trimmed@.skip(pos + m1@.len()));
                Some(trim_chars(rest.as_slice()))
            },
            None => match find(trimmed.as_slice(), m2.as_slice()) {
                Some(pos) => {
                    proof {
                        crate::text::lemma_find_from(trimmed@, m2@, 0);
                    assert(crate::text::occurs_at(trimmed@, m2@, pos as int));
                    }
                    let rest = slice_chars(trimmed.as_slice(), pos + m2.len(), trimmed.len());
                    assert(rest@ =~= trimmed@.skip(pos + m2@.len()));
                    Some(trim_chars(rest.as_slice()))
                },
                None => None,
            },
        };
        match after {
            None => Vec::new(),
            Some(a) => {
                let (rules, justification) = Self::extract_justification(a.as_slice());
                let ghost jv: Option<Seq<char>> = match &justification {
                    Some(v) => Some(v@),
                    None => None,
                };
                match rules {
                    Some(rs) => {
                        let mut out: Vec<Suppression> = Vec::new();
                        let mut k: usize = 0;
                        while k < rs.len()
                            invariant
                                k <= rs.len(),
                                suppression_views(out@) == specific_rules(
                                    view_all(rs@),
                                    target_line as int,
                                    jv,
                                ).take(k as int),
                                jv == match &justification {
                                    Some(v) => Some(v@),
                                    None => None,
                                },
                            decreases rs.len() - k,
                        {
                            let j = match &justification {
                                Some(v) => Some(chars_to_string(v.as_slice())),
                                None => None,
                            };
                            let s = Suppression::SpecificRule {
                                line: target_line,
                                rule: chars_to_string(rs[k].as_slice()),
                                justification: j,
                            };
                            assert(text_view(j) == jv);
                            assert(s@ == specific_rules(view_all(rs@), target_line as int, jv)[k as int]);
                            let ghost old_out = out@;
                            out.push(s);
                            assert(suppression_views(out@) =~= suppression_views(old_out).push(s@));
                            assert(suppression_views(out@) =~= specific_rules(
                                view_all(rs@),
                                target_line as int,
                                jv,
                            ).take(k + 1));
                            k += 1;
                        }
                        assert(specific_rules(view_all(rs@), target_line as int, jv).take(
                            rs.len() as int,
                        ) =~= specific_rules(view_all(rs@), target_line as int, jv));
                        out
                    },
                    None => {
                        let j = match justification {
                            Some(v) => Some(chars_to_string(v.as_slice())),
                            None => None,
                        };
                        let out = vec![Suppression::LineLevel { line: target_line, justification: j }];
                        assert(suppression_views(out@) =~= seq![
                            SuppressionModel::LineLevel { line: target_line as int, justification: jv },
                        ]);
                        out
                    },
                }
            },
        }
    }

    /// Check if a diagnostic should be suppressed
    pub fn is_suppressed(&self, line: usize, rule_id: &str) -> (r: bool)
        ensures
            r == spec_is_suppressed(self.sups(), line as int, rule_id@),
    {
        let rid = str_chars(rule_id);
        let mut k: usize = 0;
        while k < self.suppressions.len()
            invariant
                k <= self.suppressions.len(),
                rid@ == rule_id@,
                forall|q: int| 0 <= q < k ==> !#[trigger] applies(self.sups()[q], line as int, rule_id@),
            decreases self.suppressions.len() - k,
        {
            let hit = match &self.suppressions[k] {
                Suppression::FileLevel { .. } => true,
                Suppression::LineLevel { line: sup_line, .. } => *sup_line == line,
                Suppression::SpecificRule { line: sup_line, rule, .. } => {
                    *sup_line == line && chars_eq(str_chars(rule.as_str()).as_slice(), rid.as_slice())
                },
                Suppression::ItemLevel { first_line, last_line, .. } => *first_line <= line && line
                    <= *last_line,
                Suppression::ItemRule { first_line, last_line, rule, .. } => *first_line <= line
                    && line <= *last_line && chars_eq(
                    str_chars(rule.as_str()).as_slice(),
                    rid.as_slice(),
                ),
            };
            assert(self.sups()[k as int] == self.suppressions@[k as int]@);
            if hit {
                assert(applies(self.sups()[k as int], line as int, rule_id@));
                return true;
            }
            k += 1;
        }
        false
    }

    /// The justification of the first directive that covers `rule_id` on
    /// `line`; none when no directive covers it or that one has none.
    pub fn justification_for(&self, line: usize, rule_id: &str) -> (r: Option<String>)
        ensures
            text_view(r) == match first_applying(self.sups(), line as int, rule_id@) {
                Some(s) => justification_of(s),
                None => None,
            },
    {
        let rid = str_chars(rule_id);
        let mut k: usize = 0;
        assert(self.sups().skip(0) =~= self.sups());
        while k < self.suppressions.len()
            invariant
                k <= self.suppressions.len(),
                rid@ == rule_id@,
                first_applying(self.sups().skip(k as int), line as int, rule_id@) == first_applying(
                    self.sups(),
                    line as int,
                    rule_id@,
                ),
            decreases self.suppressions.len() - k,
        {
            let ghost rest = self.sups().skip(k as int);
            assert(rest[0] == self.suppressions@[k as int]@);
            assert(rest.drop_first() =~= self.sups().skip(k + 1));
            let (hit, j) = match &self.suppressions[k] {
                Suppression::FileLevel { justification } => (true, justification),
                Suppression::LineLevel { line: sup_line, justification } => (
                    *sup_line == line,
                    justification,
                ),
                Suppression::SpecificRule { line: sup_line, rule, justification } => (
                    *sup_line == line && chars_eq(str_chars(rule.as_str()).as_slice(), rid.as_slice()),
                    justification,
                ),
                Suppression::ItemLevel { first_line, last_line, justification, .. } => (
                    *first_line <= line && line <= *last_line,
                    justification,
                ),
                Suppression::ItemRule { first_line, last_line, rule, justification, .. } => (
                    *first_line <= line && line <= *last_line && chars_eq(
                        str_chars(rule.as_str()).as_slice(),
                        rid.as_slice(),
                    ),
                    justification,
                ),
            };
            if hit {
                return match j {
                    Some(t) => Some(t.clone()),
                    None => None,
                };
            }
            k += 1;
        }
        None
    }

    /// Get suppressions that are missing justifications
    pub fn get_suppressions_without_justification(&self) -> (r: Vec<&Suppression>)
        ensures
            r@.map_values(|s: &Suppression| s@) == unjustified(self.sups()),
    {
        let mut out: Vec<&Suppression> = Vec::new();
        let mut k: usize = 0;
        while k < self.suppressions.len()
            invariant
                k <= self.suppressions.len(),
                out@.map_values(|s: &Suppression| s@) == unjustified(self.sups().take(k as int)),
            decreases self.suppressions.len() - k,
        {
            let s = &self.suppressions[k];
            let missing = match s {
                Suppression::FileLevel { justification } => justification.is_none(),
                Suppression::LineLevel { justification, .. } => justification.is_none(),
                Suppression::SpecificRule { justification, .. } => justification.is_none(),
                Suppression::ItemLevel { justification, .. } => justification.is_none(),
                Suppression::ItemRule { justification, .. } => justification.is_none(),
            };
            assert(self.sups().take(k + 1).drop_last() =~= self.sups().take(k as int));
            assert(self.sups()[k as int] == s@);
            let ghost old_out = out@;
            if missing {
                out.push(s);
                assert(out@.map_values(|s: &Suppression| s@) =~= old_out.map_values(
                    |s: &Suppression| s@,
                ).push(s@));
            }
            k += 1;
        }
        assert(self.sups().take(self.suppressions.len() as int) =~= self.sups());
        out
    }
}

fn take_until_exec(s: &[char], c: char) -> (r: Vec<char>)
    ensures
        r@ == take_until(s@, c),
{
    proof {
        lemma_index_of_char(s@, c);
    }
    match char_index(s, c) {
        Some(k) => {
            let r = slice_chars(s, 0, k);
            assert(r@ =~= s@.take(k as int));
            r
        },
        None => crate::text::copy_chars(s),
    }
}

fn quoted_exec(s: &[char]) -> (r: Option<Vec<char>>)
    ensures
        match r {
            Some(v) => quoted(s@) == Some(v@),
            None => quoted(s@) is None,
        },
{
    proof {
        lemma_index_of_char(s@, '"');
    }
    match char_index(s, '"') {
        Some(q) => {
            let n = s.len();
            assert(q < n);
            let after = slice_chars(s, q + 1, n);
            assert(after@ =~= s@.skip(q + 1));
            Some(take_until_exec(after.as_slice(), '"'))
        },
        None => None,
    }
}

fn attr_args_exec(t: &[char]) -> (r: Option<(Vec<Vec<char>>, Option<Vec<char>>)>)
    ensures
        match r {
            Some((rs, j)) => attr_args(t@) == Some(
                (
                    view_all(rs@),
                    match j {
                        Some(v) => Some(v@),
                        None => None,
                    },
                ),
            ),
            None => attr_args(t@) is None,
        },
{
    let marker = str_chars("#[rustcop::ignore");
    proof {
        reveal_strlit("#[rustcop::ignore");
    }
    if !starts_with(t, marker.as_slice()) {
        return None;
    }
    let rest = slice_chars(t, marker.len(), t.len());
    assert(rest@ =~= t@.skip(attr_marker().len() as int));
    if rest.len() > 0 && rest[0] == ']' {
        let rs: Vec<Vec<char>> = Vec::new();
        assert(view_all(rs@) =~= Seq::<Seq<char>>::empty());
        return Some((rs, None));
    }
    if rest.len() > 0 && rest[0] == '(' {
        let inner = slice_chars(rest.as_slice(), 1, rest.len());
        assert(inner@ =~= rest@.drop_first());
        let key = str_chars("justification");
        proof {
            reveal_strlit("justification");
        }
        match find(inner.as_slice(), key.as_slice()) {
            Some(p) => {
                proof {
                    crate::text::lemma_find_from(inner@, "justification"@, 0);
                }
                let head = slice_chars(inner.as_slice(), 0, p);
                assert(head@ =~= inner@.take(p as int));
                let tail = slice_chars(inner.as_slice(), p + 13, inner.len());
                assert(tail@ =~= inner@.skip(p + 13));
                let rs = rules_of(head.as_slice());
                let j = quoted_exec(tail.as_slice());
                Some((rs, j))
            },
            None => {
                let head = take_until_exec(inner.as_slice(), ')');
                let rs = rules_of(head.as_slice());
                Some((rs, None))
            },
        }
    } else {
        None
    }
}

fn item_start_exec(lines: &Vec<Vec<char>>, j: usize) -> (r: usize)
    ensures
        r == item_start(view_all(lines@), j as int),
        j <= lines.len() ==> j <= r <= lines.len(),
        j > lines.len() ==> r == lines.len(),
{
    let ghost lv = view_all(lines@);
    if j >= lines.len() {
        return lines.len();
    }
    let attr = str_chars("#[");
    let slashes = str_chars("//");
    proof {
        reveal_strlit("#[");
        reveal_strlit("//");
    }
    let mut k: usize = j;
    while k < lines.len()
        invariant
            j <= k <= lines.len(),
            lv == view_all(lines@),
            lv.len() == lines.len(),
            item_start(lv, j as int) == item_start(lv, k as int),
            attr@ == "#["@,
            slashes@ == "//"@,
        decreases lines.len() - k,
    {
        let t = trim_chars(lines[k].as_slice());
        assert(lv[k as int] == lines@[k as int]@);
        if !(starts_with(t.as_slice(), attr.as_slice()) || starts_with(
            t.as_slice(),
            slashes.as_slice(),
        ) || t.len() == 0) {
            return k;
        }
        k += 1;
    }
    k
}

fn item_end_exec(lines: &Vec<Vec<char>>, j: usize) -> (r: usize)
    requires
        j < lines.len(),
        crate::text::small_lines(view_all(lines@)),
    ensures
        r == item_end(view_all(lines@), j as int, 0),
        j <= r < lines.len(),
{
    let ghost lv = view_all(lines@);
    let mut k: usize = j;
    let mut depth: i128 = 0;
    proof {
        crate::text::lemma_total_len_prefix(lv, j as int);
    }
    while k < lines.len()
        invariant
            j <= k <= lines.len(),
            lv == view_all(lines@),
            lv.len() == lines.len(),
            crate::text::small_lines(lv),
            -crate::text::total_len(lv.take(k as int)) <= depth <= crate::text::total_len(
                lv.take(k as int),
            ),
            item_end(lv, j as int, 0) == item_end(lv, k as int, depth as int),
            j < lines.len(),
        decreases lines.len() - k,
    {
        assert(lv[k as int] == lines@[k as int]@);
        proof {
            crate::text::lemma_total_len_take(lv, k as int);
            crate::text::lemma_total_len_prefix(lv, k + 1);
        }
        let d = crate::text::brace_delta_exec(lines[k].as_slice());
        let nd = depth + d;
        let line = lines[k].as_slice();
        if nd <= 0 && (crate::text::contains_char(line, '{') || crate::text::contains_char(line, '}')
            || crate::text::contains_char(line, ';')) {
            return k;
        }
        depth = nd;
        k += 1;
    }
    lines.len() - 1
}

fn attr_suppressions_exec(lines: &Vec<Vec<char>>, i: usize) -> (r: Vec<Suppression>)
    requires
        i < lines.len(),
        lines.len() < usize::MAX,
        crate::text::small_lines(view_all(lines@)),
    ensures
        suppression_views(r@) == spec_attr_suppressions(view_all(lines@), i as int),
{
    let ghost lv = view_all(lines@);
    assert(lv[i as int] == lines@[i as int]@);
    let t = trim_chars(lines[i].as_slice());
    match attr_args_exec(t.as_slice()) {
        None => {
            let r: Vec<Suppression> = Vec::new();
            assert(suppression_views(r@) =~= Seq::<SuppressionModel>::empty());
            r
        },
        Some((rules, j)) => {
            let start = item_start_exec(lines, i + 1);
            if start >= lines.len() {
                let r: Vec<Suppression> = Vec::new();
                assert(suppression_views(r@) =~= Seq::<SuppressionModel>::empty());
                return r;
            }
            let end = item_end_exec(lines, start);
            let ghost jv = match &j {
                Some(v) => Some(v@),
                None => None,
            };
            let justification = match j {
                Some(v) => Some(chars_to_string(v.as_slice())),
                None => None,
            };
            assert(text_view(justification) == jv);
            if rules.len() == 0 {
                let r = vec![
                    Suppression::ItemLevel {
                        attribute_line: i + 1,
                        first_line: start + 1,
                        last_line: end + 1,
                        justification,
                    },
                ];
                assert(suppression_views(r@) =~= spec_attr_suppressions(lv, i as int));
                r
            } else {
                let ghost rv = view_all(rules@);
                let mut out: Vec<Suppression> = Vec::new();
                let mut k: usize = 0;
                while k < rules.len()
                    invariant
                        k <= rules.len(),
                        rv == view_all(rules@),
                        start < lines.len(),
                        end < lines.len(),
                        i < lines.len(),
                        text_view(justification) == jv,
                        suppression_views(out@) == rv.take(k as int).map_values(
                            |r: Seq<char>|
                                SuppressionModel::ItemRule {
                                    attribute_line: i + 1,
                                    first_line: start + 1,
                                    last_line: end + 1,
                                    rule: r,
                                    justification: jv,
                                },
                        ),
                    decreases rules.len() - k,
                {
                    let jk = match &justification {
                        Some(v) => Some(v.clone()),
                        None => None,
                    };
                    let x = Suppression::ItemRule {
                        attribute_line: i + 1,
                        first_line: start + 1,
                        last_line: end + 1,
                        rule: chars_to_string(rules[k].as_slice()),
                        justification: jk,
                    };
                    assert(rv[k as int] == rules@[k as int]@);
                    let ghost before = out@;
                    out.push(x);
                    assert(suppression_views(out@) =~= suppression_views(before).push(x@));
                    assert(rv.take(k + 1) =~= rv.take(k as int).push(rv[k as int]));
                    assert(rv.take(k + 1).map_values(
                        |r: Seq<char>|
                            SuppressionModel::ItemRule {
                                attribute_line: i + 1,
                                first_line: start + 1,
                                last_line: end + 1,
                                rule: r,
                                justification: jv,
                            },
                    ) =~= rv.take(k as int).map_values(
                        |r: Seq<char>|
                            SuppressionModel::ItemRule {
                                attribute_line: i + 1,
                                first_line: start + 1,
                                last_line: end + 1,
                                rule: r,
                                justification: jv,
                            },
                    ).push(x@));
                    k += 1;
                }
                assert(rv.take(rules.len() as int) =~= rv);
                out
            }
        },
    }
}

/// The rules named in a comma-separated list.
fn rules_of(s: &[char]) -> (r: Vec<Vec<char>>)
    ensures
        view_all(r@) == rule_list(s@),
{
    let parts = split_chars(s, ',');
    let ghost pv = view_all(parts@);
    let mut out: Vec<Vec<char>> = Vec::new();
    let mut k: usize = 0;
    while k < parts.len()
        invariant
            k <= parts.len(),
            pv == view_all(parts@),
            view_all(out@) == clean_rules(pv.take(k as int)),
        decreases parts.len() - k,
    {
        let t = trim_chars(parts[k].as_slice());
        assert(pv.take(k + 1).drop_last() =~= pv.take(k as int));
        assert(pv.take(k + 1).last() == parts@[k as int]@);
        let ghost old_out = out@;
        if t.len() > 0 {
            out.push(t);
            assert(view_all(out@) =~= view_all(old_out).push(t@));
        }
        k += 1;
    }
    assert(pv.take(parts.len() as int) =~= pv);
    out
}

// ---------------------------------------------------------------------------
// Laws
// ---------------------------------------------------------------------------

proof fn lemma_comment_directive_kept(lines: Seq<Seq<char>>, i: int, m: int)
    requires
        0 <= i < lines.len(),
        0 <= m < spec_parse_comment_suppressions(lines[i], i + 1).len(),
    ensures
        exists|k: int|
            0 <= k < comment_suppressions_from(lines).len() && comment_suppressions_from(lines)[k]
                == spec_parse_comment_suppressions(lines[i], i + 1)[m],
    decreases lines.len(),
{
    let prefix = comment_suppressions_from(lines.drop_last());
    if i == lines.len() - 1 {
        let k = prefix.len() + m;
        assert(comment_suppressions_from(lines)[k] == spec_parse_comment_suppressions(
            lines[i],
            i + 1,
        )[m]);
    } else {
        assert(lines.drop_last()[i] == lines[i]);
        lemma_comment_directive_kept(lines.drop_last(), i, m);
        let k = choose|k: int|
            0 <= k < prefix.len() && prefix[k] == spec_parse_comment_suppressions(lines[i], i + 1)[m];
        assert(comment_suppressions_from(lines)[k] == prefix[k]);
    }
}

/// A file-level marker in the first twenty lines suppresses every rule on
/// every line.
pub proof fn law_file_marker_suppresses_everything(content: Seq<char>, line: int, rule_id: Seq<char>)
    requires
        spec_has_file_level_suppression(content),
    ensures
        spec_is_suppressed(spec_parse(content), line, rule_id),
{
    let sups = spec_parse(content);
    assert(applies(sups[0], line, rule_id));
}

/// A `// rustcop:ignore` comment that names no rule, on the line at index
/// `i`, suppresses every rule on the line after it (1-based number `i + 2`).
pub proof fn law_bare_comment_covers_next_line(content: Seq<char>, i: int, rule_id: Seq<char>)
    requires
        0 <= i < lines_of(content).len(),
        after_marker(trim(lines_of(content)[i])) is Some,
        spec_extract_justification(after_marker(trim(lines_of(content)[i])).unwrap()).0 is None,
    ensures
        spec_is_suppressed(spec_parse(content), i + 2, rule_id),
{
    let ls = lines_of(content);
    if spec_has_file_level_suppression(content) {
        law_file_marker_suppresses_everything(content, i + 2, rule_id);
    } else {
        lemma_comment_directive_kept(ls, i, 0);
        let sups = spec_parse(content);
        let cs = comment_suppressions_from(ls);
        let k = choose|k: int|
            0 <= k < cs.len() && cs[k] == spec_parse_comment_suppressions(ls[i], i + 1)[0];
        assert(sups[k] == cs[k]);
        assert(applies(sups[k], i + 2, rule_id));
    }
}

/// Each rule a `// rustcop:ignore` comment names, on the line at index `i`,
/// is suppressed on the line after it.
pub proof fn law_named_rules_covered_on_next_line(content: Seq<char>, i: int, m: int)
    requires
        0 <= i < lines_of(content).len(),
        after_marker(trim(lines_of(content)[i])) is Some,
        spec_extract_justification(after_marker(trim(lines_of(content)[i])).unwrap()).0 is Some,
        0 <= m < spec_extract_justification(
            after_marker(trim(lines_of(content)[i])).unwrap(),
        ).0.unwrap().len(),
    ensures
        spec_is_suppressed(
            spec_parse(content),
            i + 2,
            spec_extract_justification(after_marker(trim(lines_of(content)[i])).unwrap()).0.unwrap()[m],
        ),
{
    let ls = lines_of(content);
    let rs = spec_extract_justification(after_marker(trim(ls[i])).unwrap()).0.unwrap();
    if spec_has_file_level_suppression(content) {
        law_file_marker_suppresses_everything(content, i + 2, rs[m]);
    } else {
        lemma_comment_directive_kept(ls, i, m);
        let sups = spec_parse(content);
        let cs = comment_suppressions_from(ls);
        let k = choose|k: int|
            0 <= k < cs.len() && cs[k] == spec_parse_comment_suppressions(ls[i], i + 1)[m];
        assert(sups[k] == cs[k]);
        assert(applies(sups[k], i + 2, rs[m]));
    }
}

proof fn lemma_attr_directive_kept(lines: Seq<Seq<char>>, n: int, i: int, m: int)
    requires
        0 <= i < n <= lines.len(),
        0 <= m < spec_attr_suppressions(lines, i).len(),
    ensures
        exists|k: int|
            0 <= k < attr_suppressions_upto(lines, n).len() && attr_suppressions_upto(lines, n)[k]
                == spec_attr_suppressions(lines, i)[m],
    decreases n,
{
    let prefix = attr_suppressions_upto(lines, n - 1);
    if i == n - 1 {
        let k = prefix.len() + m;
        assert(attr_suppressions_upto(lines, n)[k] == spec_attr_suppressions(lines, i)[m]);
    } else {
        lemma_attr_directive_kept(lines, n - 1, i, m);
        let k = choose|k: int|
            0 <= k < prefix.len() && prefix[k] == spec_attr_suppressions(lines, i)[m];
        assert(attr_suppressions_upto(lines, n)[k] == prefix[k]);
    }
}

/// A `#[rustcop::ignore]` attribute that names no rule, on the line at
/// index `i`, suppresses every rule on every line of the item under it
/// (the 1-based lines from the item's first line to its last).
pub proof fn law_item_attribute_covers_item(content: Seq<char>, i: int, line: int, rule_id: Seq<char>)
    requires
        0 <= i < lines_of(content).len(),
        attr_args(trim(lines_of(content)[i])) matches Some((rules, _)) && rules.len() == 0,
        item_start(lines_of(content), i + 1) < lines_of(content).len(),
        item_start(lines_of(content), i + 1) + 1 <= line <= item_end(
            lines_of(content),
            item_start(lines_of(content), i + 1),
            0,
        ) + 1,
    ensures
        spec_is_suppressed(spec_parse(content), line, rule_id),
{
    let ls = lines_of(content);
    if spec_has_file_level_suppression(content) {
        law_file_marker_suppresses_everything(content, line, rule_id);
    } else {
        lemma_attr_directive_kept(ls, ls.len() as int, i, 0);
        let sups = spec_parse(content);
        let cs = comment_suppressions_from(ls);
        let ats = attr_suppressions_upto(ls, ls.len() as int);
        let k = choose|k: int|
            0 <= k < ats.len() && ats[k] == spec_attr_suppressions(ls, i)[0];
        assert(sups[cs.len() + k] == ats[k]);
        assert(applies(sups[cs.len() + k], line, rule_id));
    }
}

} // verus!
