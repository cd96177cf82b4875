//! RC3002: in `lib.rs`, every module that is exported (`pub mod`) or
//! re-exported (`pub use`) must be on the configured allow-list.
use vstd::prelude::*;

use crate::diagnostic::{diag_views, finding, DiagModel, Diagnostic, Severity};
use crate::lexis::{chars_eq, kw_crate, kw_crate_v, kw_self, kw_self_v, kw_super, kw_super_v};
use crate::rules::imports::{consume_use_stmt_end, lemma_consume_from_bounds, spec_consume_stmt_end};
use crate::paths::portable_path;
use crate::rules::{is_lib_file, names_lib_file, Rule};
use crate::syntax::{
    lemma_trees_view_len, parse_item_mod, parse_item_use, syn_item_mod, syn_item_use, tree_view,
    trees_view, TreeModel, UseNode,
};
use crate::text::{
    copy_lines_range,
    chars_to_string, contains_str, copy_chars, has_prefix, join_lines, join_with, lemma_lines_small,
    lemma_total_len_subrange, lines, lines_of, push_all, small_lines, starts_with, str_chars,
    strings_contain, strings_view, trim, trim_chars, view_all,
};

verus! {

broadcast use vstd::std_specs::vec::group_vec_axioms;

/// RC3002: exports from `lib.rs` restricted to an allow-list.
pub struct ExportsRule {
    pub enabled: bool,
    pub severity: Severity,
    /// The modules `lib.rs` may export; an empty list allows any.
    pub allowed_lib_exports: Vec<String>,
}

/// The modules a re-export names: the first segment after any leading
/// `crate`, `self` or `super`; a name (renamed or not) itself; `*` for a glob;
/// each member of a group in turn.
pub open spec fn reexported(t: TreeModel) -> Seq<Seq<char>>
    decreases t, 0nat,
{
    match t {
        TreeModel::Path { ident, child } => if ident == kw_crate() || ident == kw_self() || ident
            == kw_super() {
            reexported(*child)
        } else {
            seq![ident]
        },
        TreeModel::Name { ident, .. } => seq![ident],
        TreeModel::Slf { .. } => seq![kw_self()],
        TreeModel::Glob => seq![seq!['*']],
        TreeModel::Group { items } => reexported_list(items),
    }
}

pub open spec fn reexported_list(s: Seq<TreeModel>) -> Seq<Seq<char>>
    decreases s, 1nat,
{
    if s.len() == 0 {
        seq![]
    } else {
        reexported(s[0]) + reexported_list(s.drop_first())
    }
}

pub open spec fn export_message(name: Seq<char>) -> Seq<char> {
    "Module `"@ + name + "` is exported from lib.rs but is not in exports.allowed_lib_exports"@
}

pub open spec fn reexport_message(name: Seq<char>) -> Seq<char> {
    "Module `"@ + name + "` is re-exported from lib.rs but is not in exports.allowed_lib_exports"@
}

/// One finding per re-exported module that is not allowed, in order.
pub open spec fn reexport_findings(
    mods: Seq<Seq<char>>,
    allowed: Seq<Seq<char>>,
    line: int,
    severity: Severity,
    file: Seq<char>,
) -> Seq<DiagModel>
    decreases mods.len(),
{
    if mods.len() == 0 {
        seq![]
    } else {
        let rest = reexport_findings(mods.drop_last(), allowed, line, severity, file);
        if allowed.contains(mods.last()) {
            rest
        } else {
            rest.push(finding("RC3002"@, reexport_message(mods.last()), file, line, severity))
        }
    }
}

/// The findings of the lines from index `i` on: a `pub mod` line whose
/// module is not allowed; a `pub use` statement (up to the line that ends
/// it) for each module it re-exports that is not allowed. Lines or
/// statements that do not parse are passed over.
pub open spec fn export_scan(
    lines: Seq<Seq<char>>,
    i: int,
    allowed: Seq<Seq<char>>,
    severity: Severity,
    file: Seq<char>,
) -> Seq<DiagModel>
    decreases lines.len() - i,
{
    if i < 0 || i >= lines.len() {
        seq![]
    } else {
        let t = trim(lines[i]);
        if has_prefix(t, "pub mod "@) {
            let here = match syn_item_mod(t) {
                Some(m) => if allowed.contains(m.ident@) {
                    seq![]
                } else {
                    seq![finding("RC3002"@, export_message(m.ident@), file, i + 1, severity)]
                },
                None => seq![],
            };
            here + export_scan(lines, i + 1, allowed, severity, file)
        } else if has_prefix(t, "pub use "@) {
            let end = spec_consume_stmt_end(lines, i);
            let next = if i < end + 1 <= lines.len() {
                end + 1
            } else {
                i + 1
            };
            let here = match syn_item_use(join_with(lines.subrange(i, end + 1), '\n')) {
                Some(u) => reexport_findings(
                    reexported(u.tree@),
                    allowed,
                    i + 1,
                    severity,
                    file,
                ),
                None => seq![],
            };
            here + export_scan(lines, next, allowed, severity, file)
        } else {
            export_scan(lines, i + 1, allowed, severity, file)
        }
    }
}

/// What the rule reports for a file, given whether the file is `lib.rs`:
/// nothing when disabled, for any other file, or with an empty allow-list.
pub open spec fn spec_exports_check(
    rule_enabled: bool,
    severity: Severity,
    allowed: Seq<Seq<char>>,
    is_lib: bool,
    content: Seq<char>,
    file: Seq<char>,
) -> Seq<DiagModel> {
    if !rule_enabled || !is_lib || allowed.len() == 0 {
        seq![]
    } else {
        export_scan(lines_of(content), 0, allowed, severity, file)
    }
}

fn collect_reexported_modules(tree: &UseNode, out: &mut Vec<Vec<char>>)
    ensures
        view_all(final(out)@) == view_all(old(out)@) + reexported(tree@),
    decreases tree, 0nat,
{
    match tree {
        UseNode::Path { ident, child } => {
            let c = kw_crate_v();
            let s = kw_self_v();
            let p = kw_super_v();
            if chars_eq(ident.as_slice(), c.as_slice()) || chars_eq(ident.as_slice(), s.as_slice())
                || chars_eq(ident.as_slice(), p.as_slice()) {
                collect_reexported_modules(child, out);
            } else {
                let ghost before = out@;
                out.push(copy_chars(ident.as_slice()));
                assert(view_all(out@) =~= view_all(before) + reexported(tree@));
            }
        },
        UseNode::Name { ident, .. } => {
            let ghost before = out@;
            out.push(copy_chars(ident.as_slice()));
            assert(view_all(out@) =~= view_all(before) + reexported(tree@));
        },
        UseNode::Slf { .. } => {
            let ghost before = out@;
            out.push(kw_self_v());
            assert(view_all(out@) =~= view_all(before) + reexported(tree@));
        },
        UseNode::Glob => {
            let ghost before = out@;
            let star = vec!['*'];
            assert(star@ =~= seq!['*']);
            out.push(star);
            assert(view_all(out@) =~= view_all(before) + reexported(tree@));
        },
        UseNode::Group { items } => {
            proof {
                assert(decreases_to!(tree => items));
            }
            collect_list(items, 0, out);
            assert(trees_view(items@).skip(0) =~= trees_view(items@));
        },
    }
}

fn collect_list(items: &Vec<UseNode>, from: usize, out: &mut Vec<Vec<char>>)
    requires
        from <= items.len(),
    ensures
        view_all(final(out)@) == view_all(old(out)@) + reexported_list(
            trees_view(items@).skip(from as int),
        ),
    decreases items, 1nat, items.len() - from,
{
    proof {
        lemma_trees_view_len(items@);
    }
    if from == items.len() {
        assert(trees_view(items@).skip(from as int) =~= Seq::<TreeModel>::empty());
        assert(view_all(out@) =~= view_all(out@) + Seq::<Seq<char>>::empty());
        return;
    }
    let ghost t = trees_view(items@).skip(from as int);
    assert(t.drop_first() =~= trees_view(items@).skip(from + 1));
    assert(t[0] == tree_view(items@[from as int]));
    proof {
        assert(decreases_to!(items => items[from as int]));
    }
    let ghost before = out@;
    collect_reexported_modules(&items[from], out);
    collect_list(items, from + 1, out);
    assert(view_all(out@) =~= view_all(before) + reexported_list(t));
}

fn message_with(head: &str, name: &[char], tail: &str) -> (r: String)
    ensures
        r@ == head@ + name@ + tail@,
{
    let mut m = str_chars(head);
    push_all(&mut m, name);
    let t = str_chars(tail);
    push_all(&mut m, t.as_slice());
    chars_to_string(m.as_slice())
}

impl ExportsRule {
    pub open spec fn allowed(&self) -> Seq<Seq<char>> {
        strings_view(self.allowed_lib_exports@)
    }

    /// Enabled unless the severity is `none`; `error` gives errors, anything
    /// else warnings; the allow-list as configured.
    pub fn from_config(exports: &crate::config::ExportsConfig) -> (r: Self)
        ensures
            r.enabled == (exports.severity@ != "none"@),
            r.severity == (if exports.severity@ == "error"@ {
                Severity::Error
            } else {
                Severity::Warning
            }),
            r.allowed() == strings_view(exports.allowed_lib_exports@),
    {
        let sev = str_chars(exports.severity.as_str());
        let none = str_chars("none");
        let error = str_chars("error");
        let enabled = !chars_eq(sev.as_slice(), none.as_slice());
        let severity = if chars_eq(sev.as_slice(), error.as_slice()) {
            Severity::Error
        } else {
            Severity::Warning
        };
        ExportsRule {
            enabled,
            severity,
            allowed_lib_exports: copy_strings(exports.allowed_lib_exports.as_slice()),
        }
    }

    /// The findings for a file, told whether it is `lib.rs`.
    pub fn check_file(&self, content: &str, file: &str, is_lib: bool) -> (r: Vec<Diagnostic>)
        ensures
            diag_views(r@) == spec_exports_check(
                self.enabled,
                self.severity,
                self.allowed(),
                is_lib,
                content@,
                file@,
            ),
    {
        if !self.enabled || !is_lib || self.allowed_lib_exports.len() == 0 {
            let r: Vec<Diagnostic> = Vec::new();
            assert(diag_views(r@) =~= Seq::<DiagModel>::empty());
            return r;
        }
        let chars = str_chars(content);
        let n = chars.len();
        let ls = lines(chars.as_slice());
        let ghost lv = view_all(ls@);
        let ghost allowed = self.allowed();
        let ghost sev = self.severity;
        proof {
            lemma_lines_small(content@);
        }
        let pub_mod = str_chars("pub mod ");
        let pub_use = str_chars("pub use ");
        let mut diagnostics: Vec<Diagnostic> = Vec::new();
        let mut i: usize = 0;
        assert(diag_views(diagnostics@) + export_scan(lv, 0, allowed, sev, file@) =~= export_scan(
            lv,
            0,
            allowed,
            sev,
            file@,
        ));
        while i < ls.len()
            invariant
                i <= ls.len(),
                lv == view_all(ls@),
                lv == lines_of(content@),
                small_lines(lv),
                allowed == self.allowed(),
                sev == self.severity,
                pub_mod@ == "pub mod "@,
                pub_use@ == "pub use "@,
                diag_views(diagnostics@) + export_scan(lv, i as int, allowed, sev, file@)
                    == export_scan(lv, 0, allowed, sev, file@),
            decreases ls.len() - i,
        {
            let trimmed = trim_chars(ls[i].as_slice());
            assert(lv[i as int] == ls@[i as int]@);
            let ghost before = diagnostics@;
            if starts_with(trimmed.as_slice(), pub_mod.as_slice()) {
                match parse_item_mod(trimmed.as_slice()) {
                    Some(item_mod) => {
                        if !strings_contain(
                            self.allowed_lib_exports.as_slice(),
                            item_mod.ident.as_slice(),
                        ) {
                            let d = Diagnostic {
                                rule_id: "RC3002".to_owned(),
                                message: message_with(
                                    "Module `",
                                    item_mod.ident.as_slice(),
                                    "` is exported from lib.rs but is not in exports.allowed_lib_exports",
                                ),
                                file: file.to_owned(),
                                line: i + 1,
                                severity: self.severity,
                                suppressed: false,
                                suppression_justification: None,
                            };
                            diagnostics.push(d);
                            assert(diag_views(diagnostics@) =~= diag_views(before).push(d@));
                        }
                    },
                    None => {},
                }
                proof {
                    assert(diag_views(diagnostics@) + export_scan(
                        lv,
                        i + 1,
                        allowed,
                        sev,
                        file@,
                    ) =~= diag_views(before) + export_scan(lv, i as int, allowed, sev, file@));
                }
                i += 1;
            } else if starts_with(trimmed.as_slice(), pub_use.as_slice()) {
                proof {
                    lemma_consume_from_bounds(lv, i as int, 0);
                }
                let end = consume_use_stmt_end(ls.as_slice(), i);
                proof {
                    lemma_total_len_subrange(lv, i as int, end + 1);
                }
                let stmt_lines = copy_lines_range(ls.as_slice(), i, end + 1);
                let stmt = join_lines(stmt_lines.as_slice(), '\n');
                match parse_item_use(stmt.as_slice()) {
                    Some(item_use) => {
                        let mut modules: Vec<Vec<char>> = Vec::new();
                        collect_reexported_modules(&item_use.tree, &mut modules);
                        let ghost mv = view_all(modules@);
                        assert(mv =~= reexported(item_use.tree@));
                        let mut k: usize = 0;
                        while k < modules.len()
                            invariant
                                k <= modules.len(),
                                mv == view_all(modules@),
                                allowed == self.allowed(),
                                sev == self.severity,
                                i < ls.len(),
                                diag_views(diagnostics@) == diag_views(before) + reexport_findings(
                                    mv.take(k as int),
                                    allowed,
                                    i + 1,
                                    sev,
                                    file@,
                                ),
                            decreases modules.len() - k,
                        {
                            assert(mv.take(k + 1).drop_last() =~= mv.take(k as int));
                            assert(mv.take(k + 1).last() == modules@[k as int]@);
                            if !strings_contain(
                                self.allowed_lib_exports.as_slice(),
                                modules[k].as_slice(),
                            ) {
                                let d = Diagnostic {
                                    rule_id: "RC3002".to_owned(),
                                    message: message_with(
                                        "Module `",
                                        modules[k].as_slice(),
                                        "` is re-exported from lib.rs but is not in exports.allowed_lib_exports",
                                    ),
                                    file: file.to_owned(),
                                    line: i + 1,
                                    severity: self.severity,
                                    suppressed: false,
                                    suppression_justification: None,
                                };
                                let ghost mid = diagnostics@;
                                diagnostics.push(d);
                                assert(diag_views(diagnostics@) =~= diag_views(mid).push(d@));
                            }
                            k += 1;
                        }
                        assert(mv.take(modules.len() as int) =~= mv);
                    },
                    None => {},
                }
                proof {
                    assert(diag_views(diagnostics@) + export_scan(
                        lv,
                        end + 1,
                        allowed,
                        sev,
                        file@,
                    ) =~= diag_views(before) + export_scan(lv, i as int, allowed, sev, file@));
                }
                i = end + 1;
            } else {
                i += 1;
            }
        }
        assert(diag_views(diagnostics@) + export_scan(lv, i as int, allowed, sev, file@) =~= diag_views(
            diagnostics@,
        ));
        diagnostics
    }
}

/// Copies of the strings.
pub fn copy_strings(s: &[String]) -> (r: Vec<String>)
    ensures
        strings_view(r@) == strings_view(s@),
{
    let mut r: Vec<String> = Vec::new();
    let mut i: usize = 0;
    while i < s.len()
        invariant
            i <= s.len(),
            strings_view(r@) == strings_view(s@).take(i as int),
        decreases s.len() - i,
    {
        let c = s[i].clone();
        assert(c@ == s@[i as int]@);
        let ghost old_r = r@;
        r.push(c);
        assert(strings_view(r@) =~= strings_view(old_r).push(c@));
        assert(strings_view(r@) =~= strings_view(s@).take(i + 1));
        i += 1;
    }
    assert(strings_view(s@).take(s.len() as int) =~= strings_view(s@));
    r
}

impl Rule for ExportsRule {
    fn id(&self) -> (r: &str)
        ensures
            r@ == "RC3002"@,
    {
        "RC3002"
    }

    fn name(&self) -> (r: &str)
        ensures
            r@ == "ExportRules"@,
    {
        "ExportRules"
    }

    /// The findings of `check_file`, told whether `Path::file_name` of the
    /// path is `lib.rs` (for a portable path, whether its file name is
    /// `lib.rs`); a path that does not contain `lib.rs` gets none.
    fn check(&self, content: &str, file: &str) -> (r: Vec<Diagnostic>)
        ensures
            diag_views(r@) == spec_exports_check(
                self.enabled,
                self.severity,
                self.allowed(),
                true,
                content@,
                file@,
            ) || diag_views(r@) == spec_exports_check(
                self.enabled,
                self.severity,
                self.allowed(),
                false,
                content@,
                file@,
            ),
            !contains_str(file@, "lib.rs"@) ==> r.len() == 0,
            portable_path(file@) ==> diag_views(r@) == spec_exports_check(
                self.enabled,
                self.severity,
                self.allowed(),
                names_lib_file(file@),
                content@,
                file@,
            ),
    {
        let is_lib = is_lib_file(file);
        let r = self.check_file(content, file, is_lib);
        assert(diag_views(r@).len() == r@.len());
        r
    }

    /// No fix: the content comes back unchanged.
    fn fix(&self, content: &str) -> (r: String)
        ensures
            r@ == content@,
    {
        content.to_owned()
    }
}

/// A re-export through `crate::`, `self::` or `super::` names the modules
/// of the path after that prefix, never the prefix itself; a path that
/// starts with any other segment names that segment's module.
pub proof fn law_reexport_skips_path_prefix(
    p: Seq<char>,
    child: TreeModel,
    m: Seq<char>,
    rest: TreeModel,
)
    ensures
        p == "crate"@ || p == "self"@ || p == "super"@ ==> reexported(
            TreeModel::Path { ident: p, child: Box::new(child) },
        ) == reexported(child),
        !(p == "crate"@ || p == "self"@ || p == "super"@) ==> reexported(
            TreeModel::Path { ident: p, child: Box::new(child) },
        ) == seq![p],
        (p == "crate"@ || p == "self"@ || p == "super"@) && !(m == "crate"@ || m == "self"@ || m
            == "super"@) ==> reexported(
            TreeModel::Path {
                ident: p,
                child: Box::new(TreeModel::Path { ident: m, child: Box::new(rest) }),
            },
        ) == seq![m],
{
    reveal_strlit("crate");
    reveal_strlit("self");
    reveal_strlit("super");
    assert(kw_crate() =~= "crate"@);
    assert(kw_self() =~= "self"@);
    assert(kw_super() =~= "super"@);
    let inner = TreeModel::Path { ident: m, child: Box::new(rest) };
    if !(m == "crate"@ || m == "self"@ || m == "super"@) {
        assert(reexported(inner) == seq![m]);
    }
    if p == "crate"@ || p == "self"@ || p == "super"@ {
        assert(reexported(TreeModel::Path { ident: p, child: Box::new(inner) }) == reexported(
            inner,
        ));
    }
}

} // verus!
