//! RC3001: in `lib.rs`, the declarations at the top of the file are laid
//! out as private `use` statements first (in their written order), then
//! module declarations sorted by where their visibility category stands in
//! the preferred module order, then by name, then
//! `pub use` statements sorted by text, with a blank line between kinds.
use vstd::prelude::*;

use crate::diagnostic::{diag_views, finding, DiagModel, Diagnostic, Severity};
use crate::lexis::{
    chars_eq, kw_close_use, kw_close_use_v, kw_pub_paren, kw_pub_paren_v, kw_pub_use, kw_pub_use_v,
    kw_use, kw_use_v,
};
use crate::rules::imports::{
    consume_use_stmt_end, first_nonblank_from, is_attribute_line, is_comment_start,
    lemma_consume_from_bounds, spec_consume_stmt_end, spec_is_attribute_line, tail_text,
};
use crate::paths::portable_path;
use crate::rules::{is_lib_file, names_lib_file, Rule};
use crate::sort::{
    key_le, key_pairs, law_sort_permutation, law_sort_sorted, lemma_key_le_first_rank,
    lemma_sort_keys_of, lemma_sort_map_values, sort_by_key, sorted_values, KeyModel, SortKey,
};
use crate::syntax::{parse_item_mod, syn_item_mod, Vis};
use crate::text::{
    copy_lines_range,
    chars_to_string, contains, contains_str, copy_chars, ends_with, has_prefix, has_suffix,
    join_lines, join_with, lemma_lines_small, lemma_total_len_subrange, lemma_total_len_take,
    lemma_total_len_prefix, lines, lines_nl, lines_of, push_all, push_lines_nl, small_lines,
    starts_with, str_chars, strings_contain, strings_view, total_len, trim, trim_chars, view_all,
    lemma_view_all_push,
};

verus! {

broadcast use vstd::std_specs::vec::group_vec_axioms;

/// RC3001: order of the declarations at the top of `lib.rs`.
pub struct ModulesRule {
    pub enabled: bool,
    pub severity: Severity,
    pub preferred_module_order: Vec<String>,
}

/// The three kinds of declaration, in the order they are laid out.
#[derive(Debug, Clone, Copy, PartialEq, Eq, Structural)]
pub enum PreludeKind {
    Use,
    Mod,
    PubUse,
}

pub open spec fn kind_rank(k: PreludeKind) -> u64 {
    match k {
        PreludeKind::Use => 0,
        PreludeKind::Mod => 1,
        PreludeKind::PubUse => 2,
    }
}

/// One declaration with the lines attached above it.
pub struct ModuleBlock {
    pub kind: PreludeKind,
    /// For a module declaration, the position of its category in the
    /// preferred module order (categories not listed come last).
    pub sort_rank: u64,
    pub sort_group: Vec<char>,
    pub sort_name: Vec<char>,
    pub original_index: usize,
    pub original_block: Vec<char>,
}

pub struct ModuleBlockModel {
    pub kind: PreludeKind,
    pub rank: u64,
    pub group: Seq<char>,
    pub name: Seq<char>,
    pub index: int,
    pub original: Seq<char>,
}

impl View for ModuleBlock {
    type V = ModuleBlockModel;

    open spec fn view(&self) -> ModuleBlockModel {
        ModuleBlockModel {
            kind: self.kind,
            rank: self.sort_rank,
            group: self.sort_group@,
            name: self.sort_name@,
            index: self.original_index as int,
            original: self.original_block@,
        }
    }
}

pub open spec fn block_views(s: Seq<ModuleBlock>) -> Seq<ModuleBlockModel> {
    s.map_values(|b: ModuleBlock| b@)
}

// ---------------------------------------------------------------------------
// Line classification
// ---------------------------------------------------------------------------

/// A comment or attribute line, which travels with the declaration below.
pub open spec fn spec_is_attachable(t: Seq<char>) -> bool {
    is_comment_start(t) || spec_is_attribute_line(t)
}

fn is_attachable(t: &[char]) -> (r: bool)
    ensures
        r == spec_is_attachable(t@),
{
    let a = crate::lexis::kw_line_comment_v();
    let b = crate::lexis::kw_block_comment_v();
    starts_with(t, a.as_slice()) || starts_with(t, b.as_slice()) || is_attribute_line(t)
}

/// A private `use` line, or one with a restricted visibility.
pub open spec fn spec_is_use_line(t: Seq<char>) -> bool {
    has_prefix(t, kw_use()) || (has_prefix(t, kw_pub_paren()) && contains_str(t, kw_close_use()))
}

fn is_use_line(t: &[char]) -> (r: bool)
    ensures
        r == spec_is_use_line(t@),
{
    let a = kw_use_v();
    let c = kw_pub_paren_v();
    let d = kw_close_use_v();
    starts_with(t, a.as_slice()) || (starts_with(t, c.as_slice()) && contains(t, d.as_slice()))
}

pub open spec fn spec_is_pub_use_line(t: Seq<char>) -> bool {
    has_prefix(t, kw_pub_use())
}

fn is_pub_use_line(t: &[char]) -> (r: bool)
    ensures
        r == spec_is_pub_use_line(t@),
{
    let b = kw_pub_use_v();
    starts_with(t, b.as_slice())
}

/// A module declaration without a body: ends with `;` and parses as a
/// `mod` item without content.
pub open spec fn spec_is_module_decl_line(t: Seq<char>) -> bool {
    has_suffix(t, seq![';']) && match syn_item_mod(t) {
        Some(m) => !m.has_content,
        None => false,
    }
}

fn is_module_decl_line(t: &[char]) -> (r: bool)
    ensures
        r == spec_is_module_decl_line(t@),
{
    let semi = vec![';'];
    assert(semi@ =~= seq![';']);
    if !ends_with(t, semi.as_slice()) {
        return false;
    }
    match parse_item_mod(t) {
        Some(m) => !m.has_content,
        None => false,
    }
}

pub open spec fn spec_is_prelude_decl_line(t: Seq<char>) -> bool {
    spec_is_use_line(t) || spec_is_pub_use_line(t) || spec_is_module_decl_line(t)
}

fn is_prelude_decl_line(t: &[char]) -> (r: bool)
    ensures
        r == spec_is_prelude_decl_line(t@),
{
    is_use_line(t) || is_pub_use_line(t) || is_module_decl_line(t)
}

// ---------------------------------------------------------------------------
// Region
// ---------------------------------------------------------------------------

pub open spec fn is_trivia(line: Seq<char>) -> bool {
    trim(line).len() == 0 || spec_is_attachable(trim(line))
}

/// Walk back from a declaration over blank and attachable lines.
pub open spec fn spec_backtrack(lines: Seq<Seq<char>>, i: int) -> int
    decreases i,
{
    if 0 < i <= lines.len() && is_trivia(lines[i - 1]) {
        spec_backtrack(lines, i - 1)
    } else {
        i
    }
}

proof fn lemma_backtrack_bound(lines: Seq<Seq<char>>, i: int)
    requires
        0 <= i,
    ensures
        0 <= spec_backtrack(lines, i) <= i,
    decreases i,
{
    if 0 < i <= lines.len() && is_trivia(lines[i - 1]) {
        lemma_backtrack_bound(lines, i - 1);
    }
}

fn backtrack_attached_prefix(lines: &[Vec<char>], decl_idx: usize) -> (r: usize)
    requires
        decl_idx <= lines.len(),
    ensures
        r == spec_backtrack(view_all(lines@), decl_idx as int),
{
    let ghost v = view_all(lines@);
    let mut start = decl_idx;
    while start > 0 && is_trivia_line(lines[start - 1].as_slice())
        invariant
            start <= decl_idx <= lines.len(),
            v == view_all(lines@),
            spec_backtrack(v, start as int) == spec_backtrack(v, decl_idx as int),
        decreases start,
    {
        assert(v[start - 1] == lines@[start - 1]@);
        start -= 1;
    }
    if start > 0 {
        assert(v[start - 1] == lines@[start - 1]@);
    }
    start
}

fn is_trivia_line(line: &[char]) -> (r: bool)
    ensures
        r == is_trivia(line@),
{
    let t = trim_chars(line);
    t.len() == 0 || is_attachable(t.as_slice())
}

/// The scan for the declaration region: it starts at the first declaration
/// (with its attached lines) and ends with the last line of the last
/// declaration before a line that is neither blank, attachable nor a
/// declaration.
pub open spec fn prelude_scan(
    lines: Seq<Seq<char>>,
    i: int,
    first: Option<int>,
    last: int,
    found: bool,
) -> Option<(int, int)>
    decreases lines.len() - i,
{
    if i < 0 || i >= lines.len() {
        match first {
            Some(s) => Some((s, last)),
            None => None,
        }
    } else {
        let t = trim(lines[i]);
        if spec_is_prelude_decl_line(t) {
            let f = match first {
                Some(s) => Some(s),
                None => Some(spec_backtrack(lines, i)),
            };
            let l = if spec_is_module_decl_line(t) {
                i
            } else {
                spec_consume_stmt_end(lines, i)
            };
            prelude_scan(lines, i + 1, f, l, true)
        } else if found && (t.len() == 0 || spec_is_attachable(t)) {
            prelude_scan(lines, i + 1, first, last, found)
        } else if found {
            match first {
                Some(s) => Some((s, last)),
                None => None,
            }
        } else {
            prelude_scan(lines, i + 1, first, last, found)
        }
    }
}

pub open spec fn spec_find_prelude_region(lines: Seq<Seq<char>>) -> Option<(int, int)> {
    prelude_scan(lines, 0, None, 0, false)
}

proof fn lemma_prelude_scan_bounds(
    lines: Seq<Seq<char>>,
    i: int,
    first: Option<int>,
    last: int,
    found: bool,
)
    requires
        0 <= i <= lines.len(),
        first matches Some(s) ==> 0 <= s <= last < lines.len() && s <= i,
    ensures
        prelude_scan(lines, i, first, last, found) matches Some((s, e)) ==> 0 <= s <= e
            < lines.len(),
    decreases lines.len() - i,
{
    if i < lines.len() {
        let t = trim(lines[i]);
        if spec_is_prelude_decl_line(t) {
            lemma_backtrack_bound(lines, i);
            lemma_consume_from_bounds(lines, i, 0);
            let f = match first {
                Some(s) => Some(s),
                None => Some(spec_backtrack(lines, i)),
            };
            let l = if spec_is_module_decl_line(t) {
                i
            } else {
                spec_consume_stmt_end(lines, i)
            };
            lemma_prelude_scan_bounds(lines, i + 1, f, l, true);
        } else if found && (t.len() == 0 || spec_is_attachable(t)) {
            lemma_prelude_scan_bounds(lines, i + 1, first, last, found);
        } else if found {
        } else {
            lemma_prelude_scan_bounds(lines, i + 1, first, last, found);
        }
    }
}

fn find_prelude_region(lines: &[Vec<char>]) -> (r: Option<(usize, usize)>)
    requires
        small_lines(view_all(lines@)),
    ensures
        r matches Some((s, e)) ==> spec_find_prelude_region(view_all(lines@)) == Some(
            (s as int, e as int),
        ) && s <= e < lines.len(),
        r is None ==> spec_find_prelude_region(view_all(lines@)) is None,
{
    let ghost v = view_all(lines@);
    let mut first_decl: Option<usize> = None;
    let mut last_decl: usize = 0;
    let mut found_any = false;
    let mut i: usize = 0;
    proof {
        lemma_prelude_scan_bounds(v, 0, None, 0, false);
    }
    while i < lines.len()
        invariant
            i <= lines.len(),
            v == view_all(lines@),
            small_lines(v),
            first_decl matches Some(s) ==> s <= last_decl < lines.len() && s <= i,
            prelude_scan(
                v,
                i as int,
                match first_decl {
                    Some(s) => Some(s as int),
                    None => None,
                },
                last_decl as int,
                found_any,
            ) == spec_find_prelude_region(v),
        decreases lines.len() - i,
    {
        let trimmed = trim_chars(lines[i].as_slice());
        assert(v[i as int] == lines@[i as int]@);
        if is_prelude_decl_line(trimmed.as_slice()) {
            if first_decl.is_none() {
                first_decl = Some(backtrack_attached_prefix(lines, i));
                proof {
                    lemma_backtrack_bound(v, i as int);
                }
            }
            proof {
                lemma_consume_from_bounds(v, i as int, 0);
            }
            last_decl = if is_module_decl_line(trimmed.as_slice()) {
                i
            } else {
                consume_use_stmt_end(lines, i)
            };
            found_any = true;
        } else if found_any && (trimmed.len() == 0 || is_attachable(trimmed.as_slice())) {
        } else if found_any {
            return match first_decl {
                Some(start) => Some((start, last_decl)),
                None => None,
            };
        }
        i += 1;
    }
    match first_decl {
        Some(start) => Some((start, last_decl)),
        None => None,
    }
}

// ---------------------------------------------------------------------------
// Blocks
// ---------------------------------------------------------------------------

/// The sort category of a module's visibility: `pub(crate)` is `crate`,
/// `pub(in crate…)` is `in_crate` when that category is configured (else
/// `crate`), `pub(super…)` is `super`, anything else `local`.
pub open spec fn spec_module_category(v: Vis, preferred: Seq<Seq<char>>) -> Seq<char> {
    match v {
        Vis::Restricted { path, has_in } => {
            let p = path@.map_values(|x: Vec<char>| x@);
            if p.len() > 0 && p[0] == "crate"@ {
                if has_in && preferred.contains("in_crate"@) {
                    "in_crate"@
                } else {
                    "crate"@
                }
            } else if p.len() > 0 && p[0] == "super"@ {
                "super"@
            } else {
                "local"@
            }
        },
        _ => "local"@,
    }
}

/// Position of the first entry equal to `group` from `i` on, or the length
/// when there is none.
pub open spec fn rank_from(group: Seq<char>, preferred: Seq<Seq<char>>, i: int) -> int
    decreases preferred.len() - i,
{
    if i < 0 || i >= preferred.len() {
        preferred.len() as int
    } else if preferred[i] == group {
        i
    } else {
        rank_from(group, preferred, i + 1)
    }
}

/// Where a category stands in the preferred module order: its position,
/// or after every listed category when it is not listed.
pub open spec fn category_rank(group: Seq<char>, preferred: Seq<Seq<char>>) -> u64 {
    let r = rank_from(group, preferred, 0);
    if 0 <= r < u64::MAX {
        r as u64
    } else {
        u64::MAX
    }
}

proof fn lemma_rank_from_bounds(group: Seq<char>, preferred: Seq<Seq<char>>, i: int)
    requires
        0 <= i <= preferred.len(),
    ensures
        i <= rank_from(group, preferred, i) <= preferred.len(),
    decreases preferred.len() - i,
{
    if i < preferred.len() && preferred[i] != group {
        lemma_rank_from_bounds(group, preferred, i + 1);
    }
}

fn category_rank_exec(group: &[char], preferred: &[String]) -> (r: u64)
    ensures
        r == category_rank(group@, strings_view(preferred@)),
{
    let ghost pv = strings_view(preferred@);
    let mut i: usize = 0;
    while i < preferred.len()
        invariant
            i <= preferred.len(),
            pv == strings_view(preferred@),
            pv.len() == preferred.len(),
            rank_from(group@, pv, 0) == rank_from(group@, pv, i as int),
        decreases preferred.len() - i,
    {
        let p = str_chars(preferred[i].as_str());
        assert(pv[i as int] == preferred@[i as int]@);
        if chars_eq(p.as_slice(), group) {
            proof {
                lemma_rank_from_bounds(group@, pv, i as int);
            }
            return i as u64;
        }
        i += 1;
    }
    i as u64
}

fn module_category(v: &Vis, preferred: &[String]) -> (r: Vec<char>)
    ensures
        r@ == spec_module_category(*v, strings_view(preferred@)),
{
    match v {
        Vis::Restricted { path, has_in } => {
            let ghost p = path@.map_values(|x: Vec<char>| x@);
            let c = str_chars("crate");
            let s = str_chars("super");
            if path.len() > 0 && chars_eq(path[0].as_slice(), c.as_slice()) {
                assert(p[0] == path@[0]@);
                let in_crate = str_chars("in_crate");
                if *has_in && strings_contain(preferred, in_crate.as_slice()) {
                    in_crate
                } else {
                    c
                }
            } else if path.len() > 0 && chars_eq(path[0].as_slice(), s.as_slice()) {
                assert(p[0] == path@[0]@);
                s
            } else {
                proof {
                    if p.len() > 0 {
                        assert(p[0] == path@[0]@);
                    }
                }
                str_chars("local")
            }
        },
        _ => str_chars("local"),
    }
}

/// The block a declaration at index `i` (ending at `end`) makes, with the
/// pending attached lines in front of it.
pub open spec fn make_block(
    region: Seq<Seq<char>>,
    i: int,
    end: int,
    pending: Seq<Seq<char>>,
    index: int,
    preferred: Seq<Seq<char>>,
) -> ModuleBlockModel {
    let t = trim(region[i]);
    let stmt = region.subrange(i, end + 1);
    let text = join_with(pending + stmt, '\n');
    if spec_is_module_decl_line(t) {
        let m = syn_item_mod(t).unwrap();
        ModuleBlockModel {
            kind: PreludeKind::Mod,
            rank: category_rank(spec_module_category(m.vis, preferred), preferred),
            group: spec_module_category(m.vis, preferred),
            name: m.ident@,
            index,
            original: text,
        }
    } else if spec_is_pub_use_line(t) {
        ModuleBlockModel {
            kind: PreludeKind::PubUse,
            rank: 0,
            group: seq![],
            name: join_with(stmt, '\n'),
            index,
            original: text,
        }
    } else {
        ModuleBlockModel {
            kind: PreludeKind::Use,
            rank: 0,
            group: seq![],
            name: join_with(stmt, '\n'),
            index,
            original: text,
        }
    }
}

/// The blocks of the region from line `i` on. Blank lines join the pending
/// attached lines only once there are some; comments and attributes join
/// them; a declaration takes them; any other line drops them.
pub open spec fn blocks_from(
    region: Seq<Seq<char>>,
    i: int,
    pending: Seq<Seq<char>>,
    index: int,
    preferred: Seq<Seq<char>>,
) -> Seq<ModuleBlockModel>
    decreases region.len() - i,
{
    if i < 0 || i >= region.len() {
        seq![]
    } else {
        let line = region[i];
        let t = trim(line);
        if t.len() == 0 {
            let p = if pending.len() > 0 {
                pending.push(line)
            } else {
                pending
            };
            blocks_from(region, i + 1, p, index, preferred)
        } else if spec_is_attachable(t) && !spec_is_prelude_decl_line(t) {
            blocks_from(region, i + 1, pending.push(line), index, preferred)
        } else if spec_is_prelude_decl_line(t) {
            let end = if spec_is_module_decl_line(t) {
                i
            } else {
                spec_consume_stmt_end(region, i)
            };
            let next = if i < end + 1 <= region.len() {
                end + 1
            } else {
                i + 1
            };
            seq![make_block(region, i, end, pending, index, preferred)] + blocks_from(
                region,
                next,
                seq![],
                index + 1,
                preferred,
            )
        } else {
            blocks_from(region, i + 1, seq![], index, preferred)
        }
    }
}

pub open spec fn spec_parse_prelude_blocks(region: Seq<Seq<char>>, preferred: Seq<Seq<char>>) -> Seq<
    ModuleBlockModel,
> {
    blocks_from(region, 0, seq![], 0, preferred)
}

fn parse_prelude_blocks(region_lines: &[Vec<char>], preferred_module_order: &[String]) -> (r: Vec<
    ModuleBlock,
>)
    requires
        small_lines(view_all(region_lines@)),
    ensures
        block_views(r@) == spec_parse_prelude_blocks(
            view_all(region_lines@),
            strings_view(preferred_module_order@),
        ),
{
    let ghost rv = view_all(region_lines@);
    let ghost pref = strings_view(preferred_module_order@);
    let mut blocks: Vec<ModuleBlock> = Vec::new();
    let mut pending_leading: Vec<Vec<char>> = Vec::new();
    let mut i: usize = 0;
    let mut block_index: usize = 0;
    assert(view_all(pending_leading@) =~= Seq::<Seq<char>>::empty());
    assert(block_views(blocks@) =~= Seq::<ModuleBlockModel>::empty());
    assert(block_views(blocks@) + blocks_from(rv, 0, view_all(pending_leading@), 0, pref)
        =~= spec_parse_prelude_blocks(rv, pref));
    while i < region_lines.len()
        invariant
            i <= region_lines.len(),
            block_index <= i,
            rv == view_all(region_lines@),
            pref == strings_view(preferred_module_order@),
            small_lines(rv),
            block_views(blocks@) + blocks_from(
                rv,
                i as int,
                view_all(pending_leading@),
                block_index as int,
                pref,
            ) == spec_parse_prelude_blocks(rv, pref),
        decreases region_lines.len() - i,
    {
        let line = &region_lines[i];
        assert(rv[i as int] == line@);
        let trimmed = trim_chars(line.as_slice());
        let ghost before = block_views(blocks@);
        let ghost pv = view_all(pending_leading@);
        if trimmed.len() == 0 {
            if pending_leading.len() > 0 {
                pending_leading.push(copy_chars(line.as_slice()));
                assert(view_all(pending_leading@) =~= pv.push(line@));
            }
            i += 1;
            continue;
        }
        let decl = is_prelude_decl_line(trimmed.as_slice());
        if is_attachable(trimmed.as_slice()) && !decl {
            pending_leading.push(copy_chars(line.as_slice()));
            assert(view_all(pending_leading@) =~= pv.push(line@));
            i += 1;
            continue;
        }
        if decl {
            let is_mod = is_module_decl_line(trimmed.as_slice());
            proof {
                lemma_consume_from_bounds(rv, i as int, 0);
            }
            let end = if is_mod {
                i
            } else {
                consume_use_stmt_end(region_lines, i)
            };
            let stmt_lines = copy_lines_range(region_lines, i, end + 1);
            let mut block_lines = copy_lines_range(pending_leading.as_slice(), 0, pending_leading.len());
            let ghost bl0 = view_all(block_lines@);
            assert(bl0 =~= pv);
            let mut k: usize = 0;
            while k < stmt_lines.len()
                invariant
                    k <= stmt_lines.len(),
                    view_all(block_lines@) == pv + view_all(stmt_lines@).take(k as int),
                decreases stmt_lines.len() - k,
            {
                let ghost ob = block_lines@;
                let c = copy_chars(stmt_lines[k].as_slice());
                block_lines.push(c);
                proof {
                    lemma_view_all_push(ob, c);
                }
                assert(view_all(stmt_lines@).take(k + 1) =~= view_all(stmt_lines@).take(
                    k as int,
                ).push(stmt_lines@[k as int]@));
                assert(pv + view_all(stmt_lines@).take(k + 1) =~= (pv + view_all(
                    stmt_lines@,
                ).take(k as int)).push(stmt_lines@[k as int]@));
                k += 1;
            }
            assert(view_all(stmt_lines@).take(stmt_lines.len() as int) =~= view_all(stmt_lines@));
            let original_block = join_lines(block_lines.as_slice(), '\n');
            let block = if is_mod {
                match parse_item_mod(trimmed.as_slice()) {
                    Some(item_mod) => {
                        let category = module_category(&item_mod.vis, preferred_module_order);
                        let rank = category_rank_exec(category.as_slice(), preferred_module_order);
                        ModuleBlock {
                            kind: PreludeKind::Mod,
                            sort_rank: rank,
                            sort_group: category,
                            sort_name: copy_chars(item_mod.ident.as_slice()),
                            original_index: block_index,
                            original_block,
                        }
                    },
                    None => {
                        // a module declaration line always parses
                        ModuleBlock {
                            kind: PreludeKind::Mod,
                            sort_rank: 0,
                            sort_group: Vec::new(),
                            sort_name: Vec::new(),
                            original_index: block_index,
                            original_block,
                        }
                    },
                }
            } else if is_pub_use_line(trimmed.as_slice()) {
                ModuleBlock {
                    kind: PreludeKind::PubUse,
                    sort_rank: 0,
                    sort_group: Vec::new(),
                    sort_name: join_lines(stmt_lines.as_slice(), '\n'),
                    original_index: block_index,
                    original_block,
                }
            } else {
                ModuleBlock {
                    kind: PreludeKind::Use,
                    sort_rank: 0,
                    sort_group: Vec::new(),
                    sort_name: join_lines(stmt_lines.as_slice(), '\n'),
                    original_index: block_index,
                    original_block,
                }
            };
            assert(block@ == make_block(rv, i as int, end as int, pv, block_index as int, pref));
            blocks.push(block);
            assert(block_views(blocks@) =~= before.push(block@));
            pending_leading = Vec::new();
            proof {
                assert(view_all(pending_leading@) =~= Seq::<Seq<char>>::empty());
                assert(before.push(block@) + blocks_from(rv, end + 1, seq![], block_index + 1, pref)
                    =~= before + (seq![block@] + blocks_from(
                    rv,
                    end + 1,
                    seq![],
                    block_index + 1,
                    pref,
                )));
            }
            block_index += 1;
            i = end + 1;
            continue;
        }
        pending_leading = Vec::new();
        assert(view_all(pending_leading@) =~= Seq::<Seq<char>>::empty());
        i += 1;
    }
    assert(block_views(blocks@) + seq![] =~= block_views(blocks@));
    blocks
}

// ---------------------------------------------------------------------------
// Ordering and output
// ---------------------------------------------------------------------------

/// Kind first; then the written position for `use`, category and name for
/// modules, and the text for `pub use`.
pub open spec fn block_key(b: ModuleBlockModel) -> KeyModel {
    match b.kind {
        PreludeKind::Use => KeyModel { ranks: seq![0u64, b.index as u64], texts: seq![] },
        PreludeKind::Mod => KeyModel { ranks: seq![1u64, b.rank], texts: seq![b.group, b.name] },
        PreludeKind::PubUse => KeyModel { ranks: seq![2u64], texts: seq![b.name] },
    }
}

pub open spec fn spec_sort_blocks(blocks: Seq<ModuleBlockModel>) -> Seq<ModuleBlockModel> {
    sort_by_key(blocks.map_values(|b: ModuleBlockModel| (block_key(b), b))).map_values(
        |p: (KeyModel, ModuleBlockModel)| p.1,
    )
}

/// What the comparison of orders looks at: kind, category and name.
pub open spec fn triples(blocks: Seq<ModuleBlockModel>) -> Seq<(PreludeKind, Seq<char>, Seq<char>)> {
    blocks.map_values(|b: ModuleBlockModel| (b.kind, b.group, b.name))
}

/// The blocks, each followed by a line feed, with a blank line where the
/// kind changes.
pub open spec fn blocks_text(blocks: Seq<ModuleBlockModel>) -> Seq<char>
    decreases blocks.len(),
{
    if blocks.len() == 0 {
        seq![]
    } else {
        let sep = if blocks.len() >= 2 && blocks[blocks.len() - 2].kind != blocks.last().kind {
            seq!['\n']
        } else {
            seq![]
        };
        blocks_text(blocks.drop_last()) + sep + blocks.last().original + seq!['\n']
    }
}

/// The file with its declarations reordered; unchanged when the rule is
/// disabled, there is no region, it holds fewer than two declarations, or
/// they are already in order. A final line break is kept.
pub open spec fn spec_modules_fix(
    rule_enabled: bool,
    preferred: Seq<Seq<char>>,
    content: Seq<char>,
) -> Seq<char> {
    let lines = lines_of(content);
    if !rule_enabled {
        content
    } else {
        match spec_find_prelude_region(lines) {
            None => content,
            Some((s, e)) => {
                let blocks = spec_parse_prelude_blocks(lines.subrange(s, e + 1), preferred);
                if blocks.len() < 2 {
                    content
                } else {
                    let sorted = spec_sort_blocks(blocks);
                    if triples(sorted) == triples(blocks) {
                        content
                    } else {
                        let body = lines_nl(lines.take(s)) + blocks_text(sorted) + tail_text(
                            lines,
                            first_nonblank_from(lines, e + 1),
                        );
                        if has_suffix(content, seq!['\n']) && !has_suffix(body, seq!['\n']) {
                            body.push('\n')
                        } else {
                            body
                        }
                    }
                }
            },
        }
    }
}

pub open spec fn modules_message() -> Seq<char> {
    "Module declarations are not sorted according to configured module order"@
}

/// What the rule reports for a file, given whether it is `lib.rs`: one
/// finding on line 1 when the fix would change it.
pub open spec fn spec_modules_check(
    rule_enabled: bool,
    severity: Severity,
    preferred: Seq<Seq<char>>,
    is_lib: bool,
    content: Seq<char>,
    file: Seq<char>,
) -> Seq<DiagModel> {
    if !rule_enabled || !is_lib || spec_modules_fix(rule_enabled, preferred, content) == content {
        seq![]
    } else {
        seq![finding("RC3001"@, modules_message(), file, 1, severity)]
    }
}

fn block_key_exec(b: &ModuleBlock) -> (r: SortKey)
    ensures
        r@ == block_key(b@),
{
    match b.kind {
        PreludeKind::Use => {
            let r = SortKey { ranks: vec![0u64, b.original_index as u64], texts: Vec::new() };
            assert(r@.ranks =~= block_key(b@).ranks);
            assert(r@.texts =~= block_key(b@).texts);
            r
        },
        PreludeKind::Mod => {
            let r = SortKey {
                ranks: vec![1u64, b.sort_rank],
                texts: vec![copy_chars(b.sort_group.as_slice()), copy_chars(b.sort_name.as_slice())],
            };
            assert(r@.ranks =~= block_key(b@).ranks);
            assert(r@.texts =~= block_key(b@).texts);
            r
        },
        PreludeKind::PubUse => {
            let r = SortKey { ranks: vec![2u64], texts: vec![copy_chars(b.sort_name.as_slice())] };
            assert(r@.ranks =~= block_key(b@).ranks);
            assert(r@.texts =~= block_key(b@).texts);
            r
        },
    }
}

fn sort_blocks(blocks: Vec<ModuleBlock>) -> (r: Vec<ModuleBlock>)
    ensures
        block_views(r@) == spec_sort_blocks(block_views(blocks@)),
{
    let ghost v = block_views(blocks@);
    let ghost f = |x: ModuleBlock| x@;
    let ghost g = |p: (KeyModel, ModuleBlock)| (p.0, f(p.1));
    let ghost target = v.map_values(|b: ModuleBlockModel| (block_key(b), b));
    let mut pairs: Vec<(SortKey, ModuleBlock)> = Vec::new();
    let mut rest = blocks;
    let ghost mut j: int = 0;
    assert(key_pairs(pairs@).map_values(g) =~= target.take(0));
    assert(rest@ =~= blocks@.skip(0));
    while rest.len() > 0
        invariant
            0 <= j <= blocks@.len(),
            rest@ == blocks@.skip(j),
            v == block_views(blocks@),
            target == v.map_values(|b: ModuleBlockModel| (block_key(b), b)),
            g == (|p: (KeyModel, ModuleBlock)| (p.0, f(p.1))),
            f == (|x: ModuleBlock| x@),
            key_pairs(pairs@).map_values(g) == target.take(j),
        decreases rest.len(),
    {
        let ghost old_rest = rest@;
        let b = rest.remove(0);
        assert(b == blocks@[j]);
        let key = block_key_exec(&b);
        let ghost old_pairs = pairs@;
        pairs.push((key, b));
        proof {
            assert(rest@ =~= blocks@.skip(j + 1));
            assert(key_pairs(pairs@) =~= key_pairs(old_pairs).push((key@, b)));
            assert(key_pairs(pairs@).map_values(g) =~= key_pairs(old_pairs).map_values(g).push(
                g((key@, b)),
            ));
            assert(target.take(j + 1) =~= target.take(j).push(target[j]));
            j = j + 1;
        }
    }
    assert(target.take(j) =~= target);
    let out = sorted_values(pairs);
    proof {
        lemma_sort_map_values(key_pairs(pairs@), f);
        let s = sort_by_key(key_pairs(pairs@));
        assert(block_views(out@) =~= s.map_values(g).map_values(
            |p: (KeyModel, ModuleBlockModel)| p.1,
        ));
    }
    out
}

fn same_order(a: &[ModuleBlock], b: &[ModuleBlock]) -> (r: bool)
    ensures
        r == (triples(block_views(a@)) == triples(block_views(b@))),
{
    if a.len() != b.len() {
        proof {
            assert(triples(block_views(a@)).len() != triples(block_views(b@)).len());
        }
        return false;
    }
    let mut k: usize = 0;
    while k < a.len()
        invariant
            a.len() == b.len(),
            k <= a.len(),
            forall|q: int|
                0 <= q < k ==> #[trigger] triples(block_views(a@))[q] == triples(block_views(b@))[q],
        decreases a.len() - k,
    {
        let same = a[k].kind == b[k].kind && chars_eq(
            a[k].sort_group.as_slice(),
            b[k].sort_group.as_slice(),
        ) && chars_eq(a[k].sort_name.as_slice(), b[k].sort_name.as_slice());
        assert(triples(block_views(a@))[k as int] == (a@[k as int].kind, a@[k as int].sort_group@, a@[k as int].sort_name@));
        assert(triples(block_views(b@))[k as int] == (b@[k as int].kind, b@[k as int].sort_group@, b@[k as int].sort_name@));
        if !same {
            return false;
        }
        k += 1;
    }
    assert(triples(block_views(a@)) =~= triples(block_views(b@)));
    true
}

fn push_blocks(result: &mut Vec<char>, blocks: &[ModuleBlock])
    ensures
        final(result)@ == old(result)@ + blocks_text(block_views(blocks@)),
{
    let ghost v = block_views(blocks@);
    let mut prev_kind: Option<PreludeKind> = None;
    let mut k: usize = 0;
    assert(blocks_text(v.take(0)) =~= Seq::<char>::empty());
    assert(result@ =~= old(result)@ + blocks_text(v.take(0)));
    while k < blocks.len()
        invariant
            k <= blocks.len(),
            v == block_views(blocks@),
            result@ == old(result)@ + blocks_text(v.take(k as int)),
            prev_kind == if k == 0 {
                None
            } else {
                Some(v[k - 1].kind)
            },
        decreases blocks.len() - k,
    {
        let b = &blocks[k];
        assert(v[k as int] == b@);
        let ghost t = v.take(k + 1);
        assert(t.drop_last() =~= v.take(k as int));
        assert(t.last() == b@);
        proof {
            if k >= 1 {
                assert(t[t.len() - 2] == v[k - 1]);
            }
        }
        match prev_kind {
            Some(p) => {
                if p != b.kind {
                    result.push('\n');
                }
            },
            None => {},
        }
        push_all(result, b.original_block.as_slice());
        result.push('\n');
        prev_kind = Some(b.kind);
        k += 1;
        assert(result@ =~= old(result)@ + blocks_text(v.take(k as int)));
    }
    assert(v.take(blocks.len() as int) =~= v);
}

fn is_blank(line: &[char]) -> (r: bool)
    ensures
        r == (trim(line@).len() == 0),
{
    let t = trim_chars(line);
    t.len() == 0
}

impl ModulesRule {
    pub open spec fn preferred(&self) -> Seq<Seq<char>> {
        strings_view(self.preferred_module_order@)
    }

    /// Enabled unless the severity is `none`; `error` gives errors,
    /// anything else warnings; the module order as configured.
    pub fn from_config(modules: &crate::config::ModulesConfig) -> (r: Self)
        ensures
            r.enabled == (modules.severity@ != "none"@),
            r.severity == (if modules.severity@ == "error"@ {
                Severity::Error
            } else {
                Severity::Warning
            }),
            r.preferred() == strings_view(modules.preferred_module_order@),
    {
        let sev = str_chars(modules.severity.as_str());
        let none = str_chars("none");
        let error = str_chars("error");
        let enabled = !chars_eq(sev.as_slice(), none.as_slice());
        let severity = if chars_eq(sev.as_slice(), error.as_slice()) {
            Severity::Error
        } else {
            Severity::Warning
        };
        ModulesRule {
            enabled,
            severity,
            preferred_module_order: crate::rules::exports::copy_strings(
                modules.preferred_module_order.as_slice(),
            ),
        }
    }

    fn fix_chars(&self, content: &[char]) -> (r: Vec<char>)
        ensures
            r@ == spec_modules_fix(self.enabled, self.preferred(), content@),
    {
        if !self.enabled {
            return copy_chars(content);
        }
        let n = content.len();
        let ls = lines(content);
        let ghost lv = view_all(ls@);
        proof {
            lemma_lines_small(content@);
        }
        assert(small_lines(lv));
        let (region_start, region_end) = match find_prelude_region(ls.as_slice()) {
            None => {
                return copy_chars(content);
            },
            Some(p) => p,
        };
        proof {
            lemma_total_len_subrange(lv, region_start as int, region_end + 1);
        }
        let region = copy_lines_range(ls.as_slice(), region_start, region_end + 1);
        let blocks = parse_prelude_blocks(region.as_slice(), self.preferred_module_order.as_slice());
        if blocks.len() < 2 {
            return copy_chars(content);
        }
        let ghost bv = block_views(blocks@);
        let original = copy_blocks(blocks.as_slice());
        let sorted = sort_blocks(blocks);
        if same_order(sorted.as_slice(), original.as_slice()) {
            return copy_chars(content);
        }
        let mut result: Vec<char> = Vec::new();
        push_lines_nl(&mut result, ls.as_slice(), 0, region_start);
        assert(lv.subrange(0, region_start as int) =~= lv.take(region_start as int));
        push_blocks(&mut result, sorted.as_slice());
        let ghost head = result@;
        let mut after_idx = region_end + 1;
        while after_idx < ls.len() && is_blank(ls[after_idx].as_slice())
            invariant
                region_end < after_idx <= ls.len(),
                lv == view_all(ls@),
                first_nonblank_from(lv, after_idx as int) == first_nonblank_from(lv, region_end + 1),
            decreases ls.len() - after_idx,
        {
            assert(lv[after_idx as int] == ls@[after_idx as int]@);
            after_idx += 1;
        }
        proof {
            if after_idx < ls.len() {
                assert(lv[after_idx as int] == ls@[after_idx as int]@);
                assert(first_nonblank_from(lv, after_idx as int) == after_idx);
            } else {
                assert(first_nonblank_from(lv, after_idx as int) == lv.len());
            }
        }
        if after_idx < ls.len() {
            result.push('\n');
            let rest = copy_lines_range(ls.as_slice(), after_idx, ls.len());
            let joined = join_lines(rest.as_slice(), '\n');
            assert(lv.subrange(after_idx as int, lv.len() as int) =~= lv.skip(after_idx as int));
            push_all(&mut result, joined.as_slice());
        }
        assert(result@ =~= head + tail_text(lv, first_nonblank_from(lv, region_end + 1)));
        let nl = vec!['\n'];
        assert(nl@ =~= seq!['\n']);
        if ends_with(content, nl.as_slice()) && !ends_with(result.as_slice(), nl.as_slice()) {
            result.push('\n');
        }
        result
    }

    /// The findings for a file, told whether it is `lib.rs`.
    pub fn check_file(&self, content: &str, file: &str, is_lib: bool) -> (r: Vec<Diagnostic>)
        ensures
            diag_views(r@) == spec_modules_check(
                self.enabled,
                self.severity,
                self.preferred(),
                is_lib,
                content@,
                file@,
            ),
    {
        let mut diagnostics: Vec<Diagnostic> = Vec::new();
        if !self.enabled || !is_lib {
            assert(diag_views(diagnostics@) =~= Seq::<DiagModel>::empty());
            return diagnostics;
        }
        let chars = str_chars(content);
        let fixed = self.fix_chars(chars.as_slice());
        if !chars_eq(fixed.as_slice(), chars.as_slice()) {
            let d = Diagnostic {
                rule_id: "RC3001".to_owned(),
                message: "Module declarations are not sorted according to configured module order".to_owned(),
                file: file.to_owned(),
                line: 1,
                severity: self.severity,
                suppressed: false,
                suppression_justification: None,
            };
            diagnostics.push(d);
            assert(diag_views(diagnostics@) =~= seq![d@]);
        } else {
            assert(diag_views(diagnostics@) =~= Seq::<DiagModel>::empty());
        }
        diagnostics
    }
}

fn copy_blocks(blocks: &[ModuleBlock]) -> (r: Vec<ModuleBlock>)
    ensures
        block_views(r@) == block_views(blocks@),
{
    let mut r: Vec<ModuleBlock> = Vec::new();
    let mut k: usize = 0;
    while k < blocks.len()
        invariant
            k <= blocks.len(),
            block_views(r@) == block_views(blocks@).take(k as int),
        decreases blocks.len() - k,
    {
        let b = &blocks[k];
        let c = ModuleBlock {
            kind: b.kind,
            sort_rank: b.sort_rank,
            sort_group: copy_chars(b.sort_group.as_slice()),
            sort_name: copy_chars(b.sort_name.as_slice()),
            original_index: b.original_index,
            original_block: copy_chars(b.original_block.as_slice()),
        };
        let ghost old_r = r@;
        r.push(c);
        assert(block_views(r@) =~= block_views(old_r).push(c@));
        assert(block_views(blocks@).take(k + 1) =~= block_views(blocks@).take(k as int).push(
            blocks@[k as int]@,
        ));
        k += 1;
    }
    assert(block_views(blocks@).take(blocks.len() as int) =~= block_views(blocks@));
    r
}

impl Rule for ModulesRule {
    fn id(&self) -> (r: &str)
        ensures
            r@ == "RC3001"@,
    {
        "RC3001"
    }

    fn name(&self) -> (r: &str)
        ensures
            r@ == "ModuleRules"@,
    {
        "ModuleRules"
    }

    /// The findings of `check_file`, told whether `Path::file_name` of the
    /// path is `lib.rs` (for a portable path, whether its file name is
    /// `lib.rs`); a path that does not contain `lib.rs` gets none.
    fn check(&self, content: &str, file: &str) -> (r: Vec<Diagnostic>)
        ensures
            diag_views(r@) == spec_modules_check(
                self.enabled,
                self.severity,
                self.preferred(),
                true,
                content@,
                file@,
            ) || diag_views(r@) == spec_modules_check(
                self.enabled,
                self.severity,
                self.preferred(),
                false,
                content@,
                file@,
            ),
            !contains_str(file@, "lib.rs"@) ==> r.len() == 0,
            portable_path(file@) ==> diag_views(r@) == spec_modules_check(
                self.enabled,
                self.severity,
                self.preferred(),
                names_lib_file(file@),
                content@,
                file@,
            ),
    {
        let is_lib = is_lib_file(file);
        let r = self.check_file(content, file, is_lib);
        assert(diag_views(r@).len() == r@.len());
        r
    }

    fn fix(&self, content: &str) -> (r: String)
        ensures
            r@ == spec_modules_fix(self.enabled, self.preferred(), content@),
    {
        let chars = str_chars(content);
        let out = self.fix_chars(chars.as_slice());
        chars_to_string(out.as_slice())
    }
}

// ---------------------------------------------------------------------------
// Laws
// ---------------------------------------------------------------------------

/// The order the rule lays declarations out in: private `use` statements
/// first, then module declarations, then `pub use` statements; `use`
/// statements keep the order they were written in; modules are sorted by
/// the position of their category in the preferred order, then category,
/// then name, and `pub use` statements by text. Nothing is lost
/// or added.
pub proof fn law_sorted_blocks_ordered(blocks: Seq<ModuleBlockModel>)
    ensures
        spec_sort_blocks(blocks).len() == blocks.len(),
        forall|i: int, j: int|
            0 <= i < j < spec_sort_blocks(blocks).len() ==> kind_rank(
                #[trigger] spec_sort_blocks(blocks)[i].kind,
            ) <= kind_rank(#[trigger] spec_sort_blocks(blocks)[j].kind),
        forall|i: int, j: int|
            0 <= i < j < spec_sort_blocks(blocks).len() && spec_sort_blocks(blocks)[i].kind
                == PreludeKind::Use && spec_sort_blocks(blocks)[j].kind == PreludeKind::Use ==> (
            #[trigger] spec_sort_blocks(blocks)[i]).index as u64 <= (
            #[trigger] spec_sort_blocks(blocks)[j]).index as u64,
        forall|i: int, j: int|
            0 <= i < j < spec_sort_blocks(blocks).len() ==> key_le(
                block_key(#[trigger] spec_sort_blocks(blocks)[i]),
                block_key(#[trigger] spec_sort_blocks(blocks)[j]),
            ),
        spec_sort_blocks(blocks).to_multiset() == blocks.to_multiset(),
{
    let pairs = blocks.map_values(|b: ModuleBlockModel| (block_key(b), b));
    let key_of = |b: ModuleBlockModel| block_key(b);
    let sorted = sort_by_key(pairs);
    let out = spec_sort_blocks(blocks);
    law_sort_sorted(pairs);
    law_sort_permutation(pairs);
    lemma_sort_keys_of(pairs, key_of);
    assert forall|i: int, j: int| 0 <= i < j < out.len() implies key_le(
        block_key(#[trigger] out[i]),
        block_key(#[trigger] out[j]),
    ) by {
        assert(out[i] == sorted[i].1);
        assert(out[j] == sorted[j].1);
        assert(sorted[i].0 == key_of(sorted[i].1));
        assert(sorted[j].0 == key_of(sorted[j].1));
    }
    assert forall|i: int, j: int| 0 <= i < j < out.len() implies kind_rank(
        #[trigger] out[i].kind,
    ) <= kind_rank(#[trigger] out[j].kind) by {
        lemma_key_le_first_rank(block_key(out[i]), block_key(out[j]));
    }
    assert forall|i: int, j: int|
        0 <= i < j < out.len() && out[i].kind == PreludeKind::Use && out[j].kind
            == PreludeKind::Use implies (#[trigger] out[i]).index as u64 <= (
        #[trigger] out[j]).index as u64 by {
        let a = block_key(out[i]);
        let b = block_key(out[j]);
        assert(key_le(a, b));
        crate::sort::lemma_ranks_order_zero(a.ranks, b.ranks);
        crate::sort::lemma_ranks_order_zero(a.ranks.drop_first(), b.ranks.drop_first());
        assert(a.ranks.drop_first() =~= seq![out[i].index as u64]);
        assert(b.ranks.drop_first() =~= seq![out[j].index as u64]);
        if out[i].index as u64 > out[j].index as u64 {
            assert(crate::sort::ranks_order(a.ranks, b.ranks) == 1);
        }
    }
    // the pairs carry their blocks, so the blocks are rearranged too
    let proj = |p: (KeyModel, ModuleBlockModel)| p.1;
    lemma_map_multiset(sorted, pairs, proj);
    assert(pairs.map_values(proj) =~= blocks);
}

/// Sequences that are rearrangements of each other stay so under a map.
proof fn lemma_map_multiset<A, B>(s: Seq<A>, t: Seq<A>, f: spec_fn(A) -> B)
    requires
        s.to_multiset() == t.to_multiset(),
    ensures
        s.map_values(f).to_multiset() == t.map_values(f).to_multiset(),
    decreases s.len(),
{
    broadcast use vstd::seq_lib::group_to_multiset_ensures;

    if s.len() == 0 {
        vstd::seq_lib::to_multiset_len(t);
        assert(t.to_multiset().len() == 0);
        assert(t.len() == 0);
        assert(s.map_values(f) =~= Seq::<B>::empty());
        assert(t.map_values(f) =~= Seq::<B>::empty());
    } else {
        let x = s.last();
        assert(s.to_multiset().count(x) > 0) by {
            assert(s.contains(x)) by {
                assert(s[s.len() - 1] == x);
            }
        }
        assert(t.contains(x));
        let k = choose|k: int| 0 <= k < t.len() && t[k] == x;
        let t2 = t.remove(k);
        vstd::seq_lib::to_multiset_remove(t, k);
        vstd::seq_lib::to_multiset_build(s.drop_last(), x);
        assert(s.drop_last().push(x) =~= s);
        assert(s.drop_last().to_multiset() =~= t2.to_multiset());
        lemma_map_multiset(s.drop_last(), t2, f);
        assert(s.map_values(f) =~= s.drop_last().map_values(f).push(f(x)));
        vstd::seq_lib::to_multiset_build(s.drop_last().map_values(f), f(x));
        assert(t.map_values(f).remove(k) =~= t2.map_values(f));
        vstd::seq_lib::to_multiset_remove(t.map_values(f), k);
        vstd::seq_lib::to_multiset_build(t2.map_values(f), f(x));
        assert(t.map_values(f).to_multiset() =~= t2.map_values(f).to_multiset().insert(f(x)));
    }
}

/// RC3001 reports only on a crate root with the rule enabled, and there
/// exactly when fixing would change the text: at most one finding, an
/// unsuppressed RC3001 on line 1 with the rule's severity. A disabled rule
/// leaves the text as it is.
pub proof fn law_modules_check_matches_fix(
    rule_enabled: bool,
    severity: Severity,
    preferred: Seq<Seq<char>>,
    is_lib: bool,
    content: Seq<char>,
    file: Seq<char>,
)
    ensures
        !rule_enabled ==> spec_modules_fix(rule_enabled, preferred, content) == content,
        !rule_enabled || !is_lib ==> spec_modules_check(
            rule_enabled,
            severity,
            preferred,
            is_lib,
            content,
            file,
        ).len() == 0,
        spec_modules_check(rule_enabled, severity, preferred, is_lib, content, file).len() <= 1,
        rule_enabled && is_lib ==> (spec_modules_check(
            rule_enabled,
            severity,
            preferred,
            is_lib,
            content,
            file,
        ).len() == 0 <==> spec_modules_fix(rule_enabled, preferred, content) == content),
        forall|i: int|
            0 <= i < spec_modules_check(
                rule_enabled,
                severity,
                preferred,
                is_lib,
                content,
                file,
            ).len() ==> {
                let d = #[trigger] spec_modules_check(
                    rule_enabled,
                    severity,
                    preferred,
                    is_lib,
                    content,
                    file,
                )[i];
                &&& d.rule_id == "RC3001"@
                &&& d.line == 1
                &&& d.severity == severity
                &&& d.file == file
                &&& !d.suppressed
            },
{
}

/// `pub(in crate::..)` is a category of its own only when the preferred
/// order lists `in_crate`; otherwise it is the `crate` category, the same as
/// `pub(crate)`, and ranks the same. `pub(crate)` is always `crate`,
/// `pub(super)` is `super`, and a public or private module is `local`.
pub proof fn law_module_category_of_visibility(
    in_path: Vec<Vec<char>>,
    plain_path: Vec<Vec<char>>,
    preferred: Seq<Seq<char>>,
)
    requires
        in_path@.len() > 0 && in_path@[0]@ == "crate"@,
        plain_path@.len() > 0 && plain_path@[0]@ == "crate"@,
    ensures
        ({
            let vin = Vis::Restricted { path: in_path, has_in: true };
            let vc = Vis::Restricted { path: plain_path, has_in: false };
            &&& spec_module_category(vc, preferred) == "crate"@
            &&& preferred.contains("in_crate"@) ==> spec_module_category(vin, preferred)
                == "in_crate"@
            &&& !preferred.contains("in_crate"@) ==> spec_module_category(vin, preferred)
                == "crate"@ && category_rank(spec_module_category(vin, preferred), preferred)
                == category_rank(spec_module_category(vc, preferred), preferred)
        }),
        spec_module_category(Vis::Public, preferred) == "local"@,
        spec_module_category(Vis::Inherited, preferred) == "local"@,
{
    reveal_strlit("crate");
    reveal_strlit("in_crate");
    reveal_strlit("local");
}

} // verus!
