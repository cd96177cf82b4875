//! RC1001: groups, sorts, merges and re-wraps the `use` statements at the
//! top of a file the way rustfmt lays them out.
use vstd::prelude::*;

use crate::diagnostic::{diag_views, finding, DiagModel, Diagnostic, Severity};
use crate::rules::Rule;
use crate::lexis::{
    chars_eq, is_std_root, kw_alloc, kw_core, kw_crate, kw_crate_v, kw_self, kw_self_v, kw_std,
    kw_super, kw_super_v, kw_attr, kw_attr_v, kw_block_comment, kw_block_comment_v, kw_close_use, kw_close_use_v,
    kw_inner_attr, kw_inner_attr_v, kw_line_comment, kw_line_comment_v, kw_pub_paren,
    kw_pub_paren_v, kw_pub_use, kw_pub_use_v, kw_use, kw_use_v,
};
use crate::sort::{key_le, law_sort_sorted, lemma_key_le_first_rank, lemma_sort_keys_of, lemma_sort_no_duplicates, key_order, key_order_exec, lemma_key_order_zero, lemma_sort_elements, key_pairs, lemma_sort_map_values, sort_by_key, KeyModel, SortKey, stable_sort};
use crate::syntax::{
    copy_node, nodes_equal, format_visibility, lemma_trees_view_len, opt_view, lemma_trees_view_push, parse_item_use, tree_view, trees_view, spec_format_visibility, syn_item_use,
    ItemUseParts, TreeModel, UseNode,
};
use crate::text::{
    copy_lines_range,
    ends_with, has_suffix, lemma_lines_small, lemma_total_len_subrange, lines, lines_of, str_chars, chars_to_string,
    brace_delta, brace_delta_exec, contains, copy_chars, join_lines, join_with, lemma_view_all_push, lemma_view_all_take, contains_char, contains_str, has_prefix, is_lowercase, is_uppercase, is_numeric, lower_char, upper_char, numeric_char, push_all, lines_nl, push_lines_nl, join_sep, spaces, push_spaces, byte_len, byte_len_exec, lemma_byte_len_add, lemma_byte_len_spaces, join_sep_exec, comma_sp,
    lemma_trim_len, lemma_total_len_prefix, lemma_total_len_take, total_len, small_lines, starts_with, trim, trim_chars, view_all,
};

verus! {

broadcast use vstd::std_specs::vec::group_vec_axioms;

// ---------------------------------------------------------------------------
// Line classification
// ---------------------------------------------------------------------------

pub open spec fn spec_is_use_line(t: Seq<char>) -> bool {
    ||| has_prefix(t, kw_use())
    ||| has_prefix(t, kw_pub_use())
    ||| (has_prefix(t, kw_pub_paren()) && contains_str(t, kw_close_use()))
}

pub fn is_use_line(t: &[char]) -> (r: bool)
    ensures
        r == spec_is_use_line(t@),
{
    let a = kw_use_v();
    let b = kw_pub_use_v();
    let c = kw_pub_paren_v();
    let d = kw_close_use_v();
    starts_with(t, a.as_slice()) || starts_with(t, b.as_slice()) || (starts_with(t, c.as_slice())
        && contains(t, d.as_slice()))
}

pub open spec fn spec_is_attribute_line(t: Seq<char>) -> bool {
    has_prefix(t, kw_attr()) || has_prefix(t, kw_inner_attr())
}

pub fn is_attribute_line(t: &[char]) -> (r: bool)
    ensures
        r == spec_is_attribute_line(t@),
{
    let a = kw_attr_v();
    let b = kw_inner_attr_v();
    starts_with(t, a.as_slice()) || starts_with(t, b.as_slice())
}

pub open spec fn is_ascii_alpha(c: char) -> bool {
    ('a' <= c && c <= 'z') || ('A' <= c && c <= 'Z')
}

pub open spec fn is_comment_start(t: Seq<char>) -> bool {
    has_prefix(t, kw_line_comment()) || has_prefix(t, kw_block_comment())
}

fn is_comment_start_exec(t: &[char]) -> (r: bool)
    ensures
        r == is_comment_start(t@),
{
    let a = kw_line_comment_v();
    let b = kw_block_comment_v();
    starts_with(t, a.as_slice()) || starts_with(t, b.as_slice())
}

/// A macro invocation line such as `cfg_if!` that tags the next statement.
pub open spec fn spec_is_macro_tag_line(t: Seq<char>) -> bool {
    &&& !is_comment_start(t)
    &&& t.len() > 0
    &&& (is_ascii_alpha(t[0]) || t[0] == '_')
    &&& t.contains('!')
}

pub fn is_macro_tag_line(t: &[char]) -> (r: bool)
    ensures
        r == spec_is_macro_tag_line(t@),
{
    if is_comment_start_exec(t) {
        return false;
    }
    if t.len() == 0 {
        return false;
    }
    let c = t[0];
    let ident_start = ('a' <= c && c <= 'z') || ('A' <= c && c <= 'Z') || c == '_';
    ident_start && contains_char(t, '!')
}

pub open spec fn spec_is_attachable_line(t: Seq<char>) -> bool {
    is_comment_start(t) || spec_is_attribute_line(t) || spec_is_macro_tag_line(t)
}

pub fn is_attachable_line(t: &[char]) -> (r: bool)
    ensures
        r == spec_is_attachable_line(t@),
{
    is_comment_start_exec(t) || is_attribute_line(t) || is_macro_tag_line(t)
}

// ---------------------------------------------------------------------------
// Region detection
// ---------------------------------------------------------------------------

/// A blank or attachable line that travels with the statement below it.
pub open spec fn is_attached_trivia(line: Seq<char>) -> bool {
    trim(line).len() == 0 || spec_is_attachable_line(trim(line))
}

/// Walk back from a `use` line over blank and attachable lines.
pub open spec fn spec_backtrack(lines: Seq<Seq<char>>, i: int) -> int
    decreases i,
{
    if 0 < i <= lines.len() && is_attached_trivia(lines[i - 1]) {
        spec_backtrack(lines, i - 1)
    } else {
        i
    }
}

pub proof fn lemma_backtrack_bound(lines: Seq<Seq<char>>, i: int)
    requires
        0 <= i,
    ensures
        0 <= spec_backtrack(lines, i) <= i,
    decreases i,
{
    if 0 < i <= lines.len() && is_attached_trivia(lines[i - 1]) {
        lemma_backtrack_bound(lines, i - 1);
    }
}

pub fn backtrack_attached_prefix(lines: &[Vec<char>], use_line_idx: usize) -> (r: usize)
    requires
        use_line_idx <= lines.len(),
    ensures
        r == spec_backtrack(view_all(lines@), use_line_idx as int),
        r <= use_line_idx,
{
    let ghost v = view_all(lines@);
    let mut start = use_line_idx;
    while start > 0 && is_trivia_line(lines[start - 1].as_slice())
        invariant
            start <= use_line_idx <= lines.len(),
            v == view_all(lines@),
            spec_backtrack(v, start as int) == spec_backtrack(v, use_line_idx as int),
        decreases start,
    {
        assert(v[start - 1] == lines@[start - 1]@);
        start -= 1;
    }
    if start > 0 {
        assert(v[start - 1] == lines@[start - 1]@);
    }
    start
}

fn is_trivia_line(line: &[char]) -> (r: bool)
    ensures
        r == is_attached_trivia(line@),
{
    let t = trim_chars(line);
    t.len() == 0 || is_attachable_line(t.as_slice())
}

/// The scan that finds the `use` region: `first` is where the region
/// starts, `last` the last line of a `use` statement seen, `depth` the open
/// brace count of a statement in progress.
pub open spec fn region_scan(
    lines: Seq<Seq<char>>,
    i: int,
    first: Option<int>,
    last: int,
    depth: int,
    found: bool,
) -> Option<(int, int)>
    decreases lines.len() - i,
{
    if i < 0 || i >= lines.len() {
        match first {
            Some(s) => Some((s, last)),
            None => None,
        }
    } else {
        let t = trim(lines[i]);
        if depth > 0 {
            region_scan(lines, i + 1, first, i, depth + brace_delta(t), found)
        } else if spec_is_use_line(t) {
            let f = match first {
                Some(s) => Some(s),
                None => Some(spec_backtrack(lines, i)),
            };
            region_scan(lines, i + 1, f, i, depth + brace_delta(t), true)
        } else if found && (t.len() == 0 || spec_is_attachable_line(t)) {
            region_scan(lines, i + 1, first, last, depth, found)
        } else if found {
            match first {
                Some(s) => Some((s, last)),
                None => None,
            }
        } else {
            region_scan(lines, i + 1, first, last, depth, found)
        }
    }
}

/// First and last line (inclusive) of the `use` region, if any.
pub open spec fn spec_find_use_region(lines: Seq<Seq<char>>) -> Option<(int, int)> {
    region_scan(lines, 0, None, 0, 0, false)
}

proof fn lemma_region_scan_bounds(
    lines: Seq<Seq<char>>,
    i: int,
    first: Option<int>,
    last: int,
    depth: int,
    found: bool,
)
    requires
        0 <= i <= lines.len(),
        first matches Some(s) ==> 0 <= s <= last < i,
    ensures
        region_scan(lines, i, first, last, depth, found) matches Some((s, e)) ==> 0 <= s <= e
            < lines.len(),
    decreases lines.len() - i,
{
    if i < lines.len() {
        let t = trim(lines[i]);
        if depth > 0 {
            lemma_region_scan_bounds(lines, i + 1, first, i, depth + brace_delta(t), found);
        } else if spec_is_use_line(t) {
            lemma_backtrack_bound(lines, i);
            let f = match first {
                Some(s) => Some(s),
                None => Some(spec_backtrack(lines, i)),
            };
            lemma_region_scan_bounds(lines, i + 1, f, i, depth + brace_delta(t), true);
        } else if found && (t.len() == 0 || spec_is_attachable_line(t)) {
            lemma_region_scan_bounds(lines, i + 1, first, last, depth, found);
        } else if found {
        } else {
            lemma_region_scan_bounds(lines, i + 1, first, last, depth, found);
        }
    }
}

pub proof fn lemma_find_use_region_bounds(lines: Seq<Seq<char>>)
    ensures
        spec_find_use_region(lines) matches Some((s, e)) ==> 0 <= s <= e < lines.len(),
{
    lemma_region_scan_bounds(lines, 0, None, 0, 0, false);
}

pub fn find_use_region(lines: &[Vec<char>]) -> (r: Option<(usize, usize)>)
    requires
        small_lines(view_all(lines@)),
    ensures
        r matches Some((s, e)) ==> spec_find_use_region(view_all(lines@)) == Some(
            (s as int, e as int),
        ),
        r is None ==> spec_find_use_region(view_all(lines@)) is None,
{
    let ghost v = view_all(lines@);
    let mut first_use: Option<usize> = None;
    let mut last_use_end: usize = 0;
    let mut i: usize = 0;
    let mut brace_depth: i128 = 0;
    let mut found_any_use = false;
    while i < lines.len()
        invariant
            i <= lines.len(),
            v == view_all(lines@),
            small_lines(v),
            -total_len(v.take(i as int)) <= brace_depth <= total_len(v.take(i as int)),
            last_use_end < lines.len() || last_use_end == 0,
            region_scan(
                v,
                i as int,
                match first_use {
                    Some(s) => Some(s as int),
                    None => None,
                },
                last_use_end as int,
                brace_depth as int,
                found_any_use,
            ) == spec_find_use_region(v),
        decreases lines.len() - i,
    {
        let trimmed = trim_chars(lines[i].as_slice());
        assert(v[i as int] == lines@[i as int]@);
        proof {
            lemma_trim_len(v[i as int]);
            lemma_total_len_take(v, i as int);
            lemma_total_len_prefix(v, i + 1);
        }
        assert(trimmed@.len() <= v[i as int].len());
        if brace_depth > 0 {
            let d = brace_delta_exec(trimmed.as_slice());
            brace_depth = brace_depth + d;
            last_use_end = i;
            i += 1;
            continue;
        }
        if is_use_line(trimmed.as_slice()) {
            if first_use.is_none() {
                first_use = Some(backtrack_attached_prefix(lines, i));
            }
            found_any_use = true;
            let d = brace_delta_exec(trimmed.as_slice());
            brace_depth = brace_depth + d;
            last_use_end = i;
        } else if found_any_use && (trimmed.len() == 0 || is_attachable_line(trimmed.as_slice())) {
        } else if found_any_use {
            return match first_use {
                Some(start) => Some((start, last_use_end)),
                None => None,
            };
        }
        i += 1;
    }
    match first_use {
        Some(start) => Some((start, last_use_end)),
        None => None,
    }
}

// ---------------------------------------------------------------------------
// Statement blocks
// ---------------------------------------------------------------------------

/// Index of the line that ends the statement starting at `i`: the first
/// line where the running brace count is not positive and a `;` occurs;
/// the last line if there is none.
pub open spec fn consume_from(lines: Seq<Seq<char>>, i: int, depth: int) -> int
    decreases lines.len() - i,
{
    if i < 0 || i >= lines.len() {
        if lines.len() == 0 {
            0
        } else {
            lines.len() - 1
        }
    } else {
        let d = depth + brace_delta(lines[i]);
        if d <= 0 && lines[i].contains(';') {
            i
        } else {
            consume_from(lines, i + 1, d)
        }
    }
}

pub open spec fn spec_consume_stmt_end(lines: Seq<Seq<char>>, start: int) -> int {
    consume_from(lines, start, 0)
}

pub proof fn lemma_consume_from_bounds(lines: Seq<Seq<char>>, i: int, depth: int)
    requires
        0 <= i < lines.len(),
    ensures
        i <= consume_from(lines, i, depth) < lines.len(),
    decreases lines.len() - i,
{
    let d = depth + brace_delta(lines[i]);
    if !(d <= 0 && lines[i].contains(';')) {
        if i + 1 < lines.len() {
            lemma_consume_from_bounds(lines, i + 1, d);
        } else {
            assert(consume_from(lines, i + 1, d) == lines.len() - 1);
        }
    }
}

pub fn consume_use_stmt_end(lines: &[Vec<char>], start: usize) -> (r: usize)
    requires
        small_lines(view_all(lines@)),
        start < lines.len(),
    ensures
        r == spec_consume_stmt_end(view_all(lines@), start as int),
        start <= r < lines.len(),
{
    let ghost v = view_all(lines@);
    proof {
        lemma_consume_from_bounds(v, start as int, 0);
    }
    let mut i = start;
    let mut brace_depth: i128 = 0;
    while i < lines.len()
        invariant
            start <= i <= lines.len(),
            v == view_all(lines@),
            small_lines(v),
            -total_len(v.take(i as int)) <= brace_depth <= total_len(v.take(i as int)),
            consume_from(v, i as int, brace_depth as int) == consume_from(v, start as int, 0),
        decreases lines.len() - i,
    {
        assert(v[i as int] == lines@[i as int]@);
        proof {
            lemma_total_len_take(v, i as int);
            lemma_total_len_prefix(v, i + 1);
        }
        let d = brace_delta_exec(lines[i].as_slice());
        brace_depth = brace_depth + d;
        if brace_depth <= 0 && contains_char(lines[i].as_slice(), ';') {
            return i;
        }
        i += 1;
    }
    lines.len() - 1
}

/// A statement with the comment, attribute and blank lines attached above it.
pub struct BlockModel {
    pub leading: Seq<Seq<char>>,
    pub use_text: Seq<char>,
    pub original: Seq<char>,
}

pub struct ImportBlock {
    pub leading_lines: Vec<Vec<char>>,
    pub use_text: Vec<char>,
    pub original_block: Vec<char>,
}

impl View for ImportBlock {
    type V = BlockModel;

    open spec fn view(&self) -> BlockModel {
        BlockModel {
            leading: view_all(self.leading_lines@),
            use_text: self.use_text@,
            original: self.original_block@,
        }
    }
}

pub open spec fn block_views(s: Seq<ImportBlock>) -> Seq<BlockModel> {
    s.map_values(|b: ImportBlock| b@)
}

/// The blocks of the region from line `i` on, with `pending` the attached
/// lines collected so far.
pub open spec fn blocks_from(
    region: Seq<Seq<char>>,
    i: int,
    pending: Seq<Seq<char>>,
) -> Seq<BlockModel>
    decreases region.len() - i,
{
    if i < 0 || i >= region.len() {
        seq![]
    } else {
        let line = region[i];
        let t = trim(line);
        if t.len() == 0 {
            blocks_from(
                region,
                i + 1,
                if pending.len() > 0 {
                    pending.push(line)
                } else {
                    pending
                },
            )
        } else if spec_is_attachable_line(t) && !spec_is_use_line(t) {
            blocks_from(region, i + 1, pending.push(line))
        } else if spec_is_use_line(t) {
            let end = spec_consume_stmt_end(region, i);
            if i <= end < region.len() {
                let use_lines = region.subrange(i, end + 1);
                seq![
                    BlockModel {
                        leading: pending,
                        use_text: join_with(use_lines, '\n'),
                        original: join_with(pending + use_lines, '\n'),
                    },
                ] + blocks_from(region, end + 1, seq![])
            } else {
                seq![]
            }
        } else {
            blocks_from(region, i + 1, seq![])
        }
    }
}

pub open spec fn spec_parse_import_blocks(region: Seq<Seq<char>>) -> Seq<BlockModel> {
    blocks_from(region, 0, seq![])
}

fn copy_lines(lines: &[Vec<char>]) -> (r: Vec<Vec<char>>)
    ensures
        view_all(r@) == view_all(lines@),
{
    let mut r: Vec<Vec<char>> = Vec::new();
    let mut i: usize = 0;
    while i < lines.len()
        invariant
            i <= lines.len(),
            view_all(r@) == view_all(lines@).take(i as int),
        decreases lines.len() - i,
    {
        let ghost old_r = r@;
        let c = copy_chars(lines[i].as_slice());
        r.push(c);
        proof {
            lemma_view_all_push(old_r, c);
            lemma_view_all_take(lines@, i as int);
        }
        i += 1;
    }
    assert(view_all(lines@).take(lines.len() as int) =~= view_all(lines@));
    r
}

pub fn parse_import_blocks(region_lines: &[Vec<char>]) -> (r: Vec<ImportBlock>)
    requires
        small_lines(view_all(region_lines@)),
    ensures
        block_views(r@) == spec_parse_import_blocks(view_all(region_lines@)),
{
    let ghost v = view_all(region_lines@);
    let mut blocks: Vec<ImportBlock> = Vec::new();
    let mut pending_leading: Vec<Vec<char>> = Vec::new();
    let mut i: usize = 0;
    assert(block_views(blocks@) =~= Seq::<BlockModel>::empty());
    assert(view_all(pending_leading@) =~= Seq::<Seq<char>>::empty());
    while i < region_lines.len()
        invariant
            i <= region_lines.len(),
            v == view_all(region_lines@),
            small_lines(v),
            block_views(blocks@) + blocks_from(v, i as int, view_all(pending_leading@))
                == spec_parse_import_blocks(v),
        decreases region_lines.len() - i,
    {
        let line = region_lines[i].as_slice();
        assert(v[i as int] == line@);
        let trimmed = trim_chars(line);
        if trimmed.len() == 0 {
            if pending_leading.len() > 0 {
                let ghost old_p = view_all(pending_leading@);
                pending_leading.push(copy_chars(line));
                assert(view_all(pending_leading@) =~= old_p.push(line@));
            }
            i += 1;
            continue;
        }
        let is_use = is_use_line(trimmed.as_slice());
        if is_attachable_line(trimmed.as_slice()) && !is_use {
            let ghost old_p = view_all(pending_leading@);
            pending_leading.push(copy_chars(line));
            assert(view_all(pending_leading@) =~= old_p.push(line@));
            i += 1;
            continue;
        }
        if is_use {
            let end = consume_use_stmt_end(region_lines, i);
            let mut use_lines: Vec<Vec<char>> = Vec::new();
            let mut k = i;
            while k <= end
                invariant
                    i <= k <= end + 1,
                    end < region_lines.len(),
                    v == view_all(region_lines@),
                    view_all(use_lines@) == v.subrange(i as int, k as int),
                decreases end + 1 - k,
            {
                let ghost old_u = use_lines@;
                let c = copy_chars(region_lines[k].as_slice());
                use_lines.push(c);
                proof {
                    lemma_view_all_push(old_u, c);
                    assert(v[k as int] == region_lines@[k as int]@);
                    assert(v.subrange(i as int, k + 1) =~= v.subrange(i as int, k as int).push(
                        v[k as int],
                    ));
                }
                k += 1;
            }
            let use_text = join_lines(use_lines.as_slice(), '\n');
            let mut block_lines = copy_lines(pending_leading.as_slice());
            let ghost bl0 = view_all(block_lines@);
            let mut k2: usize = 0;
            while k2 < use_lines.len()
                invariant
                    k2 <= use_lines.len(),
                    view_all(block_lines@) == bl0 + view_all(use_lines@).take(k2 as int),
                decreases use_lines.len() - k2,
            {
                let ghost old_b = block_lines@;
                let c = copy_chars(use_lines[k2].as_slice());
                block_lines.push(c);
                proof {
                    lemma_view_all_push(old_b, c);
                    lemma_view_all_take(use_lines@, k2 as int);
                    assert(bl0 + view_all(use_lines@).take(k2 + 1) =~= (bl0 + view_all(
                        use_lines@,
                    ).take(k2 as int)).push(use_lines@[k2 as int]@));
                }
                k2 += 1;
            }
            assert(view_all(use_lines@).take(use_lines.len() as int) =~= view_all(use_lines@));
            let original_block = join_lines(block_lines.as_slice(), '\n');
            let block = ImportBlock { leading_lines: pending_leading, use_text, original_block };
            let ghost old_b = block_views(blocks@);
            blocks.push(block);
            assert(block_views(blocks@) =~= old_b.push(block@));
            pending_leading = Vec::new();
            assert(view_all(pending_leading@) =~= Seq::<Seq<char>>::empty());
            i = end + 1;
            continue;
        }
        pending_leading = Vec::new();
        assert(view_all(pending_leading@) =~= Seq::<Seq<char>>::empty());
        i += 1;
    }
    assert(block_views(blocks@) + seq![] =~= block_views(blocks@));
    blocks
}

// ---------------------------------------------------------------------------
// Parsed statements and their classification
// ---------------------------------------------------------------------------

/// Where an import comes from: the standard library, another crate, or
/// this crate (`crate`, `self`, `super`).
#[derive(Debug, Clone, Copy, PartialEq, Eq, Structural)]
pub enum ImportGroup {
    Std,
    External,
    Internal,
}

pub open spec fn group_rank(g: ImportGroup) -> u64 {
    match g {
        ImportGroup::Std => 0,
        ImportGroup::External => 1,
        ImportGroup::Internal => 2,
    }
}

/// The first path segment of a tree (`self` for `self`, `*` for a glob,
/// the first member's root for a group, empty for an empty group).
pub open spec fn spec_root_ident(t: TreeModel) -> Seq<char>
    decreases t,
{
    match t {
        TreeModel::Path { ident, .. } => ident,
        TreeModel::Name { ident, .. } => ident,
        TreeModel::Slf { .. } => kw_self(),
        TreeModel::Glob => seq!['*'],
        TreeModel::Group { items } => {
            if items.len() > 0 {
                spec_root_ident(items[0])
            } else {
                seq![]
            }
        },
    }
}

pub fn root_ident(node: &UseNode) -> (r: Vec<char>)
    ensures
        r@ == spec_root_ident(node@),
    decreases node,
{
    match node {
        UseNode::Path { ident, .. } => copy_chars(ident.as_slice()),
        UseNode::Name { ident, .. } => copy_chars(ident.as_slice()),
        UseNode::Slf { .. } => kw_self_v(),
        UseNode::Glob => {
            let r = vec!['*'];
            assert(r@ =~= seq!['*']);
            r
        },
        UseNode::Group { items } => {
            proof {
                lemma_trees_view_len(items@);
            }
            if items.len() > 0 {
                root_ident(&items[0])
            } else {
                let r: Vec<char> = Vec::new();
                assert(r@ =~= Seq::<char>::empty());
                r
            }
        },
    }
}

pub open spec fn spec_classify_node(t: TreeModel) -> ImportGroup {
    let root = spec_root_ident(t);
    if root == kw_std() || root == kw_core() || root == kw_alloc() {
        ImportGroup::Std
    } else if root == kw_crate() || root == kw_self() || root == kw_super() {
        ImportGroup::Internal
    } else {
        ImportGroup::External
    }
}

pub fn classify_node(node: &UseNode) -> (r: ImportGroup)
    ensures
        r == spec_classify_node(node@),
{
    let root = root_ident(node);
    let sf = kw_self_v();
    let su = kw_super_v();
    let cr = kw_crate_v();
    if is_std_root(root.as_slice()) {
        ImportGroup::Std
    } else if chars_eq(root.as_slice(), cr.as_slice()) || chars_eq(root.as_slice(), sf.as_slice())
        || chars_eq(root.as_slice(), su.as_slice()) {
        ImportGroup::Internal
    } else {
        ImportGroup::External
    }
}

/// A normalized `use` statement, as the formatter sees it.
pub struct NUModel {
    pub visibility: Seq<char>,
    pub tree: TreeModel,
    pub group: ImportGroup,
    pub leading: Seq<Seq<char>>,
    pub original: Seq<char>,
    pub mergeable: bool,
    pub skip_format: bool,
}

/// A normalized, sortable representation of a single `use` statement.
pub struct NormalizedUse {
    pub visibility: Vec<char>,
    pub tree: UseNode,
    pub group: ImportGroup,
    pub leading_lines: Vec<Vec<char>>,
    pub original_block: Vec<char>,
    pub mergeable: bool,
    pub skip_format: bool,
}

impl View for NormalizedUse {
    type V = NUModel;

    open spec fn view(&self) -> NUModel {
        NUModel {
            visibility: self.visibility@,
            tree: self.tree@,
            group: self.group,
            leading: view_all(self.leading_lines@),
            original: self.original_block@,
            mergeable: self.mergeable,
            skip_format: self.skip_format,
        }
    }
}

pub open spec fn nu_views(s: Seq<NormalizedUse>) -> Seq<NUModel> {
    s.map_values(|n: NormalizedUse| n@)
}

/// An attached line that tags the statement (attribute or macro call).
pub open spec fn is_tag_line(line: Seq<char>) -> bool {
    spec_is_attribute_line(trim(line)) || spec_is_macro_tag_line(trim(line))
}

pub open spec fn has_tag_line(leading: Seq<Seq<char>>) -> bool {
    exists|k: int| 0 <= k < leading.len() && is_tag_line(#[trigger] leading[k])
}

fn has_tag(leading: &[Vec<char>]) -> (r: bool)
    ensures
        r == has_tag_line(view_all(leading@)),
{
    let ghost v = view_all(leading@);
    let mut i: usize = 0;
    while i < leading.len()
        invariant
            i <= leading.len(),
            v == view_all(leading@),
            forall|k: int| 0 <= k < i ==> !is_tag_line(#[trigger] v[k]),
        decreases leading.len() - i,
    {
        let t = trim_chars(leading[i].as_slice());
        assert(v[i as int] == leading@[i as int]@);
        if is_attribute_line(t.as_slice()) || is_macro_tag_line(t.as_slice()) {
            return true;
        }
        i += 1;
    }
    false
}

/// The normalized statement built from a block and its parse.
pub open spec fn item_of(b: BlockModel, p: ItemUseParts) -> NUModel {
    let tree = p.tree@;
    let tagged = has_tag_line(b.leading);
    let is_super = spec_root_ident(tree) == kw_super();
    NUModel {
        visibility: spec_format_visibility(p.vis),
        tree,
        group: spec_classify_node(tree),
        leading: b.leading,
        original: b.original,
        mergeable: !tagged && !is_super,
        skip_format: tagged || is_super,
    }
}

/// The statements of the blocks; `None` as soon as one does not parse.
pub open spec fn items_from(blocks: Seq<BlockModel>) -> Option<Seq<NUModel>>
    decreases blocks.len(),
{
    if blocks.len() == 0 {
        Some(seq![])
    } else {
        match syn_item_use(blocks[0].use_text) {
            None => None,
            Some(p) => match items_from(blocks.drop_first()) {
                None => None,
                Some(rest) => Some(seq![item_of(blocks[0], p)] + rest),
            },
        }
    }
}

pub open spec fn spec_parse_use_items(region: Seq<Seq<char>>) -> Option<Seq<NUModel>> {
    items_from(spec_parse_import_blocks(region))
}

proof fn lemma_items_from_split(blocks: Seq<BlockModel>, i: int)
    requires
        0 <= i < blocks.len(),
    ensures
        items_from(blocks.skip(i)) == match syn_item_use(blocks[i].use_text) {
            None => None,
            Some(p) => match items_from(blocks.skip(i + 1)) {
                None => None,
                Some(rest) => Some(seq![item_of(blocks[i], p)] + rest),
            },
        },
{
    assert(blocks.skip(i).drop_first() =~= blocks.skip(i + 1));
    assert(blocks.skip(i)[0] == blocks[i]);
}

/// Parse use statements from region lines while retaining leading trivia.
pub fn parse_use_items(region_lines: &[Vec<char>]) -> (r: Option<Vec<NormalizedUse>>)
    requires
        small_lines(view_all(region_lines@)),
    ensures
        r matches Some(v) ==> spec_parse_use_items(view_all(region_lines@)) == Some(nu_views(v@)),
        r is None ==> spec_parse_use_items(view_all(region_lines@)) is None,
{
    let blocks = parse_import_blocks(region_lines);
    let ghost bv = block_views(blocks@);
    let mut result: Vec<NormalizedUse> = Vec::new();
    let mut i: usize = 0;
    assert(bv.skip(0) =~= bv);
    assert(nu_views(result@) =~= Seq::<NUModel>::empty());
    while i < blocks.len()
        invariant
            i <= blocks.len(),
            bv == block_views(blocks@),
            bv == spec_parse_import_blocks(view_all(region_lines@)),
            items_from(bv) == match items_from(bv.skip(i as int)) {
                None => None,
                Some(rest) => Some(nu_views(result@) + rest),
            },
        decreases blocks.len() - i,
    {
        let block = &blocks[i];
        assert(bv[i as int] == block@);
        proof {
            lemma_items_from_split(bv, i as int);
        }
        let parsed = parse_item_use(block.use_text.as_slice());
        match parsed {
            None => {
                assert(syn_item_use(bv[i as int].use_text) is None);
                assert(items_from(bv.skip(i as int)) is None);
                assert(items_from(bv) is None);
                return None;
            },
            Some(item_use) => {
                let vis = format_visibility(&item_use.vis);
                let group = classify_node(&item_use.tree);
                let tagged = has_tag(block.leading_lines.as_slice());
                let root = root_ident(&item_use.tree);
                let su = kw_super_v();
                let is_super = chars_eq(root.as_slice(), su.as_slice());
                let leading_lines = copy_lines(block.leading_lines.as_slice());
                let original_block = copy_chars(block.original_block.as_slice());
                let nu = NormalizedUse {
                    visibility: vis,
                    tree: item_use.tree,
                    group,
                    leading_lines,
                    original_block,
                    mergeable: !tagged && !is_super,
                    skip_format: tagged || is_super,
                };
                assert(nu@ == item_of(bv[i as int], item_use));
                let ghost old_r = nu_views(result@);
                result.push(nu);
                assert(nu_views(result@) =~= old_r.push(nu@));
                assert(old_r + (seq![nu@] + items_from(bv.skip(i + 1)).unwrap()) =~= old_r.push(
                    nu@,
                ) + items_from(bv.skip(i + 1)).unwrap());
            },
        }
        i += 1;
    }
    assert(bv.skip(blocks.len() as int) =~= Seq::<BlockModel>::empty());
    assert(nu_views(result@) + seq![] =~= nu_views(result@));
    Some(result)
}

// ---------------------------------------------------------------------------
// Sorting
// ---------------------------------------------------------------------------

/// snake_case (0) < CamelCase (1) < UPPER_SNAKE_CASE (2); anything else 1.
pub open spec fn spec_ident_case_category(s: Seq<char>) -> u64 {
    if s.len() > 0 && lower_char(s[0]) {
        0
    } else if s.len() > 0 && upper_char(s[0]) {
        if forall|k: int|
            0 <= k < s.len() ==> (upper_char(#[trigger] s[k]) || s[k] == '_' || numeric_char(
                s[k],
            )) {
            2
        } else {
            1
        }
    } else {
        1
    }
}

pub fn ident_case_category(s: &[char]) -> (r: u64)
    ensures
        r == spec_ident_case_category(s@),
{
    if s.len() > 0 && is_lowercase(s[0]) {
        0
    } else if s.len() > 0 && is_uppercase(s[0]) {
        let mut i: usize = 0;
        while i < s.len()
            invariant
                i <= s.len(),
                s.len() > 0,
                !lower_char(s@[0]),
                upper_char(s@[0]),
                forall|k: int|
                    0 <= k < i ==> (upper_char(#[trigger] s@[k]) || s@[k] == '_'
                        || numeric_char(s@[k])),
            decreases s.len() - i,
        {
            let c = s[i];
            if !(is_uppercase(c) || c == '_' || is_numeric(c)) {
                assert(!(upper_char(s@[i as int]) || s@[i as int] == '_' || numeric_char(
                    s@[i as int],
                )));
                return 1;
            }
            i += 1;
        }
        2
    } else {
        1
    }
}

pub open spec fn colons() -> Seq<char> {
    seq![':', ':']
}

/// The text a tree sorts by after its first segment.
pub open spec fn spec_node_sort_suffix(t: TreeModel) -> Seq<char>
    decreases t, 0nat,
{
    match t {
        TreeModel::Path { ident, child } => ident + colons() + spec_node_sort_suffix(*child),
        TreeModel::Name { ident, .. } => ident,
        TreeModel::Slf { .. } => kw_self(),
        TreeModel::Glob => seq!['*'],
        TreeModel::Group { items } => seq!['{'] + join_sep(sort_suffixes(items), comma_sp())
            + seq!['}'],
    }
}

pub open spec fn sort_suffixes(s: Seq<TreeModel>) -> Seq<Seq<char>>
    decreases s, 1nat,
{
    if s.len() == 0 {
        seq![]
    } else {
        seq![spec_node_sort_suffix(s[0])] + sort_suffixes(s.drop_first())
    }
}

pub proof fn lemma_sort_suffixes_push(s: Seq<TreeModel>, t: TreeModel)
    ensures
        sort_suffixes(s.push(t)) == sort_suffixes(s).push(spec_node_sort_suffix(t)),
    decreases s.len(),
{
    if s.len() == 0 {
        assert(s.push(t).drop_first() =~= Seq::<TreeModel>::empty());
        assert(s.push(t)[0] == t);
        assert(sort_suffixes(Seq::<TreeModel>::empty()) =~= Seq::<Seq<char>>::empty());
        assert(sort_suffixes(s) =~= Seq::<Seq<char>>::empty());
        assert(sort_suffixes(s.push(t)) =~= seq![spec_node_sort_suffix(t)]);
    } else {
        assert(s.push(t).drop_first() =~= s.drop_first().push(t));
        lemma_sort_suffixes_push(s.drop_first(), t);
        assert(sort_suffixes(s.push(t)) =~= sort_suffixes(s).push(spec_node_sort_suffix(t)));
    }
}

pub fn node_sort_suffix(node: &UseNode) -> (r: Vec<char>)
    ensures
        r@ == spec_node_sort_suffix(node@),
    decreases node,
{
    match node {
        UseNode::Path { ident, child } => {
            let mut r = copy_chars(ident.as_slice());
            r.push(':');
            r.push(':');
            let rest = node_sort_suffix(child);
            push_all(&mut r, rest.as_slice());
            assert(r@ =~= ident@ + colons() + rest@);
            r
        },
        UseNode::Name { ident, .. } => copy_chars(ident.as_slice()),
        UseNode::Slf { .. } => kw_self_v(),
        UseNode::Glob => {
            let r = vec!['*'];
            assert(r@ =~= seq!['*']);
            r
        },
        UseNode::Group { items } => {
            let mut parts: Vec<Vec<char>> = Vec::new();
            let mut i: usize = 0;
            proof {
                lemma_trees_view_len(items@);
                assert(decreases_to!(node => items));
            }
            while i < items.len()
                invariant
                    decreases_to!(node => items),
                    i <= items.len(),
                    trees_view(items@).len() == items.len(),
                    forall|k: int|
                        0 <= k < items.len() ==> #[trigger] trees_view(items@)[k] == tree_view(
                            items@[k],
                        ),
                    view_all(parts@) == sort_suffixes(trees_view(items@).take(i as int)),
                decreases items.len() - i,
            {
                proof {
                    assert(decreases_to!(items => items[i as int]));
                }
                let part = node_sort_suffix(&items[i]);
                let ghost old_p = parts@;
                parts.push(part);
                proof {
                    lemma_view_all_push(old_p, part);
                    assert(trees_view(items@).take(i + 1) =~= trees_view(items@).take(
                        i as int,
                    ).push(tree_view(items@[i as int])));
                    lemma_sort_suffixes_push(
                        trees_view(items@).take(i as int),
                        tree_view(items@[i as int]),
                    );
                }
                i += 1;
            }
            assert(trees_view(items@).take(items.len() as int) =~= trees_view(items@));
            let sep = vec![',', ' '];
            assert(sep@ =~= comma_sp());
            let inner = join_sep_exec(parts.as_slice(), sep.as_slice());
            let mut r = vec!['{'];
            push_all(&mut r, inner.as_slice());
            r.push('}');
            assert(r@ =~= seq!['{'] + inner@ + seq!['}']);
            r
        },
    }
}

/// The numbers and text a tree sorts by: self (the `self` node, a `self`
/// name inside braces, or a `self::` path) < super < crate < names < glob <
/// groups, then case category, then text.
pub open spec fn spec_sort_key(t: TreeModel) -> (u64, u64, Seq<char>) {
    match t {
        TreeModel::Slf { .. } => (0, 0, seq![]),
        TreeModel::Path { ident, child } => {
            if ident == kw_self() {
                (0, 0, spec_node_sort_suffix(*child))
            } else if ident == kw_super() {
                (1, 0, spec_node_sort_suffix(*child))
            } else if ident == kw_crate() {
                (2, 0, spec_node_sort_suffix(*child))
            } else {
                (
                    3,
                    spec_ident_case_category(ident),
                    ident + colons() + spec_node_sort_suffix(*child),
                )
            }
        },
        TreeModel::Name { ident, .. } => if ident == kw_self() {
            (0, 0, seq![])
        } else {
            (3, spec_ident_case_category(ident), ident)
        },
        TreeModel::Glob => (4, 0, seq![]),
        TreeModel::Group { .. } => (5, 0, seq![]),
    }
}

pub open spec fn node_key(t: TreeModel) -> KeyModel {
    let k = spec_sort_key(t);
    KeyModel { ranks: seq![k.0, k.1], texts: seq![k.2] }
}

/// Sort key of a tree, as computed by `sort_key`.
pub fn sort_key(node: &UseNode) -> (r: SortKey)
    ensures
        r@ == node_key(node@),
{
    let (a, b, text): (u64, u64, Vec<char>) = match node {
        UseNode::Slf { .. } => (0, 0, Vec::new()),
        UseNode::Path { ident, child } => {
            let sf = kw_self_v();
            let su = kw_super_v();
            let cr = kw_crate_v();
            if chars_eq(ident.as_slice(), sf.as_slice()) {
                (0, 0, node_sort_suffix(child))
            } else if chars_eq(ident.as_slice(), su.as_slice()) {
                (1, 0, node_sort_suffix(child))
            } else if chars_eq(ident.as_slice(), cr.as_slice()) {
                (2, 0, node_sort_suffix(child))
            } else {
                let cat = ident_case_category(ident.as_slice());
                let mut t = copy_chars(ident.as_slice());
                t.push(':');
                t.push(':');
                let rest = node_sort_suffix(child);
                push_all(&mut t, rest.as_slice());
                assert(t@ =~= ident@ + colons() + rest@);
                (3, cat, t)
            }
        },
        UseNode::Name { ident, .. } => {
            let sf = kw_self_v();
            if chars_eq(ident.as_slice(), sf.as_slice()) {
                (0, 0, Vec::new())
            } else {
                (3, ident_case_category(ident.as_slice()), copy_chars(ident.as_slice()))
            }
        },
        UseNode::Glob => (4, 0, Vec::new()),
        UseNode::Group { .. } => (5, 0, Vec::new()),
    };
    let ghost k = spec_sort_key(node@);
    assert(a == k.0 && b == k.1 && text@ =~= k.2);
    let ranks = vec![a, b];
    let texts = vec![text];
    let r = SortKey { ranks, texts };
    assert(r@.ranks =~= seq![k.0, k.1]);
    assert(r@.texts =~= seq![k.2]);
    r
}

/// Compare two trees for sorting. Matches rustfmt's ordering:
/// self < super < crate < identifiers < glob < groups;
/// within identifiers snake_case < CamelCase < UPPER_SNAKE_CASE, then
/// lexicographic. Returns -1, 0 or 1.
pub fn cmp_use_nodes(a: &UseNode, b: &UseNode) -> (r: i8)
    ensures
        r == key_order(node_key(a@), node_key(b@)),
{
    let ka = sort_key(a);
    let kb = sort_key(b);
    key_order_exec(&ka, &kb)
}

/// A tree with every group's members sorted, innermost first.
pub open spec fn spec_sort_use_node(t: TreeModel) -> TreeModel
    decreases t, 0nat,
{
    match t {
        TreeModel::Path { ident, child } => TreeModel::Path {
            ident,
            child: Box::new(spec_sort_use_node(*child)),
        },
        TreeModel::Group { items } => TreeModel::Group { items: sort_trees(sort_each(items)) },
        _ => t,
    }
}

pub open spec fn sort_each(s: Seq<TreeModel>) -> Seq<TreeModel>
    decreases s, 1nat,
{
    if s.len() == 0 {
        seq![]
    } else {
        seq![spec_sort_use_node(s[0])] + sort_each(s.drop_first())
    }
}

/// Trees ordered stably by their sort keys.
pub open spec fn sort_trees(s: Seq<TreeModel>) -> Seq<TreeModel> {
    sort_by_key(s.map_values(|t: TreeModel| (node_key(t), t))).map_values(
        |p: (KeyModel, TreeModel)| p.1,
    )
}

pub proof fn lemma_sort_each_len(s: Seq<TreeModel>)
    ensures
        sort_each(s).len() == s.len(),
        forall|i: int| 0 <= i < s.len() ==> #[trigger] sort_each(s)[i] == spec_sort_use_node(s[i]),
    decreases s.len(),
{
    if s.len() > 0 {
        lemma_sort_each_len(s.drop_first());
        assert forall|i: int| 0 <= i < s.len() implies #[trigger] sort_each(s)[i]
            == spec_sort_use_node(s[i]) by {
            if i > 0 {
                assert(sort_each(s)[i] == sort_each(s.drop_first())[i - 1]);
            }
        }
    }
}

/// Copy of an optional rename.
fn copy_rename(r: &Option<Vec<char>>) -> (o: Option<Vec<char>>)
    ensures
        opt_view(o) == opt_view(*r),
{
    match r {
        Some(v) => Some(copy_chars(v.as_slice())),
        None => None,
    }
}

/// Recursively sort all Group nodes in the tree.
pub fn sort_use_node(node: &UseNode) -> (r: UseNode)
    ensures
        r@ == spec_sort_use_node(node@),
    decreases node, 0nat,
{
    match node {
        UseNode::Path { ident, child } => {
            let c = sort_use_node(child);
            UseNode::Path { ident: copy_chars(ident.as_slice()), child: Box::new(c) }
        },
        UseNode::Group { items } => {
            proof {
                assert(decreases_to!(node => items));
            }
            let sorted = sort_use_list(items);
            UseNode::Group { items: sorted }
        },
        UseNode::Name { ident, rename } => UseNode::Name {
            ident: copy_chars(ident.as_slice()),
            rename: copy_rename(rename),
        },
        UseNode::Slf { rename } => UseNode::Slf { rename: copy_rename(rename) },
        UseNode::Glob => UseNode::Glob,
    }
}

fn sort_use_list(items: &Vec<UseNode>) -> (r: Vec<UseNode>)
    ensures
        trees_view(r@) == sort_trees(sort_each(trees_view(items@))),
    decreases items, 1nat,
{
    let ghost orig = items@;
    let ghost se = sort_each(trees_view(orig));
    let ghost f = |x: UseNode| tree_view(x);
    let ghost g = |p: (KeyModel, UseNode)| (p.0, f(p.1));
    proof {
        lemma_trees_view_len(orig);
        lemma_sort_each_len(trees_view(orig));
    }
    let mut pairs: Vec<(SortKey, UseNode)> = Vec::new();
    let mut k: usize = 0;
    assert(key_pairs(pairs@).map_values(g) =~= se.take(0).map_values(
        |t: TreeModel| (node_key(t), t),
    ));
    while k < items.len()
        invariant
            k <= orig.len(),
            orig == items@,
            se == sort_each(trees_view(orig)),
            se.len() == orig.len(),
            forall|i: int| 0 <= i < orig.len() ==> #[trigger] se[i] == spec_sort_use_node(
                tree_view(orig[i]),
            ),
            g == (|p: (KeyModel, UseNode)| (p.0, f(p.1))),
            f == (|x: UseNode| tree_view(x)),
            key_pairs(pairs@).map_values(g) == se.take(k as int).map_values(
                |t: TreeModel| (node_key(t), t),
            ),
        decreases items.len() - k,
    {
        proof {
            assert(decreases_to!(items => items[k as int]));
        }
        let y = sort_use_node(&items[k]);
        let key = sort_key(&y);
        let ghost old_pairs = pairs@;
        pairs.push((key, y));
        proof {
            assert(se[k as int] == y@);
            assert(key_pairs(pairs@) =~= key_pairs(old_pairs).push((key@, y)));
            assert(key_pairs(pairs@).map_values(g) =~= key_pairs(old_pairs).map_values(g).push(
                g((key@, y)),
            ));
            assert(se.take(k + 1) =~= se.take(k as int).push(se[k as int]));
            assert(key_pairs(pairs@).map_values(g) =~= se.take(k + 1).map_values(
                |t: TreeModel| (node_key(t), t),
            ));
        }
        k += 1;
    }
    assert(se.take(orig.len() as int) =~= se);
    let sorted = stable_sort(pairs);
    proof {
        lemma_sort_map_values(key_pairs(pairs@), f);
    }
    let ghost sp = key_pairs(sorted@);
    let mut out: Vec<UseNode> = Vec::new();
    let mut srest = sorted;
    let ghost mut j: int = 0;
    assert(trees_view(out@) =~= Seq::<TreeModel>::empty());
    while srest.len() > 0
        invariant
            0 <= j <= sp.len(),
            srest@.len() == sp.len() - j,
            key_pairs(srest@) == sp.skip(j),
            trees_view(out@) == sp.take(j).map_values(|p: (KeyModel, UseNode)| tree_view(p.1)),
        decreases srest.len(),
    {
        let ghost old_s = srest@;
        let pair = srest.remove(0);
        let node = pair.1;
        proof {
            assert(srest@ =~= old_s.skip(1));
            assert(key_pairs(old_s)[0] == (old_s[0].0@, old_s[0].1));
            assert(key_pairs(old_s)[0] == sp.skip(j)[0]);
            assert(node == sp[j].1);
            assert forall|q: int| 0 <= q < srest@.len() implies key_pairs(srest@)[q] == sp.skip(
                j + 1,
            )[q] by {
                assert(key_pairs(old_s)[q + 1] == sp.skip(j)[q + 1]);
                assert(srest@[q] == old_s[q + 1]);
            }
            assert(key_pairs(srest@) =~= sp.skip(j + 1));
        }
        let ghost old_out = out@;
        out.push(node);
        proof {
            lemma_trees_view_push(old_out, node);
            assert(sp.take(j + 1).map_values(|p: (KeyModel, UseNode)| tree_view(p.1)) =~= sp.take(
                j,
            ).map_values(|p: (KeyModel, UseNode)| tree_view(p.1)).push(tree_view(node)));
            j = j + 1;
        }
    }
    proof {
        assert(sp.take(sp.len() as int) =~= sp);
        let lhs = sort_by_key(key_pairs(pairs@)).map_values(g);
        let rhs = sort_by_key(key_pairs(pairs@).map_values(g));
        assert(lhs == rhs);
        assert(se.take(orig.len() as int) =~= se);
        assert(trees_view(out@) =~= rhs.map_values(|p: (KeyModel, TreeModel)| p.1));
    }
    out
}

// ---------------------------------------------------------------------------
// Merging
// ---------------------------------------------------------------------------

/// Statements merge when visibility and root segment agree.
pub open spec fn spec_merge_key(n: NUModel) -> KeyModel {
    KeyModel { ranks: seq![], texts: seq![n.visibility, spec_root_ident(n.tree)] }
}

pub open spec fn mergeable_keys(items: Seq<NUModel>) -> Seq<KeyModel>
    decreases items.len(),
{
    if items.len() == 0 {
        seq![]
    } else if items.last().mergeable {
        mergeable_keys(items.drop_last()).push(spec_merge_key(items.last()))
    } else {
        mergeable_keys(items.drop_last())
    }
}

/// The keys without repetitions, each where it first occurs.
pub open spec fn distinct_keys(keys: Seq<KeyModel>) -> Seq<KeyModel>
    decreases keys.len(),
{
    if keys.len() == 0 {
        seq![]
    } else if distinct_keys(keys.drop_last()).contains(keys.last()) {
        distinct_keys(keys.drop_last())
    } else {
        distinct_keys(keys.drop_last()).push(keys.last())
    }
}

pub open spec fn unit_pairs(keys: Seq<KeyModel>) -> Seq<(KeyModel, ())> {
    keys.map_values(|k: KeyModel| (k, ()))
}

/// The merge keys in ascending order, each once (the order of a `BTreeMap`).
pub open spec fn merge_order(items: Seq<NUModel>) -> Seq<KeyModel> {
    sort_by_key(unit_pairs(distinct_keys(mergeable_keys(items)))).map_values(
        |p: (KeyModel, ())| p.0,
    )
}

/// The mergeable statements with key `k`, in their order.
pub open spec fn members(items: Seq<NUModel>, k: KeyModel) -> Seq<NUModel>
    decreases items.len(),
{
    if items.len() == 0 {
        seq![]
    } else if items.last().mergeable && spec_merge_key(items.last()) == k {
        members(items.drop_last(), k).push(items.last())
    } else {
        members(items.drop_last(), k)
    }
}

/// The statements that are not merged, in their order.
pub open spec fn non_mergeable(items: Seq<NUModel>) -> Seq<NUModel>
    decreases items.len(),
{
    if items.len() == 0 {
        seq![]
    } else if !items.last().mergeable {
        non_mergeable(items.drop_last()).push(items.last())
    } else {
        non_mergeable(items.drop_last())
    }
}

/// What a statement contributes below its root: a group's members, the
/// single child, or `self` for a bare import.
pub open spec fn spec_children(t: TreeModel) -> Seq<TreeModel> {
    match t {
        TreeModel::Path { child, .. } => match *child {
            TreeModel::Group { items } => items,
            other => seq![other],
        },
        TreeModel::Name { rename, .. } => seq![TreeModel::Slf { rename }],
        _ => seq![],
    }
}

pub open spec fn children_of(group: Seq<NUModel>) -> Seq<TreeModel>
    decreases group.len(),
{
    if group.len() == 0 {
        seq![]
    } else {
        children_of(group.drop_last()) + spec_children(group.last().tree)
    }
}

/// Every repeat removed: each tree kept where it first occurs.
pub open spec fn dedup_trees(s: Seq<TreeModel>) -> Seq<TreeModel>
    decreases s.len(),
{
    if s.len() == 0 {
        s
    } else if dedup_trees(s.drop_last()).contains(s.last()) {
        dedup_trees(s.drop_last())
    } else {
        dedup_trees(s.drop_last()).push(s.last())
    }
}

/// Deduplicating keeps exactly the trees there were, each once.
pub proof fn law_dedup_trees_distinct(s: Seq<TreeModel>)
    ensures
        dedup_trees(s).no_duplicates(),
        forall|t: TreeModel| dedup_trees(s).contains(t) <==> s.contains(t),
    decreases s.len(),
{
    if s.len() > 0 {
        let p = s.drop_last();
        law_dedup_trees_distinct(p);
        let r = dedup_trees(p);
        assert forall|t: TreeModel| dedup_trees(s).contains(t) <==> s.contains(t) by {
            if s.contains(t) {
                let k = choose|k: int| 0 <= k < s.len() && s[k] == t;
                if k < s.len() - 1 {
                    assert(p[k] == t);
                    assert(p.contains(t));
                }
            }
            if p.contains(t) {
                let k = choose|k: int| 0 <= k < p.len() && p[k] == t;
                assert(s[k] == t);
            }
            if !r.contains(s.last()) {
                if r.push(s.last()).contains(t) && t != s.last() {
                    let k = choose|k: int| 0 <= k < r.push(s.last()).len() && r.push(s.last())[k] == t;
                    assert(r[k] == t);
                }
                if r.contains(t) {
                    let k = choose|k: int| 0 <= k < r.len() && r[k] == t;
                    assert(r.push(s.last())[k] == t);
                }
                assert(r.push(s.last())[r.len() as int] == s.last());
            }
        }
        if !r.contains(s.last()) {
            assert forall|i: int, j: int|
                0 <= i < r.push(s.last()).len() && 0 <= j < r.push(s.last()).len() && i != j
                    implies r.push(s.last())[i] != r.push(s.last())[j] by {
                if i < r.len() && j < r.len() {
                } else if i == r.len() as int {
                    assert(r.push(s.last())[j] == r[j]);
                } else {
                    assert(r.push(s.last())[i] == r[i]);
                }
            }
        }
    }
}

/// The children of a merged statement are the children of its members,
/// each once: merging leaves no two equal trees in the braces.
pub proof fn law_merged_children_distinct(group: Seq<NUModel>)
    ensures
        dedup_trees(children_of(group)).no_duplicates(),
        forall|t: TreeModel|
            dedup_trees(children_of(group)).contains(t) <==> children_of(group).contains(t),
{
    law_dedup_trees_distinct(children_of(group));
}

/// One statement for a group: the statement itself when alone, else the
/// root with the deduplicated children of all members.
pub open spec fn merge_group(group: Seq<NUModel>) -> NUModel {
    if group.len() == 1 {
        group[0]
    } else {
        let children = dedup_trees(children_of(group));
        let root = spec_root_ident(group[0].tree);
        let tree = if children.len() == 0 {
            TreeModel::Name { ident: root, rename: None }
        } else if children.len() == 1 {
            TreeModel::Path { ident: root, child: Box::new(children[0]) }
        } else {
            TreeModel::Path { ident: root, child: Box::new(TreeModel::Group { items: children }) }
        };
        NUModel {
            visibility: group[0].visibility,
            tree,
            group: group[0].group,
            leading: seq![],
            original: seq![],
            mergeable: true,
            skip_format: false,
        }
    }
}

/// Merged statements in key order, then the statements left alone.
pub open spec fn spec_merge_imports(items: Seq<NUModel>) -> Seq<NUModel> {
    merge_order(items).map_values(|k: KeyModel| merge_group(members(items, k))) + non_mergeable(
        items,
    )
}

fn merge_key(n: &NormalizedUse) -> (r: SortKey)
    ensures
        r@ == spec_merge_key(n@),
{
    let ranks: Vec<u64> = Vec::new();
    let texts = vec![copy_chars(n.visibility.as_slice()), root_ident(&n.tree)];
    let r = SortKey { ranks, texts };
    assert(r@.ranks =~= spec_merge_key(n@).ranks);
    assert(r@.texts =~= spec_merge_key(n@).texts);
    r
}

fn copy_nu(n: &NormalizedUse) -> (r: NormalizedUse)
    ensures
        r@ == n@,
{
    NormalizedUse {
        visibility: copy_chars(n.visibility.as_slice()),
        tree: copy_node(&n.tree),
        group: n.group,
        leading_lines: copy_lines(n.leading_lines.as_slice()),
        original_block: copy_chars(n.original_block.as_slice()),
        mergeable: n.mergeable,
        skip_format: n.skip_format,
    }
}

/// Extract the children (everything after the root segment) for merging.
fn collect_children_for_merge(node: &UseNode, out: &mut Vec<UseNode>)
    ensures
        trees_view(final(out)@) == trees_view(old(out)@) + spec_children(node@),
{
    proof {
        lemma_trees_view_len(old(out)@);
    }
    match node {
        UseNode::Path { child, .. } => match &**child {
            UseNode::Group { items } => {
                let mut i: usize = 0;
                let ghost o = trees_view(out@);
                proof {
                    lemma_trees_view_len(items@);
                }
                while i < items.len()
                    invariant
                        i <= items.len(),
                        trees_view(items@).len() == items.len(),
                        forall|k: int|
                            0 <= k < items.len() ==> #[trigger] trees_view(items@)[k] == tree_view(
                                items@[k],
                            ),
                        trees_view(out@) == o + trees_view(items@).take(i as int),
                    decreases items.len() - i,
                {
                    let c = copy_node(&items[i]);
                    let ghost old_o = out@;
                    out.push(c);
                    proof {
                        lemma_trees_view_push(old_o, c);
                        assert(trees_view(items@).take(i + 1) =~= trees_view(items@).take(
                            i as int,
                        ).push(tree_view(items@[i as int])));
                        assert(o + trees_view(items@).take(i + 1) =~= (o + trees_view(
                            items@,
                        ).take(i as int)).push(tree_view(items@[i as int])));
                    }
                    i += 1;
                }
                assert(trees_view(items@).take(items.len() as int) =~= trees_view(items@));
                assert(tree_view(**child) == TreeModel::Group { items: trees_view(items@) });
                assert(spec_children(node@) == trees_view(items@));
            },
            other => {
                let c = copy_node(other);
                let ghost old_o = out@;
                out.push(c);
                proof {
                    lemma_trees_view_push(old_o, c);
                }
                assert(trees_view(out@) =~= trees_view(old_o) + seq![tree_view(*other)]);
            },
        },
        UseNode::Name { rename, .. } => {
            let c = UseNode::Slf { rename: copy_rename(rename) };
            let ghost old_o = out@;
            out.push(c);
            proof {
                lemma_trees_view_push(old_o, c);
            }
            assert(trees_view(out@) =~= trees_view(old_o) + spec_children(node@));
        },
        _ => {
            assert(trees_view(out@) =~= trees_view(out@) + Seq::<TreeModel>::empty());
        },
    }
}

/// `Vec::dedup` on trees.
fn contains_node(out: &Vec<UseNode>, n: &UseNode) -> (r: bool)
    ensures
        r == trees_view(out@).contains(n@),
{
    proof {
        lemma_trees_view_len(out@);
    }
    let ghost o = trees_view(out@);
    let mut k: usize = 0;
    while k < out.len()
        invariant
            k <= out.len(),
            o == trees_view(out@),
            o.len() == out.len(),
            forall|q: int| 0 <= q < out.len() ==> #[trigger] o[q] == tree_view(out@[q]),
            forall|q: int| 0 <= q < k ==> o[q] != n@,
        decreases out.len() - k,
    {
        assert(o[k as int] == tree_view(out@[k as int]));
        if nodes_equal(&out[k], n) {
            assert(o[k as int] == n@);
            return true;
        }
        k += 1;
    }
    false
}

fn dedup_nodes(v: Vec<UseNode>) -> (r: Vec<UseNode>)
    ensures
        trees_view(r@) == dedup_trees(trees_view(v@)),
{
    let ghost s = trees_view(v@);
    proof {
        lemma_trees_view_len(v@);
    }
    let mut out: Vec<UseNode> = Vec::new();
    let mut i: usize = 0;
    assert(trees_view(out@) =~= dedup_trees(s.take(0)));
    while i < v.len()
        invariant
            i <= v.len(),
            s == trees_view(v@),
            s.len() == v.len(),
            forall|k: int| 0 <= k < v.len() ==> #[trigger] s[k] == tree_view(v@[k]),
            trees_view(out@) == dedup_trees(s.take(i as int)),
        decreases v.len() - i,
    {
        proof {
            assert(s.take(i + 1).drop_last() =~= s.take(i as int));
            assert(s.take(i + 1).last() == s[i as int]);
        }
        if !contains_node(&out, &v[i]) {
            let c = copy_node(&v[i]);
            let ghost old_o = out@;
            out.push(c);
            proof {
                lemma_trees_view_push(old_o, c);
            }
        }
        i += 1;
    }
    assert(s.take(v.len() as int) =~= s);
    out
}

/// Build the statement for one key from its members.
fn merge_group_exec(group: Vec<NormalizedUse>) -> (r: NormalizedUse)
    requires
        group.len() >= 1,
    ensures
        r@ == merge_group(nu_views(group@)),
{
    let ghost g = nu_views(group@);
    if group.len() == 1 {
        return copy_nu(&group[0]);
    }
    let mut all_children: Vec<UseNode> = Vec::new();
    let mut i: usize = 0;
    assert(trees_view(all_children@) =~= children_of(g.take(0)));
    while i < group.len()
        invariant
            i <= group.len(),
            g == nu_views(group@),
            trees_view(all_children@) == children_of(g.take(i as int)),
        decreases group.len() - i,
    {
        collect_children_for_merge(&group[i].tree, &mut all_children);
        assert(g.take(i + 1).drop_last() =~= g.take(i as int));
        assert(g.take(i + 1).last() == group@[i as int]@);
        i += 1;
    }
    assert(g.take(group.len() as int) =~= g);
    let children = dedup_nodes(all_children);
    let root = root_ident(&group[0].tree);
    proof {
        lemma_trees_view_len(children@);
    }
    let ghost chv = trees_view(children@);
    let ghost rootv = root@;
    let ghost nch = children.len();
    let tree = if children.len() == 0 {
        UseNode::Name { ident: root, rename: None }
    } else if children.len() == 1 {
        let c = copy_node(&children[0]);
        UseNode::Path { ident: root, child: Box::new(c) }
    } else {
        let grp = UseNode::Group { items: children };
        assert(grp@ == TreeModel::Group { items: chv });
        UseNode::Path { ident: root, child: Box::new(grp) }
    };
    proof {
        assert(g[0] == group@[0]@);
        let ch = dedup_trees(children_of(g));
        assert(trees_view(children@) == ch);
        if children.len() == 1 {
            assert(ch[0] == tree_view(children@[0]));
        }
    }
    let r = NormalizedUse {
        visibility: copy_chars(group[0].visibility.as_slice()),
        tree,
        group: group[0].group,
        leading_lines: Vec::new(),
        original_block: Vec::new(),
        mergeable: true,
        skip_format: false,
    };
    assert(view_all(r.leading_lines@) =~= Seq::<Seq<char>>::empty());
    assert(r.original_block@ =~= Seq::<char>::empty());
    proof {
        let ch = dedup_trees(children_of(g));
        let rv = spec_root_ident(g[0].tree);
        assert(root@ == rv);
        let expected = merge_group(g);
        assert(r@.visibility == expected.visibility);
        assert(r@.group == expected.group);
        assert(r@.leading == expected.leading);
        assert(r@.original == expected.original);
        assert(chv == ch);
        assert(rootv == rv);
        if nch == 0 {
            assert(r@.tree == TreeModel::Name { ident: rv, rename: None });
        } else if nch == 1 {
            assert(r@.tree == TreeModel::Path { ident: rv, child: Box::new(ch[0]) });
        } else {
            assert(r@.tree == TreeModel::Path {
                ident: rv,
                child: Box::new(TreeModel::Group { items: ch }),
            });
        }
        assert(r@.tree == expected.tree);
    }
    r
}

pub fn contains_key(keys: &Vec<(SortKey, ())>, k: &SortKey) -> (r: bool)
    ensures
        r == key_pairs(keys@).map_values(|p: (KeyModel, ())| p.0).contains(k@),
{
    let ghost ks = key_pairs(keys@).map_values(|p: (KeyModel, ())| p.0);
    let mut i: usize = 0;
    while i < keys.len()
        invariant
            i <= keys.len(),
            ks == key_pairs(keys@).map_values(|p: (KeyModel, ())| p.0),
            ks.len() == keys.len(),
            forall|j: int| 0 <= j < i ==> ks[j] != k@,
        decreases keys.len() - i,
    {
        let c = key_order_exec(&keys[i].0, k);
        proof {
            lemma_key_order_zero(keys@[i as int].0@, k@);
            assert(ks[i as int] == keys@[i as int].0@);
        }
        if c == 0 {
            return true;
        }
        i += 1;
    }
    false
}

/// Merge imports that share the same visibility and root path segment.
pub fn merge_imports(imports: Vec<NormalizedUse>) -> (r: Vec<NormalizedUse>)
    ensures
        nu_views(r@) == spec_merge_imports(nu_views(imports@)),
{
    let ghost items = nu_views(imports@);
    // Distinct keys of the mergeable statements, in first-occurrence order.
    let mut keys: Vec<(SortKey, ())> = Vec::new();
    let mut i: usize = 0;
    assert(key_pairs(keys@) =~= unit_pairs(distinct_keys(mergeable_keys(items.take(0)))));
    while i < imports.len()
        invariant
            i <= imports.len(),
            items == nu_views(imports@),
            key_pairs(keys@) == unit_pairs(distinct_keys(mergeable_keys(items.take(i as int)))),
        decreases imports.len() - i,
    {
        proof {
            assert(items.take(i + 1).drop_last() =~= items.take(i as int));
            assert(items.take(i + 1).last() == imports@[i as int]@);
        }
        if imports[i].mergeable {
            let k = merge_key(&imports[i]);
            let ghost d = distinct_keys(mergeable_keys(items.take(i as int)));
            proof {
                assert(key_pairs(keys@).map_values(|p: (KeyModel, ())| p.0) =~= d);
            }
            proof {
                let m = mergeable_keys(items.take(i as int));
                assert(mergeable_keys(items.take(i + 1)) == m.push(k@));
                assert(m.push(k@).drop_last() =~= m);
                assert(m.push(k@).last() == k@);
            }
            if !contains_key(&keys, &k) {
                let ghost old_k = keys@;
                keys.push((k, ()));
                assert(key_pairs(keys@) =~= unit_pairs(d.push(k@)));
            }
        }
        i += 1;
    }
    assert(items.take(imports.len() as int) =~= items);
    let sorted = stable_sort(keys);
    let ghost order = merge_order(items);
    assert(key_pairs(sorted@).map_values(|p: (KeyModel, ())| p.0) =~= order);
    // One merged statement per key.
    let mut result: Vec<NormalizedUse> = Vec::new();
    let mut j: usize = 0;
    assert(nu_views(result@) =~= order.take(0).map_values(
        |k: KeyModel| merge_group(members(items, k)),
    ));
    while j < sorted.len()
        invariant
            j <= sorted.len(),
            items == nu_views(imports@),
            order == merge_order(items),
            order == key_pairs(sorted@).map_values(|p: (KeyModel, ())| p.0),
            order.len() == sorted.len(),
            nu_views(result@) == order.take(j as int).map_values(
                |k: KeyModel| merge_group(members(items, k)),
            ),
        decreases sorted.len() - j,
    {
        let k = &sorted[j].0;
        assert(order[j as int] == k@);
        let mut group: Vec<NormalizedUse> = Vec::new();
        let mut q: usize = 0;
        assert(nu_views(group@) =~= members(items.take(0), k@));
        while q < imports.len()
            invariant
                q <= imports.len(),
                items == nu_views(imports@),
                nu_views(group@) == members(items.take(q as int), k@),
            decreases imports.len() - q,
        {
            proof {
                assert(items.take(q + 1).drop_last() =~= items.take(q as int));
                assert(items.take(q + 1).last() == imports@[q as int]@);
            }
            if imports[q].mergeable {
                let kq = merge_key(&imports[q]);
                let c = key_order_exec(&kq, k);
                proof {
                    lemma_key_order_zero(kq@, k@);
                }
                if c == 0 {
                    let n = copy_nu(&imports[q]);
                    let ghost old_g = nu_views(group@);
                    group.push(n);
                    assert(nu_views(group@) =~= old_g.push(n@));
                }
            }
            q += 1;
        }
        assert(items.take(imports.len() as int) =~= items);
        proof {
            lemma_members_nonempty(items, j as int);
        }
        let merged = merge_group_exec(group);
        let ghost old_r = nu_views(result@);
        result.push(merged);
        assert(nu_views(result@) =~= old_r.push(merged@));
        assert(order.take(j + 1) =~= order.take(j as int).push(order[j as int]));
        j += 1;
    }
    assert(order.take(sorted.len() as int) =~= order);
    // Then the statements left alone.
    let ghost base = nu_views(result@);
    let mut q: usize = 0;
    assert(nu_views(result@) =~= base + non_mergeable(items.take(0)));
    while q < imports.len()
        invariant
            q <= imports.len(),
            items == nu_views(imports@),
            nu_views(result@) == base + non_mergeable(items.take(q as int)),
        decreases imports.len() - q,
    {
        proof {
            assert(items.take(q + 1).drop_last() =~= items.take(q as int));
            assert(items.take(q + 1).last() == imports@[q as int]@);
        }
        if !imports[q].mergeable {
            let n = copy_nu(&imports[q]);
            let ghost old_r = nu_views(result@);
            result.push(n);
            assert(nu_views(result@) =~= old_r.push(n@));
        }
        q += 1;
    }
    assert(items.take(imports.len() as int) =~= items);
    result
}

pub proof fn lemma_distinct_keys_sub(keys: Seq<KeyModel>, k: KeyModel)
    requires
        distinct_keys(keys).contains(k),
    ensures
        keys.contains(k),
    decreases keys.len(),
{
    if keys.len() > 0 {
        let d = distinct_keys(keys.drop_last());
        if d.contains(k) {
            lemma_distinct_keys_sub(keys.drop_last(), k);
            let w = choose|w: int| 0 <= w < keys.drop_last().len() && keys.drop_last()[w] == k;
            assert(keys[w] == k);
        } else {
            assert(k == keys.last());
            assert(keys[keys.len() - 1] == k);
        }
    }
}

proof fn lemma_mergeable_keys_members(items: Seq<NUModel>, k: KeyModel)
    requires
        mergeable_keys(items).contains(k),
    ensures
        members(items, k).len() >= 1,
    decreases items.len(),
{
    if items.len() > 0 {
        let m = mergeable_keys(items.drop_last());
        if items.last().mergeable && spec_merge_key(items.last()) == k {
        } else if m.contains(k) {
            lemma_mergeable_keys_members(items.drop_last(), k);
        } else {
            assert(items.last().mergeable);
            let w = choose|w: int| 0 <= w < mergeable_keys(items).len() && mergeable_keys(items)[w] == k;
            assert(w == m.len());
        }
    }
}

/// Every key of the merge order has at least one member.
proof fn lemma_members_nonempty(items: Seq<NUModel>, j: int)
    requires
        0 <= j < merge_order(items).len(),
    ensures
        members(items, merge_order(items)[j]).len() >= 1,
{
    let d = distinct_keys(mergeable_keys(items));
    let up = unit_pairs(d);
    lemma_sort_elements(up);
    let k = merge_order(items)[j];
    assert(sort_by_key(up)[j].0 == k);
    assert(up.contains(sort_by_key(up)[j]));
    let w = choose|w: int| 0 <= w < up.len() && up[w] == sort_by_key(up)[j];
    assert(d[w] == k);
    assert(d.contains(k));
    lemma_distinct_keys_sub(mergeable_keys(items), k);
    lemma_mergeable_keys_members(items, k);
}

// ---------------------------------------------------------------------------
// Formatting
// ---------------------------------------------------------------------------

pub open spec fn max_line_width() -> nat {
    100
}

pub open spec fn kw_as() -> Seq<char> {
    seq![' ', 'a', 's', ' ']
}

pub open spec fn opt_rename(rename: Option<Seq<char>>) -> Seq<char> {
    match rename {
        Some(a) => kw_as() + a,
        None => seq![],
    }
}

/// A tree on one line (`a::{b, c as d}`).
pub open spec fn spec_format_node_to_path(t: TreeModel) -> Seq<char>
    decreases t, 0nat,
{
    match t {
        TreeModel::Name { ident, rename } => ident + opt_rename(rename),
        TreeModel::Slf { rename } => kw_self() + opt_rename(rename),
        TreeModel::Glob => seq!['*'],
        TreeModel::Path { ident, child } => ident + colons() + spec_format_node_to_path(*child),
        TreeModel::Group { items } => seq!['{'] + join_sep(paths_of(items), comma_sp()) + seq!['}'],
    }
}

pub open spec fn paths_of(s: Seq<TreeModel>) -> Seq<Seq<char>>
    decreases s, 1nat,
{
    if s.len() == 0 {
        seq![]
    } else {
        seq![spec_format_node_to_path(s[0])] + paths_of(s.drop_first())
    }
}

pub proof fn lemma_paths_of(s: Seq<TreeModel>)
    ensures
        paths_of(s).len() == s.len(),
        forall|i: int| 0 <= i < s.len() ==> #[trigger] paths_of(s)[i] == spec_format_node_to_path(s[i]),
    decreases s.len(),
{
    if s.len() > 0 {
        lemma_paths_of(s.drop_first());
        assert forall|i: int| 0 <= i < s.len() implies #[trigger] paths_of(s)[i]
            == spec_format_node_to_path(s[i]) by {
            if i > 0 {
                assert(paths_of(s)[i] == paths_of(s.drop_first())[i - 1]);
            }
        }
    }
}

fn push_rename(out: &mut Vec<char>, rename: &Option<Vec<char>>)
    ensures
        final(out)@ == old(out)@ + opt_rename(opt_view(*rename)),
{
    match rename {
        Some(a) => {
            let k = vec![' ', 'a', 's', ' '];
            assert(k@ =~= kw_as());
            push_all(out, k.as_slice());
            push_all(out, a.as_slice());
            assert(final(out)@ =~= old(out)@ + (kw_as() + a@));
        },
        None => {
            assert(out@ =~= old(out)@ + Seq::<char>::empty());
        },
    }
}

/// Format a node as a simple path string (single line, no `use` keyword).
pub fn format_node_to_path(node: &UseNode) -> (r: Vec<char>)
    ensures
        r@ == spec_format_node_to_path(node@),
    decreases node,
{
    match node {
        UseNode::Name { ident, rename } => {
            let mut r = copy_chars(ident.as_slice());
            push_rename(&mut r, rename);
            r
        },
        UseNode::Slf { rename } => {
            let mut r = kw_self_v();
            push_rename(&mut r, rename);
            r
        },
        UseNode::Glob => {
            let r = vec!['*'];
            assert(r@ =~= seq!['*']);
            r
        },
        UseNode::Path { ident, child } => {
            let mut r = copy_chars(ident.as_slice());
            r.push(':');
            r.push(':');
            let rest = format_node_to_path(child);
            push_all(&mut r, rest.as_slice());
            assert(r@ =~= ident@ + colons() + rest@);
            r
        },
        UseNode::Group { items } => {
            proof {
                lemma_trees_view_len(items@);
                lemma_paths_of(trees_view(items@));
                assert(decreases_to!(node => items));
            }
            let mut parts: Vec<Vec<char>> = Vec::new();
            let mut i: usize = 0;
            while i < items.len()
                invariant
                    decreases_to!(node => items),
                    i <= items.len(),
                    trees_view(items@).len() == items.len(),
                    paths_of(trees_view(items@)).len() == items.len(),
                    forall|k: int|
                        0 <= k < items.len() ==> #[trigger] trees_view(items@)[k] == tree_view(
                            items@[k],
                        ),
                    forall|k: int|
                        0 <= k < items.len() ==> #[trigger] paths_of(trees_view(items@))[k]
                            == spec_format_node_to_path(trees_view(items@)[k]),
                    view_all(parts@) == paths_of(trees_view(items@)).take(i as int),
                decreases items.len() - i,
            {
                proof {
                    assert(decreases_to!(items => items[i as int]));
                }
                let part = format_node_to_path(&items[i]);
                let ghost old_p = parts@;
                parts.push(part);
                proof {
                    lemma_view_all_push(old_p, part);
                    assert(paths_of(trees_view(items@)).take(i + 1) =~= paths_of(
                        trees_view(items@),
                    ).take(i as int).push(part@));
                }
                i += 1;
            }
            assert(paths_of(trees_view(items@)).take(items.len() as int) =~= paths_of(
                trees_view(items@),
            ));
            let sep = vec![',', ' '];
            assert(sep@ =~= comma_sp());
            let inner = join_sep_exec(parts.as_slice(), sep.as_slice());
            let mut r = vec!['{'];
            push_all(&mut r, inner.as_slice());
            r.push('}');
            assert(r@ =~= seq!['{'] + inner@ + seq!['}']);
            r
        },
    }
}

/// Whether the tree contains a braced group.
pub open spec fn spec_contains_group(t: TreeModel) -> bool
    decreases t,
{
    match t {
        TreeModel::Group { .. } => true,
        TreeModel::Path { child, .. } => spec_contains_group(*child),
        _ => false,
    }
}

/// Check if a UseNode contains any Group (nested braces).
pub fn contains_group(node: &UseNode) -> (r: bool)
    ensures
        r == spec_contains_group(node@),
    decreases node,
{
    match node {
        UseNode::Group { .. } => true,
        UseNode::Path { child, .. } => contains_group(child),
        _ => false,
    }
}

/// Deepest nesting of braces.
pub open spec fn spec_max_brace_depth(t: TreeModel) -> nat
    decreases t, 0nat,
{
    match t {
        TreeModel::Group { items } => 1 + max_depth_of(items),
        TreeModel::Path { child, .. } => spec_max_brace_depth(*child),
        _ => 0,
    }
}

pub open spec fn max_depth_of(s: Seq<TreeModel>) -> nat
    decreases s, 1nat,
{
    if s.len() == 0 {
        0
    } else {
        let a = spec_max_brace_depth(s[0]);
        let b = max_depth_of(s.drop_first());
        if a >= b {
            a
        } else {
            b
        }
    }
}

/// Get the maximum brace nesting depth in a UseNode tree (saturating at
/// `u64::MAX`, far beyond any tree that fits in memory).
pub fn max_brace_depth(node: &UseNode) -> (r: u64)
    ensures
        r == if spec_max_brace_depth(node@) < u64::MAX {
            spec_max_brace_depth(node@)
        } else {
            u64::MAX as nat
        },
    decreases node, 0nat,
{
    match node {
        UseNode::Group { items } => {
            proof {
                assert(decreases_to!(node => items));
            }
            let m = max_depth_list(items, 0);
            assert(trees_view(items@).skip(0) =~= trees_view(items@));
            if m < u64::MAX {
                m + 1
            } else {
                m
            }
        },
        UseNode::Path { child, .. } => max_brace_depth(child),
        _ => 0,
    }
}

fn max_depth_list(items: &Vec<UseNode>, from: usize) -> (r: u64)
    requires
        from <= items.len(),
    ensures
        r == if max_depth_of(trees_view(items@).skip(from as int)) < u64::MAX {
            max_depth_of(trees_view(items@).skip(from as int))
        } else {
            u64::MAX as nat
        },
    decreases items, 1nat, items.len() - from,
{
    proof {
        lemma_trees_view_len(items@);
    }
    if from == items.len() {
        assert(trees_view(items@).skip(from as int) =~= Seq::<TreeModel>::empty());
        return 0;
    }
    let ghost t = trees_view(items@).skip(from as int);
    assert(t.drop_first() =~= trees_view(items@).skip(from + 1));
    assert(t[0] == tree_view(items@[from as int]));
    proof {
        assert(decreases_to!(items => items[from as int]));
    }
    let a = max_brace_depth(&items[from]);
    let b = max_depth_list(items, from + 1);
    if a >= b {
        a
    } else {
        b
    }
}

/// `n` levels of four-space indentation.
pub open spec fn indent(n: nat) -> Seq<char> {
    spaces(4 * n)
}

fn push_indent(out: &mut Vec<char>, level: usize)
    ensures
        final(out)@ == old(out)@ + indent(level as nat),
{
    let mut k: usize = 0;
    while k < level
        invariant
            k <= level,
            out@ == old(out)@ + indent(k as nat),
        decreases level - k,
    {
        push_spaces(out, 4);
        k += 1;
        assert(out@ =~= old(out)@ + indent(k as nat));
    }
}

/// The next indentation level (saturating, as a counter can).
pub open spec fn next_level(l: nat) -> nat {
    if l < usize::MAX {
        l + 1
    } else {
        l
    }
}

fn next_level_exec(l: usize) -> (r: usize)
    ensures
        r == next_level(l as nat),
{
    if l < usize::MAX {
        l + 1
    } else {
        l
    }
}

pub open spec fn comma_nl() -> Seq<char> {
    seq![',', '\n']
}

/// Whether a group must be laid out over several lines.
pub open spec fn needs_multiline(items: Seq<TreeModel>, level: nat) -> bool {
    let child_indent_len = 4 * next_level(level);
    ||| exists|k: int|
        0 <= k < items.len() && (spec_contains_group(#[trigger] items[k]) || child_indent_len
            + byte_len(spec_format_node_to_path(items[k])) + 1 > max_line_width())
    ||| level * 4 + byte_len(join_sep(paths_of(items), comma_sp())) + 2 + 10 > max_line_width()
}

/// A node, with groups expanded over lines where needed.
pub open spec fn spec_format_node_multiline(t: TreeModel, level: nat) -> Seq<char>
    decreases t, 0nat,
{
    match t {
        TreeModel::Path { ident, child } => ident + colons() + match *child {
            TreeModel::Group { items } => spec_format_group_multiline(items, level),
            _ => spec_format_node_multiline(*child, level),
        },
        TreeModel::Group { items } => spec_format_group_multiline(items, level),
        _ => spec_format_node_to_path(t),
    }
}

/// A `{...}` group: on one line when it fits, else one item per line for
/// nested groups and simple items packed up to the line width.
pub open spec fn spec_format_group_multiline(items: Seq<TreeModel>, level: nat) -> Seq<char>
    decreases items, 2 * items.len() + 2,
{
    if !needs_multiline(items, level) {
        seq!['{'] + join_sep(paths_of(items), comma_sp()) + seq!['}']
    } else {
        seq!['{', '\n'] + group_body(items, 0, level) + indent(level) + seq!['}']
    }
}

/// The lines of a multi-line group from item `i` on.
pub open spec fn group_body(items: Seq<TreeModel>, i: int, level: nat) -> Seq<char>
    decreases items, 2 * (items.len() - i) + 1,
{
    if i < 0 || i >= items.len() {
        seq![]
    } else if spec_contains_group(items[i]) {
        indent(next_level(level)) + spec_format_node_multiline(items[i], next_level(level))
            + comma_nl() + group_body(items, i + 1, level)
    } else {
        packed_run(items, i, level, indent(next_level(level)))
    }
}

/// Packing of consecutive simple items from `i` on, with `line` the line
/// being filled.
pub open spec fn packed_run(items: Seq<TreeModel>, i: int, level: nat, line: Seq<char>) -> Seq<
    char,
>
    decreases items, 2 * (items.len() - i),
{
    let ind = indent(next_level(level));
    if 0 <= i < items.len() && !spec_contains_group(items[i]) {
        let s = spec_format_node_to_path(items[i]);
        let addition = if byte_len(line) == byte_len(ind) {
            s
        } else {
            comma_sp() + s
        };
        if byte_len(line) + byte_len(addition) + 1 > max_line_width() && byte_len(line) > byte_len(
            ind,
        ) {
            line + comma_nl() + packed_run(items, i + 1, level, ind + s)
        } else {
            packed_run(items, i + 1, level, line + addition)
        }
    } else {
        let flushed = if byte_len(line) > byte_len(ind) {
            line + comma_nl()
        } else {
            seq![]
        };
        if 0 <= i < items.len() {
            flushed + indent(next_level(level)) + spec_format_node_multiline(
                items[i],
                next_level(level),
            ) + comma_nl() + group_body(items, i + 1, level)
        } else {
            flushed
        }
    }
}

fn needs_multiline_exec(items: &Vec<UseNode>, indent_level: usize) -> (r: bool)
    ensures
        r == needs_multiline(trees_view(items@), indent_level as nat),
{
    let ghost v = trees_view(items@);
    proof {
        lemma_trees_view_len(items@);
        lemma_paths_of(v);
    }
    let child_indent_len: u128 = 4 * (next_level_exec(indent_level) as u128);
    assert(child_indent_len <= 4 * usize::MAX);
    let mut parts: Vec<Vec<char>> = Vec::new();
    let mut any = false;
    let mut i: usize = 0;
    while i < items.len()
        invariant
            i <= items.len(),
            v == trees_view(items@),
            v.len() == items.len(),
            paths_of(v).len() == items.len(),
            forall|k: int| 0 <= k < items.len() ==> #[trigger] v[k] == tree_view(items@[k]),
            forall|k: int| 0 <= k < items.len() ==> #[trigger] paths_of(v)[k]
                == spec_format_node_to_path(v[k]),
            child_indent_len == 4 * next_level(indent_level as nat),
            child_indent_len <= 4 * usize::MAX,
            view_all(parts@) == paths_of(v).take(i as int),
            any == exists|k: int|
                0 <= k < i && (spec_contains_group(#[trigger] v[k]) || child_indent_len
                    + byte_len(spec_format_node_to_path(v[k])) + 1 > max_line_width()),
        decreases items.len() - i,
    {
        let p = format_node_to_path(&items[i]);
        let n = byte_len_exec(p.as_slice());
        let _ = p.len();
        assert(p@.len() <= usize::MAX);
        assert(n <= 4 * usize::MAX);
        let this = contains_group(&items[i]) || child_indent_len + n + 1 > 100;
        proof {
            if this {
                assert(spec_contains_group(v[i as int]) || child_indent_len + byte_len(
                    spec_format_node_to_path(v[i as int]),
                ) + 1 > max_line_width());
            }
            if !this && !any {
                assert forall|k: int| 0 <= k < i + 1 implies !(spec_contains_group(#[trigger] v[k])
                    || child_indent_len + byte_len(spec_format_node_to_path(v[k])) + 1
                    > max_line_width()) by {
                    if k == i {
                    }
                }
            }
        }
        any = any || this;
        let ghost old_p = parts@;
        parts.push(p);
        proof {
            lemma_view_all_push(old_p, p);
            assert(paths_of(v).take(i + 1) =~= paths_of(v).take(i as int).push(p@));
        }
        i += 1;
    }
    assert(paths_of(v).take(items.len() as int) =~= paths_of(v));
    if any {
        return true;
    }
    let sep = vec![',', ' '];
    assert(sep@ =~= comma_sp());
    let joined = join_sep_exec(parts.as_slice(), sep.as_slice());
    let one_line_len = byte_len_exec(joined.as_slice());
    let _ = joined.len();
        assert(joined@.len() <= usize::MAX);
    (indent_level as u128) * 4 + one_line_len + 2 + 10 > 100
}

/// Recursively format a node, expanding groups to multiple lines when needed.
fn format_node_multiline(node: &UseNode, out: &mut Vec<char>, indent_level: usize)
    ensures
        final(out)@ == old(out)@ + spec_format_node_multiline(node@, indent_level as nat),
    decreases node, 0nat,
{
    match node {
        UseNode::Path { ident, child } => {
            let ghost o = out@;
            push_all(out, ident.as_slice());
            out.push(':');
            out.push(':');
            let ghost mid = out@;
            match &**child {
                UseNode::Group { items } => {
                    proof {
                        assert(decreases_to!(node => items));
                    }
                    assert(tree_view(**child) == TreeModel::Group { items: trees_view(items@) });
                    format_group_multiline(items, out, indent_level);
                },
                _ => {
                    assert(!(tree_view(**child) is Group));
                    format_node_multiline(child, out, indent_level);
                },
            }
            assert(mid =~= o + (ident@ + colons()));
            assert(out@ =~= o + spec_format_node_multiline(node@, indent_level as nat));
        },
        UseNode::Group { items } => {
            proof {
                assert(decreases_to!(node => items));
            }
            format_group_multiline(items, out, indent_level);
        },
        _ => {
            let p = format_node_to_path(node);
            push_all(out, p.as_slice());
        },
    }
}

/// Format a `{items...}` group, deciding between single-line and multi-line.
/// When multi-line, packs simple items onto lines up to the line width (like rustfmt).
fn format_group_multiline(items: &Vec<UseNode>, out: &mut Vec<char>, indent_level: usize)
    ensures
        final(out)@ == old(out)@ + spec_format_group_multiline(
            trees_view(items@),
            indent_level as nat,
        ),
    decreases items, 2 * items@.len() + 2,
{
    let ghost v = trees_view(items@);
    let ghost level = indent_level as nat;
    let ghost o = out@;
    proof {
        lemma_trees_view_len(items@);
        lemma_paths_of(v);
    }
    if !needs_multiline_exec(items, indent_level) {
        let mut parts: Vec<Vec<char>> = Vec::new();
        let mut i: usize = 0;
        while i < items.len()
            invariant
                i <= items.len(),
                v == trees_view(items@),
                v.len() == items.len(),
                paths_of(v).len() == items.len(),
                forall|k: int| 0 <= k < items.len() ==> #[trigger] v[k] == tree_view(items@[k]),
                forall|k: int| 0 <= k < items.len() ==> #[trigger] paths_of(v)[k]
                    == spec_format_node_to_path(v[k]),
                view_all(parts@) == paths_of(v).take(i as int),
            decreases items.len() - i,
        {
            let p = format_node_to_path(&items[i]);
            let ghost old_p = parts@;
            parts.push(p);
            proof {
                lemma_view_all_push(old_p, p);
                assert(paths_of(v).take(i + 1) =~= paths_of(v).take(i as int).push(p@));
            }
            i += 1;
        }
        assert(paths_of(v).take(items.len() as int) =~= paths_of(v));
        let sep = vec![',', ' '];
        assert(sep@ =~= comma_sp());
        let joined = join_sep_exec(parts.as_slice(), sep.as_slice());
        out.push('{');
        push_all(out, joined.as_slice());
        out.push('}');
        assert(out@ =~= o + (seq!['{'] + joined@ + seq!['}']));
        return;
    }
    let next = next_level_exec(indent_level);
    let mut ind: Vec<char> = Vec::new();
    push_indent(&mut ind, next);
    assert(ind@ =~= indent(next_level(level)));
    let ind_len = byte_len_exec(ind.as_slice());
    out.push('{');
    out.push('\n');
    let ghost target = o + seq!['{', '\n'] + group_body(v, 0, level);
    assert(out@ + group_body(v, 0, level) =~= target);
    let mut i: usize = 0;
    while i < items.len()
        invariant
            i <= items.len(),
            v == trees_view(items@),
            v.len() == items.len(),
            forall|k: int| 0 <= k < items.len() ==> #[trigger] v[k] == tree_view(items@[k]),
            level == indent_level as nat,
            next == next_level(level),
            ind@ == indent(next_level(level)),
            ind_len == byte_len(ind@),
            out@ + group_body(v, i as int, level) == target,
        decreases items.len() - i,
    {
        if contains_group(&items[i]) {
            let ghost before = out@;
            push_all(out, ind.as_slice());
            proof {
                assert(decreases_to!(items => items[i as int]));
            }
            format_node_multiline(&items[i], out, next);
            out.push(',');
            out.push('\n');
            assert(out@ =~= before + (indent(next_level(level)) + spec_format_node_multiline(
                v[i as int],
                next_level(level),
            ) + comma_nl()));
            i += 1;
        } else {
            let mut line = copy_chars(ind.as_slice());
            assert(group_body(v, i as int, level) == packed_run(v, i as int, level, line@));
            let ghost i0 = i;
            assert(!spec_contains_group(v[i0 as int]));
            while i < items.len() && !contains_group(&items[i])
                invariant
                    i0 <= i <= items.len(),
                    i > i0 || (i0 < items.len() && !spec_contains_group(v[i0 as int])),
                    v == trees_view(items@),
                    v.len() == items.len(),
                    forall|k: int| 0 <= k < items.len() ==> #[trigger] v[k] == tree_view(
                        items@[k],
                    ),
                    level == indent_level as nat,
                    next == next_level(level),
                    ind@ == indent(next_level(level)),
                    ind_len == byte_len(ind@),
                    out@ + packed_run(v, i as int, level, line@) == target,
                decreases items.len() - i,
            {
                let s_ = format_node_to_path(&items[i]);
                let line_len = byte_len_exec(line.as_slice());
                let addition: Vec<char> = if line_len == ind_len {
                    copy_chars(s_.as_slice())
                } else {
                    let mut a = vec![',', ' '];
                    push_all(&mut a, s_.as_slice());
                    assert(a@ =~= comma_sp() + s_@);
                    a
                };
                let add_len = byte_len_exec(addition.as_slice());
                let _ = line.len();
        assert(line@.len() <= usize::MAX);
                let _ = addition.len();
        assert(addition@.len() <= usize::MAX);
                if line_len + add_len + 1 > 100 && line_len > ind_len {
                    let ghost before = out@;
                    push_all(out, line.as_slice());
                    out.push(',');
                    out.push('\n');
                    assert(out@ =~= before + (line@ + comma_nl()));
                    let mut nl = copy_chars(ind.as_slice());
                    push_all(&mut nl, s_.as_slice());
                    line = nl;
                } else {
                    push_all(&mut line, addition.as_slice());
                }
                i += 1;
            }
            let line_len = byte_len_exec(line.as_slice());
            if line_len > ind_len {
                let ghost before = out@;
                push_all(out, line.as_slice());
                out.push(',');
                out.push('\n');
                assert(out@ =~= before + (line@ + comma_nl()));
            }
            proof {
                let flushed = if byte_len(line@) > byte_len(ind@) {
                    line@ + comma_nl()
                } else {
                    seq![]
                };
                if i < items.len() {
                    assert(group_body(v, i as int, level) == indent(next_level(level))
                        + spec_format_node_multiline(v[i as int], next_level(level)) + comma_nl()
                        + group_body(v, i + 1, level));
                }
            }
        }
    }
    push_indent(out, indent_level);
    out.push('}');
    assert(out@ =~= o + (seq!['{', '\n'] + group_body(v, 0, level) + indent(level) + seq!['}']));
}

pub open spec fn kw_use_text() -> Seq<char> {
    seq!['u', 's', 'e', ' ']
}

/// `vis_prefix + "use " + path + ";"` on one line, or expanded over
/// several lines when the statement nests groups or is too wide.
pub open spec fn spec_format_use_stmt(t: TreeModel, vis_prefix: Seq<char>) -> Seq<char> {
    let stmt = vis_prefix + kw_use_text() + spec_format_node_to_path(t) + seq![';'];
    if !stmt.contains('{') {
        stmt
    } else if spec_max_brace_depth(t) <= 1 && byte_len(stmt) <= max_line_width() {
        stmt
    } else {
        spec_format_use_stmt_multiline(t, vis_prefix)
    }
}

pub open spec fn spec_format_use_stmt_multiline(t: TreeModel, vis_prefix: Seq<char>) -> Seq<
    char,
> {
    vis_prefix + kw_use_text() + spec_format_node_multiline(t, 0) + seq![';']
}

/// Format a use statement with multi-line braces, matching rustfmt behavior.
fn format_use_stmt_multiline(node: &UseNode, vis_prefix: &[char]) -> (r: Vec<char>)
    ensures
        r@ == spec_format_use_stmt_multiline(node@, vis_prefix@),
{
    let mut result = copy_chars(vis_prefix);
    let u = kw_use_v();
    push_all(&mut result, u.as_slice());
    let ghost mid = result@;
    format_node_multiline(node, &mut result, 0);
    result.push(';');
    assert(result@ =~= vis_prefix@ + kw_use_text() + spec_format_node_multiline(node@, 0)
        + seq![';']);
    result
}

/// Format a complete `use` statement from a tree.
pub fn format_use_stmt(node: &UseNode, vis_prefix: &[char]) -> (r: Vec<char>)
    ensures
        r@ == spec_format_use_stmt(node@, vis_prefix@),
{
    let path_str = format_node_to_path(node);
    let mut stmt = copy_chars(vis_prefix);
    let u = kw_use_v();
    push_all(&mut stmt, u.as_slice());
    push_all(&mut stmt, path_str.as_slice());
    stmt.push(';');
    assert(stmt@ =~= vis_prefix@ + kw_use_text() + path_str@ + seq![';']);
    if !contains_char(stmt.as_slice(), '{') {
        return stmt;
    }
    let brace_depth = max_brace_depth(node);
    let len = byte_len_exec(stmt.as_slice());
    if brace_depth <= 1 && len <= 100 {
        return stmt;
    }
    format_use_stmt_multiline(node, vis_prefix)
}

/// `vis + " "`, or nothing for private imports.
pub open spec fn vis_prefix_of(vis: Seq<char>) -> Seq<char> {
    if vis.len() == 0 {
        seq![]
    } else {
        vis + seq![' ']
    }
}

/// The text of one statement: kept as written when it must not be touched,
/// else its attached lines and the formatted statement.
pub open spec fn format_piece(n: NUModel) -> Seq<char> {
    if n.skip_format {
        n.original + seq!['\n']
    } else {
        lines_nl(n.leading) + spec_format_use_stmt(n.tree, vis_prefix_of(n.visibility)) + seq![
            '\n',
        ]
    }
}

/// All statements, with a blank line between groups when grouping.
pub open spec fn spec_format_all_imports(items: Seq<NUModel>, group: bool) -> Seq<char>
    decreases items.len(),
{
    if items.len() == 0 {
        seq![]
    } else {
        let sep = if group && items.len() >= 2 && items[items.len() - 2].group
            != items.last().group {
            seq!['\n']
        } else {
            seq![]
        };
        spec_format_all_imports(items.drop_last(), group) + sep + format_piece(items.last())
    }
}

fn push_piece(result: &mut Vec<char>, imp: &NormalizedUse)
    ensures
        final(result)@ == old(result)@ + format_piece(imp@),
{
    if imp.skip_format {
        push_all(result, imp.original_block.as_slice());
        result.push('\n');
        assert(final(result)@ =~= old(result)@ + format_piece(imp@));
    } else {
        push_lines_nl(result, imp.leading_lines.as_slice(), 0, imp.leading_lines.len());
        assert(view_all(imp.leading_lines@).subrange(0, imp.leading_lines.len() as int)
            =~= view_all(imp.leading_lines@));
        let ghost mid = result@;
        let vis_prefix: Vec<char> = if imp.visibility.len() == 0 {
            Vec::new()
        } else {
            let mut p = copy_chars(imp.visibility.as_slice());
            p.push(' ');
            p
        };
        assert(vis_prefix@ =~= vis_prefix_of(imp.visibility@));
        let formatted = format_use_stmt(&imp.tree, vis_prefix.as_slice());
        push_all(result, formatted.as_slice());
        result.push('\n');
        assert(final(result)@ =~= old(result)@ + format_piece(imp@));
    }
}

pub fn format_all_imports(imports: &[NormalizedUse], group: bool) -> (r: Vec<char>)
    ensures
        r@ == spec_format_all_imports(nu_views(imports@), group),
{
    let ghost v = nu_views(imports@);
    let mut result: Vec<char> = Vec::new();
    let mut prev_group: Option<ImportGroup> = None;
    let mut i: usize = 0;
    assert(result@ =~= spec_format_all_imports(v.take(0), group));
    while i < imports.len()
        invariant
            i <= imports.len(),
            v == nu_views(imports@),
            result@ == spec_format_all_imports(v.take(i as int), group),
            prev_group == if i == 0 {
                None
            } else {
                Some(v[i - 1].group)
            },
        decreases imports.len() - i,
    {
        let imp = &imports[i];
        assert(v[i as int] == imp@);
        assert(v.take(i + 1).drop_last() =~= v.take(i as int));
        let ghost before = result@;
        let sep = match prev_group {
            Some(prev) => group && prev != imp.group,
            None => false,
        };
        if sep {
            result.push('\n');
        }
        let ghost mid = result@;
        prev_group = Some(imp.group);
        push_piece(&mut result, imp);
        proof {
            let t = v.take(i + 1);
            assert(t.last() == v[i as int]);
            if i >= 1 {
                assert(t[t.len() - 2] == v[i - 1]);
            }
            assert(result@ =~= spec_format_all_imports(t, group));
        }
        i += 1;
    }
    assert(v.take(imports.len() as int) =~= v);
    result
}

/// The statement with its tree's groups sorted.
pub open spec fn with_sorted_tree(n: NUModel) -> NUModel {
    NUModel { tree: spec_sort_use_node(n.tree), ..n }
}

/// The key statements are ordered by: group first when grouping, then the
/// tree's key.
pub open spec fn import_key(n: NUModel, group: bool) -> KeyModel {
    let k = spec_sort_key(n.tree);
    if group {
        KeyModel { ranks: seq![group_rank(n.group), k.0, k.1], texts: seq![k.2] }
    } else {
        node_key(n.tree)
    }
}

/// Trees sorted inside, then statements sorted stably by key.
pub open spec fn spec_sort_imports(items: Seq<NUModel>, group: bool) -> Seq<NUModel> {
    sort_by_key(
        items.map_values(|n: NUModel| (import_key(with_sorted_tree(n), group), with_sorted_tree(n))),
    ).map_values(|p: (KeyModel, NUModel)| p.1)
}

fn import_key_exec(n: &NormalizedUse, group: bool) -> (r: SortKey)
    ensures
        r@ == import_key(n@, group),
{
    let k = sort_key(&n.tree);
    if group {
        let SortKey { ranks, texts } = k;
        let g = match n.group {
            ImportGroup::Std => 0u64,
            ImportGroup::External => 1u64,
            ImportGroup::Internal => 2u64,
        };
        let r = SortKey { ranks: vec![g, ranks[0], ranks[1]], texts };
        assert(r@.ranks =~= import_key(n@, group).ranks);
        r
    } else {
        k
    }
}

fn sort_imports(imports: Vec<NormalizedUse>, group: bool) -> (r: Vec<NormalizedUse>)
    ensures
        nu_views(r@) == spec_sort_imports(nu_views(imports@), group),
{
    let ghost v = nu_views(imports@);
    let ghost f = |x: NormalizedUse| x@;
    let ghost g = |p: (KeyModel, NormalizedUse)| (p.0, f(p.1));
    let ghost target = v.map_values(
        |n: NUModel| (import_key(with_sorted_tree(n), group), with_sorted_tree(n)),
    );
    let mut pairs: Vec<(SortKey, NormalizedUse)> = Vec::new();
    let mut i: usize = 0;
    assert(key_pairs(pairs@).map_values(g) =~= target.take(0));
    while i < imports.len()
        invariant
            i <= imports.len(),
            v == nu_views(imports@),
            target == v.map_values(
                |n: NUModel| (import_key(with_sorted_tree(n), group), with_sorted_tree(n)),
            ),
            g == (|p: (KeyModel, NormalizedUse)| (p.0, f(p.1))),
            f == (|x: NormalizedUse| x@),
            key_pairs(pairs@).map_values(g) == target.take(i as int),
        decreases imports.len() - i,
    {
        let imp = &imports[i];
        assert(v[i as int] == imp@);
        let tree = sort_use_node(&imp.tree);
        let n = NormalizedUse {
            visibility: copy_chars(imp.visibility.as_slice()),
            tree,
            group: imp.group,
            leading_lines: copy_lines(imp.leading_lines.as_slice()),
            original_block: copy_chars(imp.original_block.as_slice()),
            mergeable: imp.mergeable,
            skip_format: imp.skip_format,
        };
        assert(n@ == with_sorted_tree(imp@));
        let key = import_key_exec(&n, group);
        let ghost old_pairs = pairs@;
        pairs.push((key, n));
        proof {
            assert(key_pairs(pairs@) =~= key_pairs(old_pairs).push((key@, n)));
            assert(key_pairs(pairs@).map_values(g) =~= key_pairs(old_pairs).map_values(g).push(
                g((key@, n)),
            ));
            assert(target.take(i + 1) =~= target.take(i as int).push(target[i as int]));
        }
        i += 1;
    }
    assert(target.take(imports.len() as int) =~= target);
    let sorted = stable_sort(pairs);
    proof {
        lemma_sort_map_values(key_pairs(pairs@), f);
    }
    let ghost sp = key_pairs(sorted@);
    let mut out: Vec<NormalizedUse> = Vec::new();
    let mut srest = sorted;
    let ghost mut j: int = 0;
    assert(nu_views(out@) =~= Seq::<NUModel>::empty());
    while srest.len() > 0
        invariant
            0 <= j <= sp.len(),
            srest@.len() == sp.len() - j,
            key_pairs(srest@) == sp.skip(j),
            nu_views(out@) == sp.take(j).map_values(|p: (KeyModel, NormalizedUse)| p.1@),
        decreases srest.len(),
    {
        let ghost old_s = srest@;
        let pair = srest.remove(0);
        let node = pair.1;
        proof {
            assert(srest@ =~= old_s.skip(1));
            assert(key_pairs(old_s)[0] == (old_s[0].0@, old_s[0].1));
            assert(key_pairs(old_s)[0] == sp.skip(j)[0]);
            assert(node == sp[j].1);
            assert forall|q: int| 0 <= q < srest@.len() implies key_pairs(srest@)[q] == sp.skip(
                j + 1,
            )[q] by {
                assert(key_pairs(old_s)[q + 1] == sp.skip(j)[q + 1]);
                assert(srest@[q] == old_s[q + 1]);
            }
            assert(key_pairs(srest@) =~= sp.skip(j + 1));
        }
        let ghost old_out = nu_views(out@);
        out.push(node);
        proof {
            assert(nu_views(out@) =~= old_out.push(node@));
            assert(sp.take(j + 1).map_values(|p: (KeyModel, NormalizedUse)| p.1@) =~= sp.take(
                j,
            ).map_values(|p: (KeyModel, NormalizedUse)| p.1@).push(node@));
            j = j + 1;
        }
    }
    proof {
        assert(sp.take(sp.len() as int) =~= sp);
        let rhs = sort_by_key(key_pairs(pairs@).map_values(g));
        assert(nu_views(out@) =~= rhs.map_values(|p: (KeyModel, NUModel)| p.1));
    }
    out
}


// ---------------------------------------------------------------------------
// The whole file
// ---------------------------------------------------------------------------

/// Index of the first line at or after `i` that is not blank.
pub open spec fn first_nonblank_from(lines: Seq<Seq<char>>, i: int) -> int
    decreases lines.len() - i,
{
    if i < 0 || i >= lines.len() {
        lines.len() as int
    } else if trim(lines[i]).len() == 0 {
        first_nonblank_from(lines, i + 1)
    } else {
        i
    }
}

proof fn lemma_first_nonblank_bounds(lines: Seq<Seq<char>>, i: int)
    requires
        0 <= i,
    ensures
        i <= first_nonblank_from(lines, i) <= lines.len() || (i > lines.len()
            && first_nonblank_from(lines, i) == lines.len()),
    decreases lines.len() - i,
{
    if i < lines.len() && trim(lines[i]).len() == 0 {
        lemma_first_nonblank_bounds(lines, i + 1);
    }
}

/// What follows the statements: nothing when only blank lines are left,
/// else one line break and the remaining lines from the first non-blank one.
pub open spec fn tail_text(lines: Seq<Seq<char>>, after: int) -> Seq<char> {
    if 0 <= after < lines.len() {
        seq!['\n'] + join_with(lines.skip(after), '\n')
    } else {
        seq![]
    }
}

/// The statements after merging (when asked) and sorting (when asked).
pub open spec fn arrange_imports(items: Seq<NUModel>, group: bool, sort: bool, merge: bool) -> Seq<
    NUModel,
> {
    let merged = if merge {
        spec_merge_imports(items)
    } else {
        items
    };
    if sort {
        spec_sort_imports(merged, group)
    } else {
        merged
    }
}

/// The file with its leading `use` region rewritten: the lines before it as
/// they were, the formatted statements, then the rest of the file after one
/// line break. A file without such a region, or whose region does not
/// parse, comes back unchanged; a final line break is kept.
pub open spec fn spec_format_imports(group: bool, sort: bool, merge: bool, content: Seq<char>) -> Seq<
    char,
> {
    let lines = lines_of(content);
    match spec_find_use_region(lines) {
        None => content,
        Some((s, e)) => match spec_parse_use_items(lines.subrange(s, e + 1)) {
            None => content,
            Some(items) => if items.len() == 0 {
                content
            } else {
                let body = lines_nl(lines.take(s)) + spec_format_all_imports(
                    arrange_imports(items, group, sort, merge),
                    group,
                ) + tail_text(lines, first_nonblank_from(lines, e + 1));
                if has_suffix(content, seq!['\n']) && !has_suffix(body, seq!['\n']) {
                    body.push('\n')
                } else {
                    body
                }
            },
        },
    }
}

/// RC1001: reports, and fixes, `use` statements that are not grouped,
/// sorted, merged and wrapped as configured.
pub struct ImportFormattingRule {
    pub group: bool,
    pub sort: bool,
    pub merge: bool,
}

impl ImportFormattingRule {
    pub fn new(group: bool, sort: bool, merge: bool) -> (r: Self)
        ensures
            r.group == group,
            r.sort == sort,
            r.merge == merge,
    {
        ImportFormattingRule { group, sort, merge }
    }

    /// Grouping, sorting and merging follow the section's `group`, `sort`
    /// and `merge` keys.
    pub fn from_config(imports: &crate::config::ImportsConfig) -> (r: Self)
        ensures
            r.group == imports.group,
            r.sort == imports.sort,
            r.merge == imports.merge,
    {
        ImportFormattingRule { group: imports.group, sort: imports.sort, merge: imports.merge }
    }

    fn format_chars(&self, content: &[char]) -> (r: Vec<char>)
        ensures
            r@ == spec_format_imports(self.group, self.sort, self.merge, content@),
    {
        let n = content.len();
        let ls = lines(content);
        let ghost lv = view_all(ls@);
        proof {
            lemma_lines_small(content@);
        }
        assert(small_lines(lv));
        let region = find_use_region(ls.as_slice());
        let (region_start, region_end) = match region {
            None => {
                return copy_chars(content);
            },
            Some(p) => p,
        };
        proof {
            lemma_find_use_region_bounds(lv);
            assert(spec_find_use_region(lv) == Some((region_start as int, region_end as int)));
            assert(region_start <= region_end < ls.len());
            lemma_total_len_subrange(lv, region_start as int, region_end + 1);
        }
        let region_lines = copy_lines_range(ls.as_slice(), region_start, region_end + 1);
        let parsed = parse_use_items(region_lines.as_slice());
        let items = match parsed {
            None => {
                return copy_chars(content);
            },
            Some(v) => v,
        };
        if items.len() == 0 {
            return copy_chars(content);
        }
        let ghost iv = nu_views(items@);
        let merged = if self.merge {
            merge_imports(items)
        } else {
            items
        };
        let arranged = if self.sort {
            sort_imports(merged, self.group)
        } else {
            merged
        };
        assert(nu_views(arranged@) == arrange_imports(iv, self.group, self.sort, self.merge));
        let formatted = format_all_imports(arranged.as_slice(), self.group);
        let mut result: Vec<char> = Vec::new();
        push_lines_nl(&mut result, ls.as_slice(), 0, region_start);
        assert(lv.subrange(0, region_start as int) =~= lv.take(region_start as int));
        push_all(&mut result, formatted.as_slice());
        let ghost head = result@;
        let mut after_idx = region_end + 1;
        while after_idx < ls.len() && is_blank(ls[after_idx].as_slice())
            invariant
                region_end < after_idx <= ls.len(),
                lv == view_all(ls@),
                first_nonblank_from(lv, after_idx as int) == first_nonblank_from(lv, region_end + 1),
            decreases ls.len() - after_idx,
        {
            assert(lv[after_idx as int] == ls@[after_idx as int]@);
            after_idx += 1;
        }
        proof {
            if after_idx < ls.len() {
                assert(lv[after_idx as int] == ls@[after_idx as int]@);
                assert(first_nonblank_from(lv, after_idx as int) == after_idx);
            } else {
                assert(first_nonblank_from(lv, after_idx as int) == lv.len());
            }
        }
        if after_idx < ls.len() {
            result.push('\n');
            let rest = copy_lines_range(ls.as_slice(), after_idx, ls.len());
            let joined = join_lines(rest.as_slice(), '\n');
            assert(lv.subrange(after_idx as int, lv.len() as int) =~= lv.skip(after_idx as int));
            push_all(&mut result, joined.as_slice());
        }
        assert(result@ =~= head + tail_text(lv, first_nonblank_from(lv, region_end + 1)));
        let nl = vec!['\n'];
        if ends_with(content, nl.as_slice()) && !ends_with(result.as_slice(), nl.as_slice()) {
            result.push('\n');
        }
        assert(nl@ =~= seq!['\n']);
        result
    }

    /// The file with its imports formatted; the file itself when nothing
    /// needs doing.
    pub fn format_imports(&self, content: &str) -> (r: String)
        ensures
            r@ == spec_format_imports(self.group, self.sort, self.merge, content@),
    {
        let chars = str_chars(content);
        let out = self.format_chars(chars.as_slice());
        chars_to_string(out.as_slice())
    }
}

fn is_blank(line: &[char]) -> (r: bool)
    ensures
        r == (trim(line@).len() == 0),
{
    let t = trim_chars(line);
    t.len() == 0
}

/// The finding of RC1001 on a text: one warning on line 1 when formatting
/// would change the text, none otherwise.
pub open spec fn spec_imports_check(
    group: bool,
    sort: bool,
    merge: bool,
    content: Seq<char>,
    file: Seq<char>,
) -> Seq<DiagModel> {
    if spec_format_imports(group, sort, merge, content) == content {
        seq![]
    } else {
        seq![
            finding(
                "RC1001"@,
                "Import statements are not properly formatted. Run `rustcop fix` to auto-fix."@,
                file,
                1,
                Severity::Warning,
            ),
        ]
    }
}

impl Rule for ImportFormattingRule {
    fn id(&self) -> (r: &str)
        ensures
            r@ == "RC1001"@,
    {
        "RC1001"
    }

    fn name(&self) -> (r: &str)
        ensures
            r@ == "ImportFormatting"@,
    {
        "ImportFormatting"
    }

    /// One warning on line 1 when formatting would change the file, none
    /// otherwise.
    fn check(&self, content: &str, file: &str) -> (r: Vec<Diagnostic>)
        ensures
            diag_views(r@) == spec_imports_check(
                self.group,
                self.sort,
                self.merge,
                content@,
                file@,
            ),
    {
        let fixed = self.format_imports(content);
        let a = str_chars(fixed.as_str());
        let b = str_chars(content);
        let mut out: Vec<Diagnostic> = Vec::new();
        if !chars_eq(a.as_slice(), b.as_slice()) {
            let d = Diagnostic {
                rule_id: "RC1001".to_owned(),
                message: "Import statements are not properly formatted. Run `rustcop fix` to auto-fix.".to_owned(),
                file: file.to_owned(),
                line: 1,
                severity: Severity::Warning,
                suppressed: false,
                suppression_justification: None,
            };
            proof {
                reveal_strlit("RC1001");
                reveal_strlit(
                    "Import statements are not properly formatted. Run `rustcop fix` to auto-fix.",
                );
            }
            out.push(d);
            assert(diag_views(out@) =~= seq![d@]);
        } else {
            assert(diag_views(out@) =~= Seq::<DiagModel>::empty());
        }
        out
    }

    fn fix(&self, content: &str) -> (r: String)
        ensures
            r@ == spec_format_imports(self.group, self.sort, self.merge, content@),
    {
        self.format_imports(content)
    }
}

// ---------------------------------------------------------------------------
// Laws
// ---------------------------------------------------------------------------

/// Sorting statements orders them by their key: with grouping, every
/// standard-library statement comes before every external one, and those
/// before every internal one.
pub proof fn law_sorted_imports_ordered(items: Seq<NUModel>, group: bool)
    ensures
        spec_sort_imports(items, group).len() == items.len(),
        forall|i: int, j: int|
            0 <= i < j < spec_sort_imports(items, group).len() ==> key_le(
                import_key(spec_sort_imports(items, group)[i], group),
                import_key(spec_sort_imports(items, group)[j], group),
            ),
        group ==> forall|i: int, j: int|
            0 <= i < j < spec_sort_imports(items, group).len() ==> group_rank(
                spec_sort_imports(items, group)[i].group,
            ) <= group_rank(spec_sort_imports(items, group)[j].group),
{
    let pairs = items.map_values(
        |n: NUModel| (import_key(with_sorted_tree(n), group), with_sorted_tree(n)),
    );
    let key_of = |n: NUModel| import_key(n, group);
    let sorted = sort_by_key(pairs);
    let out = spec_sort_imports(items, group);
    law_sort_sorted(pairs);
    lemma_sort_keys_of(pairs, key_of);
    assert forall|i: int, j: int| 0 <= i < j < out.len() implies key_le(
        import_key(out[i], group),
        import_key(out[j], group),
    ) by {
        assert(out[i] == sorted[i].1);
        assert(out[j] == sorted[j].1);
        assert(sorted[i].0 == key_of(sorted[i].1));
        assert(sorted[j].0 == key_of(sorted[j].1));
    }
    if group {
        assert forall|i: int, j: int| 0 <= i < j < out.len() implies group_rank(out[i].group)
            <= group_rank(out[j].group) by {
            lemma_key_le_first_rank(import_key(out[i], group), import_key(out[j], group));
        }
    }
}

proof fn lemma_distinct_keys_no_dup(keys: Seq<KeyModel>)
    ensures
        distinct_keys(keys).no_duplicates(),
    decreases keys.len(),
{
    if keys.len() > 0 {
        lemma_distinct_keys_no_dup(keys.drop_last());
    }
}

/// The merge order holds each key once.
proof fn lemma_merge_order_no_dup(items: Seq<NUModel>)
    ensures
        merge_order(items).no_duplicates(),
{
    let d = distinct_keys(mergeable_keys(items));
    lemma_distinct_keys_no_dup(mergeable_keys(items));
    let up = unit_pairs(d);
    assert(up.no_duplicates()) by {
        assert forall|i: int, j: int| 0 <= i < up.len() && 0 <= j < up.len() && i != j implies up[i]
            != up[j] by {
            assert(up[i].0 == d[i]);
            assert(up[j].0 == d[j]);
        }
    }
    lemma_sort_no_duplicates(up);
    let sorted = sort_by_key(up);
    lemma_sort_elements(up);
    let order = merge_order(items);
    assert forall|i: int, j: int| 0 <= i < order.len() && 0 <= j < order.len() && i != j implies order[i]
        != order[j] by {
        assert(order[i] == sorted[i].0);
        assert(order[j] == sorted[j].0);
        if sorted[i].0 == sorted[j].0 {
            assert(sorted[i] == sorted[j]);
        }
    }
}

proof fn lemma_members_keyed(items: Seq<NUModel>, k: KeyModel)
    ensures
        forall|i: int|
            0 <= i < members(items, k).len() ==> spec_merge_key(#[trigger] members(items, k)[i])
                == k,
    decreases items.len(),
{
    if items.len() > 0 {
        lemma_members_keyed(items.drop_last(), k);
        let prev = members(items.drop_last(), k);
        let m = members(items, k);
        assert forall|i: int| 0 <= i < m.len() implies spec_merge_key(#[trigger] m[i]) == k by {
            if i < prev.len() {
                assert(m[i] == prev[i]);
            }
        }
    }
}

/// The statement merged for key `k` has key `k`.
proof fn lemma_merge_group_key(items: Seq<NUModel>, k: KeyModel)
    requires
        members(items, k).len() >= 1,
    ensures
        spec_merge_key(merge_group(members(items, k))) == k,
{
    let g = members(items, k);
    lemma_members_keyed(items, k);
    assert(spec_merge_key(g[0]) == k);
    if g.len() != 1 {
        let children = dedup_trees(children_of(g));
        let root = spec_root_ident(g[0].tree);
        assert(k.texts =~= seq![g[0].visibility, root]);
        assert(spec_merge_key(merge_group(g)).texts =~= seq![g[0].visibility, root]);
        assert(spec_merge_key(merge_group(g)) =~= k);
    }
}

/// Merging leaves at most one merged statement per visibility and root:
/// the merged statements have pairwise different keys, and come in
/// ascending key order.
pub proof fn law_merged_keys_distinct(items: Seq<NUModel>)
    ensures
        forall|i: int, j: int|
            0 <= i < j < merge_order(items).len() ==> spec_merge_key(
                #[trigger] spec_merge_imports(items)[i],
            ) != spec_merge_key(#[trigger] spec_merge_imports(items)[j]),
        forall|i: int, j: int|
            0 <= i < j < merge_order(items).len() ==> key_le(
                spec_merge_key(#[trigger] spec_merge_imports(items)[i]),
                spec_merge_key(#[trigger] spec_merge_imports(items)[j]),
            ),
{
    let order = merge_order(items);
    let out = spec_merge_imports(items);
    lemma_merge_order_no_dup(items);
    let up = unit_pairs(distinct_keys(mergeable_keys(items)));
    law_sort_sorted(up);
    assert forall|i: int| 0 <= i < order.len() implies spec_merge_key(#[trigger] out[i])
        == order[i] by {
        lemma_members_nonempty(items, i);
        lemma_merge_group_key(items, order[i]);
    }
    assert forall|i: int, j: int| 0 <= i < j < order.len() implies spec_merge_key(
        #[trigger] out[i],
    ) != spec_merge_key(#[trigger] out[j]) by {
        assert(spec_merge_key(out[i]) == order[i]);
        assert(spec_merge_key(out[j]) == order[j]);
    }
    assert forall|i: int, j: int| 0 <= i < j < order.len() implies key_le(
        spec_merge_key(#[trigger] out[i]),
        spec_merge_key(#[trigger] out[j]),
    ) by {
        assert(spec_merge_key(out[i]) == order[i]);
        assert(spec_merge_key(out[j]) == order[j]);
        assert(order[i] == sort_by_key(up)[i].0);
        assert(order[j] == sort_by_key(up)[j].0);
    }
}

proof fn lemma_depth_witness(s: Seq<TreeModel>)
    requires
        max_depth_of(s) >= 1,
    ensures
        exists|k: int| 0 <= k < s.len() && spec_max_brace_depth(#[trigger] s[k]) >= 1,
    decreases s.len(),
{
    if spec_max_brace_depth(s[0]) >= 1 {
        assert(spec_max_brace_depth(s[0]) >= 1);
    } else {
        let rest = s.drop_first();
        lemma_depth_witness(rest);
        let k = choose|k: int| 0 <= k < rest.len() && spec_max_brace_depth(#[trigger] rest[k]) >= 1;
        assert(s[k + 1] == rest[k]);
    }
}

proof fn lemma_depth_contains_group(t: TreeModel)
    requires
        spec_max_brace_depth(t) >= 1,
    ensures
        spec_contains_group(t),
    decreases t,
{
    if let TreeModel::Path { child, .. } = t {
        lemma_depth_contains_group(*child);
    }
}

proof fn lemma_has_char_shift(a: Seq<char>, b: Seq<char>, c: Seq<char>, ch: char)
    requires
        b.contains(ch),
    ensures
        (a + b + c).contains(ch),
{
    let j = choose|j: int| 0 <= j < b.len() && b[j] == ch;
    assert((a + b + c)[a.len() + j] == ch);
}

proof fn lemma_group_path_has_brace(t: TreeModel)
    requires
        spec_contains_group(t),
    ensures
        spec_format_node_to_path(t).contains('{'),
    decreases t,
{
    match t {
        TreeModel::Group { items } => {
            assert(spec_format_node_to_path(t)[0] == '{');
        },
        TreeModel::Path { ident, child } => {
            lemma_group_path_has_brace(*child);
            lemma_has_char_shift(
                ident + colons(),
                spec_format_node_to_path(*child),
                seq![],
                '{',
            );
            assert(spec_format_node_to_path(t) =~= ident + colons() + spec_format_node_to_path(
                *child,
            ) + seq![]);
        },
        _ => {},
    }
}

proof fn lemma_nested_group_spans(items: Seq<TreeModel>, level: nat)
    requires
        max_depth_of(items) >= 1,
    ensures
        spec_format_group_multiline(items, level).contains('\n'),
{
    lemma_depth_witness(items);
    let k = choose|k: int| 0 <= k < items.len() && spec_max_brace_depth(#[trigger] items[k]) >= 1;
    lemma_depth_contains_group(items[k]);
    assert(needs_multiline(items, level));
    assert(spec_format_group_multiline(items, level)[1] == '\n');
}

proof fn lemma_deep_node_spans(t: TreeModel, level: nat)
    requires
        spec_max_brace_depth(t) > 1,
    ensures
        spec_format_node_multiline(t, level).contains('\n'),
    decreases t,
{
    match t {
        TreeModel::Group { items } => {
            lemma_nested_group_spans(items, level);
        },
        TreeModel::Path { ident, child } => {
            let inner = match *child {
                TreeModel::Group { items } => spec_format_group_multiline(items, level),
                _ => spec_format_node_multiline(*child, level),
            };
            match *child {
                TreeModel::Group { items } => {
                    assert(spec_max_brace_depth(*child) == 1 + max_depth_of(items));
                    lemma_nested_group_spans(items, level);
                },
                _ => {
                    lemma_deep_node_spans(*child, level);
                },
            }
            lemma_has_char_shift(ident + colons(), inner, seq![], '\n');
            assert(spec_format_node_multiline(t, level) =~= ident + colons() + inner + seq![]);
        },
        _ => {},
    }
}

/// Imports with nested braces are expanded over several lines: a statement
/// whose tree nests a group inside a group is never laid out on one line.
pub proof fn law_nested_braces_expand(t: TreeModel, vis_prefix: Seq<char>)
    requires
        spec_max_brace_depth(t) > 1,
    ensures
        spec_format_use_stmt(t, vis_prefix).contains('\n'),
{
    lemma_depth_contains_group(t);
    lemma_group_path_has_brace(t);
    lemma_has_char_shift(
        vis_prefix + kw_use_text(),
        spec_format_node_to_path(t),
        seq![';'],
        '{',
    );
    lemma_deep_node_spans(t, 0);
    lemma_has_char_shift(
        vis_prefix + kw_use_text(),
        spec_format_node_multiline(t, 0),
        seq![';'],
        '\n',
    );
}

/// RC1001 reports exactly when fixing would change the text: at most one
/// finding, none exactly when the fix leaves the text as it is, and that
/// finding an unsuppressed warning of RC1001 on line 1 of the file.
pub proof fn law_import_check_matches_fix(
    group: bool,
    sort: bool,
    merge: bool,
    content: Seq<char>,
    file: Seq<char>,
)
    ensures
        spec_imports_check(group, sort, merge, content, file).len() <= 1,
        spec_imports_check(group, sort, merge, content, file).len() == 0 <==> spec_format_imports(
            group,
            sort,
            merge,
            content,
        ) == content,
        forall|i: int|
            0 <= i < spec_imports_check(group, sort, merge, content, file).len() ==> {
                let d = #[trigger] spec_imports_check(group, sort, merge, content, file)[i];
                &&& d.rule_id == "RC1001"@
                &&& d.line == 1
                &&& d.severity == Severity::Warning
                &&& d.file == file
                &&& !d.suppressed
            },
{
}

/// The group of a statement is decided by its root segment: `std`, `core`
/// and `alloc` are the standard library and come first (rank 0); `crate`,
/// `self` and `super` are the crate's own and come last (rank 2); any
/// other root is an external crate, in between (rank 1).
pub proof fn law_import_group_by_root(t: TreeModel)
    ensures
        spec_root_ident(t) == "std"@ || spec_root_ident(t) == "core"@ || spec_root_ident(t)
            == "alloc"@ <==> spec_classify_node(t) == ImportGroup::Std,
        spec_root_ident(t) == "crate"@ || spec_root_ident(t) == "self"@ || spec_root_ident(t)
            == "super"@ <==> spec_classify_node(t) == ImportGroup::Internal,
        group_rank(spec_classify_node(t)) == (if spec_root_ident(t) == "std"@ || spec_root_ident(t)
            == "core"@ || spec_root_ident(t) == "alloc"@ {
            0u64
        } else if spec_root_ident(t) == "crate"@ || spec_root_ident(t) == "self"@
            || spec_root_ident(t) == "super"@ {
            2u64
        } else {
            1u64
        }),
{
    reveal_strlit("std");
    reveal_strlit("core");
    reveal_strlit("alloc");
    reveal_strlit("crate");
    reveal_strlit("self");
    reveal_strlit("super");
    assert(kw_std() =~= "std"@);
    assert(kw_core() =~= "core"@);
    assert(kw_alloc() =~= "alloc"@);
    assert(kw_crate() =~= "crate"@);
    assert(kw_self() =~= "self"@);
    assert(kw_super() =~= "super"@);
}

/// Names sort snake_case before CamelCase before UPPER_CASE: a name that
/// starts with `a`..`z` is category 0; one that starts with `A`..`Z` is
/// category 2 when every character is `A`..`Z`, `_` or `0`..`9`, and
/// category 1 when some character is `a`..`z`.
pub proof fn law_ident_case_categories(s: Seq<char>)
    ensures
        s.len() > 0 && 'a' <= s[0] <= 'z' ==> spec_ident_case_category(s) == 0,
        s.len() > 0 && 'A' <= s[0] <= 'Z' && (forall|k: int|
            0 <= k < s.len() ==> ('A' <= #[trigger] s[k] <= 'Z' || s[k] == '_' || '0' <= s[k]
                <= '9')) ==> spec_ident_case_category(s) == 2,
        s.len() > 0 && 'A' <= s[0] <= 'Z' && (exists|k: int|
            0 <= k < s.len() && 'a' <= #[trigger] s[k] <= 'z') ==> spec_ident_case_category(s)
            == 1,
{
    if s.len() > 0 && 'A' <= s[0] <= 'Z' {
        assert((s[0] as u32) < 128);
        if exists|k: int| 0 <= k < s.len() && 'a' <= #[trigger] s[k] <= 'z' {
            let k = choose|k: int| 0 <= k < s.len() && 'a' <= #[trigger] s[k] <= 'z';
            assert((s[k] as u32) < 128);
            assert(!(upper_char(s[k]) || s[k] == '_' || numeric_char(s[k])));
        }
        if forall|k: int|
            0 <= k < s.len() ==> ('A' <= #[trigger] s[k] <= 'Z' || s[k] == '_' || '0' <= s[k]
                <= '9') {
            assert forall|k: int| 0 <= k < s.len() implies (upper_char(#[trigger] s[k]) || s[k]
                == '_' || numeric_char(s[k])) by {
                assert('A' <= s[k] <= 'Z' || s[k] == '_' || '0' <= s[k] <= '9');
                if s[k] != '_' {
                    assert((s[k] as u32) < 128);
                }
            }
        }
    }
}

} // verus!
