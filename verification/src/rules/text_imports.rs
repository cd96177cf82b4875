//! RC1001 on text alone: the `use` statements at the top of a file are cut
//! into visibility, root and items without a Rust parser, then grouped,
//! merged per root, sorted and written back one per line.
use vstd::prelude::*;

use crate::diagnostic::{reports, Diagnostic, Severity};
use crate::lexis::{chars_eq, is_std_root, kw_alloc, kw_core, kw_crate, kw_self, kw_std, kw_super};
use crate::rules::imports::{
    distinct_keys, lemma_distinct_keys_sub, first_nonblank_from, group_rank, is_use_line, spec_is_use_line, tail_text,
    unit_pairs, ImportGroup,
};
use crate::rules::Rule;
use crate::sort::{
    key_le, key_order_exec, key_pairs, law_sort_sorted, lemma_key_le_first_rank, lemma_key_order_zero,
    lemma_sort_elements, lemma_sort_keys_of, lemma_sort_map_values, lemma_sort_no_duplicates, sort_by_key,
    sorted_values, stable_sort, KeyModel, SortKey,
};
use crate::text::{
    copy_lines_range,
    brace_delta, brace_delta_exec, byte_len, byte_len_exec, chars_to_string, comma_sp, copy_chars,
    ends_with, find, find_str, has_prefix, has_suffix, join_lines, join_sep, join_sep_exec,
    lemma_lines_small, lemma_total_len_prefix, lemma_total_len_subrange, lemma_total_len_take,
    lines, lines_nl, lines_of, push_all, push_lines_nl, slice_chars, small_lines, starts_with,
    str_chars, total_len, trim, trim_chars, view_all, lemma_view_all_push,
};

verus! {

broadcast use vstd::std_specs::vec::group_vec_axioms;

/// One `use` statement cut into its parts; no items for a bare `use root;`.
pub struct ParsedUse {
    pub visibility: Vec<char>,
    pub root: Vec<char>,
    pub items: Vec<Vec<char>>,
    pub group: ImportGroup,
}

pub struct ParsedModel {
    pub visibility: Seq<char>,
    pub root: Seq<char>,
    pub items: Seq<Seq<char>>,
    pub group: ImportGroup,
}

impl View for ParsedUse {
    type V = ParsedModel;

    open spec fn view(&self) -> ParsedModel {
        ParsedModel {
            visibility: self.visibility@,
            root: self.root@,
            items: view_all(self.items@),
            group: self.group,
        }
    }
}

pub open spec fn parsed_views(s: Seq<ParsedUse>) -> Seq<ParsedModel> {
    s.map_values(|p: ParsedUse| p@)
}

// ---------------------------------------------------------------------------
// Classification
// ---------------------------------------------------------------------------

pub open spec fn spec_classify_import(root: Seq<char>) -> ImportGroup {
    if root == kw_std() || root == kw_core() || root == kw_alloc() {
        ImportGroup::Std
    } else if root == kw_crate() || root == kw_self() || root == kw_super() {
        ImportGroup::Internal
    } else {
        ImportGroup::External
    }
}

fn classify_import(root: &[char]) -> (r: ImportGroup)
    ensures
        r == spec_classify_import(root@),
{
    if is_std_root(root) {
        return ImportGroup::Std;
    }
    let c = crate::lexis::kw_crate_v();
    let s = crate::lexis::kw_self_v();
    let p = crate::lexis::kw_super_v();
    if chars_eq(root, c.as_slice()) || chars_eq(root, s.as_slice()) || chars_eq(root, p.as_slice()) {
        ImportGroup::Internal
    } else {
        ImportGroup::External
    }
}

// ---------------------------------------------------------------------------
// Region
// ---------------------------------------------------------------------------

/// The scan for the `use` region: from the first `use` line to the last
/// line of the last statement, over blank lines and `//` comments.
pub open spec fn region_scan(
    lines: Seq<Seq<char>>,
    i: int,
    first: Option<int>,
    last: int,
    depth: int,
    found: bool,
) -> Option<(int, int)>
    decreases lines.len() - i,
{
    if i < 0 || i >= lines.len() {
        match first {
            Some(s) => Some((s, last)),
            None => None,
        }
    } else {
        let t = trim(lines[i]);
        if depth > 0 {
            region_scan(lines, i + 1, first, i, depth + brace_delta(t), found)
        } else if spec_is_use_line(t) {
            let f = match first {
                Some(s) => Some(s),
                None => Some(i),
            };
            region_scan(lines, i + 1, f, i, depth + brace_delta(t), true)
        } else if found && (t.len() == 0 || has_prefix(t, seq!['/', '/'])) {
            region_scan(lines, i + 1, first, last, depth, found)
        } else if found {
            match first {
                Some(s) => Some((s, last)),
                None => None,
            }
        } else {
            region_scan(lines, i + 1, first, last, depth, found)
        }
    }
}

pub open spec fn spec_find_use_region(lines: Seq<Seq<char>>) -> Option<(int, int)> {
    region_scan(lines, 0, None, 0, 0, false)
}

proof fn lemma_region_scan_bounds(
    lines: Seq<Seq<char>>,
    i: int,
    first: Option<int>,
    last: int,
    depth: int,
    found: bool,
)
    requires
        0 <= i <= lines.len(),
        first matches Some(s) ==> 0 <= s <= last < i,
    ensures
        region_scan(lines, i, first, last, depth, found) matches Some((s, e)) ==> 0 <= s <= e
            < lines.len(),
    decreases lines.len() - i,
{
    if i < lines.len() {
        let t = trim(lines[i]);
        if depth > 0 {
            lemma_region_scan_bounds(lines, i + 1, first, i, depth + brace_delta(t), found);
        } else if spec_is_use_line(t) {
            let f = match first {
                Some(s) => Some(s),
                None => Some(i),
            };
            lemma_region_scan_bounds(lines, i + 1, f, i, depth + brace_delta(t), true);
        } else if found && (t.len() == 0 || has_prefix(t, seq!['/', '/'])) {
            lemma_region_scan_bounds(lines, i + 1, first, last, depth, found);
        } else if found {
        } else {
            lemma_region_scan_bounds(lines, i + 1, first, last, depth, found);
        }
    }
}

fn find_use_region(lines: &[Vec<char>]) -> (r: Option<(usize, usize)>)
    requires
        small_lines(view_all(lines@)),
    ensures
        r matches Some((s, e)) ==> spec_find_use_region(view_all(lines@)) == Some(
            (s as int, e as int),
        ) && s <= e < lines.len(),
        r is None ==> spec_find_use_region(view_all(lines@)) is None,
{
    let ghost v = view_all(lines@);
    let mut first_use: Option<usize> = None;
    let mut last_use_end: usize = 0;
    let mut i: usize = 0;
    let mut brace_depth: i128 = 0;
    let mut found_any_use = false;
    let slashes = vec!['/', '/'];
    assert(slashes@ =~= seq!['/', '/']);
    proof {
        lemma_region_scan_bounds(v, 0, None, 0, 0, false);
    }
    while i < lines.len()
        invariant
            i <= lines.len(),
            v == view_all(lines@),
            small_lines(v),
            slashes@ == seq!['/', '/'],
            -total_len(v.take(i as int)) <= brace_depth <= total_len(v.take(i as int)),
            first_use matches Some(s) ==> s <= last_use_end < i,
            region_scan(
                v,
                i as int,
                match first_use {
                    Some(s) => Some(s as int),
                    None => None,
                },
                last_use_end as int,
                brace_depth as int,
                found_any_use,
            ) == spec_find_use_region(v),
        decreases lines.len() - i,
    {
        let trimmed = trim_chars(lines[i].as_slice());
        assert(v[i as int] == lines@[i as int]@);
        proof {
            crate::text::lemma_trim_len(v[i as int]);
            lemma_total_len_take(v, i as int);
            lemma_total_len_prefix(v, i + 1);
        }
        if brace_depth > 0 {
            let d = brace_delta_exec(trimmed.as_slice());
            brace_depth = brace_depth + d;
            last_use_end = i;
            i += 1;
            continue;
        }
        if is_use_line(trimmed.as_slice()) {
            if first_use.is_none() {
                first_use = Some(i);
            }
            found_any_use = true;
            let d = brace_delta_exec(trimmed.as_slice());
            brace_depth = brace_depth + d;
            last_use_end = i;
        } else if found_any_use && (trimmed.len() == 0 || starts_with(
            trimmed.as_slice(),
            slashes.as_slice(),
        )) {
        } else if found_any_use {
            return match first_use {
                Some(start) => Some((start, last_use_end)),
                None => None,
            };
        }
        i += 1;
    }
    match first_use {
        Some(start) => Some((start, last_use_end)),
        None => None,
    }
}

// ---------------------------------------------------------------------------
// Statements
// ---------------------------------------------------------------------------

/// The code of a line: the line trimmed, without a trailing `//` comment.
pub open spec fn code_of(line: Seq<char>) -> Seq<char> {
    let t = trim(line);
    match find_str(t, "//"@) {
        Some(k) => trim(t.take(k)),
        None => t,
    }
}

proof fn lemma_code_of_len(line: Seq<char>)
    ensures
        code_of(line).len() <= line.len(),
{
    let t = trim(line);
    crate::text::lemma_trim_len(line);
    crate::text::lemma_find_from(t, "//"@, 0);
    if let Some(k) = find_str(t, "//"@) {
        assert(0 <= k <= t.len());
        crate::text::lemma_trim_len(t.take(k));
    }
}

fn code_of_exec(line: &[char]) -> (r: Vec<char>)
    ensures
        r@ == code_of(line@),
        r@.len() <= line@.len(),
{
    proof {
        lemma_code_of_len(line@);
    }
    let t = trim_chars(line);
    let slashes = str_chars("//");
    match find(t.as_slice(), slashes.as_slice()) {
        Some(k) => {
            proof {
                crate::text::lemma_find_from(t@, "//"@, 0);
            }
            let head = slice_chars(t.as_slice(), 0, k);
            assert(head@ =~= t@.take(k as int));
            trim_chars(head.as_slice())
        },
        None => t,
    }
}

/// The statements of the region, each on one line: each line is read
/// without a trailing `//` comment; a statement that spans lines is joined
/// with single spaces once its braces balance, and lines with no code inside
/// it are passed over. Lines outside statements are passed over; an
/// unfinished statement is dropped.
pub open spec fn stmt_scan(
    lines: Seq<Seq<char>>,
    i: int,
    current: Seq<char>,
    depth: int,
    in_use: bool,
) -> Seq<Seq<char>>
    decreases lines.len() - i,
{
    if i < 0 || i >= lines.len() {
        seq![]
    } else {
        let t = code_of(lines[i]);
        if !in_use {
            if spec_is_use_line(t) {
                let d = depth + brace_delta(t);
                if d == 0 && has_suffix(t, seq![';']) {
                    seq![t] + stmt_scan(lines, i + 1, seq![], d, false)
                } else {
                    stmt_scan(lines, i + 1, t, d, true)
                }
            } else {
                stmt_scan(lines, i + 1, current, depth, false)
            }
        } else if t.len() == 0 {
            stmt_scan(lines, i + 1, current, depth, true)
        } else {
            let c = current + seq![' '] + t;
            let d = depth + brace_delta(t);
            if d == 0 {
                seq![c] + stmt_scan(lines, i + 1, seq![], 0, false)
            } else {
                stmt_scan(lines, i + 1, c, d, true)
            }
        }
    }
}

pub open spec fn spec_extract_use_statements(lines: Seq<Seq<char>>) -> Seq<Seq<char>> {
    stmt_scan(lines, 0, seq![], 0, false)
}

fn extract_use_statements(lines: &[Vec<char>]) -> (r: Vec<Vec<char>>)
    requires
        small_lines(view_all(lines@)),
    ensures
        view_all(r@) == spec_extract_use_statements(view_all(lines@)),
{
    let ghost v = view_all(lines@);
    let mut statements: Vec<Vec<char>> = Vec::new();
    let mut current: Vec<char> = Vec::new();
    let mut brace_depth: i128 = 0;
    let mut in_use = false;
    let mut i: usize = 0;
    let semi = vec![';'];
    assert(semi@ =~= seq![';']);
    assert(view_all(statements@) + stmt_scan(v, 0, current@, 0, false) =~= spec_extract_use_statements(v));
    while i < lines.len()
        invariant
            i <= lines.len(),
            v == view_all(lines@),
            small_lines(v),
            semi@ == seq![';'],
            -total_len(v.take(i as int)) <= brace_depth <= total_len(v.take(i as int)),
            current@.len() <= total_len(v.take(i as int)) + i,
            view_all(statements@) + stmt_scan(v, i as int, current@, brace_depth as int, in_use)
                == spec_extract_use_statements(v),
        decreases lines.len() - i,
    {
        let trimmed = code_of_exec(lines[i].as_slice());
        assert(v[i as int] == lines@[i as int]@);
        proof {
            lemma_total_len_take(v, i as int);
            lemma_total_len_prefix(v, i + 1);
        }
        let ghost before = view_all(statements@);
        if !in_use {
            if is_use_line(trimmed.as_slice()) {
                let d = brace_delta_exec(trimmed.as_slice());
                brace_depth = brace_depth + d;
                if brace_depth == 0 && ends_with(trimmed.as_slice(), semi.as_slice()) {
                    let ghost t = trimmed@;
                    statements.push(trimmed);
                    current = Vec::new();
                    proof {
                        assert(view_all(statements@) =~= before.push(t));
                        assert(before.push(t) + stmt_scan(v, i + 1, seq![], brace_depth as int, false)
                            =~= before + (seq![t] + stmt_scan(v, i + 1, seq![], brace_depth as int, false)));
                        assert(current@ =~= Seq::<char>::empty());
                    }
                } else {
                    current = trimmed;
                    in_use = true;
                }
            }
        } else if trimmed.len() == 0 {
        } else {
            let ghost oc = current@;
            current.push(' ');
            push_all(&mut current, trimmed.as_slice());
            assert(current@ =~= oc + seq![' '] + trimmed@);
            let d = brace_delta_exec(trimmed.as_slice());
            brace_depth = brace_depth + d;
            if brace_depth == 0 {
                let ghost c = current@;
                statements.push(current);
                current = Vec::new();
                in_use = false;
                proof {
                    assert(view_all(statements@) =~= before.push(c));
                    assert(before.push(c) + stmt_scan(v, i + 1, seq![], 0, false) =~= before + (seq![c]
                        + stmt_scan(v, i + 1, seq![], 0, false)));
                    assert(current@ =~= Seq::<char>::empty());
                }
            }
        }
        i += 1;
    }
    assert(view_all(statements@) + seq![] =~= view_all(statements@));
    statements
}

// ---------------------------------------------------------------------------
// Parsing
// ---------------------------------------------------------------------------

/// `s` without any trailing `c` (`str::trim_end_matches`).
pub open spec fn strip_trailing(s: Seq<char>, c: char) -> Seq<char>
    decreases s.len(),
{
    if s.len() > 0 && s.last() == c {
        strip_trailing(s.drop_last(), c)
    } else {
        s
    }
}

fn strip_trailing_exec(s: &[char], c: char) -> (r: Vec<char>)
    ensures
        r@ == strip_trailing(s@, c),
{
    let mut n = s.len();
    assert(s@.take(n as int) =~= s@);
    while n > 0 && s[n - 1] == c
        invariant
            n <= s.len(),
            strip_trailing(s@.take(n as int), c) == strip_trailing(s@, c),
        decreases n,
    {
        assert(s@.take(n as int).drop_last() =~= s@.take(n - 1));
        n -= 1;
    }
    let r = slice_chars(s, 0, n);
    assert(r@ =~= s@.take(n as int));
    r
}

/// Index of the `)` that closes the first `(`, scanning from `i` with
/// `depth` parentheses open.
pub open spec fn close_paren(s: Seq<char>, i: int, depth: int) -> Option<int>
    decreases s.len() - i,
{
    if i < 0 || i >= s.len() {
        None
    } else if s[i] == '(' {
        close_paren(s, i + 1, depth + 1)
    } else if s[i] == ')' {
        if depth - 1 == 0 {
            Some(i)
        } else {
            close_paren(s, i + 1, depth - 1)
        }
    } else {
        close_paren(s, i + 1, depth)
    }
}

proof fn lemma_close_paren_bound(s: Seq<char>, i: int, depth: int)
    requires
        0 <= i,
    ensures
        close_paren(s, i, depth) matches Some(k) ==> i <= k < s.len(),
    decreases s.len() - i,
{
    if i < s.len() {
        if s[i] == '(' {
            lemma_close_paren_bound(s, i + 1, depth + 1);
        } else if s[i] == ')' {
            if depth - 1 != 0 {
                lemma_close_paren_bound(s, i + 1, depth - 1);
            }
        } else {
            lemma_close_paren_bound(s, i + 1, depth);
        }
    }
}

/// The visibility in front of the statement and what follows it.
pub open spec fn spec_extract_visibility(s: Seq<char>) -> (Seq<char>, Seq<char>) {
    if has_prefix(s, "pub("@) {
        match close_paren(s, 0, 0) {
            Some(i) => (s.take(i + 1), trim(s.skip(i + 1))),
            None => (seq![], s),
        }
    } else if has_prefix(s, "pub "@) {
        ("pub"@, s.skip(4))
    } else {
        (seq![], s)
    }
}

fn extract_visibility(s: &[char]) -> (r: (Vec<char>, Vec<char>))
    ensures
        (r.0@, r.1@) == spec_extract_visibility(s@),
{
    let pub_paren = str_chars("pub(");
    let pub_sp = str_chars("pub ");
    if starts_with(s, pub_paren.as_slice()) {
        let mut depth: i128 = 0;
        let mut i: usize = 0;
        while i < s.len()
            invariant
                i <= s.len(),
                -(i as int) <= depth <= i,
                has_prefix(s@, "pub("@),
                close_paren(s@, i as int, depth as int) == close_paren(s@, 0, 0),
            decreases s.len() - i,
        {
            let ghost d0 = depth as int;
            if s[i] == '(' {
                depth += 1;
            } else if s[i] == ')' {
                depth -= 1;
                if depth == 0 {
                    assert(close_paren(s@, i as int, d0) == Some(i as int));
                    let head = slice_chars(s, 0, i + 1);
                    let tail = slice_chars(s, i + 1, s.len());
                    assert(head@ =~= s@.take(i + 1));
                    assert(tail@ =~= s@.skip(i + 1));
                    let tt = trim_chars(tail.as_slice());
                    assert(has_prefix(s@, "pub("@));
                    assert(close_paren(s@, 0, 0) == Some(i as int));
                    assert(spec_extract_visibility(s@) == (s@.take(i + 1), trim(s@.skip(i + 1))));
                    return (head, tt);
                }
            }
            i += 1;
        }
        (Vec::new(), copy_chars(s))
    } else if starts_with(s, pub_sp.as_slice()) {
        proof {
            reveal_strlit("pub ");
        }
        let tail = slice_chars(s, 4, s.len());
        assert(tail@ =~= s@.skip(4));
        (str_chars("pub"), tail)
    } else {
        (Vec::new(), copy_chars(s))
    }
}

/// Items of a braced list: split at commas outside nested braces, trimmed,
/// empty ones dropped.
pub open spec fn split_scan(s: Seq<char>, i: int, depth: int, current: Seq<char>) -> Seq<Seq<char>>
    decreases s.len() - i,
{
    if i < 0 || i >= s.len() {
        if trim(current).len() > 0 {
            seq![trim(current)]
        } else {
            seq![]
        }
    } else {
        let ch = s[i];
        if ch == '{' {
            split_scan(s, i + 1, depth + 1, current.push(ch))
        } else if ch == '}' {
            split_scan(s, i + 1, depth - 1, current.push(ch))
        } else if ch == ',' && depth == 0 {
            let item = trim(current);
            (if item.len() > 0 {
                seq![item]
            } else {
                seq![]
            }) + split_scan(s, i + 1, depth, seq![])
        } else {
            split_scan(s, i + 1, depth, current.push(ch))
        }
    }
}

pub open spec fn spec_split_top_level(s: Seq<char>) -> Seq<Seq<char>> {
    split_scan(s, 0, 0, seq![])
}

fn split_top_level(s: &[char]) -> (r: Vec<Vec<char>>)
    ensures
        view_all(r@) == spec_split_top_level(s@),
{
    let mut items: Vec<Vec<char>> = Vec::new();
    let mut depth: i128 = 0;
    let mut current: Vec<char> = Vec::new();
    let mut i: usize = 0;
    assert(view_all(items@) + split_scan(s@, 0, 0, current@) =~= spec_split_top_level(s@));
    while i < s.len()
        invariant
            i <= s.len(),
            -(i as int) <= depth <= i,
            view_all(items@) + split_scan(s@, i as int, depth as int, current@)
                == spec_split_top_level(s@),
        decreases s.len() - i,
    {
        let ch = s[i];
        let ghost before = view_all(items@);
        if ch == '{' {
            depth += 1;
            current.push(ch);
        } else if ch == '}' {
            depth -= 1;
            current.push(ch);
        } else if ch == ',' && depth == 0 {
            let item = trim_chars(current.as_slice());
            if item.len() > 0 {
                let ghost it = item@;
                items.push(item);
                assert(view_all(items@) =~= before.push(it));
                assert(before.push(it) + split_scan(s@, i + 1, depth as int, seq![]) =~= before + (
                seq![it] + split_scan(s@, i + 1, depth as int, seq![])));
            } else {
                assert(before + split_scan(s@, i + 1, depth as int, seq![]) =~= before + (seq![]
                    + split_scan(s@, i + 1, depth as int, seq![])));
            }
            current = Vec::new();
            assert(current@ =~= Seq::<char>::empty());
        } else {
            current.push(ch);
        }
        i += 1;
    }
    let item = trim_chars(current.as_slice());
    if item.len() > 0 {
        let ghost before = view_all(items@);
        let ghost it = item@;
        items.push(item);
        assert(view_all(items@) =~= before + seq![it]);
    } else {
        assert(view_all(items@) + seq![] =~= view_all(items@));
    }
    items
}

/// The root (the segment before the first `::`) and the items after it: the
/// members of a braced list, or the rest as one item.
pub open spec fn spec_extract_root_and_items(path: Seq<char>) -> (Seq<char>, Seq<Seq<char>>) {
    match find_str(path, "::"@) {
        Some(pos) => {
            let root = path.take(pos);
            let rest = trim(path.skip(pos + 2));
            if has_prefix(rest, seq!['{']) && has_suffix(rest, seq!['}']) && rest.len() >= 2 {
                (root, spec_split_top_level(trim(rest.subrange(1, rest.len() - 1))))
            } else {
                (root, seq![rest])
            }
        },
        None => (path, seq![]),
    }
}

fn extract_root_and_items(path: &[char]) -> (r: (Vec<char>, Vec<Vec<char>>))
    ensures
        (r.0@, view_all(r.1@)) == spec_extract_root_and_items(path@),
{
    let sep = str_chars("::");
    match find(path, sep.as_slice()) {
        Some(pos) => {
            proof {
                reveal_strlit("::");
                crate::text::lemma_find_from(path@, sep@, 0);
                assert(crate::text::occurs_at(path@, sep@, pos as int));
                assert(sep@.len() == 2);
                assert(pos + 2 <= path.len());
            }
            let root = slice_chars(path, 0, pos);
            assert(root@ =~= path@.take(pos as int));
            let tail = slice_chars(path, pos + 2, path.len());
            assert(tail@ =~= path@.skip(pos + 2));
            let rest = trim_chars(tail.as_slice());
            let open = vec!['{'];
            let close = vec!['}'];
            assert(open@ =~= seq!['{']);
            assert(close@ =~= seq!['}']);
            if starts_with(rest.as_slice(), open.as_slice()) && ends_with(
                rest.as_slice(),
                close.as_slice(),
            ) && rest.len() >= 2 {
                let inner = slice_chars(rest.as_slice(), 1, rest.len() - 1);
                let inner_t = trim_chars(inner.as_slice());
                (root, split_top_level(inner_t.as_slice()))
            } else {
                let ghost rv = rest@;
                let items = vec![rest];
                assert(view_all(items@) =~= seq![rv]);
                (root, items)
            }
        },
        None => {
            let items: Vec<Vec<char>> = Vec::new();
            assert(view_all(items@) =~= Seq::<Seq<char>>::empty());
            (copy_chars(path), items)
        },
    }
}

/// A statement cut into visibility, root and items.
pub open spec fn spec_parse_use_statement(stmt: Seq<char>) -> ParsedModel {
    let trimmed = trim(strip_trailing(trim(stmt), ';'));
    let (vis, rest) = spec_extract_visibility(trimmed);
    let tr = trim(rest);
    let p1 = if has_prefix(tr, "use"@) {
        trim(tr.skip(3))
    } else {
        tr
    };
    let p2 = if has_prefix(p1, "::"@) {
        p1.skip(2)
    } else {
        p1
    };
    let (root, items) = spec_extract_root_and_items(p2);
    ParsedModel { visibility: vis, root, items, group: spec_classify_import(root) }
}

fn parse_use_statement(stmt: &[char]) -> (r: ParsedUse)
    ensures
        r@ == spec_parse_use_statement(stmt@),
{
    let t0 = trim_chars(stmt);
    let t1 = strip_trailing_exec(t0.as_slice(), ';');
    let trimmed = trim_chars(t1.as_slice());
    let (vis, rest) = extract_visibility(trimmed.as_slice());
    let tr = trim_chars(rest.as_slice());
    let kw = str_chars("use");
    proof {
        reveal_strlit("use");
        reveal_strlit("::");
    }
    let p1 = if starts_with(tr.as_slice(), kw.as_slice()) {
        let tail = slice_chars(tr.as_slice(), 3, tr.len());
        assert(tail@ =~= tr@.skip(3));
        trim_chars(tail.as_slice())
    } else {
        tr
    };
    let colons = str_chars("::");
    let p2 = if starts_with(p1.as_slice(), colons.as_slice()) {
        let tail = slice_chars(p1.as_slice(), 2, p1.len());
        assert(tail@ =~= p1@.skip(2));
        tail
    } else {
        p1
    };
    let (root, items) = extract_root_and_items(p2.as_slice());
    let group = classify_import(root.as_slice());
    ParsedUse { visibility: vis, root, items, group }
}

// ---------------------------------------------------------------------------
// Merging
// ---------------------------------------------------------------------------

/// Statements merge when visibility and root agree.
pub open spec fn text_key(p: ParsedModel) -> KeyModel {
    KeyModel { ranks: seq![], texts: seq![p.visibility, p.root] }
}

pub open spec fn all_keys(items: Seq<ParsedModel>) -> Seq<KeyModel>
    decreases items.len(),
{
    if items.len() == 0 {
        seq![]
    } else {
        all_keys(items.drop_last()).push(text_key(items.last()))
    }
}

/// The keys in ascending order, each once (the order of a `BTreeMap`).
pub open spec fn merge_keys_order(items: Seq<ParsedModel>) -> Seq<KeyModel> {
    sort_by_key(unit_pairs(distinct_keys(all_keys(items)))).map_values(|p: (KeyModel, ())| p.0)
}

/// The statements with key `k`, in their order.
pub open spec fn members_of(items: Seq<ParsedModel>, k: KeyModel) -> Seq<ParsedModel>
    decreases items.len(),
{
    if items.len() == 0 {
        seq![]
    } else if text_key(items.last()) == k {
        members_of(items.drop_last(), k).push(items.last())
    } else {
        members_of(items.drop_last(), k)
    }
}

pub open spec fn concat_items(group: Seq<ParsedModel>) -> Seq<Seq<char>>
    decreases group.len(),
{
    if group.len() == 0 {
        seq![]
    } else {
        concat_items(group.drop_last()) + group.last().items
    }
}

/// Some member is a bare `use root;`.
pub open spec fn any_bare(group: Seq<ParsedModel>) -> bool
    decreases group.len(),
{
    if group.len() == 0 {
        false
    } else {
        any_bare(group.drop_last()) || group.last().items.len() == 0
    }
}

/// `self` before everything, then text order.
pub open spec fn item_key(x: Seq<char>) -> KeyModel {
    KeyModel { ranks: if x == kw_self() {
        seq![0u64]
    } else {
        seq![1u64]
    }, texts: seq![x] }
}

pub open spec fn sort_items(s: Seq<Seq<char>>) -> Seq<Seq<char>> {
    sort_by_key(s.map_values(|x: Seq<char>| (item_key(x), x))).map_values(
        |p: (KeyModel, Seq<char>)| p.1,
    )
}

/// Consecutive repeats removed (`Vec::dedup`).
pub open spec fn dedup_texts(s: Seq<Seq<char>>) -> Seq<Seq<char>>
    decreases s.len(),
{
    if s.len() <= 1 {
        s
    } else if s.last() == s[s.len() - 2] {
        dedup_texts(s.drop_last())
    } else {
        dedup_texts(s.drop_last()).push(s.last())
    }
}

/// One statement for a key: all members' items (with `self` for a bare
/// member when there are other items), `self` first, sorted, without
/// repeats.
pub open spec fn merged_of(group: Seq<ParsedModel>) -> ParsedModel {
    let raw = concat_items(group);
    let raw2 = if any_bare(group) && raw.len() > 0 {
        raw.push(kw_self())
    } else {
        raw
    };
    ParsedModel {
        visibility: group[0].visibility,
        root: group[0].root,
        items: dedup_texts(sort_items(raw2)),
        group: group[0].group,
    }
}

pub open spec fn spec_merge_imports(items: Seq<ParsedModel>) -> Seq<ParsedModel> {
    merge_keys_order(items).map_values(|k: KeyModel| merged_of(members_of(items, k)))
}

proof fn lemma_all_keys_members(items: Seq<ParsedModel>, k: KeyModel)
    requires
        all_keys(items).contains(k),
    ensures
        members_of(items, k).len() >= 1,
    decreases items.len(),
{
    if items.len() > 0 {
        let m = all_keys(items.drop_last());
        if text_key(items.last()) == k {
        } else if m.contains(k) {
            lemma_all_keys_members(items.drop_last(), k);
        } else {
            let w = choose|w: int| 0 <= w < all_keys(items).len() && all_keys(items)[w] == k;
            assert(w == m.len());
        }
    }
}

proof fn lemma_members_of_nonempty(items: Seq<ParsedModel>, j: int)
    requires
        0 <= j < merge_keys_order(items).len(),
    ensures
        members_of(items, merge_keys_order(items)[j]).len() >= 1,
{
    let d = distinct_keys(all_keys(items));
    let up = unit_pairs(d);
    lemma_sort_elements(up);
    let k = merge_keys_order(items)[j];
    assert(sort_by_key(up)[j].0 == k);
    assert(up.contains(sort_by_key(up)[j]));
    let w = choose|w: int| 0 <= w < up.len() && up[w] == sort_by_key(up)[j];
    assert(d[w] == k);
    assert(d.contains(k));
    lemma_distinct_keys_sub(all_keys(items), k);
    lemma_all_keys_members(items, k);
}

fn text_key_exec(p: &ParsedUse) -> (r: SortKey)
    ensures
        r@ == text_key(p@),
{
    let r = SortKey {
        ranks: Vec::new(),
        texts: vec![copy_chars(p.visibility.as_slice()), copy_chars(p.root.as_slice())],
    };
    assert(r@.ranks =~= text_key(p@).ranks);
    assert(r@.texts =~= text_key(p@).texts);
    r
}

fn copy_parsed(p: &ParsedUse) -> (r: ParsedUse)
    ensures
        r@ == p@,
{
    let items = copy_lines_range(p.items.as_slice(), 0, p.items.len());
    assert(view_all(p.items@).subrange(0, p.items.len() as int) =~= view_all(p.items@));
    ParsedUse {
        visibility: copy_chars(p.visibility.as_slice()),
        root: copy_chars(p.root.as_slice()),
        items,
        group: p.group,
    }
}

fn item_key_exec(x: &[char]) -> (r: SortKey)
    ensures
        r@ == item_key(x@),
{
    let s = crate::lexis::kw_self_v();
    let rank: u64 = if chars_eq(x, s.as_slice()) {
        0
    } else {
        1
    };
    let r = SortKey { ranks: vec![rank], texts: vec![copy_chars(x)] };
    assert(r@.ranks =~= item_key(x@).ranks);
    assert(r@.texts =~= item_key(x@).texts);
    r
}

fn sort_items_exec(v: Vec<Vec<char>>) -> (r: Vec<Vec<char>>)
    ensures
        view_all(r@) == sort_items(view_all(v@)),
{
    let ghost sv = view_all(v@);
    let ghost f = |x: Vec<char>| x@;
    let ghost g = |p: (KeyModel, Vec<char>)| (p.0, f(p.1));
    let ghost target = sv.map_values(|x: Seq<char>| (item_key(x), x));
    let mut pairs: Vec<(SortKey, Vec<char>)> = Vec::new();
    let mut i: usize = 0;
    assert(key_pairs(pairs@).map_values(g) =~= target.take(0));
    while i < v.len()
        invariant
            i <= v.len(),
            sv == view_all(v@),
            target == sv.map_values(|x: Seq<char>| (item_key(x), x)),
            g == (|p: (KeyModel, Vec<char>)| (p.0, f(p.1))),
            f == (|x: Vec<char>| x@),
            key_pairs(pairs@).map_values(g) == target.take(i as int),
        decreases v.len() - i,
    {
        let x = copy_chars(v[i].as_slice());
        let key = item_key_exec(x.as_slice());
        let ghost old_pairs = pairs@;
        pairs.push((key, x));
        proof {
            assert(key_pairs(pairs@) =~= key_pairs(old_pairs).push((key@, x)));
            assert(key_pairs(pairs@).map_values(g) =~= key_pairs(old_pairs).map_values(g).push(
                g((key@, x)),
            ));
            assert(sv[i as int] == v@[i as int]@);
            assert(target.take(i + 1) =~= target.take(i as int).push(target[i as int]));
        }
        i += 1;
    }
    assert(target.take(v.len() as int) =~= target);
    let out = sorted_values(pairs);
    proof {
        lemma_sort_map_values(key_pairs(pairs@), f);
        let s = sort_by_key(key_pairs(pairs@));
        assert(view_all(out@) =~= s.map_values(g).map_values(|p: (KeyModel, Seq<char>)| p.1));
    }
    out
}

fn dedup_exec(v: &[Vec<char>]) -> (r: Vec<Vec<char>>)
    ensures
        view_all(r@) == dedup_texts(view_all(v@)),
{
    let ghost sv = view_all(v@);
    let mut out: Vec<Vec<char>> = Vec::new();
    let mut i: usize = 0;
    while i < v.len()
        invariant
            i <= v.len(),
            sv == view_all(v@),
            view_all(out@) == dedup_texts(sv.take(i as int)),
            i > 0 ==> out.len() > 0 && out@[out.len() - 1]@ == sv[i - 1],
        decreases v.len() - i,
    {
        let ghost t = sv.take(i + 1);
        assert(t.drop_last() =~= sv.take(i as int));
        assert(t.last() == v@[i as int]@);
        let dup = out.len() > 0 && chars_eq(out[out.len() - 1].as_slice(), v[i].as_slice());
        let ghost old_out = out@;
        if i == 0 {
            out.push(copy_chars(v[i].as_slice()));
            assert(view_all(out@) =~= seq![v@[0]@]);
            assert(t =~= seq![v@[0]@]);
        } else if !dup {
            let c = copy_chars(v[i].as_slice());
            out.push(c);
            proof {
                assert(t[t.len() - 2] == sv[i - 1]);
            }
            assert(view_all(out@) =~= view_all(old_out).push(c@));
        } else {
            proof {
                assert(t[t.len() - 2] == sv[i - 1]);
                assert(view_all(old_out)[old_out.len() - 1] == old_out[old_out.len() - 1]@);
            }
        }
        i += 1;
    }
    assert(sv.take(v.len() as int) =~= sv);
    out
}

fn merged_exec(group: &Vec<ParsedUse>) -> (r: ParsedUse)
    requires
        group.len() >= 1,
    ensures
        r@ == merged_of(parsed_views(group@)),
{
    let ghost gv = parsed_views(group@);
    let mut raw: Vec<Vec<char>> = Vec::new();
    let mut bare = false;
    let mut q: usize = 0;
    while q < group.len()
        invariant
            q <= group.len(),
            gv == parsed_views(group@),
            view_all(raw@) == concat_items(gv.take(q as int)),
            bare == any_bare(gv.take(q as int)),
        decreases group.len() - q,
    {
        let ghost t = gv.take(q + 1);
        assert(t.drop_last() =~= gv.take(q as int));
        assert(t.last() == group@[q as int]@);
        let items = &group[q].items;
        if items.len() == 0 {
            bare = true;
        }
        let mut k: usize = 0;
        let ghost base = view_all(raw@);
        while k < items.len()
            invariant
                k <= items.len(),
                view_all(raw@) == base + view_all(items@).take(k as int),
            decreases items.len() - k,
        {
            let c = copy_chars(items[k].as_slice());
            let ghost old_r = raw@;
            raw.push(c);
            proof {
                lemma_view_all_push(old_r, c);
            }
            assert(view_all(items@).take(k + 1) =~= view_all(items@).take(k as int).push(
                items@[k as int]@,
            ));
            assert(base + view_all(items@).take(k + 1) =~= (base + view_all(items@).take(
                k as int,
            )).push(items@[k as int]@));
            k += 1;
        }
        assert(view_all(items@).take(items.len() as int) =~= view_all(items@));
        q += 1;
    }
    assert(gv.take(group.len() as int) =~= gv);
    if bare && raw.len() > 0 {
        let ghost old_r = raw@;
        let s = crate::lexis::kw_self_v();
        raw.push(s);
        proof {
            lemma_view_all_push(old_r, s);
        }
    }
    let sorted = sort_items_exec(raw);
    let items = dedup_exec(sorted.as_slice());
    assert(gv[0] == group@[0]@);
    ParsedUse {
        visibility: copy_chars(group[0].visibility.as_slice()),
        root: copy_chars(group[0].root.as_slice()),
        items,
        group: group[0].group,
    }
}

fn merge_imports(imports: Vec<ParsedUse>) -> (r: Vec<ParsedUse>)
    ensures
        parsed_views(r@) == spec_merge_imports(parsed_views(imports@)),
{
    let ghost items = parsed_views(imports@);
    let mut keys: Vec<(SortKey, ())> = Vec::new();
    let mut i: usize = 0;
    assert(key_pairs(keys@) =~= unit_pairs(distinct_keys(all_keys(items.take(0)))));
    while i < imports.len()
        invariant
            i <= imports.len(),
            items == parsed_views(imports@),
            key_pairs(keys@) == unit_pairs(distinct_keys(all_keys(items.take(i as int)))),
        decreases imports.len() - i,
    {
        proof {
            assert(items.take(i + 1).drop_last() =~= items.take(i as int));
            assert(items.take(i + 1).last() == imports@[i as int]@);
        }
        let k = text_key_exec(&imports[i]);
        let ghost d = distinct_keys(all_keys(items.take(i as int)));
        proof {
            assert(key_pairs(keys@).map_values(|p: (KeyModel, ())| p.0) =~= d);
            let m = all_keys(items.take(i as int));
            assert(all_keys(items.take(i + 1)) == m.push(k@));
            assert(m.push(k@).drop_last() =~= m);
            assert(m.push(k@).last() == k@);
        }
        if !crate::rules::imports::contains_key(&keys, &k) {
            keys.push((k, ()));
            assert(key_pairs(keys@) =~= unit_pairs(d.push(k@)));
        }
        i += 1;
    }
    assert(items.take(imports.len() as int) =~= items);
    let sorted = stable_sort(keys);
    let ghost order = merge_keys_order(items);
    assert(key_pairs(sorted@).map_values(|p: (KeyModel, ())| p.0) =~= order);
    let mut result: Vec<ParsedUse> = Vec::new();
    let mut j: usize = 0;
    assert(parsed_views(result@) =~= order.take(0).map_values(
        |k: KeyModel| merged_of(members_of(items, k)),
    ));
    while j < sorted.len()
        invariant
            j <= sorted.len(),
            items == parsed_views(imports@),
            order == merge_keys_order(items),
            order == key_pairs(sorted@).map_values(|p: (KeyModel, ())| p.0),
            order.len() == sorted.len(),
            parsed_views(result@) == order.take(j as int).map_values(
                |k: KeyModel| merged_of(members_of(items, k)),
            ),
        decreases sorted.len() - j,
    {
        let k = &sorted[j].0;
        assert(order[j as int] == k@);
        let mut group: Vec<ParsedUse> = Vec::new();
        let mut q: usize = 0;
        assert(parsed_views(group@) =~= members_of(items.take(0), k@));
        while q < imports.len()
            invariant
                q <= imports.len(),
                items == parsed_views(imports@),
                parsed_views(group@) == members_of(items.take(q as int), k@),
            decreases imports.len() - q,
        {
            proof {
                assert(items.take(q + 1).drop_last() =~= items.take(q as int));
                assert(items.take(q + 1).last() == imports@[q as int]@);
            }
            let kq = text_key_exec(&imports[q]);
            let c = key_order_exec(&kq, k);
            proof {
                lemma_key_order_zero(kq@, k@);
            }
            if c == 0 {
                let n = copy_parsed(&imports[q]);
                let ghost old_g = parsed_views(group@);
                group.push(n);
                assert(parsed_views(group@) =~= old_g.push(n@));
            }
            q += 1;
        }
        assert(items.take(imports.len() as int) =~= items);
        proof {
            lemma_members_of_nonempty(items, j as int);
        }
        let merged = merged_exec(&group);
        let ghost old_r = parsed_views(result@);
        result.push(merged);
        assert(parsed_views(result@) =~= old_r.push(merged@));
        assert(order.take(j + 1) =~= order.take(j as int).push(order[j as int]));
        j += 1;
    }
    assert(order.take(sorted.len() as int) =~= order);
    result
}

// ---------------------------------------------------------------------------
// Sorting and formatting
// ---------------------------------------------------------------------------

/// Group first when grouping, then root, then the items joined by `, `.
pub open spec fn import_key(p: ParsedModel, group: bool) -> KeyModel {
    KeyModel {
        ranks: if group {
            seq![group_rank(p.group)]
        } else {
            seq![]
        },
        texts: seq![p.root, join_sep(p.items, comma_sp())],
    }
}

pub open spec fn spec_sort_imports(items: Seq<ParsedModel>, group: bool) -> Seq<ParsedModel> {
    sort_by_key(items.map_values(|p: ParsedModel| (import_key(p, group), p))).map_values(
        |q: (KeyModel, ParsedModel)| q.1,
    )
}

fn import_key_exec(p: &ParsedUse, group: bool) -> (r: SortKey)
    ensures
        r@ == import_key(p@, group),
{
    let ranks: Vec<u64> = if group {
        let g: u64 = match p.group {
            ImportGroup::Std => 0,
            ImportGroup::External => 1,
            ImportGroup::Internal => 2,
        };
        vec![g]
    } else {
        Vec::new()
    };
    let sep = vec![',', ' '];
    assert(sep@ =~= comma_sp());
    let r = SortKey {
        ranks,
        texts: vec![copy_chars(p.root.as_slice()), join_sep_exec(p.items.as_slice(), sep.as_slice())],
    };
    assert(r@.ranks =~= import_key(p@, group).ranks);
    assert(r@.texts =~= import_key(p@, group).texts);
    r
}

fn sort_imports(v: Vec<ParsedUse>, group: bool) -> (r: Vec<ParsedUse>)
    ensures
        parsed_views(r@) == spec_sort_imports(parsed_views(v@), group),
{
    let ghost pv = parsed_views(v@);
    let ghost f = |x: ParsedUse| x@;
    let ghost g = |p: (KeyModel, ParsedUse)| (p.0, f(p.1));
    let ghost target = pv.map_values(|p: ParsedModel| (import_key(p, group), p));
    let mut pairs: Vec<(SortKey, ParsedUse)> = Vec::new();
    let mut rest = v;
    let ghost orig = rest@;
    let ghost mut j: int = 0;
    assert(key_pairs(pairs@).map_values(g) =~= target.take(0));
    assert(rest@ =~= orig.skip(0));
    while rest.len() > 0
        invariant
            0 <= j <= orig.len(),
            rest@ == orig.skip(j),
            pv == parsed_views(orig),
            target == pv.map_values(|p: ParsedModel| (import_key(p, group), p)),
            g == (|p: (KeyModel, ParsedUse)| (p.0, f(p.1))),
            f == (|x: ParsedUse| x@),
            key_pairs(pairs@).map_values(g) == target.take(j),
        decreases rest.len(),
    {
        let x = rest.remove(0);
        assert(x == orig[j]);
        let key = import_key_exec(&x, group);
        let ghost old_pairs = pairs@;
        pairs.push((key, x));
        proof {
            assert(rest@ =~= orig.skip(j + 1));
            assert(key_pairs(pairs@) =~= key_pairs(old_pairs).push((key@, x)));
            assert(key_pairs(pairs@).map_values(g) =~= key_pairs(old_pairs).map_values(g).push(
                g((key@, x)),
            ));
            assert(target.take(j + 1) =~= target.take(j).push(target[j]));
            j = j + 1;
        }
    }
    assert(target.take(j) =~= target);
    let out = sorted_values(pairs);
    proof {
        lemma_sort_map_values(key_pairs(pairs@), f);
        let s = sort_by_key(key_pairs(pairs@));
        assert(parsed_views(out@) =~= s.map_values(g).map_values(|q: (KeyModel, ParsedModel)| q.1));
    }
    out
}

/// The items of a wrapped statement, one per line, indented, with a comma.
pub open spec fn multiline_items(items: Seq<Seq<char>>) -> Seq<char>
    decreases items.len(),
{
    if items.len() == 0 {
        seq![]
    } else {
        multiline_items(items.drop_last()) + "    "@ + items.last() + ",\n"@
    }
}

/// One statement: `use root;` when bare or only `self`, `use root::item;`
/// for one item, else a braced list on one line when it fits in 100 bytes
/// and one item per line when it does not.
pub open spec fn spec_format_single_import(p: ParsedModel) -> Seq<char> {
    let vis = if p.visibility.len() == 0 {
        seq![]
    } else {
        p.visibility + seq![' ']
    };
    let head = vis + "use "@ + p.root;
    if p.items.len() == 0 || (p.items.len() == 1 && p.items[0] == kw_self()) {
        head + seq![';']
    } else if p.items.len() == 1 {
        head + "::"@ + p.items[0] + seq![';']
    } else {
        let one_line = head + "::{"@ + join_sep(p.items, comma_sp()) + "};"@;
        if byte_len(one_line) <= 100 {
            one_line
        } else {
            head + "::{\n"@ + multiline_items(p.items) + "};"@
        }
    }
}

fn format_single_import(p: &ParsedUse) -> (r: Vec<char>)
    ensures
        r@ == spec_format_single_import(p@),
{
    let mut head: Vec<char> = Vec::new();
    if p.visibility.len() > 0 {
        push_all(&mut head, p.visibility.as_slice());
        head.push(' ');
    }
    let u = str_chars("use ");
    push_all(&mut head, u.as_slice());
    push_all(&mut head, p.root.as_slice());
    let ghost vis = if p@.visibility.len() == 0 {
        Seq::<char>::empty()
    } else {
        p@.visibility + seq![' ']
    };
    assert(head@ =~= vis + "use "@ + p@.root);
    let s = crate::lexis::kw_self_v();
    let colons = str_chars("::");
    if p.items.len() == 0 || (p.items.len() == 1 && chars_eq(p.items[0].as_slice(), s.as_slice())) {
        head.push(';');
        return head;
    }
    if p.items.len() == 1 {
        let ghost h = head@;
        push_all(&mut head, colons.as_slice());
        push_all(&mut head, p.items[0].as_slice());
        head.push(';');
        assert(head@ =~= h + "::"@ + p@.items[0] + seq![';']);
        return head;
    }
    let open = str_chars("::{");
    let close = str_chars("};");
    let sep = vec![',', ' '];
    assert(sep@ =~= comma_sp());
    let mut one_line = copy_chars(head.as_slice());
    push_all(&mut one_line, open.as_slice());
    let joined = join_sep_exec(p.items.as_slice(), sep.as_slice());
    push_all(&mut one_line, joined.as_slice());
    push_all(&mut one_line, close.as_slice());
    assert(one_line@ =~= head@ + "::{"@ + join_sep(p@.items, comma_sp()) + "};"@);
    if byte_len_exec(one_line.as_slice()) <= 100 {
        return one_line;
    }
    let open_nl = str_chars("::{\n");
    let indent = str_chars("    ");
    let comma_nl = str_chars(",\n");
    let mut out = copy_chars(head.as_slice());
    push_all(&mut out, open_nl.as_slice());
    let ghost base = out@;
    let mut k: usize = 0;
    assert(out@ =~= base + multiline_items(p@.items.take(0)));
    while k < p.items.len()
        invariant
            k <= p.items.len(),
            indent@ == "    "@,
            comma_nl@ == ",\n"@,
            out@ == base + multiline_items(p@.items.take(k as int)),
        decreases p.items.len() - k,
    {
        push_all(&mut out, indent.as_slice());
        push_all(&mut out, p.items[k].as_slice());
        push_all(&mut out, comma_nl.as_slice());
        assert(p@.items.take(k + 1).drop_last() =~= p@.items.take(k as int));
        assert(p@.items.take(k + 1).last() == p.items@[k as int]@);
        k += 1;
        assert(out@ =~= base + multiline_items(p@.items.take(k as int)));
    }
    assert(p@.items.take(p.items.len() as int) =~= p@.items);
    push_all(&mut out, close.as_slice());
    out
}

/// Each statement on its own line, a blank line between groups when
/// grouping.
pub open spec fn spec_format_parsed_imports(items: Seq<ParsedModel>, group: bool) -> Seq<char>
    decreases items.len(),
{
    if items.len() == 0 {
        seq![]
    } else {
        let sep = if group && items.len() >= 2 && items[items.len() - 2].group
            != items.last().group {
            seq!['\n']
        } else {
            seq![]
        };
        spec_format_parsed_imports(items.drop_last(), group) + sep + spec_format_single_import(
            items.last(),
        ) + seq!['\n']
    }
}

fn format_parsed_imports(imports: &[ParsedUse], group: bool) -> (r: Vec<char>)
    ensures
        r@ == spec_format_parsed_imports(parsed_views(imports@), group),
{
    let ghost v = parsed_views(imports@);
    let mut result: Vec<char> = Vec::new();
    let mut prev_group: Option<ImportGroup> = None;
    let mut i: usize = 0;
    assert(result@ =~= spec_format_parsed_imports(v.take(0), group));
    while i < imports.len()
        invariant
            i <= imports.len(),
            v == parsed_views(imports@),
            result@ == spec_format_parsed_imports(v.take(i as int), group),
            prev_group == if i == 0 {
                None
            } else {
                Some(v[i - 1].group)
            },
        decreases imports.len() - i,
    {
        let imp = &imports[i];
        assert(v[i as int] == imp@);
        let ghost t = v.take(i + 1);
        assert(t.drop_last() =~= v.take(i as int));
        proof {
            if i >= 1 {
                assert(t[t.len() - 2] == v[i - 1]);
            }
        }
        if group {
            match prev_group {
                Some(prev) => {
                    if prev != imp.group {
                        result.push('\n');
                    }
                },
                None => {},
            }
        }
        prev_group = Some(imp.group);
        let one = format_single_import(imp);
        push_all(&mut result, one.as_slice());
        result.push('\n');
        i += 1;
        assert(result@ =~= spec_format_parsed_imports(v.take(i as int), group));
    }
    assert(v.take(imports.len() as int) =~= v);
    result
}

// ---------------------------------------------------------------------------
// The whole file
// ---------------------------------------------------------------------------

/// The file with its leading `use` region rewritten; unchanged when there
/// is no region or it holds no complete statement. A final line break is
/// kept.
pub open spec fn spec_format_imports(group: bool, sort: bool, merge: bool, content: Seq<char>) -> Seq<
    char,
> {
    let lines = lines_of(content);
    match spec_find_use_region(lines) {
        None => content,
        Some((s, e)) => {
            let stmts = spec_extract_use_statements(lines.subrange(s, e + 1));
            if stmts.len() == 0 {
                content
            } else {
                let parsed = stmts.map_values(|x: Seq<char>| spec_parse_use_statement(x));
                let merged = if merge {
                    spec_merge_imports(parsed)
                } else {
                    parsed
                };
                let sorted = if sort {
                    spec_sort_imports(merged, group)
                } else {
                    merged
                };
                let body = lines_nl(lines.take(s)) + spec_format_parsed_imports(sorted, group)
                    + tail_text(lines, first_nonblank_from(lines, e + 1));
                if has_suffix(content, seq!['\n']) && !has_suffix(body, seq!['\n']) {
                    body.push('\n')
                } else {
                    body
                }
            }
        },
    }
}

/// RC1001 on text alone.
pub struct ImportFormattingRule {
    pub group: bool,
    pub sort: bool,
    pub merge: bool,
}

fn is_blank(line: &[char]) -> (r: bool)
    ensures
        r == (trim(line@).len() == 0),
{
    let t = trim_chars(line);
    t.len() == 0
}

impl ImportFormattingRule {
    pub fn new(group: bool, sort: bool, merge: bool) -> (r: Self)
        ensures
            r.group == group,
            r.sort == sort,
            r.merge == merge,
    {
        ImportFormattingRule { group, sort, merge }
    }

    fn format_chars(&self, content: &[char]) -> (r: Vec<char>)
        ensures
            r@ == spec_format_imports(self.group, self.sort, self.merge, content@),
    {
        let n = content.len();
        let ls = lines(content);
        let ghost lv = view_all(ls@);
        proof {
            lemma_lines_small(content@);
        }
        assert(small_lines(lv));
        let (region_start, region_end) = match find_use_region(ls.as_slice()) {
            None => {
                return copy_chars(content);
            },
            Some(p) => p,
        };
        proof {
            lemma_total_len_subrange(lv, region_start as int, region_end + 1);
        }
        let region = copy_lines_range(ls.as_slice(), region_start, region_end + 1);
        let stmts = extract_use_statements(region.as_slice());
        if stmts.len() == 0 {
            return copy_chars(content);
        }
        let ghost sv = view_all(stmts@);
        let mut parsed: Vec<ParsedUse> = Vec::new();
        let mut k: usize = 0;
        while k < stmts.len()
            invariant
                k <= stmts.len(),
                sv == view_all(stmts@),
                parsed_views(parsed@) == sv.take(k as int).map_values(
                    |x: Seq<char>| spec_parse_use_statement(x),
                ),
            decreases stmts.len() - k,
        {
            let p = parse_use_statement(stmts[k].as_slice());
            let ghost old_p = parsed_views(parsed@);
            parsed.push(p);
            assert(parsed_views(parsed@) =~= old_p.push(p@));
            assert(sv.take(k + 1).map_values(|x: Seq<char>| spec_parse_use_statement(x)) =~= sv.take(
                k as int,
            ).map_values(|x: Seq<char>| spec_parse_use_statement(x)).push(
                spec_parse_use_statement(stmts@[k as int]@),
            ));
            k += 1;
        }
        assert(sv.take(stmts.len() as int) =~= sv);
        let merged = if self.merge {
            merge_imports(parsed)
        } else {
            parsed
        };
        let sorted = if self.sort {
            sort_imports(merged, self.group)
        } else {
            merged
        };
        let formatted = format_parsed_imports(sorted.as_slice(), self.group);
        let mut result: Vec<char> = Vec::new();
        push_lines_nl(&mut result, ls.as_slice(), 0, region_start);
        assert(lv.subrange(0, region_start as int) =~= lv.take(region_start as int));
        push_all(&mut result, formatted.as_slice());
        let ghost head = result@;
        let mut after_idx = region_end + 1;
        while after_idx < ls.len() && is_blank(ls[after_idx].as_slice())
            invariant
                region_end < after_idx <= ls.len(),
                lv == view_all(ls@),
                first_nonblank_from(lv, after_idx as int) == first_nonblank_from(lv, region_end + 1),
            decreases ls.len() - after_idx,
        {
            assert(lv[after_idx as int] == ls@[after_idx as int]@);
            after_idx += 1;
        }
        proof {
            if after_idx < ls.len() {
                assert(lv[after_idx as int] == ls@[after_idx as int]@);
                assert(first_nonblank_from(lv, after_idx as int) == after_idx);
            } else {
                assert(first_nonblank_from(lv, after_idx as int) == lv.len());
            }
        }
        if after_idx < ls.len() {
            result.push('\n');
            let rest = copy_lines_range(ls.as_slice(), after_idx, ls.len());
            let joined = join_lines(rest.as_slice(), '\n');
            assert(lv.subrange(after_idx as int, lv.len() as int) =~= lv.skip(after_idx as int));
            push_all(&mut result, joined.as_slice());
        }
        assert(result@ =~= head + tail_text(lv, first_nonblank_from(lv, region_end + 1)));
        let nl = vec!['\n'];
        assert(nl@ =~= seq!['\n']);
        if ends_with(content, nl.as_slice()) && !ends_with(result.as_slice(), nl.as_slice()) {
            result.push('\n');
        }
        result
    }

    /// The file with its imports formatted; the file itself when nothing
    /// needs doing.
    pub fn format_imports(&self, content: &str) -> (r: String)
        ensures
            r@ == spec_format_imports(self.group, self.sort, self.merge, content@),
    {
        let chars = str_chars(content);
        let out = self.format_chars(chars.as_slice());
        chars_to_string(out.as_slice())
    }
}

impl Rule for ImportFormattingRule {
    fn id(&self) -> (r: &str)
        ensures
            r@ == "RC1001"@,
    {
        "RC1001"
    }

    fn name(&self) -> (r: &str)
        ensures
            r@ == "ImportFormatting"@,
    {
        "ImportFormatting"
    }

    /// One warning on line 1 when formatting would change the file, none
    /// otherwise.
    fn check(&self, content: &str, file: &str) -> (r: Vec<Diagnostic>)
        ensures
            spec_format_imports(self.group, self.sort, self.merge, content@) == content@ ==> r.len()
                == 0,
            spec_format_imports(self.group, self.sort, self.merge, content@) != content@ ==> r.len()
                == 1 && reports(
                r[0],
                "RC1001"@,
                "Import statements are not properly formatted. Run `rustcop fix` to auto-fix."@,
                file@,
                1,
                Severity::Warning,
            ),
    {
        let fixed = self.format_imports(content);
        let a = str_chars(fixed.as_str());
        let b = str_chars(content);
        let mut out: Vec<Diagnostic> = Vec::new();
        if !chars_eq(a.as_slice(), b.as_slice()) {
            out.push(
                Diagnostic {
                    rule_id: "RC1001".to_owned(),
                    message: "Import statements are not properly formatted. Run `rustcop fix` to auto-fix.".to_owned(),
                    file: file.to_owned(),
                    line: 1,
                    severity: Severity::Warning,
                    suppressed: false,
                    suppression_justification: None,
                },
            );
        }
        out
    }

    fn fix(&self, content: &str) -> (r: String)
        ensures
            r@ == spec_format_imports(self.group, self.sort, self.merge, content@),
    {
        self.format_imports(content)
    }
}

// ---------------------------------------------------------------------------
// Laws
// ---------------------------------------------------------------------------

/// Sorting statements orders them by their key: with grouping, every
/// standard-library statement comes before every external one, and those
/// before every internal one.
pub proof fn law_sorted_imports_ordered(items: Seq<ParsedModel>, group: bool)
    ensures
        spec_sort_imports(items, group).len() == items.len(),
        forall|i: int, j: int|
            0 <= i < j < spec_sort_imports(items, group).len() ==> key_le(
                import_key(spec_sort_imports(items, group)[i], group),
                import_key(spec_sort_imports(items, group)[j], group),
            ),
        group ==> forall|i: int, j: int|
            0 <= i < j < spec_sort_imports(items, group).len() ==> group_rank(
                spec_sort_imports(items, group)[i].group,
            ) <= group_rank(spec_sort_imports(items, group)[j].group),
{
    let pairs = items.map_values(|p: ParsedModel| (import_key(p, group), p));
    let key_of = |p: ParsedModel| import_key(p, group);
    let sorted = sort_by_key(pairs);
    let out = spec_sort_imports(items, group);
    law_sort_sorted(pairs);
    lemma_sort_keys_of(pairs, key_of);
    assert forall|i: int, j: int| 0 <= i < j < out.len() implies key_le(
        import_key(out[i], group),
        import_key(out[j], group),
    ) by {
        assert(out[i] == sorted[i].1);
        assert(out[j] == sorted[j].1);
        assert(sorted[i].0 == key_of(sorted[i].1));
        assert(sorted[j].0 == key_of(sorted[j].1));
    }
    if group {
        assert forall|i: int, j: int| 0 <= i < j < out.len() implies group_rank(out[i].group)
            <= group_rank(out[j].group) by {
            lemma_key_le_first_rank(import_key(out[i], group), import_key(out[j], group));
        }
    }
}

proof fn lemma_distinct_keys_no_dup(keys: Seq<KeyModel>)
    ensures
        distinct_keys(keys).no_duplicates(),
    decreases keys.len(),
{
    if keys.len() > 0 {
        lemma_distinct_keys_no_dup(keys.drop_last());
    }
}

proof fn lemma_members_of_keyed(items: Seq<ParsedModel>, k: KeyModel)
    ensures
        forall|i: int|
            0 <= i < members_of(items, k).len() ==> text_key(#[trigger] members_of(items, k)[i])
                == k,
    decreases items.len(),
{
    if items.len() > 0 {
        lemma_members_of_keyed(items.drop_last(), k);
        let prev = members_of(items.drop_last(), k);
        let m = members_of(items, k);
        assert forall|i: int| 0 <= i < m.len() implies text_key(#[trigger] m[i]) == k by {
            if i < prev.len() {
                assert(m[i] == prev[i]);
            }
        }
    }
}

/// Merging leaves one statement per visibility and root, in ascending
/// order of visibility and root.
pub proof fn law_merged_keys_distinct(items: Seq<ParsedModel>)
    ensures
        spec_merge_imports(items).len() == merge_keys_order(items).len(),
        forall|i: int, j: int|
            0 <= i < j < spec_merge_imports(items).len() ==> text_key(
                #[trigger] spec_merge_imports(items)[i],
            ) != text_key(#[trigger] spec_merge_imports(items)[j]),
        forall|i: int, j: int|
            0 <= i < j < spec_merge_imports(items).len() ==> key_le(
                text_key(#[trigger] spec_merge_imports(items)[i]),
                text_key(#[trigger] spec_merge_imports(items)[j]),
            ),
{
    let order = merge_keys_order(items);
    let out = spec_merge_imports(items);
    let d = distinct_keys(all_keys(items));
    lemma_distinct_keys_no_dup(all_keys(items));
    let up = unit_pairs(d);
    assert(up.no_duplicates()) by {
        assert forall|i: int, j: int| 0 <= i < up.len() && 0 <= j < up.len() && i != j implies up[i]
            != up[j] by {
            assert(up[i].0 == d[i]);
            assert(up[j].0 == d[j]);
        }
    }
    lemma_sort_no_duplicates(up);
    law_sort_sorted(up);
    lemma_sort_elements(up);
    let sorted = sort_by_key(up);
    assert forall|i: int| 0 <= i < order.len() implies text_key(#[trigger] out[i]) == order[i] by {
        lemma_members_of_nonempty(items, i);
        lemma_members_of_keyed(items, order[i]);
        let g = members_of(items, order[i]);
        assert(text_key(g[0]) == order[i]);
        assert(text_key(merged_of(g)).texts =~= text_key(g[0]).texts);
        assert(text_key(merged_of(g)) =~= text_key(g[0]));
    }
    assert forall|i: int, j: int| 0 <= i < j < out.len() implies text_key(#[trigger] out[i])
        != text_key(#[trigger] out[j]) by {
        assert(order[i] == sorted[i].0);
        assert(order[j] == sorted[j].0);
        if sorted[i].0 == sorted[j].0 {
            assert(sorted[i] == sorted[j]);
        }
    }
    assert forall|i: int, j: int| 0 <= i < j < out.len() implies key_le(
        text_key(#[trigger] out[i]),
        text_key(#[trigger] out[j]),
    ) by {
        assert(order[i] == sorted[i].0);
        assert(order[j] == sorted[j].0);
    }
}

/// The group of a text statement is decided by its root: `std`, `core` and
/// `alloc` are the standard library (rank 0); `crate`, `self` and `super`
/// are the crate's own (rank 2, placed after every other group); any other
/// root is an external crate (rank 1).
pub proof fn law_text_import_group_by_root(root: Seq<char>)
    ensures
        root == "std"@ || root == "core"@ || root == "alloc"@ <==> spec_classify_import(root)
            == ImportGroup::Std,
        root == "crate"@ || root == "self"@ || root == "super"@ <==> spec_classify_import(root)
            == ImportGroup::Internal,
        group_rank(spec_classify_import(root)) == (if root == "std"@ || root == "core"@ || root
            == "alloc"@ {
            0u64
        } else if root == "crate"@ || root == "self"@ || root == "super"@ {
            2u64
        } else {
            1u64
        }),
{
    reveal_strlit("std");
    reveal_strlit("core");
    reveal_strlit("alloc");
    reveal_strlit("crate");
    reveal_strlit("self");
    reveal_strlit("super");
    assert(kw_std() =~= "std"@);
    assert(kw_core() =~= "core"@);
    assert(kw_alloc() =~= "alloc"@);
    assert(kw_crate() =~= "crate"@);
    assert(kw_self() =~= "self"@);
    assert(kw_super() =~= "super"@);
}

} // verus!
