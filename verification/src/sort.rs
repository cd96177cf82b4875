//! Sort keys, their lexicographic order, and a stable insertion sort.
//!
//! The rules sort statements by keys made of small numbers followed by
//! strings; strings compare character by character, which is the order of
//! `str`'s `Ord` (UTF-8 keeps code-point order).
use vstd::prelude::*;

verus! {

/// Three-way comparison of character sequences (`str::cmp`): -1, 0 or 1.
pub open spec fn text_order(a: Seq<char>, b: Seq<char>) -> int
    decreases a.len(),
{
    if a.len() == 0 && b.len() == 0 {
        0
    } else if a.len() == 0 {
        -1
    } else if b.len() == 0 {
        1
    } else if a[0] < b[0] {
        -1
    } else if a[0] > b[0] {
        1
    } else {
        text_order(a.drop_first(), b.drop_first())
    }
}

pub fn text_order_exec(a: &[char], b: &[char]) -> (r: i8)
    ensures
        r == text_order(a@, b@),
{
    let mut i: usize = 0;
    assert(a@.skip(0) =~= a@);
    assert(b@.skip(0) =~= b@);
    while i < a.len() && i < b.len()
        invariant
            i <= a.len(),
            i <= b.len(),
            text_order(a@, b@) == text_order(a@.skip(i as int), b@.skip(i as int)),
        decreases a.len() - i,
    {
        if a[i] < b[i] {
            return -1;
        }
        if a[i] > b[i] {
            return 1;
        }
        assert(a@.skip(i as int).drop_first() =~= a@.skip(i + 1));
        assert(b@.skip(i as int).drop_first() =~= b@.skip(i + 1));
        i += 1;
    }
    if i == a.len() && i == b.len() {
        0
    } else if i == a.len() {
        -1
    } else {
        1
    }
}

/// A sort key: numbers compared first, then strings, both lexicographically.
pub struct SortKey {
    pub ranks: Vec<u64>,
    pub texts: Vec<Vec<char>>,
}

#[verifier::ext_equal]
pub struct KeyModel {
    pub ranks: Seq<u64>,
    pub texts: Seq<Seq<char>>,
}

impl View for SortKey {
    type V = KeyModel;

    open spec fn view(&self) -> KeyModel {
        KeyModel { ranks: self.ranks@, texts: self.texts@.map_values(|t: Vec<char>| t@) }
    }
}

pub open spec fn ranks_order(a: Seq<u64>, b: Seq<u64>) -> int
    decreases a.len(),
{
    if a.len() == 0 && b.len() == 0 {
        0
    } else if a.len() == 0 {
        -1
    } else if b.len() == 0 {
        1
    } else if a[0] < b[0] {
        -1
    } else if a[0] > b[0] {
        1
    } else {
        ranks_order(a.drop_first(), b.drop_first())
    }
}

pub open spec fn texts_order(a: Seq<Seq<char>>, b: Seq<Seq<char>>) -> int
    decreases a.len(),
{
    if a.len() == 0 && b.len() == 0 {
        0
    } else if a.len() == 0 {
        -1
    } else if b.len() == 0 {
        1
    } else if text_order(a[0], b[0]) != 0 {
        text_order(a[0], b[0])
    } else {
        texts_order(a.drop_first(), b.drop_first())
    }
}

/// Three-way comparison of keys.
pub open spec fn key_order(a: KeyModel, b: KeyModel) -> int {
    if ranks_order(a.ranks, b.ranks) != 0 {
        ranks_order(a.ranks, b.ranks)
    } else {
        texts_order(a.texts, b.texts)
    }
}

pub open spec fn key_le(a: KeyModel, b: KeyModel) -> bool {
    key_order(a, b) <= 0
}

fn ranks_order_exec(a: &Vec<u64>, b: &Vec<u64>) -> (r: i8)
    ensures
        r == ranks_order(a@, b@),
{
    let mut i: usize = 0;
    assert(a@.skip(0) =~= a@);
    assert(b@.skip(0) =~= b@);
    while i < a.len() && i < b.len()
        invariant
            i <= a.len(),
            i <= b.len(),
            ranks_order(a@, b@) == ranks_order(a@.skip(i as int), b@.skip(i as int)),
        decreases a.len() - i,
    {
        if a[i] < b[i] {
            return -1;
        }
        if a[i] > b[i] {
            return 1;
        }
        assert(a@.skip(i as int).drop_first() =~= a@.skip(i + 1));
        assert(b@.skip(i as int).drop_first() =~= b@.skip(i + 1));
        i += 1;
    }
    if i == a.len() && i == b.len() {
        0
    } else if i == a.len() {
        -1
    } else {
        1
    }
}

fn texts_order_exec(a: &Vec<Vec<char>>, b: &Vec<Vec<char>>) -> (r: i8)
    ensures
        r == texts_order(a@.map_values(|t: Vec<char>| t@), b@.map_values(|t: Vec<char>| t@)),
{
    let ghost av = a@.map_values(|t: Vec<char>| t@);
    let ghost bv = b@.map_values(|t: Vec<char>| t@);
    let mut i: usize = 0;
    assert(av.skip(0) =~= av);
    assert(bv.skip(0) =~= bv);
    assert(a@.skip(0) =~= a@);
    assert(b@.skip(0) =~= b@);
    while i < a.len() && i < b.len()
        invariant
            i <= a.len(),
            i <= b.len(),
            av == a@.map_values(|t: Vec<char>| t@),
            bv == b@.map_values(|t: Vec<char>| t@),
            texts_order(av, bv) == texts_order(av.skip(i as int), bv.skip(i as int)),
        decreases a.len() - i,
    {
        let c = text_order_exec(a[i].as_slice(), b[i].as_slice());
        assert(av.skip(i as int)[0] == a@[i as int]@);
        assert(bv.skip(i as int)[0] == b@[i as int]@);
        if c != 0 {
            return c;
        }
        assert(av.skip(i as int).drop_first() =~= av.skip(i + 1));
        assert(bv.skip(i as int).drop_first() =~= bv.skip(i + 1));
        i += 1;
    }
    if i == a.len() && i == b.len() {
        0
    } else if i == a.len() {
        -1
    } else {
        1
    }
}

pub fn key_order_exec(a: &SortKey, b: &SortKey) -> (r: i8)
    ensures
        r == key_order(a@, b@),
{
    let c = ranks_order_exec(&a.ranks, &b.ranks);
    if c != 0 {
        c
    } else {
        texts_order_exec(&a.texts, &b.texts)
    }
}

/// Insert `x` after every trailing element not greater than it (keeps
/// equal elements in their arrival order).
pub open spec fn insert_sorted<T>(s: Seq<(KeyModel, T)>, x: (KeyModel, T)) -> Seq<(KeyModel, T)>
    decreases s.len(),
{
    if s.len() == 0 {
        seq![x]
    } else if key_le(s.last().0, x.0) {
        s.push(x)
    } else {
        insert_sorted(s.drop_last(), x).push(s.last())
    }
}

/// Stable sort by key (insertion sort).
pub open spec fn sort_by_key<T>(s: Seq<(KeyModel, T)>) -> Seq<(KeyModel, T)>
    decreases s.len(),
{
    if s.len() == 0 {
        seq![]
    } else {
        insert_sorted(sort_by_key(s.drop_last()), s.last())
    }
}

/// Position at which `insert_sorted` places `x`, found from the right.
pub open spec fn insert_pos<T>(s: Seq<(KeyModel, T)>, x: (KeyModel, T)) -> int
    decreases s.len(),
{
    if s.len() == 0 {
        0
    } else if key_le(s.last().0, x.0) {
        s.len() as int
    } else {
        insert_pos(s.drop_last(), x)
    }
}

proof fn lemma_insert_sorted_pos<T>(s: Seq<(KeyModel, T)>, x: (KeyModel, T))
    ensures
        0 <= insert_pos(s, x) <= s.len(),
        insert_sorted(s, x) == s.insert(insert_pos(s, x), x),
    decreases s.len(),
{
    if s.len() == 0 {
        assert(s.insert(0, x) =~= seq![x]);
    } else if key_le(s.last().0, x.0) {
        assert(s.insert(s.len() as int, x) =~= s.push(x));
    } else {
        lemma_insert_sorted_pos(s.drop_last(), x);
        let p = insert_pos(s.drop_last(), x);
        assert(s.drop_last().insert(p, x).push(s.last()) =~= s.insert(p, x));
    }
}

proof fn lemma_insert_pos_scan<T>(s: Seq<(KeyModel, T)>, x: (KeyModel, T), p: int)
    requires
        0 <= p <= s.len(),
        p == 0 || key_le(s[p - 1].0, x.0),
        forall|k: int| p <= k < s.len() ==> !key_le(#[trigger] s[k].0, x.0),
    ensures
        insert_pos(s, x) == p,
    decreases s.len(),
{
    if s.len() > 0 && p < s.len() {
        assert(!key_le(s[s.len() - 1].0, x.0));
        assert forall|k: int| p <= k < s.drop_last().len() implies !key_le(
            #[trigger] s.drop_last()[k].0,
            x.0,
        ) by {
            assert(s.drop_last()[k] == s[k]);
        }
        if p > 0 {
            assert(s.drop_last()[p - 1] == s[p - 1]);
        }
        lemma_insert_pos_scan(s.drop_last(), x, p);
    }
}

/// The pairs with each key taken by its view.
pub open spec fn key_pairs<T>(s: Seq<(SortKey, T)>) -> Seq<(KeyModel, T)> {
    s.map_values(|p: (SortKey, T)| (p.0@, p.1))
}

/// Sort `v` stably by its keys.
pub fn stable_sort<T>(v: Vec<(SortKey, T)>) -> (r: Vec<(SortKey, T)>)
    ensures
        key_pairs(r@) == sort_by_key(key_pairs(v@)),
{
    let ghost s = key_pairs(v@);
    let mut input = v;
    let mut out: Vec<(SortKey, T)> = Vec::new();
    let ghost mut k: int = 0;
    assert(s.take(0) =~= Seq::<(KeyModel, T)>::empty());
    assert(key_pairs(out@) =~= Seq::<(KeyModel, T)>::empty());
    while input.len() > 0
        invariant
            0 <= k <= s.len(),
            s.len() == k + input@.len(),
            key_pairs(input@) == s.skip(k),
            key_pairs(out@) == sort_by_key(s.take(k)),
        decreases input.len(),
    {
        let ghost old_input = input@;
        let x = input.remove(0);
        proof {
            assert(key_pairs(old_input)[0] == (old_input[0].0@, old_input[0].1));
            assert(key_pairs(old_input)[0] == s.skip(k)[0]);
            assert((x.0@, x.1) == s[k]);
            assert(s.take(k + 1).drop_last() =~= s.take(k));
            assert(s.take(k + 1).last() == s[k]);
            assert(input@ =~= old_input.skip(1));
            assert forall|j: int| 0 <= j < input@.len() implies key_pairs(input@)[j] == s.skip(
                k + 1,
            )[j] by {
                assert(key_pairs(old_input)[j + 1] == s.skip(k)[j + 1]);
                assert(input@[j] == old_input[j + 1]);
            }
            assert(key_pairs(input@) =~= s.skip(k + 1));
        }
        let mut p: usize = out.len();
        while p > 0 && key_order_exec(&out[p - 1].0, &x.0) > 0
            invariant
                p <= out.len(),
                forall|j: int| p <= j < out.len() ==> !key_le(#[trigger] out@[j].0@, x.0@),
            decreases p,
        {
            p -= 1;
        }
        let ghost ko = key_pairs(out@);
        proof {
            assert forall|j: int| p <= j < ko.len() implies !key_le(#[trigger] ko[j].0, x.0@) by {
                assert(ko[j].0 == out@[j].0@);
            }
            if p > 0 {
                assert(ko[p - 1].0 == out@[p - 1].0@);
            }
            lemma_insert_pos_scan(ko, (x.0@, x.1), p as int);
            lemma_insert_sorted_pos(ko, (x.0@, x.1));
            k = k + 1;
        }
        out.insert(p, x);
        assert(key_pairs(out@) =~= ko.insert(p as int, (x.0@, x.1)));
    }
    assert(s.take(s.len() as int) =~= s);
    out
}

/// Sorting commutes with changing the carried values.
pub proof fn lemma_sort_map_values<T, U>(s: Seq<(KeyModel, T)>, f: spec_fn(T) -> U)
    ensures
        sort_by_key(s).map_values(|p: (KeyModel, T)| (p.0, f(p.1))) == sort_by_key(
            s.map_values(|p: (KeyModel, T)| (p.0, f(p.1))),
        ),
    decreases s.len(),
{
    let g = |p: (KeyModel, T)| (p.0, f(p.1));
    if s.len() > 0 {
        lemma_sort_map_values(s.drop_last(), f);
        assert(s.map_values(g).drop_last() =~= s.drop_last().map_values(g));
        lemma_insert_sorted_map(sort_by_key(s.drop_last()), s.last(), f);
    } else {
        assert(s.map_values(g) =~= Seq::<(KeyModel, U)>::empty());
        assert(sort_by_key(s).map_values(g) =~= Seq::<(KeyModel, U)>::empty());
    }
}

proof fn lemma_insert_sorted_map<T, U>(s: Seq<(KeyModel, T)>, x: (KeyModel, T), f: spec_fn(T) -> U)
    ensures
        insert_sorted(s, x).map_values(|p: (KeyModel, T)| (p.0, f(p.1))) == insert_sorted(
            s.map_values(|p: (KeyModel, T)| (p.0, f(p.1))),
            (x.0, f(x.1)),
        ),
    decreases s.len(),
{
    let g = |p: (KeyModel, T)| (p.0, f(p.1));
    if s.len() == 0 {
        assert(insert_sorted(s, x).map_values(g) =~= seq![(x.0, f(x.1))]);
        assert(s.map_values(g) =~= Seq::<(KeyModel, U)>::empty());
    } else {
        assert(s.map_values(g).last() == g(s.last()));
        assert(s.map_values(g).drop_last() =~= s.drop_last().map_values(g));
        if key_le(s.last().0, x.0) {
            assert(s.push(x).map_values(g) =~= s.map_values(g).push(g(x)));
        } else {
            lemma_insert_sorted_map(s.drop_last(), x, f);
            assert(insert_sorted(s.drop_last(), x).push(s.last()).map_values(g) =~= insert_sorted(
                s.drop_last(),
                x,
            ).map_values(g).push(g(s.last())));
        }
    }
}

pub proof fn lemma_text_order_zero(a: Seq<char>, b: Seq<char>)
    ensures
        (text_order(a, b) == 0) == (a == b),
        text_order(a, b) == -text_order(b, a),
        -1 <= text_order(a, b) <= 1,
    decreases a.len(),
{
    if a.len() > 0 && b.len() > 0 && a[0] == b[0] {
        lemma_text_order_zero(a.drop_first(), b.drop_first());
        if a.drop_first() == b.drop_first() {
            assert(a =~= seq![a[0]] + a.drop_first());
            assert(b =~= seq![b[0]] + b.drop_first());
        }
    } else if a.len() == 0 && b.len() == 0 {
        assert(a =~= b);
    } else if a.len() > 0 && b.len() > 0 {
        assert(a[0] != b[0]);
    }
}

pub proof fn lemma_ranks_order_zero(a: Seq<u64>, b: Seq<u64>)
    ensures
        (ranks_order(a, b) == 0) == (a == b),
        ranks_order(a, b) == -ranks_order(b, a),
        -1 <= ranks_order(a, b) <= 1,
    decreases a.len(),
{
    if a.len() > 0 && b.len() > 0 && a[0] == b[0] {
        lemma_ranks_order_zero(a.drop_first(), b.drop_first());
        if a.drop_first() == b.drop_first() {
            assert(a =~= seq![a[0]] + a.drop_first());
            assert(b =~= seq![b[0]] + b.drop_first());
        }
    } else if a.len() == 0 && b.len() == 0 {
        assert(a =~= b);
    } else if a.len() > 0 && b.len() > 0 {
        assert(a[0] != b[0]);
    }
}

pub proof fn lemma_texts_order_zero(a: Seq<Seq<char>>, b: Seq<Seq<char>>)
    ensures
        (texts_order(a, b) == 0) == (a == b),
        texts_order(a, b) == -texts_order(b, a),
        -1 <= texts_order(a, b) <= 1,
    decreases a.len(),
{
    if a.len() > 0 && b.len() > 0 {
        lemma_text_order_zero(a[0], b[0]);
        if text_order(a[0], b[0]) == 0 {
            lemma_texts_order_zero(a.drop_first(), b.drop_first());
            if a.drop_first() == b.drop_first() {
                assert(a =~= seq![a[0]] + a.drop_first());
                assert(b =~= seq![b[0]] + b.drop_first());
            }
        } else {
            assert(a[0] != b[0]);
        }
    } else if a.len() == 0 && b.len() == 0 {
        assert(a =~= b);
    } else if a.len() > 0 {
        assert(a.len() != b.len());
    } else {
        assert(a.len() != b.len());
    }
}

/// Keys compare equal exactly when they are equal.
pub proof fn lemma_key_order_zero(a: KeyModel, b: KeyModel)
    ensures
        (key_order(a, b) == 0) == (a == b),
        key_order(a, b) == -key_order(b, a),
        -1 <= key_order(a, b) <= 1,
{
    lemma_ranks_order_zero(a.ranks, b.ranks);
    lemma_texts_order_zero(a.texts, b.texts);
    if a.ranks == b.ranks && a.texts == b.texts {
        assert(a =~= b);
    }
}

/// Sorting keeps the length and takes every element from the input.
pub proof fn lemma_sort_elements<T>(s: Seq<(KeyModel, T)>)
    ensures
        sort_by_key(s).len() == s.len(),
        forall|i: int| 0 <= i < s.len() ==> s.contains(#[trigger] sort_by_key(s)[i]),
    decreases s.len(),
{
    if s.len() > 0 {
        let t = sort_by_key(s.drop_last());
        lemma_sort_elements(s.drop_last());
        lemma_insert_sorted_pos(t, s.last());
        let p = insert_pos(t, s.last());
        assert forall|i: int| 0 <= i < s.len() implies s.contains(#[trigger] sort_by_key(s)[i]) by {
            let e = sort_by_key(s)[i];
            if i < p {
                assert(e == t[i]);
                assert(s.drop_last().contains(e));
                let w = choose|w: int| 0 <= w < s.drop_last().len() && s.drop_last()[w] == e;
                assert(s[w] == e);
            } else if i == p {
                assert(e == s.last());
                assert(s[s.len() - 1] == e);
            } else {
                assert(e == t[i - 1]);
                assert(s.drop_last().contains(e));
                let w = choose|w: int| 0 <= w < s.drop_last().len() && s.drop_last()[w] == e;
                assert(s[w] == e);
            }
        }
    }
}

proof fn lemma_text_order_trans(a: Seq<char>, b: Seq<char>, c: Seq<char>)
    requires
        text_order(a, b) <= 0,
        text_order(b, c) <= 0,
    ensures
        text_order(a, c) <= 0,
    decreases a.len(),
{
    if a.len() > 0 && b.len() > 0 && c.len() > 0 && a[0] == b[0] && b[0] == c[0] {
        lemma_text_order_trans(a.drop_first(), b.drop_first(), c.drop_first());
    }
}

proof fn lemma_ranks_order_trans(a: Seq<u64>, b: Seq<u64>, c: Seq<u64>)
    requires
        ranks_order(a, b) <= 0,
        ranks_order(b, c) <= 0,
    ensures
        ranks_order(a, c) <= 0,
    decreases a.len(),
{
    if a.len() > 0 && b.len() > 0 && c.len() > 0 && a[0] == b[0] && b[0] == c[0] {
        lemma_ranks_order_trans(a.drop_first(), b.drop_first(), c.drop_first());
    }
}

/// A strict step and a weak step make a strict step.
proof fn lemma_text_order_strict(a: Seq<char>, b: Seq<char>, c: Seq<char>)
    requires
        text_order(a, b) <= 0,
        text_order(b, c) <= 0,
        text_order(a, b) < 0 || text_order(b, c) < 0,
    ensures
        text_order(a, c) < 0,
{
    lemma_text_order_trans(a, b, c);
    lemma_text_order_zero(a, c);
    lemma_text_order_zero(a, b);
    lemma_text_order_zero(b, c);
    if text_order(a, c) == 0 {
        assert(a == c);
        lemma_text_order_trans(b, c, b);
        lemma_text_order_zero(b, b);
    }
}

proof fn lemma_ranks_order_strict(a: Seq<u64>, b: Seq<u64>, c: Seq<u64>)
    requires
        ranks_order(a, b) <= 0,
        ranks_order(b, c) <= 0,
        ranks_order(a, b) < 0 || ranks_order(b, c) < 0,
    ensures
        ranks_order(a, c) < 0,
{
    lemma_ranks_order_trans(a, b, c);
    lemma_ranks_order_zero(a, c);
    lemma_ranks_order_zero(a, b);
    lemma_ranks_order_zero(b, c);
    if ranks_order(a, c) == 0 {
        assert(a == c);
    }
}

proof fn lemma_texts_order_trans(a: Seq<Seq<char>>, b: Seq<Seq<char>>, c: Seq<Seq<char>>)
    requires
        texts_order(a, b) <= 0,
        texts_order(b, c) <= 0,
    ensures
        texts_order(a, c) <= 0,
    decreases a.len(),
{
    if a.len() > 0 && b.len() > 0 && c.len() > 0 {
        lemma_text_order_zero(a[0], b[0]);
        lemma_text_order_zero(b[0], c[0]);
        lemma_text_order_zero(a[0], c[0]);
        let t1 = text_order(a[0], b[0]);
        let t2 = text_order(b[0], c[0]);
        if t1 == 0 && t2 == 0 {
            lemma_texts_order_trans(a.drop_first(), b.drop_first(), c.drop_first());
        } else if t1 == 0 {
            assert(a[0] == b[0]);
        } else if t2 == 0 {
            assert(b[0] == c[0]);
        } else {
            lemma_text_order_strict(a[0], b[0], c[0]);
        }
    }
}

/// `key_le` is transitive.
pub proof fn lemma_key_le_trans(a: KeyModel, b: KeyModel, c: KeyModel)
    requires
        key_le(a, b),
        key_le(b, c),
    ensures
        key_le(a, c),
{
    lemma_ranks_order_zero(a.ranks, b.ranks);
    lemma_ranks_order_zero(b.ranks, c.ranks);
    lemma_ranks_order_zero(a.ranks, c.ranks);
    let r1 = ranks_order(a.ranks, b.ranks);
    let r2 = ranks_order(b.ranks, c.ranks);
    if r1 == 0 && r2 == 0 {
        assert(a.ranks == b.ranks && b.ranks == c.ranks);
        lemma_texts_order_trans(a.texts, b.texts, c.texts);
    } else if r1 == 0 {
        assert(a.ranks == b.ranks);
    } else if r2 == 0 {
        assert(b.ranks == c.ranks);
    } else {
        lemma_ranks_order_strict(a.ranks, b.ranks, c.ranks);
    }
}

/// Any two keys are ordered one way or the other.
pub proof fn lemma_key_le_total(a: KeyModel, b: KeyModel)
    ensures
        key_le(a, b) || key_le(b, a),
        !key_le(a, b) ==> key_le(b, a) && b != a,
{
    lemma_key_order_zero(a, b);
}

/// The pairs are in ascending key order.
pub open spec fn sorted_by_key<T>(s: Seq<(KeyModel, T)>) -> bool {
    forall|i: int, j: int| 0 <= i < j < s.len() ==> key_le(s[i].0, s[j].0)
}

proof fn lemma_insert_sorted_sorted<T>(s: Seq<(KeyModel, T)>, x: (KeyModel, T))
    requires
        sorted_by_key(s),
    ensures
        sorted_by_key(insert_sorted(s, x)),
    decreases s.len(),
{
    if s.len() == 0 {
    } else if key_le(s.last().0, x.0) {
        let r = s.push(x);
        assert forall|i: int, j: int| 0 <= i < j < r.len() implies key_le(r[i].0, r[j].0) by {
            if j == s.len() {
                if i < s.len() - 1 {
                    lemma_key_le_trans(s[i].0, s.last().0, x.0);
                }
            }
        }
    } else {
        lemma_key_le_total(s.last().0, x.0);
        let t = s.drop_last();
        assert(sorted_by_key(t));
        lemma_insert_sorted_sorted(t, x);
        lemma_insert_sorted_pos(t, x);
        let u = insert_sorted(t, x);
        let p = insert_pos(t, x);
        let r = u.push(s.last());
        assert forall|k: int| 0 <= k < u.len() implies key_le(u[k].0, s.last().0) by {
            if k < p {
                assert(u[k] == t[k]);
            } else if k == p {
                assert(u[k] == x);
            } else {
                assert(u[k] == t[k - 1]);
            }
        }
        assert forall|i: int, j: int| 0 <= i < j < r.len() implies key_le(r[i].0, r[j].0) by {
            if j == u.len() {
                assert(r[j] == s.last());
                assert(r[i] == u[i]);
            } else {
                assert(r[i] == u[i]);
                assert(r[j] == u[j]);
            }
        }
    }
}

/// Sorting yields pairs in ascending key order.
pub proof fn law_sort_sorted<T>(s: Seq<(KeyModel, T)>)
    ensures
        sorted_by_key(sort_by_key(s)),
    decreases s.len(),
{
    if s.len() > 0 {
        law_sort_sorted(s.drop_last());
        lemma_insert_sorted_sorted(sort_by_key(s.drop_last()), s.last());
    }
}

/// Sorting neither drops, adds nor repeats a pair: the result is a
/// rearrangement of the input.
pub proof fn law_sort_permutation<T>(s: Seq<(KeyModel, T)>)
    ensures
        sort_by_key(s).to_multiset() == s.to_multiset(),
    decreases s.len(),
{
    if s.len() > 0 {
        law_sort_permutation(s.drop_last());
        let t = sort_by_key(s.drop_last());
        lemma_insert_sorted_pos(t, s.last());
        let p = insert_pos(t, s.last());
        vstd::seq_lib::to_multiset_insert(t, p, s.last());
        vstd::seq_lib::to_multiset_build(s.drop_last(), s.last());
        assert(s.drop_last().push(s.last()) =~= s);
        assert(sort_by_key(s) == t.insert(p, s.last()));
        assert(sort_by_key(s).to_multiset() =~= t.to_multiset().insert(s.last()));
        assert(s.to_multiset() =~= s.drop_last().to_multiset().insert(s.last()));
    } else {
        assert(s =~= Seq::<(KeyModel, T)>::empty());
        assert(sort_by_key(s) =~= Seq::<(KeyModel, T)>::empty());
    }
}

/// Ordered keys put equal first ranks first: a key no greater than
/// another has no greater first rank.
pub proof fn lemma_key_le_first_rank(a: KeyModel, b: KeyModel)
    requires
        key_le(a, b),
        a.ranks.len() > 0,
        b.ranks.len() > 0,
    ensures
        a.ranks[0] <= b.ranks[0],
{
    lemma_ranks_order_zero(a.ranks, b.ranks);
    if a.ranks[0] > b.ranks[0] {
        assert(ranks_order(a.ranks, b.ranks) == 1);
    }
}

/// Keys without repeats stay without repeats when sorted.
pub proof fn lemma_sort_no_duplicates<T>(s: Seq<(KeyModel, T)>)
    requires
        s.no_duplicates(),
    ensures
        sort_by_key(s).no_duplicates(),
{
    law_sort_permutation(s);
    s.lemma_multiset_has_no_duplicates();
    sort_by_key(s).lemma_multiset_has_no_duplicates_conv();
}

/// Every sorted pair carries the key `key_of` gives its value, when every
/// input pair does.
pub proof fn lemma_sort_keys_of<T>(s: Seq<(KeyModel, T)>, key_of: spec_fn(T) -> KeyModel)
    requires
        forall|i: int| 0 <= i < s.len() ==> #[trigger] s[i].0 == key_of(s[i].1),
    ensures
        sort_by_key(s).len() == s.len(),
        forall|i: int|
            0 <= i < sort_by_key(s).len() ==> #[trigger] sort_by_key(s)[i].0 == key_of(
                sort_by_key(s)[i].1,
            ),
{
    lemma_sort_elements(s);
    assert forall|i: int| 0 <= i < sort_by_key(s).len() implies #[trigger] sort_by_key(s)[i].0
        == key_of(sort_by_key(s)[i].1) by {
        let w = choose|w: int| 0 <= w < s.len() && s[w] == sort_by_key(s)[i];
        assert(s[w].0 == key_of(s[w].1));
    }
}

/// The values of `v` in stably sorted key order.
pub fn sorted_values<T>(v: Vec<(SortKey, T)>) -> (r: Vec<T>)
    ensures
        r@ == sort_by_key(key_pairs(v@)).map_values(|p: (KeyModel, T)| p.1),
{
    let sorted = stable_sort(v);
    let ghost sp = key_pairs(sorted@);
    let mut out: Vec<T> = Vec::new();
    let mut rest = sorted;
    let ghost mut j: int = 0;
    assert(out@ =~= sp.take(0).map_values(|p: (KeyModel, T)| p.1));
    while rest.len() > 0
        invariant
            0 <= j <= sp.len(),
            rest@.len() == sp.len() - j,
            key_pairs(rest@) == sp.skip(j),
            out@ == sp.take(j).map_values(|p: (KeyModel, T)| p.1),
        decreases rest.len(),
    {
        let ghost old_s = rest@;
        let pair = rest.remove(0);
        let x = pair.1;
        proof {
            assert(rest@ =~= old_s.skip(1));
            assert(key_pairs(old_s)[0] == sp.skip(j)[0]);
            assert(x == sp[j].1);
            assert forall|q: int| 0 <= q < rest@.len() implies key_pairs(rest@)[q] == sp.skip(
                j + 1,
            )[q] by {
                assert(key_pairs(old_s)[q + 1] == sp.skip(j)[q + 1]);
                assert(rest@[q] == old_s[q + 1]);
            }
            assert(key_pairs(rest@) =~= sp.skip(j + 1));
        }
        let ghost old_out = out@;
        out.push(x);
        proof {
            assert(sp.take(j + 1).map_values(|p: (KeyModel, T)| p.1) =~= sp.take(j).map_values(
                |p: (KeyModel, T)| p.1,
            ).push(x));
            j = j + 1;
        }
    }
    assert(sp.take(sp.len() as int) =~= sp);
    out
}

} // verus!
