//! Fixed character sequences the rules look for at the start of a line.
use vstd::prelude::*;

verus! {

pub open spec fn kw_use() -> Seq<char> {
    seq!['u', 's', 'e', ' ']
}

pub fn kw_use_v() -> (r: Vec<char>)
    ensures
        r@ == kw_use(),
{
    let r = vec!['u', 's', 'e', ' '];
    assert(r@ =~= kw_use());
    r
}

pub open spec fn kw_pub_use() -> Seq<char> {
    seq!['p', 'u', 'b', ' ', 'u', 's', 'e', ' ']
}

pub fn kw_pub_use_v() -> (r: Vec<char>)
    ensures
        r@ == kw_pub_use(),
{
    let r = vec!['p', 'u', 'b', ' ', 'u', 's', 'e', ' '];
    assert(r@ =~= kw_pub_use());
    r
}

pub open spec fn kw_pub_paren() -> Seq<char> {
    seq!['p', 'u', 'b', '(']
}

pub fn kw_pub_paren_v() -> (r: Vec<char>)
    ensures
        r@ == kw_pub_paren(),
{
    let r = vec!['p', 'u', 'b', '('];
    assert(r@ =~= kw_pub_paren());
    r
}

pub open spec fn kw_close_use() -> Seq<char> {
    seq![')', ' ', 'u', 's', 'e', ' ']
}

pub fn kw_close_use_v() -> (r: Vec<char>)
    ensures
        r@ == kw_close_use(),
{
    let r = vec![')', ' ', 'u', 's', 'e', ' '];
    assert(r@ =~= kw_close_use());
    r
}

pub open spec fn kw_attr() -> Seq<char> {
    seq!['#', '[']
}

pub fn kw_attr_v() -> (r: Vec<char>)
    ensures
        r@ == kw_attr(),
{
    let r = vec!['#', '['];
    assert(r@ =~= kw_attr());
    r
}

pub open spec fn kw_inner_attr() -> Seq<char> {
    seq!['#', '!', '[']
}

pub fn kw_inner_attr_v() -> (r: Vec<char>)
    ensures
        r@ == kw_inner_attr(),
{
    let r = vec!['#', '!', '['];
    assert(r@ =~= kw_inner_attr());
    r
}

pub open spec fn kw_line_comment() -> Seq<char> {
    seq!['/', '/']
}

pub fn kw_line_comment_v() -> (r: Vec<char>)
    ensures
        r@ == kw_line_comment(),
{
    let r = vec!['/', '/'];
    assert(r@ =~= kw_line_comment());
    r
}

pub open spec fn kw_block_comment() -> Seq<char> {
    seq!['/', '*']
}

pub fn kw_block_comment_v() -> (r: Vec<char>)
    ensures
        r@ == kw_block_comment(),
{
    let r = vec!['/', '*'];
    assert(r@ =~= kw_block_comment());
    r
}

pub open spec fn kw_self() -> Seq<char> {
    seq!['s', 'e', 'l', 'f']
}

pub fn kw_self_v() -> (r: Vec<char>)
    ensures
        r@ == kw_self(),
{
    let r = vec!['s', 'e', 'l', 'f'];
    assert(r@ =~= kw_self());
    r
}

pub open spec fn kw_super() -> Seq<char> {
    seq!['s', 'u', 'p', 'e', 'r']
}

pub fn kw_super_v() -> (r: Vec<char>)
    ensures
        r@ == kw_super(),
{
    let r = vec!['s', 'u', 'p', 'e', 'r'];
    assert(r@ =~= kw_super());
    r
}

pub open spec fn kw_crate() -> Seq<char> {
    seq!['c', 'r', 'a', 't', 'e']
}

pub fn kw_crate_v() -> (r: Vec<char>)
    ensures
        r@ == kw_crate(),
{
    let r = vec!['c', 'r', 'a', 't', 'e'];
    assert(r@ =~= kw_crate());
    r
}

pub open spec fn kw_std() -> Seq<char> {
    seq!['s', 't', 'd']
}

pub open spec fn kw_core() -> Seq<char> {
    seq!['c', 'o', 'r', 'e']
}

pub open spec fn kw_alloc() -> Seq<char> {
    seq!['a', 'l', 'l', 'o', 'c']
}

/// Equality of two character slices.
pub fn chars_eq(a: &[char], b: &[char]) -> (r: bool)
    ensures
        r == (a@ == b@),
{
    if a.len() != b.len() {
        return false;
    }
    let mut i: usize = 0;
    while i < a.len()
        invariant
            a.len() == b.len(),
            i <= a.len(),
            forall|k: int| 0 <= k < i ==> a@[k] == b@[k],
        decreases a.len() - i,
    {
        if a[i] != b[i] {
            return false;
        }
        i += 1;
    }
    assert(a@ =~= b@);
    true
}

/// Equality with `std`, `core` or `alloc`.
pub fn is_std_root(s: &[char]) -> (r: bool)
    ensures
        r == (s@ == kw_std() || s@ == kw_core() || s@ == kw_alloc()),
{
    let a = vec!['s', 't', 'd'];
    let b = vec!['c', 'o', 'r', 'e'];
    let c = vec!['a', 'l', 'l', 'o', 'c'];
    assert(a@ =~= kw_std());
    assert(b@ =~= kw_core());
    assert(c@ =~= kw_alloc());
    chars_eq(s, a.as_slice()) || chars_eq(s, b.as_slice()) || chars_eq(s, c.as_slice())
}

} // verus!
