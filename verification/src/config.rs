//! Configuration: TOML values as plain data, the merge of configuration
//! layers, overrides by file pattern, the global switches, and the sections
//! the rules read with their defaults.
use vstd::prelude::*;

use vstd::pervasive::VecAdditionalExecFns;

use crate::lexis::chars_eq;
use crate::text::{str_chars, strings_view};

verus! {

broadcast use vstd::std_specs::vec::group_vec_axioms;

// ---------------------------------------------------------------------------
// Values
// ---------------------------------------------------------------------------

/// A TOML value. Floats and datetimes are kept as their text; a table is
/// its entries in order.
#[derive(Debug)]
pub enum TomlValue {
    String(String),
    Integer(i64),
    Float(String),
    Boolean(bool),
    Datetime(String),
    Array(Vec<TomlValue>),
    Table(Vec<(String, TomlValue)>),
}

/// A TOML value as plain data.
pub enum TomlModel {
    String(Seq<char>),
    Integer(int),
    Float(Seq<char>),
    Boolean(bool),
    Datetime(Seq<char>),
    Array(Seq<TomlModel>),
    Table(Seq<(Seq<char>, TomlModel)>),
}

pub open spec fn toml_view(v: TomlValue) -> TomlModel
    decreases v, 0nat,
{
    match v {
        TomlValue::String(s) => TomlModel::String(s@),
        TomlValue::Integer(i) => TomlModel::Integer(i as int),
        TomlValue::Float(s) => TomlModel::Float(s@),
        TomlValue::Boolean(b) => TomlModel::Boolean(b),
        TomlValue::Datetime(s) => TomlModel::Datetime(s@),
        TomlValue::Array(a) => TomlModel::Array(values_view(a@)),
        TomlValue::Table(e) => TomlModel::Table(entries_view(e@)),
    }
}

pub open spec fn values_view(s: Seq<TomlValue>) -> Seq<TomlModel>
    decreases s, 1nat,
{
    if s.len() == 0 {
        seq![]
    } else {
        seq![toml_view(s[0])] + values_view(s.drop_first())
    }
}

pub open spec fn entries_view(s: Seq<(String, TomlValue)>) -> Seq<(Seq<char>, TomlModel)>
    decreases s, 1nat,
{
    if s.len() == 0 {
        seq![]
    } else {
        seq![(s[0].0@, toml_view(s[0].1))] + entries_view(s.drop_first())
    }
}

impl View for TomlValue {
    type V = TomlModel;

    open spec fn view(&self) -> TomlModel {
        toml_view(*self)
    }
}

pub proof fn lemma_values_view(s: Seq<TomlValue>)
    ensures
        values_view(s).len() == s.len(),
        forall|i: int| 0 <= i < s.len() ==> #[trigger] values_view(s)[i] == toml_view(s[i]),
    decreases s.len(),
{
    if s.len() > 0 {
        lemma_values_view(s.drop_first());
        assert forall|i: int| 0 <= i < s.len() implies #[trigger] values_view(s)[i] == toml_view(
            s[i],
        ) by {
            if i > 0 {
                assert(values_view(s)[i] == values_view(s.drop_first())[i - 1]);
            }
        }
    }
}

pub proof fn lemma_entries_view(s: Seq<(String, TomlValue)>)
    ensures
        entries_view(s).len() == s.len(),
        forall|i: int|
            0 <= i < s.len() ==> #[trigger] entries_view(s)[i] == (s[i].0@, toml_view(s[i].1)),
    decreases s.len(),
{
    if s.len() > 0 {
        lemma_entries_view(s.drop_first());
        assert forall|i: int| 0 <= i < s.len() implies #[trigger] entries_view(s)[i] == (
            s[i].0@,
            toml_view(s[i].1),
        ) by {
            if i > 0 {
                assert(entries_view(s)[i] == entries_view(s.drop_first())[i - 1]);
            }
        }
    }
}

/// The value of the first entry with key `k` (`toml::Value::get`).
pub open spec fn lookup(entries: Seq<(Seq<char>, TomlModel)>, k: Seq<char>) -> Option<TomlModel>
    decreases entries.len(),
{
    if entries.len() == 0 {
        None
    } else if entries[0].0 == k {
        Some(entries[0].1)
    } else {
        lookup(entries.drop_first(), k)
    }
}

/// Position of the first entry with key `k`.
pub open spec fn key_index(entries: Seq<(Seq<char>, TomlModel)>, k: Seq<char>) -> Option<int>
    decreases entries.len(),
{
    if entries.len() == 0 {
        None
    } else if entries[0].0 == k {
        Some(0)
    } else {
        match key_index(entries.drop_first(), k) {
            Some(i) => Some(i + 1),
            None => None,
        }
    }
}

/// `value.get(key)`: the entry of a table, nothing for any other value.
pub open spec fn get(v: TomlModel, k: Seq<char>) -> Option<TomlModel> {
    match v {
        TomlModel::Table(e) => lookup(e, k),
        _ => None,
    }
}

/// Deep copy of a value.
pub fn copy_value(v: &TomlValue) -> (r: TomlValue)
    ensures
        r@ == v@,
    decreases v, 0nat,
{
    match v {
        TomlValue::String(s) => TomlValue::String(s.clone()),
        TomlValue::Integer(i) => TomlValue::Integer(*i),
        TomlValue::Float(s) => TomlValue::Float(s.clone()),
        TomlValue::Boolean(b) => TomlValue::Boolean(*b),
        TomlValue::Datetime(s) => TomlValue::Datetime(s.clone()),
        TomlValue::Array(a) => {
            proof {
                assert(decreases_to!(v => a));
            }
            let c = copy_values(a, 0);
            assert(values_view(a@).skip(0) =~= values_view(a@));
            TomlValue::Array(c)
        },
        TomlValue::Table(e) => {
            proof {
                assert(decreases_to!(v => e));
            }
            let c = copy_entries(e, 0);
            assert(entries_view(e@).skip(0) =~= entries_view(e@));
            TomlValue::Table(c)
        },
    }
}

fn copy_values(a: &Vec<TomlValue>, from: usize) -> (r: Vec<TomlValue>)
    requires
        from <= a.len(),
    ensures
        values_view(r@) == values_view(a@).skip(from as int),
    decreases a, 1nat, a.len() - from,
{
    proof {
        lemma_values_view(a@);
    }
    if from == a.len() {
        let r: Vec<TomlValue> = Vec::new();
        assert(values_view(r@) =~= values_view(a@).skip(from as int));
        return r;
    }
    proof {
        assert(decreases_to!(a => a[from as int]));
    }
    let first = copy_value(&a[from]);
    let rest = copy_values(a, from + 1);
    let mut r: Vec<TomlValue> = Vec::new();
    r.push(first);
    let mut rest2 = rest;
    let ghost rv = rest2@;
    r.append(&mut rest2);
    proof {
        lemma_values_view(r@);
        lemma_values_view(rv);
        assert(r@ =~= seq![first] + rv);
        assert forall|i: int| 0 <= i < r@.len() implies values_view(r@)[i] == values_view(
            a@,
        ).skip(from as int)[i] by {
            if i > 0 {
                assert(r@[i] == rv[i - 1]);
                assert(values_view(rv)[i - 1] == values_view(a@).skip(from + 1)[i - 1]);
            }
        }
        assert(values_view(r@) =~= values_view(a@).skip(from as int));
    }
    r
}

fn copy_entries(e: &Vec<(String, TomlValue)>, from: usize) -> (r: Vec<(String, TomlValue)>)
    requires
        from <= e.len(),
    ensures
        entries_view(r@) == entries_view(e@).skip(from as int),
    decreases e, 1nat, e.len() - from,
{
    proof {
        lemma_entries_view(e@);
    }
    if from == e.len() {
        let r: Vec<(String, TomlValue)> = Vec::new();
        assert(entries_view(r@) =~= entries_view(e@).skip(from as int));
        return r;
    }
    proof {
        assert(decreases_to!(e => e[from as int]));
        assert(decreases_to!(e[from as int] => e[from as int].1));
    }
    let first = copy_value(&e[from].1);
    let key = e[from].0.clone();
    let rest = copy_entries(e, from + 1);
    let mut r: Vec<(String, TomlValue)> = Vec::new();
    r.push((key, first));
    let mut rest2 = rest;
    let ghost rv = rest2@;
    r.append(&mut rest2);
    proof {
        lemma_entries_view(r@);
        lemma_entries_view(rv);
        assert(r@ =~= seq![(key, first)] + rv);
        assert forall|i: int| 0 <= i < r@.len() implies entries_view(r@)[i] == entries_view(
            e@,
        ).skip(from as int)[i] by {
            if i > 0 {
                assert(r@[i] == rv[i - 1]);
                assert(entries_view(rv)[i - 1] == entries_view(e@).skip(from + 1)[i - 1]);
            }
        }
        assert(entries_view(r@) =~= entries_view(e@).skip(from as int));
    }
    r
}

// ---------------------------------------------------------------------------
// Merging layers
// ---------------------------------------------------------------------------

/// The entries of `b` with those of `o` merged in, in `o`'s order: a key
/// new to `b` is added; where both values are tables they are merged
/// recursively; otherwise `o`'s value replaces `b`'s (scalars and arrays are
/// replaced whole).
pub open spec fn merge_entries(
    b: Seq<(Seq<char>, TomlModel)>,
    o: Seq<(Seq<char>, TomlModel)>,
) -> Seq<(Seq<char>, TomlModel)>
    decreases o,
{
    if o.len() == 0 {
        b
    } else {
        let k = o[0].0;
        let ov = o[0].1;
        let b2 = match key_index(b, k) {
            Some(i) => if 0 <= i < b.len() {
                match (b[i].1, ov) {
                    (TomlModel::Table(be), TomlModel::Table(oe)) => {
                        proof {
                            assert(decreases_to!(o => o[0]));
                        }
                        b.update(i, (k, TomlModel::Table(merge_entries(be, oe))))
                    },
                    _ => b.update(i, (k, ov)),
                }
            } else {
                b
            },
            None => b.push((k, ov)),
        };
        merge_entries(b2, o.drop_first())
    }
}

/// Merging of two values: tables merge, anything else leaves the base as
/// it was.
pub open spec fn merge_values(base: TomlModel, over: TomlModel) -> TomlModel {
    match (base, over) {
        (TomlModel::Table(b), TomlModel::Table(o)) => TomlModel::Table(merge_entries(b, o)),
        _ => base,
    }
}

proof fn lemma_key_index(entries: Seq<(Seq<char>, TomlModel)>, k: Seq<char>)
    ensures
        key_index(entries, k) matches Some(i) ==> 0 <= i < entries.len() && entries[i].0 == k
            && lookup(entries, k) == Some(entries[i].1) && forall|j: int|
            0 <= j < i ==> entries[j].0 != k,
        key_index(entries, k) is None ==> lookup(entries, k) is None && forall|j: int|
            0 <= j < entries.len() ==> entries[j].0 != k,
    decreases entries.len(),
{
    if entries.len() > 0 && entries[0].0 != k {
        lemma_key_index(entries.drop_first(), k);
        assert forall|j: int| 1 <= j < entries.len() implies entries[j] == entries.drop_first()[j
            - 1] by {}
    }
}

fn find_key(entries: &Vec<(String, TomlValue)>, k: &String) -> (r: Option<usize>)
    ensures
        r matches Some(i) ==> key_index(entries_view(entries@), k@) == Some(i as int),
        r is None ==> key_index(entries_view(entries@), k@) is None,
{
    let ghost ev = entries_view(entries@);
    proof {
        lemma_entries_view(entries@);
        lemma_key_index(ev, k@);
    }
    let kc = str_chars(k.as_str());
    let mut i: usize = 0;
    while i < entries.len()
        invariant
            i <= entries.len(),
            ev == entries_view(entries@),
            ev.len() == entries.len(),
            kc@ == k@,
            forall|j: int| 0 <= j < i ==> ev[j].0 != k@,
            forall|j: int| 0 <= j < entries.len() ==> #[trigger] ev[j] == (entries@[j].0@, toml_view(entries@[j].1)),
        decreases entries.len() - i,
    {
        let c = str_chars(entries[i].0.as_str());
        if chars_eq(c.as_slice(), kc.as_slice()) {
            assert(ev[i as int].0 == k@);
            proof {
                lemma_key_index_first(ev, k@, i as int);
            }
            return Some(i);
        }
        assert(ev[i as int].0 != k@);
        i += 1;
    }
    proof {
        if let Some(j) = key_index(ev, k@) {
            assert(ev[j].0 == k@);
        }
    }
    None
}

proof fn lemma_key_index_first(entries: Seq<(Seq<char>, TomlModel)>, k: Seq<char>, i: int)
    requires
        0 <= i < entries.len(),
        entries[i].0 == k,
        forall|j: int| 0 <= j < i ==> entries[j].0 != k,
    ensures
        key_index(entries, k) == Some(i),
    decreases entries.len(),
{
    if i > 0 {
        assert forall|j: int| 0 <= j < i - 1 implies entries.drop_first()[j].0 != k by {
            assert(entries.drop_first()[j] == entries[j + 1]);
        }
        lemma_key_index_first(entries.drop_first(), k, i - 1);
    }
}

fn merge_entries_exec(b: Vec<(String, TomlValue)>, o: &Vec<(String, TomlValue)>) -> (r: Vec<
    (String, TomlValue),
>)
    ensures
        entries_view(r@) == merge_entries(entries_view(b@), entries_view(o@)),
    decreases o,
{
    let ghost ov = entries_view(o@);
    proof {
        lemma_entries_view(o@);
    }
    let mut cur = b;
    let mut k: usize = 0;
    assert(ov.skip(0) =~= ov);
    while k < o.len()
        invariant
            k <= o.len(),
            ov == entries_view(o@),
            ov.len() == o.len(),
            forall|j: int| 0 <= j < o.len() ==> #[trigger] ov[j] == (o@[j].0@, toml_view(o@[j].1)),
            merge_entries(entries_view(cur@), ov.skip(k as int)) == merge_entries(
                entries_view(b@),
                ov,
            ),
        decreases o.len() - k,
    {
        let key = &o[k].0;
        let over = &o[k].1;
        let ghost cv = entries_view(cur@);
        let ghost rest = ov.skip(k as int);
        assert(rest[0] == ov[k as int]);
        assert(rest.drop_first() =~= ov.skip(k + 1));
        proof {
            lemma_entries_view(cur@);
        }
        match find_key(&cur, key) {
            Some(i) => {
                proof {
                    lemma_key_index(cv, key@);
                }
                let mut old_val = (String::new(), TomlValue::Boolean(false));
                cur.set_and_swap(i, &mut old_val);
                let (_, bv) = old_val;
                assert(toml_view(bv) == cv[i as int].1);
                let newv = match over {
                    TomlValue::Table(oe) => match bv {
                        TomlValue::Table(be) => {
                            proof {
                                assert(decreases_to!(o => o@));
                                assert(decreases_to!(o@ => o@[k as int]));
                                assert(decreases_to!(o@[k as int] => o@[k as int].1));
                            }
                            let merged = merge_entries_exec(be, oe);
                            TomlValue::Table(merged)
                        },
                        _ => copy_value(over),
                    },
                    _ => copy_value(over),
                };
                cur.set(i, (key.clone(), newv));
                proof {
                    lemma_entries_view(cur@);
                    assert(entries_view(cur@) =~= cv.update(i as int, (key@, toml_view(newv))));
                }
            },
            None => {
                let c = copy_value(over);
                cur.push((key.clone(), c));
                proof {
                    lemma_entries_view(cur@);
                    assert(entries_view(cur@) =~= cv.push((key@, c@)));
                }
            },
        }
        k += 1;
    }
    assert(ov.skip(o.len() as int) =~= Seq::<(Seq<char>, TomlModel)>::empty());
    cur
}

/// No two entries share a key (as in any TOML table).
pub open spec fn keys_distinct(e: Seq<(Seq<char>, TomlModel)>) -> bool {
    forall|i: int, j: int| 0 <= i < j < e.len() ==> e[i].0 != e[j].0
}

/// What a merge leaves under key `k`.
pub open spec fn merged_at(
    b: Seq<(Seq<char>, TomlModel)>,
    o: Seq<(Seq<char>, TomlModel)>,
    k: Seq<char>,
) -> Option<TomlModel> {
    match lookup(o, k) {
        None => lookup(b, k),
        Some(ov) => match (lookup(b, k), ov) {
            (Some(TomlModel::Table(be)), TomlModel::Table(oe)) => Some(
                TomlModel::Table(merge_entries(be, oe)),
            ),
            _ => Some(ov),
        },
    }
}

proof fn lemma_lookup_none(e: Seq<(Seq<char>, TomlModel)>, k: Seq<char>)
    requires
        forall|j: int| 0 <= j < e.len() ==> e[j].0 != k,
    ensures
        lookup(e, k) is None,
        key_index(e, k) is None,
    decreases e.len(),
{
    if e.len() > 0 {
        assert forall|j: int| 0 <= j < e.drop_first().len() implies e.drop_first()[j].0 != k by {
            assert(e.drop_first()[j] == e[j + 1]);
        }
        lemma_lookup_none(e.drop_first(), k);
    }
}

/// Replacing or adding the entry for `k0` changes the lookup of `k0` only.
proof fn lemma_lookup_after_set(
    b: Seq<(Seq<char>, TomlModel)>,
    e: Seq<(Seq<char>, TomlModel)>,
    k0: Seq<char>,
    v: TomlModel,
    k: Seq<char>,
)
    requires
        match key_index(b, k0) {
            Some(i) => 0 <= i < b.len() && e == b.update(i, (k0, v)),
            None => e == b.push((k0, v)),
        },
    ensures
        lookup(e, k) == if k == k0 {
            Some(v)
        } else {
            lookup(b, k)
        },
{
    lemma_key_index(b, k0);
    lemma_key_index(b, k);
    let pos = match key_index(b, k0) {
        Some(i) => i,
        None => b.len() as int,
    };
    assert(e[pos] == (k0, v));
    assert forall|j: int| 0 <= j < e.len() && j != pos implies e[j] == b[j] by {}
    if k == k0 {
        lemma_key_index_first(e, k0, pos);
        lemma_key_index(e, k0);
    } else {
        match key_index(b, k) {
            Some(m) => {
                assert(m != pos);
                assert forall|j: int| 0 <= j < m implies e[j].0 != k by {
                    if j != pos {
                        assert(e[j] == b[j]);
                    }
                }
                lemma_key_index_first(e, k, m);
                lemma_key_index(e, k);
            },
            None => {
                assert forall|j: int| 0 <= j < e.len() implies e[j].0 != k by {
                    if j != pos {
                        assert(e[j] == b[j]);
                    }
                }
                lemma_lookup_none(e, k);
            },
        }
    }
}

/// Merging layers: under every key, a merge gives the override's value
/// where the override has the key (the two tables merged where both values
/// are tables) and the base's value otherwise.
pub proof fn law_merge_lookup(
    b: Seq<(Seq<char>, TomlModel)>,
    o: Seq<(Seq<char>, TomlModel)>,
    k: Seq<char>,
)
    requires
        keys_distinct(o),
    ensures
        lookup(merge_entries(b, o), k) == merged_at(b, o, k),
    decreases o.len(),
{
    if o.len() > 0 {
        let k0 = o[0].0;
        let ov = o[0].1;
        let rest = o.drop_first();
        lemma_key_index(b, k0);
        let step_v = match key_index(b, k0) {
            Some(i) => match (b[i].1, ov) {
                (TomlModel::Table(be), TomlModel::Table(oe)) => TomlModel::Table(
                    merge_entries(be, oe),
                ),
                _ => ov,
            },
            None => ov,
        };
        let b2 = match key_index(b, k0) {
            Some(i) => b.update(i, (k0, step_v)),
            None => b.push((k0, step_v)),
        };
        assert(merge_entries(b, o) == merge_entries(b2, rest));
        assert(keys_distinct(rest)) by {
            assert forall|i: int, j: int| 0 <= i < j < rest.len() implies rest[i].0 != rest[j].0 by {
                assert(rest[i] == o[i + 1]);
                assert(rest[j] == o[j + 1]);
            }
        }
        law_merge_lookup(b2, rest, k);
        lemma_lookup_after_set(b, b2, k0, step_v, k);
        if k == k0 {
            assert forall|j: int| 0 <= j < rest.len() implies rest[j].0 != k by {
                assert(rest[j] == o[j + 1]);
            }
            lemma_lookup_none(rest, k);
        }
    }
}

/// Merging nothing into a table leaves it as it was.
pub proof fn law_merge_empty(b: Seq<(Seq<char>, TomlModel)>)
    ensures
        merge_entries(b, seq![]) == b,
{
}

// ---------------------------------------------------------------------------
// Parsing TOML
// ---------------------------------------------------------------------------

#[verifier::external_type_specification]
#[verifier::external_body]
pub struct ExTomlError(toml::de::Error);

#[verifier::external_type_specification]
#[verifier::external_body]
pub struct ExTomlDocument(toml::Value);

/// Name for the value `toml::from_str::<toml::Value>` makes of a text, as
/// plain data (`None` when the text is not valid TOML).
pub uninterp spec fn toml_document(text: Seq<char>) -> Option<TomlModel>;

/// Conversion of a `toml::Value` into the plain value, variant by variant
/// (floats and datetimes by their `to_string`). Nothing is stated of it: the
/// value is opaque here; `parse_toml` names the combined result.
#[verifier::external_body]
fn value_from_toml(v: &toml::Value) -> TomlValue {
    match v {
        toml::Value::String(s) => TomlValue::String(s.clone()),
        toml::Value::Integer(i) => TomlValue::Integer(*i),
        toml::Value::Float(f) => TomlValue::Float(f.to_string()),
        toml::Value::Boolean(b) => TomlValue::Boolean(*b),
        toml::Value::Datetime(d) => TomlValue::Datetime(d.to_string()),
        toml::Value::Array(a) => TomlValue::Array(a.iter().map(value_from_toml).collect()),
        toml::Value::Table(t) => TomlValue::Table(
            t.iter().map(|(k, x)| (k.clone(), value_from_toml(x))).collect(),
        ),
    }
}

/// Calls `toml::from_str::<toml::Value>` on the text. Claimed: the value,
/// or the failure, is the named `toml_document` of the text.
#[verifier::external_body]
pub(crate) fn parse_toml(text: &str) -> (r: Result<TomlValue, toml::de::Error>)
    ensures
        match r {
            Ok(v) => toml_document(text@) == Some(v@),
            Err(_) => toml_document(text@) is None,
        },
{
    match toml::from_str::<toml::Value>(text) {
        Ok(v) => Ok(value_from_toml(&v)),
        Err(e) => Err(e),
    }
}

/// Calls `Display` of `toml::de::Error` (via `to_string`). Nothing is
/// stated of the text.
#[verifier::external_body]
fn toml_error_message(e: &toml::de::Error) -> String {
    e.to_string()
}

#[verifier::external_type_specification]
#[verifier::external_body]
pub struct ExGlobError(globset::Error);

#[verifier::external_type_specification]
#[verifier::external_body]
pub struct ExGlob(globset::Glob);

#[verifier::external_type_specification]
#[verifier::external_body]
pub struct ExGlobSet(globset::GlobSet);

/// Name for the pattern text a `globset::Glob` was built from (what
/// `Glob::glob` returns).
pub uninterp spec fn glob_text(glob: globset::Glob) -> Seq<char>;

/// Name for what a `globset::GlobSet` holds: the pattern texts of its globs,
/// in the order they were given.
pub uninterp spec fn set_globs(set: globset::GlobSet) -> Seq<Seq<char>>;

/// Name for whether the glob `Glob::new` builds from the pattern (default
/// options) matches the path. Claimed only for a pattern and a path without
/// `\`: how a backslash reads depends on the platform.
pub uninterp spec fn glob_matches(pattern: Seq<char>, path: Seq<char>) -> bool;

/// Some pattern's glob matches the path.
pub open spec fn any_glob_matches(patterns: Seq<Seq<char>>, path: Seq<char>) -> bool {
    exists|i: int| 0 <= i < patterns.len() && glob_matches(#[trigger] patterns[i], path)
}

/// The text holds no `\`.
pub open spec fn backslash_free(s: Seq<char>) -> bool {
    !s.contains('\\')
}

/// No pattern holds a `\`.
pub open spec fn no_backslash(patterns: Seq<Seq<char>>) -> bool {
    forall|i: int| 0 <= i < patterns.len() ==> backslash_free(#[trigger] patterns[i])
}

/// Name for whether `globset::Glob::new` accepts the pattern. Claimed only
/// for a pattern without `\`: how a backslash reads depends on the
/// platform.
pub uninterp spec fn glob_accepts(pattern: Seq<char>) -> bool;

/// Name for whether `globset::GlobSet::new` builds a set from the globs of
/// these patterns (it compiles their matchers). Claimed only for patterns
/// without `\`.
pub uninterp spec fn glob_set_builds(patterns: Seq<Seq<char>>) -> bool;

/// Every pattern is accepted and the set of them builds.
pub open spec fn patterns_ok(patterns: Seq<Seq<char>>) -> bool {
    &&& forall|i: int| 0 <= i < patterns.len() ==> glob_accepts(#[trigger] patterns[i])
    &&& glob_set_builds(patterns)
}

/// Calls `globset::Glob::new`. Claimed: a glob built keeps the pattern's
/// text; for a pattern without `\`, it succeeds exactly when the named
/// `glob_accepts` holds of the pattern.
#[verifier::external_body]
fn new_glob(pattern: &str) -> (r: Result<globset::Glob, globset::Error>)
    ensures
        r matches Ok(g) ==> glob_text(g) == pattern@,
        backslash_free(pattern@) ==> r is Ok == glob_accepts(pattern@),
{
    globset::Glob::new(pattern)
}

/// Calls `globset::GlobSet::new` on the globs. Claimed: a set built holds
/// the globs given, in order; no globs always build (into the empty set);
/// for globs of patterns without `\`, it succeeds exactly when the named
/// `glob_set_builds` holds of their patterns.
#[verifier::external_body]
fn build_glob_set(globs: Vec<globset::Glob>) -> (r: Result<globset::GlobSet, globset::Error>)
    ensures
        no_backslash(globs@.map_values(|g: globset::Glob| glob_text(g))) ==> r is Ok
            == glob_set_builds(globs@.map_values(|g: globset::Glob| glob_text(g))),
        r matches Ok(set) ==> set_globs(set) == globs@.map_values(|g: globset::Glob| glob_text(g)),
        globs@.len() == 0 ==> r is Ok,
{
    globset::GlobSet::new(globs)
}

/// Calls `globset::GlobSet::is_match` on the path. Claimed: the path matches
/// when some glob of the set matches it (stated where neither the path nor
/// a pattern holds a `\`); a set of no globs matches nothing.
#[verifier::external_body]
fn glob_set_matches(set: &globset::GlobSet, path: &str) -> (r: bool)
    ensures
        set_globs(*set).len() == 0 ==> !r,
        backslash_free(path@) && no_backslash(set_globs(*set)) ==> r == (exists|i: int|
            0 <= i < set_globs(*set).len() && glob_matches(set_globs(*set)[i], path@)),
{
    set.is_match(path)
}

/// The globs of the patterns, each read by `Glob::new`, built into one set;
/// the first error met is returned.
fn glob_set_of(patterns: &[String]) -> (r: Result<globset::GlobSet, globset::Error>)
    ensures
        r matches Ok(set) ==> set_globs(set) == crate::text::strings_view(patterns@),
        patterns@.len() == 0 ==> r is Ok,
        no_backslash(crate::text::strings_view(patterns@)) ==> (r is Ok <==> patterns_ok(
            crate::text::strings_view(patterns@),
        )),
{
    let ghost pv = crate::text::strings_view(patterns@);
    let mut globs: Vec<globset::Glob> = Vec::new();
    let mut i: usize = 0;
    while i < patterns.len()
        invariant
            i <= patterns.len(),
            globs@.map_values(|g: globset::Glob| glob_text(g)) == crate::text::strings_view(
                patterns@,
            ).take(i as int),
            pv == crate::text::strings_view(patterns@),
            pv.len() == patterns.len(),
            forall|k: int| 0 <= k < i ==> no_backslash(pv) ==> glob_accepts(#[trigger] pv[k]),
        decreases patterns.len() - i,
    {
        assert(pv[i as int] == patterns@[i as int]@);
        assert(no_backslash(pv) ==> backslash_free(pv[i as int]));
        match new_glob(patterns[i].as_str()) {
            Ok(g) => {
                let ghost before = globs@;
                globs.push(g);
                assert(globs@.map_values(|g: globset::Glob| glob_text(g)) =~= before.map_values(
                    |g: globset::Glob| glob_text(g),
                ).push(glob_text(g)));
                assert(crate::text::strings_view(patterns@).take(i + 1) =~= crate::text::strings_view(
                    patterns@,
                ).take(i as int).push(patterns@[i as int]@));
            },
            Err(e) => {
                proof {
                    if no_backslash(pv) {
                        lemma_some_rejected(pv, i as int);
                    }
                }
                return Err(e);
            },
        }
        i += 1;
    }
    assert(crate::text::strings_view(patterns@).take(patterns.len() as int)
        =~= crate::text::strings_view(patterns@));
    build_glob_set(globs)
}

proof fn lemma_some_rejected(pv: Seq<Seq<char>>, i: int)
    requires
        0 <= i < pv.len(),
        !glob_accepts(pv[i]),
    ensures
        !patterns_ok(pv),
{
}

/// Calls `Display` of `globset::Error` (via `to_string`). Nothing is
/// stated of the text.
#[verifier::external_body]
fn glob_error_message(e: &globset::Error) -> String {
    e.to_string()
}

/// Name for what `Path::strip_prefix` leaves of a path after a base, as
/// text (`None` when the base is not a prefix). Claimed only for portable
/// paths, which split the same way on every platform.
pub uninterp spec fn stripped_path(path: Seq<char>, base: Seq<char>) -> Option<Seq<char>>;

/// Calls `Path::strip_prefix` and keeps the rest as text. Claimed: for a
/// portable path and base, the result is the named `stripped_path`; nothing
/// is stated of other paths.
#[verifier::external_body]
fn strip_path_prefix(path: &str, base: &str) -> (r: Option<String>)
    ensures
        crate::paths::portable_path(path@) && crate::paths::portable_path(base@) ==> match r {
            Some(rest) => stripped_path(path@, base@) == Some(rest@),
            None => stripped_path(path@, base@) is None,
        },
{
    let rest = std::path::Path::new(path).strip_prefix(base).ok()?;
    Some(rest.to_string_lossy().into_owned())
}

// ---------------------------------------------------------------------------
// Configuration
// ---------------------------------------------------------------------------

/// A TOML document read from text: the value `toml` reads, or a parse
/// error when the text is not valid TOML.
pub fn parse_document(text: &str) -> (r: Result<TomlValue, ConfigError>)
    ensures
        match r {
            Ok(v) => toml_document(text@) == Some(v@),
            Err(e) => toml_document(text@) is None && e is Parse,
        },
{
    match parse_toml(text) {
        Ok(v) => Ok(v),
        Err(e) => Err(ConfigError::Parse { message: toml_error_message(&e) }),
    }
}

/// What can go wrong with a configuration.
#[derive(Debug)]
pub enum ConfigError {
    /// The text is not valid TOML.
    Parse { message: String },
    /// `version` is an integer other than 1.
    UnsupportedVersion { version: i64 },
    /// `version` is not an integer.
    InvalidVersion,
    /// An override pattern is not a valid glob.
    Glob { message: String },
    /// Overrides are present but the configuration has no directory.
    MissingConfigDir,
}

impl ConfigError {
    /// The text reported for the error.
    pub fn message(&self) -> (r: String)
        ensures
            self matches ConfigError::UnsupportedVersion { version } ==> r@
                == "Unsupported config version: "@ + crate::text::decimal(version as int)
                + ". Only version 1 is supported."@,
            self matches ConfigError::InvalidVersion ==> r@
                == "Invalid version field: must be an integer"@,
            self matches ConfigError::MissingConfigDir ==> r@
                == "Cannot apply overrides without config directory"@,
            self matches ConfigError::Parse { message } ==> r@ == message@,
            self matches ConfigError::Glob { message } ==> r@ == message@,
    {
        match self {
            ConfigError::Parse { message } => message.clone(),
            ConfigError::UnsupportedVersion { version } => {
                let mut m = str_chars("Unsupported config version: ");
                let n = crate::text::int_text(*version);
                let nc = str_chars(n.as_str());
                crate::text::push_all(&mut m, nc.as_slice());
                let tail = str_chars(". Only version 1 is supported.");
                crate::text::push_all(&mut m, tail.as_slice());
                crate::text::chars_to_string(m.as_slice())
            },
            ConfigError::InvalidVersion => "Invalid version field: must be an integer".to_owned(),
            ConfigError::Glob { message } => message.clone(),
            ConfigError::MissingConfigDir => "Cannot apply overrides without config directory".to_owned(),
        }
    }
}

/// What the `version` field says: nothing when absent (allowed, with a
/// warning), an error unless it is the integer 1.
pub open spec fn spec_validate_version(raw: TomlModel) -> Option<ConfigError> {
    match get(raw, "version"@) {
        Some(TomlModel::Integer(v)) => if v == 1 {
            None
        } else {
            Some(ConfigError::UnsupportedVersion { version: v as i64 })
        },
        Some(_) => Some(ConfigError::InvalidVersion),
        None => None,
    }
}

/// An override block: the files it applies to, those it leaves out, and
/// the configuration it lays over them.
pub struct Override {
    pub files: Vec<String>,
    pub exclude: Vec<String>,
    pub config: TomlValue,
}

/// The strings of an array, when every element is one.
pub open spec fn string_list(a: Seq<TomlModel>) -> Option<Seq<Seq<char>>>
    decreases a.len(),
{
    if a.len() == 0 {
        Some(seq![])
    } else {
        match (string_list(a.drop_last()), a.last()) {
            (Some(rest), TomlModel::String(s)) => Some(rest.push(s)),
            _ => None,
        }
    }
}

/// The entries other than `files` and `exclude`, in order.
pub open spec fn without_pattern_keys(e: Seq<(Seq<char>, TomlModel)>) -> Seq<(Seq<char>, TomlModel)>
    decreases e.len(),
{
    if e.len() == 0 {
        seq![]
    } else if e.last().0 == "files"@ || e.last().0 == "exclude"@ {
        without_pattern_keys(e.drop_last())
    } else {
        without_pattern_keys(e.drop_last()).push(e.last())
    }
}

/// An override block read from a value: a table whose `files` is an array
/// of strings and whose `exclude`, when present, is one too; its other
/// entries are the configuration.
pub open spec fn spec_override(v: TomlModel) -> Option<(Seq<Seq<char>>, Seq<Seq<char>>, TomlModel)> {
    match v {
        TomlModel::Table(e) => match lookup(e, "files"@) {
            Some(TomlModel::Array(fs)) => match string_list(fs) {
                Some(files) => match lookup(e, "exclude"@) {
                    None => Some((files, seq![], TomlModel::Table(without_pattern_keys(e)))),
                    Some(TomlModel::Array(xs)) => match string_list(xs) {
                        Some(ex) => Some((files, ex, TomlModel::Table(without_pattern_keys(e)))),
                        None => None,
                    },
                    Some(_) => None,
                },
                None => None,
            },
            _ => None,
        },
        _ => None,
    }
}

/// Layers merged in turn, with each hit configuration merged over the
/// result.
pub open spec fn apply_hits(raw: TomlModel, configs: Seq<TomlModel>, hits: Seq<bool>) -> TomlModel
    decreases configs.len(),
{
    if configs.len() == 0 || hits.len() != configs.len() {
        raw
    } else {
        let before = apply_hits(raw, configs.drop_last(), hits.drop_last());
        if hits.last() {
            merge_values(before, configs.last())
        } else {
            before
        }
    }
}

/// The configurations of the override blocks that read correctly, in
/// order.
pub open spec fn override_configs(overrides: Seq<TomlModel>) -> Seq<TomlModel>
    decreases overrides.len(),
{
    if overrides.len() == 0 {
        seq![]
    } else {
        match spec_override(overrides.last()) {
            Some((_, _, c)) => override_configs(overrides.drop_last()).push(c),
            None => override_configs(overrides.drop_last()),
        }
    }
}

/// The override blocks that read correctly, in order, each as its
/// patterns, its excluded patterns and its configuration.
pub open spec fn read_overrides(overrides: Seq<TomlModel>) -> Seq<
    (Seq<Seq<char>>, Seq<Seq<char>>, TomlModel),
>
    decreases overrides.len(),
{
    if overrides.len() == 0 {
        seq![]
    } else {
        match spec_override(overrides.last()) {
            Some(b) => read_overrides(overrides.drop_last()).push(b),
            None => read_overrides(overrides.drop_last()),
        }
    }
}

proof fn lemma_read_overrides_configs(overrides: Seq<TomlModel>)
    ensures
        override_configs(overrides) == read_overrides(overrides).map_values(
            |b: (Seq<Seq<char>>, Seq<Seq<char>>, TomlModel)| b.2,
        ),
    decreases overrides.len(),
{
    if overrides.len() > 0 {
        lemma_read_overrides_configs(overrides.drop_last());
        let f = |b: (Seq<Seq<char>>, Seq<Seq<char>>, TomlModel)| b.2;
        match spec_override(overrides.last()) {
            Some(b) => {
                assert(read_overrides(overrides).map_values(f) =~= read_overrides(
                    overrides.drop_last(),
                ).map_values(f).push(b.2));
            },
            None => {},
        }
    }
}

/// A block matches a path when one of its patterns matches it and none of
/// its excluded patterns does.
pub open spec fn block_matches(
    b: (Seq<Seq<char>>, Seq<Seq<char>>, TomlModel),
    path: Seq<char>,
) -> bool {
    any_glob_matches(b.0, path) && !any_glob_matches(b.1, path)
}

/// Every pattern of every block is a valid glob, and each list builds.
pub open spec fn blocks_ok(blocks: Seq<(Seq<Seq<char>>, Seq<Seq<char>>, TomlModel)>) -> bool {
    forall|i: int|
        0 <= i < blocks.len() ==> patterns_ok((#[trigger] blocks[i]).0) && patterns_ok(blocks[i].1)
}

/// No pattern of any block holds a `\`.
pub open spec fn blocks_backslash_free(
    blocks: Seq<(Seq<Seq<char>>, Seq<Seq<char>>, TomlModel)>,
) -> bool {
    forall|i: int|
        0 <= i < blocks.len() ==> no_backslash((#[trigger] blocks[i]).0) && no_backslash(
            blocks[i].1,
        )
}

/// The path overrides are matched against: the path after the
/// configuration's directory, or the path itself when it does not lie under
/// that directory.
pub open spec fn relative_path(path: Seq<char>, dir: Seq<char>) -> Seq<char> {
    match stripped_path(path, dir) {
        Some(rest) => rest,
        None => path,
    }
}

/// The `overrides` array of a configuration (empty when there is none).
pub open spec fn overrides_of(raw: TomlModel) -> Seq<TomlModel> {
    match get(raw, "overrides"@) {
        Some(TomlModel::Array(x)) => x,
        _ => seq![],
    }
}

/// Which blocks match the path.
pub open spec fn override_hits(
    blocks: Seq<(Seq<Seq<char>>, Seq<Seq<char>>, TomlModel)>,
    path: Seq<char>,
) -> Seq<bool> {
    blocks.map_values(|b: (Seq<Seq<char>>, Seq<Seq<char>>, TomlModel)| block_matches(b, path))
}

/// Generic configuration container that stores raw TOML data and the
/// directory of the file it came from.
pub struct Config {
    pub raw: TomlValue,
    pub config_dir: Option<String>,
}

fn string_list_exec(a: &Vec<TomlValue>) -> (r: Option<Vec<String>>)
    ensures
        match r {
            Some(v) => string_list(values_view(a@)) == Some(strings_view(v@)),
            None => string_list(values_view(a@)) is None,
        },
{
    let ghost av = values_view(a@);
    proof {
        lemma_values_view(a@);
    }
    let mut out: Vec<String> = Vec::new();
    let mut i: usize = 0;
    while i < a.len()
        invariant
            i <= a.len(),
            av == values_view(a@),
            av.len() == a.len(),
            forall|j: int| 0 <= j < a.len() ==> #[trigger] av[j] == toml_view(a@[j]),
            string_list(av.take(i as int)) == Some(strings_view(out@)),
        decreases a.len() - i,
    {
        assert(av.take(i + 1).drop_last() =~= av.take(i as int));
        assert(av.take(i + 1).last() == toml_view(a@[i as int]));
        match &a[i] {
            TomlValue::String(s) => {
                let ghost old_out = out@;
                out.push(s.clone());
                assert(strings_view(out@) =~= strings_view(old_out).push(s@));
            },
            _ => {
                proof {
                    lemma_string_list_prefix(av, i + 1);
                }
                return None;
            },
        }
        i += 1;
    }
    assert(av.take(a.len() as int) =~= av);
    Some(out)
}

proof fn lemma_string_list_prefix(a: Seq<TomlModel>, n: int)
    requires
        0 <= n <= a.len(),
        string_list(a.take(n)) is None,
    ensures
        string_list(a) is None,
    decreases a.len() - n,
{
    if n < a.len() {
        assert(a.take(n + 1).drop_last() =~= a.take(n));
        lemma_string_list_prefix(a, n + 1);
    } else {
        assert(a.take(n) =~= a);
    }
}

fn without_pattern_keys_exec(e: &Vec<(String, TomlValue)>) -> (r: Vec<(String, TomlValue)>)
    ensures
        entries_view(r@) == without_pattern_keys(entries_view(e@)),
{
    let ghost ev = entries_view(e@);
    proof {
        lemma_entries_view(e@);
    }
    let files = str_chars("files");
    let exclude = str_chars("exclude");
    let mut out: Vec<(String, TomlValue)> = Vec::new();
    let mut i: usize = 0;
    while i < e.len()
        invariant
            i <= e.len(),
            ev == entries_view(e@),
            ev.len() == e.len(),
            files@ == "files"@,
            exclude@ == "exclude"@,
            forall|j: int| 0 <= j < e.len() ==> #[trigger] ev[j] == (e@[j].0@, toml_view(e@[j].1)),
            entries_view(out@) == without_pattern_keys(ev.take(i as int)),
        decreases e.len() - i,
    {
        assert(ev.take(i + 1).drop_last() =~= ev.take(i as int));
        assert(ev.take(i + 1).last() == ev[i as int]);
        let k = str_chars(e[i].0.as_str());
        if !chars_eq(k.as_slice(), files.as_slice()) && !chars_eq(
            k.as_slice(),
            exclude.as_slice(),
        ) {
            let c = copy_value(&e[i].1);
            let ghost old_out = out@;
            out.push((e[i].0.clone(), c));
            proof {
                lemma_entries_view(out@);
                lemma_entries_view(old_out);
                assert(entries_view(out@) =~= entries_view(old_out).push(ev[i as int]));
            }
        }
        i += 1;
    }
    assert(ev.take(e.len() as int) =~= ev);
    out
}

fn lookup_exec<'a>(e: &'a Vec<(String, TomlValue)>, k: &str) -> (r: Option<&'a TomlValue>)
    ensures
        match r {
            Some(v) => lookup(entries_view(e@), k@) == Some(v@),
            None => lookup(entries_view(e@), k@) is None,
        },
{
    let ks = k.to_owned();
    proof {
        lemma_entries_view(e@);
        lemma_key_index(entries_view(e@), k@);
    }
    match find_key(e, &ks) {
        Some(i) => Some(&e[i].1),
        None => None,
    }
}

/// `value.get(key)`.
pub fn get_exec<'a>(v: &'a TomlValue, k: &str) -> (r: Option<&'a TomlValue>)
    ensures
        match r {
            Some(x) => get(v@, k@) == Some(x@),
            None => get(v@, k@) is None,
        },
{
    match v {
        TomlValue::Table(e) => lookup_exec(e, k),
        _ => None,
    }
}

fn override_from_value(v: &TomlValue) -> (r: Option<Override>)
    ensures
        match r {
            Some(o) => spec_override(v@) == Some(
                (strings_view(o.files@), strings_view(o.exclude@), o.config@),
            ),
            None => spec_override(v@) is None,
        },
{
    match v {
        TomlValue::Table(e) => {
            let files = match lookup_exec(e, "files") {
                Some(TomlValue::Array(fs)) => string_list_exec(fs),
                _ => None,
            };
            let files = match files {
                Some(f) => f,
                None => {
                    return None;
                },
            };
            let exclude = match lookup_exec(e, "exclude") {
                None => Vec::new(),
                Some(TomlValue::Array(xs)) => match string_list_exec(xs) {
                    Some(x) => x,
                    None => {
                        return None;
                    },
                },
                Some(_) => {
                    return None;
                },
            };
            let config = TomlValue::Table(without_pattern_keys_exec(e));
            let r = Override { files, exclude, config };
            assert(strings_view(r.exclude@) =~= strings_view(exclude@));
            Some(r)
        },
        _ => None,
    }
}

impl Config {
    /// Create an empty configuration (all sections will use defaults)
    pub fn empty() -> (r: Self)
        ensures
            r.raw@ == TomlModel::Table(seq![]),
            r.config_dir is None,
    {
        let e: Vec<(String, TomlValue)> = Vec::new();
        let r = Config { raw: TomlValue::Table(e), config_dir: None };
        assert(entries_view(e@) =~= Seq::<(Seq<char>, TomlModel)>::empty());
        r
    }

    /// Get the raw TOML value for advanced use cases
    pub fn raw(&self) -> (r: &TomlValue)
        ensures
            r@ == self.raw@,
    {
        &self.raw
    }

    /// A configuration from the text of a file: it must be valid TOML and
    /// its `version`, when present, must be the integer 1.
    pub fn from_text(content: &str, config_dir: Option<String>) -> (r: Result<Self, ConfigError>)
        ensures
            toml_document(content@) is None ==> r matches Err(ConfigError::Parse { .. }),
            toml_document(content@) matches Some(doc) ==> match spec_validate_version(doc) {
                None => r matches Ok(c) && c.raw@ == doc && c.config_dir == config_dir,
                Some(e) => r matches Err(x) && x == e,
            },
    {
        let raw = match parse_document(content) {
            Ok(v) => v,
            Err(e) => {
                return Err(e);
            },
        };
        match Self::validate_version(&raw) {
            Ok(()) => Ok(Config { raw, config_dir }),
            Err(e) => Err(e),
        }
    }

    /// Validate the version field
    pub fn validate_version(raw: &TomlValue) -> (r: Result<(), ConfigError>)
        ensures
            match spec_validate_version(raw@) {
                None => r is Ok,
                Some(e) => r matches Err(x) && x == e,
            },
    {
        match get_exec(raw, "version") {
            Some(TomlValue::Integer(v)) => {
                if *v == 1 {
                    Ok(())
                } else {
                    Err(ConfigError::UnsupportedVersion { version: *v })
                }
            },
            Some(_) => Err(ConfigError::InvalidVersion),
            None => Ok(()),
        }
    }

    /// Merge two TOML tables: scalars and arrays are replaced, tables are
    /// merged recursively; a base or override that is not a table leaves the
    /// base unchanged.
    pub fn merge_tables(base: &mut TomlValue, override_val: &TomlValue)
        ensures
            final(base)@ == merge_values(old(base)@, override_val@),
    {
        let mut taken = TomlValue::Boolean(false);
        std::mem::swap(&mut taken, base);
        let merged = match override_val {
            TomlValue::Table(o) => match taken {
                TomlValue::Table(b) => TomlValue::Table(merge_entries_exec(b, o)),
                other => other,
            },
            _ => taken,
        };
        *base = merged;
    }

    /// The configuration made of layers merged in order over an empty
    /// table, outermost first.
    pub fn from_layers(layers: &[TomlValue], config_dir: Option<String>) -> (r: Self)
        ensures
            r.raw@ == fold_layers(values_view(layers@)),
            r.config_dir == config_dir,
    {
        let ghost lv = values_view(layers@);
        proof {
            lemma_values_view(layers@);
        }
        let mut merged = Config::empty().raw;
        let mut i: usize = 0;
        assert(lv.take(0) =~= Seq::<TomlModel>::empty());
        while i < layers.len()
            invariant
                i <= layers.len(),
                lv == values_view(layers@),
                lv.len() == layers.len(),
                forall|j: int| 0 <= j < layers.len() ==> #[trigger] lv[j] == toml_view(layers@[j]),
                merged@ == fold_layers(lv.take(i as int)),
            decreases layers.len() - i,
        {
            Self::merge_tables(&mut merged, &layers[i]);
            assert(lv.take(i + 1).drop_last() =~= lv.take(i as int));
            assert(lv.take(i + 1).last() == toml_view(layers@[i as int]));
            i += 1;
        }
        assert(lv.take(layers.len() as int) =~= lv);
        Config { raw: merged, config_dir }
    }

    /// A section of the configuration, if present.
    pub fn get_section(&self, section: &str) -> (r: Option<&TomlValue>)
        ensures
            match r {
                Some(v) => get(self.raw@, section@) == Some(v@),
                None => get(self.raw@, section@) is None,
            },
    {
        get_exec(&self.raw, section)
    }

    /// A nested section (e.g. `lints.disallow_super_imports`), if every
    /// step of the path is present.
    pub fn get_nested(&self, path: &[&str]) -> (r: Option<&TomlValue>)
        ensures
            match r {
                Some(v) => get_path(self.raw@, path@.map_values(|s: &str| s@)) == Some(v@),
                None => get_path(self.raw@, path@.map_values(|s: &str| s@)) is None,
            },
    {
        let ghost ps = path@.map_values(|s: &str| s@);
        let mut current: &TomlValue = &self.raw;
        let mut i: usize = 0;
        assert(ps.skip(0) =~= ps);
        while i < path.len()
            invariant
                i <= path.len(),
                ps == path@.map_values(|s: &str| s@),
                get_path(self.raw@, ps) == get_path(current@, ps.skip(i as int)),
                ps.len() == path.len(),
            decreases path.len() - i,
        {
            assert(ps.skip(i as int)[0] == path@[i as int]@);
            assert(ps.skip(i as int).drop_first() =~= ps.skip(i + 1));
            match get_exec(current, path[i]) {
                Some(v) => {
                    current = v;
                },
                None => {
                    return None;
                },
            }
            i += 1;
        }
        assert(ps.skip(path.len() as int) =~= Seq::<Seq<char>>::empty());
        Some(current)
    }

    /// Get whether warnings should be treated as errors: the configured
    /// boolean, false when unset.
    pub fn treat_warnings_as_errors(&self) -> (r: bool)
        ensures
            r == match get(self.raw@, "treat_warnings_as_errors"@) {
                Some(TomlModel::Boolean(b)) => b,
                _ => false,
            },
    {
        match get_exec(&self.raw, "treat_warnings_as_errors") {
            Some(TomlValue::Boolean(b)) => *b,
            _ => false,
        }
    }

    /// Get whether suppression directives must include justifications: the
    /// configured boolean, true when unset.
    pub fn require_suppression_justification(&self) -> (r: bool)
        ensures
            r == match get(self.raw@, "require_suppression_justification"@) {
                Some(TomlModel::Boolean(b)) => b,
                _ => true,
            },
    {
        match get_exec(&self.raw, "require_suppression_justification") {
            Some(TomlValue::Boolean(b)) => *b,
            _ => true,
        }
    }

    /// Whether a configuration file says `root = true` (the upward search
    /// stops there).
    pub fn is_root(raw: &TomlValue) -> (r: bool)
        ensures
            r == (get(raw@, "root"@) == Some(TomlModel::Boolean(true))),
    {
        match get_exec(raw, "root") {
            Some(TomlValue::Boolean(b)) => *b,
            _ => false,
        }
    }

    /// Check if a file matches an override's patterns: one of `files` and
    /// none of `exclude` (stated where no pattern and not the path holds a
    /// `\`). It succeeds exactly when every pattern is a valid glob and each
    /// list builds into a set, and fails with a glob error otherwise. A
    /// block without `files` matches nothing.
    pub fn matches_override(override_config: &Override, file_path: &str) -> (r: Result<
        bool,
        ConfigError,
    >)
        ensures
            r matches Ok(b) ==> (override_config.files@.len() == 0 ==> !b),
            override_config.files@.len() == 0 && override_config.exclude@.len() == 0 ==> r
                == Ok::<bool, ConfigError>(false),
            r matches Ok(b) ==> (backslash_free(file_path@) && no_backslash(
                crate::text::strings_view(override_config.files@),
            ) && no_backslash(crate::text::strings_view(override_config.exclude@)) ==> b == (
            any_glob_matches(crate::text::strings_view(override_config.files@), file_path@)
                && !any_glob_matches(
                crate::text::strings_view(override_config.exclude@),
                file_path@,
            ))),
            no_backslash(crate::text::strings_view(override_config.files@)) && no_backslash(
                crate::text::strings_view(override_config.exclude@),
            ) ==> (r is Ok <==> patterns_ok(crate::text::strings_view(override_config.files@))
                && patterns_ok(crate::text::strings_view(override_config.exclude@))),
            r is Err ==> r matches Err(ConfigError::Glob { .. }),
    {
        let include_set = match glob_set_of(override_config.files.as_slice()) {
            Ok(set) => set,
            Err(e) => {
                return Err(ConfigError::Glob { message: glob_error_message(&e) });
            },
        };
        let exclude_set = match glob_set_of(override_config.exclude.as_slice()) {
            Ok(set) => set,
            Err(e) => {
                return Err(ConfigError::Glob { message: glob_error_message(&e) });
            },
        };
        let included = glob_set_matches(&include_set, file_path);
        let excluded = glob_set_matches(&exclude_set, file_path);
        Ok(included && !excluded)
    }

    /// Merge, in order, the configuration of each override the matching
    /// told to apply.
    pub fn apply_matching_overrides(&mut self, overrides: &[Override], hits: &[bool])
        requires
            overrides.len() == hits.len(),
        ensures
            final(self).raw@ == apply_hits(
                old(self).raw@,
                overrides@.map_values(|o: Override| o.config@),
                hits@,
            ),
            final(self).config_dir == old(self).config_dir,
    {
        let ghost cs = overrides@.map_values(|o: Override| o.config@);
        let mut i: usize = 0;
        assert(cs.take(0) =~= Seq::<TomlModel>::empty());
        assert(hits@.take(0) =~= Seq::<bool>::empty());
        while i < overrides.len()
            invariant
                i <= overrides.len(),
                overrides.len() == hits.len(),
                cs == overrides@.map_values(|o: Override| o.config@),
                self.raw@ == apply_hits(old(self).raw@, cs.take(i as int), hits@.take(i as int)),
                self.config_dir == old(self).config_dir,
            decreases overrides.len() - i,
        {
            assert(cs.take(i + 1).drop_last() =~= cs.take(i as int));
            assert(hits@.take(i + 1).drop_last() =~= hits@.take(i as int));
            assert(cs.take(i + 1).last() == overrides@[i as int].config@);
            if hits[i] {
                Self::merge_tables(&mut self.raw, &overrides[i].config);
            }
            i += 1;
        }
        assert(cs.take(overrides.len() as int) =~= cs);
        assert(hits@.take(overrides.len() as int) =~= hits@);
    }

    /// Apply the override blocks (the `overrides` array) that match the
    /// file, taken relative to the configuration's directory: each one that
    /// reads correctly and matches has its configuration merged in, in
    /// order. Without overrides nothing changes; with overrides but no
    /// directory this fails. For a portable path and directory, and patterns
    /// and a relative path without `\`, it succeeds exactly when every
    /// block's patterns are valid globs, and then merges exactly the blocks
    /// that match the relative path.
    pub fn apply_overrides_for_file(&mut self, source_file: &str) -> (r: Result<(), ConfigError>)
        ensures
            !(get(old(self).raw@, "overrides"@) matches Some(TomlModel::Array(_))) ==> r is Ok
                && final(self).raw@ == old(self).raw@,
            (get(old(self).raw@, "overrides"@) matches Some(TomlModel::Array(_)))
                && old(self).config_dir is None ==> r matches Err(ConfigError::MissingConfigDir),
            r is Ok ==> (get(old(self).raw@, "overrides"@) matches Some(TomlModel::Array(ovs))
                ==> exists|hits: Seq<bool>|
                hits.len() == override_configs(ovs).len() && final(self).raw@ == apply_hits(
                    old(self).raw@,
                    override_configs(ovs),
                    hits,
                )),
            final(self).config_dir == old(self).config_dir,
            (get(old(self).raw@, "overrides"@) matches Some(TomlModel::Array(_)))
                && old(self).config_dir is Some && crate::paths::portable_path(source_file@)
                && crate::paths::portable_path(old(self).config_dir->0@) && backslash_free(
                relative_path(source_file@, old(self).config_dir->0@),
            ) && blocks_backslash_free(read_overrides(overrides_of(old(self).raw@))) ==> (r is Ok
                <==> blocks_ok(read_overrides(overrides_of(old(self).raw@)))) && (r is Ok
                ==> final(self).raw@ == apply_hits(
                old(self).raw@,
                override_configs(overrides_of(old(self).raw@)),
                override_hits(
                    read_overrides(overrides_of(old(self).raw@)),
                    relative_path(source_file@, old(self).config_dir->0@),
                ),
            )),
    {
        let ghost ovs: Seq<TomlModel> = match get(self.raw@, "overrides"@) {
            Some(TomlModel::Array(x)) => x,
            _ => seq![],
        };
        let ghost bv = read_overrides(ovs);
        let blocks = match get_exec(&self.raw, "overrides") {
            Some(TomlValue::Array(a)) => {
                let ghost av = values_view(a@);
                assert(av == ovs);
                proof {
                    lemma_values_view(a@);
                }
                let mut blocks: Vec<Override> = Vec::new();
                let mut i: usize = 0;
                assert(av.take(0) =~= Seq::<TomlModel>::empty());
                while i < a.len()
                    invariant
                        i <= a.len(),
                        av == values_view(a@),
                        av.len() == a.len(),
                        forall|j: int| 0 <= j < a.len() ==> #[trigger] av[j] == toml_view(a@[j]),
                        blocks@.map_values(|o: Override| o.config@) == override_configs(
                            av.take(i as int),
                        ),
                        blocks@.map_values(
                            |o: Override|
                                (strings_view(o.files@), strings_view(o.exclude@), o.config@),
                        ) == read_overrides(av.take(i as int)),
                    decreases a.len() - i,
                {
                    assert(av.take(i + 1).drop_last() =~= av.take(i as int));
                    assert(av.take(i + 1).last() == toml_view(a@[i as int]));
                    match override_from_value(&a[i]) {
                        Some(o) => {
                            let ghost old_b = blocks@;
                            blocks.push(o);
                            assert(blocks@.map_values(|o: Override| o.config@) =~= old_b.map_values(
                                |o: Override| o.config@,
                            ).push(o.config@));
                            assert(blocks@.map_values(
                                |o: Override|
                                    (strings_view(o.files@), strings_view(o.exclude@), o.config@),
                            ) =~= old_b.map_values(
                                |o: Override|
                                    (strings_view(o.files@), strings_view(o.exclude@), o.config@),
                            ).push((strings_view(o.files@), strings_view(o.exclude@), o.config@)));
                        },
                        None => {},
                    }
                    i += 1;
                }
                assert(av.take(a.len() as int) =~= av);
                blocks
            },
            _ => {
                return Ok(());
            },
        };
        let dir = match &self.config_dir {
            Some(d) => d.clone(),
            None => {
                return Err(ConfigError::MissingConfigDir);
            },
        };
        let relative = match strip_path_prefix(source_file, dir.as_str()) {
            Some(rel) => rel,
            None => source_file.to_owned(),
        };
        let ghost cond = crate::paths::portable_path(source_file@) && crate::paths::portable_path(
            dir@,
        ) && backslash_free(relative_path(source_file@, dir@)) && blocks_backslash_free(bv);
        assert(cond ==> relative@ == relative_path(source_file@, dir@));
        let ghost tri = |o: Override| (strings_view(o.files@), strings_view(o.exclude@), o.config@);
        assert(blocks@.map_values(tri) == bv);
        let mut hits: Vec<bool> = Vec::new();
        let mut i: usize = 0;
        while i < blocks.len()
            invariant
                i <= blocks.len(),
                hits.len() == i,
                self.raw@ == old(self).raw@,
                self.config_dir == old(self).config_dir,
                old(self).config_dir == Some(dir),
                get(old(self).raw@, "overrides"@) == Some(TomlModel::Array(ovs)),
                bv == read_overrides(ovs),
                blocks@.map_values(tri) == bv,
                tri == (|o: Override| (strings_view(o.files@), strings_view(o.exclude@), o.config@)),
                cond ==> relative@ == relative_path(source_file@, dir@),
                cond == (crate::paths::portable_path(source_file@) && crate::paths::portable_path(
                    dir@,
                ) && backslash_free(relative_path(source_file@, dir@)) && blocks_backslash_free(bv)),
                cond ==> hits@ == override_hits(bv.take(i as int), relative@),
                cond ==> forall|k: int|
                    0 <= k < i ==> patterns_ok((#[trigger] bv[k]).0) && patterns_ok(bv[k].1),
            decreases blocks.len() - i,
        {
            assert(bv[i as int] == tri(blocks@[i as int]));
            let ghost before = hits@;
            let hit = match Self::matches_override(&blocks[i], relative.as_str()) {
                Ok(b) => b,
                Err(e) => {
                    proof {
                        if cond {
                            assert(no_backslash(bv[i as int].0) && no_backslash(bv[i as int].1));
                            assert(!blocks_ok(bv));
                        }
                    }
                    return Err(e);
                },
            };
            hits.push(hit);
            proof {
                if cond {
                    assert(no_backslash(bv[i as int].0) && no_backslash(bv[i as int].1));
                    assert(hit == block_matches(bv[i as int], relative@));
                    assert(hits@ =~= override_hits(bv.take(i + 1), relative@));
                }
            }
            i += 1;
        }
        proof {
            if cond {
                assert(bv.take(blocks.len() as int) =~= bv);
                assert(blocks_ok(bv));
            }
        }
        self.apply_matching_overrides(blocks.as_slice(), hits.as_slice());
        assert(hits@.len() == override_configs(ovs).len());
        assert(self.raw@ == apply_hits(old(self).raw@, override_configs(ovs), hits@));
        Ok(())
    }
}

/// Layers merged in order over an empty table.
pub open spec fn fold_layers(layers: Seq<TomlModel>) -> TomlModel
    decreases layers.len(),
{
    if layers.len() == 0 {
        TomlModel::Table(seq![])
    } else {
        merge_values(fold_layers(layers.drop_last()), layers.last())
    }
}

/// The value at the end of a path of keys.
pub open spec fn get_path(v: TomlModel, path: Seq<Seq<char>>) -> Option<TomlModel>
    decreases path.len(),
{
    if path.len() == 0 {
        Some(v)
    } else {
        match get(v, path[0]) {
            Some(x) => get_path(x, path.drop_first()),
            None => None,
        }
    }
}

/// Configuration for the imports section
pub struct ImportsConfig {
    /// Group imports: std, then external crates, then `crate`/`self`/`super`.
    pub group: bool,
    /// Sort imports alphabetically within each group.
    pub sort: bool,
    /// Merge imports from the same crate into one `use` block.
    pub merge: bool,
    pub group_imports: bool,
    pub preferred_import_order: Vec<String>,
    pub import_granularity: String,
    pub import_merge_behaviour: String,
    pub allowed_import_prefixes: Vec<String>,
}

impl Default for ImportsConfig {
    fn default() -> (r: Self)
        ensures
            r.group,
            r.sort,
            r.merge,
            r.group_imports,
            r.preferred_import_order@.map_values(|s: String| s@) == seq![
                "std"@,
                "extern_crate"@,
                "crate"@,
                "self"@,
                "super"@,
            ],
            r.import_granularity@ == "crate"@,
            r.import_merge_behaviour@ == "always"@,
            r.allowed_import_prefixes@.map_values(|s: String| s@) == seq![
                "std"@,
                "extern_crate"@,
                "crate"@,
                "self"@,
            ],
    {
        let r = ImportsConfig {
            group: true,
            sort: true,
            merge: true,
            group_imports: true,
            preferred_import_order: vec![
                "std".to_owned(),
                "extern_crate".to_owned(),
                "crate".to_owned(),
                "self".to_owned(),
                "super".to_owned(),
            ],
            import_granularity: "crate".to_owned(),
            import_merge_behaviour: "always".to_owned(),
            allowed_import_prefixes: vec![
                "std".to_owned(),
                "extern_crate".to_owned(),
                "crate".to_owned(),
                "self".to_owned(),
            ],
        };
        assert(r.preferred_import_order@.map_values(|s: String| s@) =~= seq![
            "std"@,
            "extern_crate"@,
            "crate"@,
            "self"@,
            "super"@,
        ]);
        assert(r.allowed_import_prefixes@.map_values(|s: String| s@) =~= seq![
            "std"@,
            "extern_crate"@,
            "crate"@,
            "self"@,
        ]);
        r
    }
}

/// Configuration for the modules section
pub struct ModulesConfig {
    pub severity: String,
    pub preferred_module_order: Vec<String>,
    pub allowed_lib_exports: Vec<String>,
}

impl Default for ModulesConfig {
    fn default() -> (r: Self)
        ensures
            r.severity@ == "none"@,
            r.preferred_module_order@.map_values(|s: String| s@) == seq![
                "local"@,
                "crate"@,
                "super"@,
                "in_crate"@,
            ],
            r.allowed_lib_exports@.len() == 0,
    {
        let r = ModulesConfig {
            severity: "none".to_owned(),
            preferred_module_order: vec![
                "local".to_owned(),
                "crate".to_owned(),
                "super".to_owned(),
                "in_crate".to_owned(),
            ],
            allowed_lib_exports: Vec::new(),
        };
        assert(r.preferred_module_order@.map_values(|s: String| s@) =~= seq![
            "local"@,
            "crate"@,
            "super"@,
            "in_crate"@,
        ]);
        r
    }
}

/// Configuration for the exports section
pub struct ExportsConfig {
    pub severity: String,
    pub allowed_lib_exports: Vec<String>,
}

impl Default for ExportsConfig {
    fn default() -> (r: Self)
        ensures
            r.severity@ == "none"@,
            r.allowed_lib_exports@.len() == 0,
    {
        ExportsConfig { severity: "none".to_owned(), allowed_lib_exports: Vec::new() }
    }
}

/// Configuration for a lint rule
pub struct LintConfig {
    pub severity: String,
}

impl Default for LintConfig {
    fn default() -> (r: Self)
        ensures
            r.severity@ == "none"@,
    {
        LintConfig { severity: "none".to_owned() }
    }
}

} // verus!
