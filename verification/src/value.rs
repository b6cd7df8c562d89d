//! The SCON data model: null, booleans, integers, floating-point numbers,
//! strings, arrays and objects whose keys keep their insertion order.
use vstd::prelude::*;

verus! {

/// A SCON value.
///
/// A floating-point number is held as the decimal text that stands for it
/// (for instance `1.5` or `2e10`); the library reads and writes that text and
/// never computes with the number itself.
#[derive(Debug, PartialEq)]
pub enum Value {
    Null,
    Bool(bool),
    Integer(i64),
    Float(String),
    String(String),
    Array(Vec<Value>),
    Object(SconMap),
}

/// An object: key/value entries in insertion order, held in an `IndexMap`.
/// Inserting a key that is already present replaces its value and keeps its
/// place.  Two objects are equal where they hold the same keys with equal
/// values, in any order.
#[verifier::external_body]
#[derive(Debug, PartialEq)]
pub struct SconMap {
    map: indexmap::IndexMap<compact_str::CompactString, Value, ahash::RandomState>,
}

/// The entries of an object, in their order: each key with the view of its
/// value.
pub uninterp spec fn object_entries(m: SconMap) -> Seq<(Seq<char>, SpecValue)>;

/// The mathematical model of a [`Value`].
pub enum SpecValue {
    Null,
    Bool(bool),
    Integer(i64),
    Float(Seq<char>),
    Str(Seq<char>),
    Array(Seq<SpecValue>),
    Object(Seq<(Seq<char>, SpecValue)>),
}

pub open spec fn view_value(v: Value) -> SpecValue
    decreases v,
{
    match v {
        Value::Null => SpecValue::Null,
        Value::Bool(b) => SpecValue::Bool(b),
        Value::Integer(n) => SpecValue::Integer(n),
        Value::Float(s) => SpecValue::Float(s@),
        Value::String(s) => SpecValue::Str(s@),
        Value::Array(a) => SpecValue::Array(view_values(a@)),
        Value::Object(m) => SpecValue::Object(object_entries(m)),
    }
}

pub open spec fn view_values(s: Seq<Value>) -> Seq<SpecValue>
    decreases s,
{
    if s.len() == 0 {
        Seq::empty()
    } else {
        seq![view_value(s[0])] + view_values(s.drop_first())
    }
}

impl View for Value {
    type V = SpecValue;

    open spec fn view(&self) -> SpecValue {
        view_value(*self)
    }
}

impl View for SconMap {
    type V = Seq<(Seq<char>, SpecValue)>;

    open spec fn view(&self) -> Seq<(Seq<char>, SpecValue)> {
        object_entries(*self)
    }
}

/// The view of a sequence of values has its length, and its `i`-th element is
/// the view of the `i`-th value.
pub proof fn lemma_view_values(s: Seq<Value>)
    ensures
        view_values(s).len() == s.len(),
        forall|i: int| 0 <= i < s.len() ==> #[trigger] view_values(s)[i] == view_value(s[i]),
    decreases s.len(),
{
    if s.len() > 0 {
        lemma_view_values(s.drop_first());
        assert forall|i: int| 0 <= i < s.len() implies #[trigger] view_values(s)[i] == view_value(
            s[i],
        ) by {
            if i > 0 {
                assert(s.drop_first()[i - 1] == s[i]);
            }
        }
    }
}

/// Appending a value appends its view.
pub proof fn lemma_view_values_push(s: Seq<Value>, v: Value)
    ensures
        view_values(s.push(v)) == view_values(s).push(view_value(v)),
{
    lemma_view_values(s);
    lemma_view_values(s.push(v));
    assert(view_values(s.push(v)) =~= view_values(s).push(view_value(v)));
}

impl SpecValue {
    /// Null, booleans, numbers and strings.
    pub open spec fn is_primitive(self) -> bool {
        match self {
            SpecValue::Array(_) | SpecValue::Object(_) => false,
            _ => true,
        }
    }
}

/// The index of the first entry whose key is `k`, searching from `i`, or -1.
pub open spec fn key_index_from(m: Seq<(Seq<char>, SpecValue)>, k: Seq<char>, i: int) -> int
    decreases m.len() - i,
{
    if i < 0 || i >= m.len() {
        -1
    } else if m[i].0 == k {
        i
    } else {
        key_index_from(m, k, i + 1)
    }
}

/// The index of the entry whose key is `k`, or -1.
pub open spec fn key_index(m: Seq<(Seq<char>, SpecValue)>, k: Seq<char>) -> int {
    key_index_from(m, k, 0)
}

/// The value that an object holds under `k`.
pub open spec fn map_get(m: Seq<(Seq<char>, SpecValue)>, k: Seq<char>) -> Option<SpecValue> {
    let i = key_index(m, k);
    if i >= 0 {
        Some(m[i].1)
    } else {
        None
    }
}

/// Inserting `k` with `v`: the value of an existing key is replaced in its place;
/// a new key is appended.
pub open spec fn map_insert(m: Seq<(Seq<char>, SpecValue)>, k: Seq<char>, v: SpecValue) -> Seq<
    (Seq<char>, SpecValue),
> {
    let i = key_index(m, k);
    if i >= 0 {
        m.update(i, (k, v))
    } else {
        m.push((k, v))
    }
}

/// No key occurs twice.
pub open spec fn distinct_keys(m: Seq<(Seq<char>, SpecValue)>) -> bool {
    forall|i: int, j: int| 0 <= i < j < m.len() ==> m[i].0 != m[j].0
}

pub proof fn lemma_key_index_from(m: Seq<(Seq<char>, SpecValue)>, k: Seq<char>, i: int)
    requires
        0 <= i,
    ensures
        key_index_from(m, k, i) == -1 || (i <= key_index_from(m, k, i) < m.len() && m[key_index_from(
            m,
            k,
            i,
        )].0 == k),
        key_index_from(m, k, i) == -1 ==> forall|j: int| i <= j < m.len() ==> m[j].0 != k,
        key_index_from(m, k, i) != -1 ==> forall|j: int|
            i <= j < key_index_from(m, k, i) ==> m[j].0 != k,
    decreases m.len() - i,
{
    if i < m.len() && m[i].0 != k {
        lemma_key_index_from(m, k, i + 1);
    }
}

/// Inserting into an object without repeated keys gives an object without
/// repeated keys, whose value under the inserted key is the inserted value.
pub proof fn lemma_map_insert(m: Seq<(Seq<char>, SpecValue)>, k: Seq<char>, v: SpecValue)
    requires
        distinct_keys(m),
    ensures
        distinct_keys(map_insert(m, k, v)),
        map_get(map_insert(m, k, v), k) == Some(v),
{
    lemma_key_index_from(m, k, 0);
    let r = map_insert(m, k, v);
    lemma_key_index_from(r, k, 0);
    let i = key_index(m, k);
    let j = key_index(r, k);
    if i >= 0 {
        assert(r[i].0 == k);
        if j != i {
            if j == -1 {
                assert(false);
            } else if j < i {
                assert(r[j] == m[j]);
                assert(false);
            } else {
                assert(false);
            }
        }
        assert forall|a: int, b: int| 0 <= a < b < r.len() implies r[a].0 != r[b].0 by {
            if a != i && b != i {
                assert(r[a] == m[a] && r[b] == m[b]);
            } else if a == i {
                assert(m[a].0 == k);
                assert(r[b] == m[b]);
            } else {
                assert(m[b].0 == k);
                assert(r[a] == m[a]);
            }
        }
    } else {
        assert(r[m.len() as int].0 == k);
        if j != m.len() {
            if j == -1 {
                assert(false);
            } else {
                assert(r[j] == m[j]);
                assert(false);
            }
        }
        assert forall|a: int, b: int| 0 <= a < b < r.len() implies r[a].0 != r[b].0 by {
            if b < m.len() {
                assert(r[a] == m[a] && r[b] == m[b]);
            } else {
                assert(r[a] == m[a]);
            }
        }
    }
}

/// The keys of an object, in order.
pub open spec fn keys_in_order(m: Seq<(Seq<char>, SpecValue)>) -> Seq<Seq<char>> {
    m.map_values(|e: (Seq<char>, SpecValue)| e.0)
}

/// Inserting a key leaves the values of the other keys as they were, and keeps
/// the order of the keys: a present key stays in its place, a new key comes last.
pub proof fn lemma_map_insert_others(
    m: Seq<(Seq<char>, SpecValue)>,
    k: Seq<char>,
    v: SpecValue,
    k2: Seq<char>,
)
    requires
        k2 != k,
    ensures
        map_get(map_insert(m, k, v), k2) == map_get(m, k2),
        keys_in_order(map_insert(m, k, v)) == (if map_get(m, k) is Some {
            keys_in_order(m)
        } else {
            keys_in_order(m).push(k)
        }),
{
    lemma_key_index_from(m, k, 0);
    lemma_key_index_from(m, k2, 0);
    let r = map_insert(m, k, v);
    lemma_key_index_from(r, k2, 0);
    let i = key_index(m, k);
    let j = key_index(m, k2);
    let j2 = key_index(r, k2);
    if i >= 0 {
        assert(r.len() == m.len());
        assert forall|a: int| 0 <= a < r.len() && a != i implies r[a] == m[a] by {}
        if j >= 0 {
            assert(j != i);
            if j2 != j {
                if j2 == -1 {
                    assert(r[j] == m[j]);
                } else if j2 < j {
                    if j2 == i {
                        assert(r[i].0 == k);
                    } else {
                        assert(r[j2] == m[j2]);
                    }
                } else {
                    assert(r[j] == m[j]);
                }
            }
        } else {
            if j2 != -1 {
                if j2 == i {
                    assert(r[i].0 == k);
                } else {
                    assert(r[j2] == m[j2]);
                }
            }
        }
        assert(keys_in_order(r) =~= keys_in_order(m));
    } else {
        assert(r == m.push((k, v)));
        if j >= 0 {
            if j2 != j {
                if j2 == -1 {
                    assert(r[j] == m[j]);
                } else if j2 < j {
                    assert(r[j2] == m[j2]);
                } else {
                    assert(r[j] == m[j]);
                }
            }
        } else {
            if j2 != -1 {
                if j2 < m.len() {
                    assert(r[j2] == m[j2]);
                } else {
                    assert(r[j2].0 == k);
                }
            }
        }
        assert(keys_in_order(r) =~= keys_in_order(m).push(k));
    }
}

/// An object whose keys are all distinct, at every depth.
pub open spec fn well_formed(v: SpecValue) -> bool
    decreases v,
{
    match v {
        SpecValue::Array(a) => forall|i: int| 0 <= i < a.len() ==> well_formed(#[trigger] a[i]),
        SpecValue::Object(m) => distinct_keys(m) && forall|i: int|
            0 <= i < m.len() ==> well_formed(#[trigger] m[i].1),
        _ => true,
    }
}

impl Value {
    /// Null, booleans, numbers and strings.
    pub fn is_primitive(&self) -> (r: bool)
        ensures
            r == self@.is_primitive(),
    {
        match self {
            Value::Array(_) | Value::Object(_) => false,
            _ => true,
        }
    }
}

impl SconMap {
    /// An empty map (`IndexMap::with_hasher`).
    #[verifier::external_body]
    fn im_new() -> (m: SconMap)
        ensures
            object_entries(m) == Seq::<(Seq<char>, SpecValue)>::empty(),
    {
        SconMap { map: indexmap::IndexMap::with_hasher(ahash::RandomState::new()) }
    }

    /// The number of entries (`IndexMap::len`).
    #[verifier::external_body]
    fn im_len(&self) -> (n: usize)
        ensures
            n == object_entries(*self).len(),
    {
        self.map.len()
    }

    /// The `i`-th entry (`IndexMap::get_index`).
    #[verifier::external_body]
    fn im_get_index(&self, i: usize) -> (r: (&str, &Value))
        requires
            i < object_entries(*self).len(),
        ensures
            (r.0@, r.1@) == object_entries(*self)[i as int],
    {
        let (k, v) = self.map.get_index(i).unwrap();
        (k.as_str(), v)
    }

    /// The position of `key` (`IndexMap::get_index_of`).
    #[verifier::external_body]
    fn im_get_index_of(&self, key: &str) -> (r: Option<usize>)
        ensures
            match r {
                Some(i) => i as int == key_index(object_entries(*self), key@),
                None => key_index(object_entries(*self), key@) == -1,
            },
    {
        self.map.get_index_of(key)
    }

    /// Inserts `value` under `key` (`IndexMap::insert`): a present key keeps
    /// its place and takes the value, a new key goes last.
    #[verifier::external_body]
    fn im_insert(&mut self, key: String, value: Value)
        ensures
            object_entries(*final(self)) == map_insert(object_entries(*old(self)), key@, value@),
    {
        self.map.insert(compact_str::CompactString::from(key), value);
    }

    /// An empty object.
    pub fn new() -> (m: SconMap)
        ensures
            m@ == Seq::<(Seq<char>, SpecValue)>::empty(),
            distinct_keys(m@),
    {
        SconMap::im_new()
    }

    /// The number of entries.
    pub fn len(&self) -> (n: usize)
        ensures
            n == self@.len(),
    {
        self.im_len()
    }

    /// Whether the object has no entry.
    pub fn is_empty(&self) -> (b: bool)
        ensures
            b == (self@.len() == 0),
    {
        self.im_len() == 0
    }

    /// The `i`-th entry: its key and its value.
    pub fn entry(&self, i: usize) -> (r: (&str, &Value))
        requires
            i < self@.len(),
        ensures
            (r.0@, r.1@) == self@[i as int],
    {
        self.im_get_index(i)
    }

    /// The position of `key`, if it is present.
    pub fn index_of(&self, key: &str) -> (r: Option<usize>)
        ensures
            match r {
                Some(i) => i as int == key_index(self@, key@) && i < self@.len(),
                None => key_index(self@, key@) == -1,
            },
    {
        proof {
            lemma_key_index_from(self@, key@, 0);
        }
        self.im_get_index_of(key)
    }

    /// The value held under `key`.
    pub fn get(&self, key: &str) -> (r: Option<&Value>)
        ensures
            match r {
                Some(v) => map_get(self@, key@) == Some(v@),
                None => map_get(self@, key@) is None,
            },
    {
        match self.index_of(key) {
            Some(i) => {
                let (_k, v) = self.entry(i);
                Some(v)
            },
            None => None,
        }
    }

    /// Insert `value` under `key`: an existing key keeps its place and takes the
    /// new value; a new key goes last.  An object with no repeated key keeps
    /// having none.
    pub fn insert(&mut self, key: String, value: Value)
        ensures
            final(self)@ == map_insert(old(self)@, key@, value@),
            distinct_keys(old(self)@) ==> distinct_keys(final(self)@),
    {
        proof {
            if distinct_keys(self@) {
                lemma_map_insert(self@, key@, value@);
            }
        }
        self.im_insert(key, value);
    }
}

} // verus!
