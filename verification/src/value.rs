//! The TOML value tree and its mathematical model.
//!
//! A [`TomlValue`] is an executable tree whose tables are vectors of
//! `(key, value)` entries with pairwise distinct keys.  Its model,
//! [`TomlModel`], forgets the order of table entries: a table is a map from
//! key text to model.  Floats and datetimes are carried as their text.

use vstd::prelude::*;
use crate::text::str_eq;

verus! {

/// One TOML value.
#[derive(Debug, PartialEq)]
pub enum TomlValue {
    /// A string.
    String(String),
    /// A 64-bit signed integer.
    Integer(i64),
    /// A floating-point number, held as its decimal text.
    Float(String),
    /// A boolean.
    Boolean(bool),
    /// A date/time, held as its RFC 3339 text.
    Datetime(String),
    /// An array of values.
    Array(Vec<TomlValue>),
    /// A table: entries with pairwise distinct keys.
    Table(Vec<(String, TomlValue)>),
}

/// The mathematical model of a TOML value.
pub enum TomlModel {
    Str(Seq<char>),
    Int(int),
    Float(Seq<char>),
    Bool(bool),
    Datetime(Seq<char>),
    Array(Seq<TomlModel>),
    Table(Map<Seq<char>, TomlModel>),
}

/// The keys of the entries are pairwise distinct.
pub open spec fn keys_distinct(e: Seq<(String, TomlValue)>) -> bool {
    forall|i: int, j: int| 0 <= i < e.len() && 0 <= j < e.len() && i != j ==> e[i].0@ != e[j].0@
}

/// Every table in the tree has pairwise distinct keys.
pub open spec fn value_wf(v: TomlValue) -> bool
    decreases v,
{
    match v {
        TomlValue::Array(a) => array_wf(a@),
        TomlValue::Table(t) => keys_distinct(t@) && entries_wf(t@),
        _ => true,
    }
}

/// Every element of the array is well formed.
pub open spec fn array_wf(s: Seq<TomlValue>) -> bool
    decreases s,
{
    if s.len() == 0 {
        true
    } else {
        array_wf(s.drop_last()) && value_wf(s.last())
    }
}

/// Every entry value is well formed.
pub open spec fn entries_wf(s: Seq<(String, TomlValue)>) -> bool
    decreases s,
{
    if s.len() == 0 {
        true
    } else {
        entries_wf(s.drop_last()) && value_wf(s.last().1)
    }
}

/// The models of the elements of an array.
pub open spec fn array_models(s: Seq<TomlValue>) -> Seq<TomlModel>
    decreases s,
{
    if s.len() == 0 {
        Seq::empty()
    } else {
        array_models(s.drop_last()).push(model_of(s.last()))
    }
}

/// The map from key text to model that a sequence of table entries denotes
/// (a later entry for the same key wins).
pub open spec fn entries_map(e: Seq<(String, TomlValue)>) -> Map<Seq<char>, TomlModel>
    decreases e,
{
    if e.len() == 0 {
        Map::empty()
    } else {
        entries_map(e.drop_last()).insert(e.last().0@, model_of(e.last().1))
    }
}

/// The model of a value.
pub open spec fn model_of(v: TomlValue) -> TomlModel
    decreases v,
{
    match v {
        TomlValue::String(s) => TomlModel::Str(s@),
        TomlValue::Integer(i) => TomlModel::Int(i as int),
        TomlValue::Float(s) => TomlModel::Float(s@),
        TomlValue::Boolean(b) => TomlModel::Bool(b),
        TomlValue::Datetime(s) => TomlModel::Datetime(s@),
        TomlValue::Array(a) => TomlModel::Array(array_models(a@)),
        TomlValue::Table(t) => TomlModel::Table(entries_map(t@)),
    }
}

impl View for TomlValue {
    type V = TomlModel;

    open spec fn view(&self) -> TomlModel {
        model_of(*self)
    }
}

/// The model is a table.
pub open spec fn is_table(m: TomlModel) -> bool {
    m is Table
}

/// The entries of a table model (the empty map for any other model).
pub open spec fn table_of(m: TomlModel) -> Map<Seq<char>, TomlModel> {
    match m {
        TomlModel::Table(t) => t,
        _ => Map::empty(),
    }
}

// ---------------------------------------------------------------------------
// Lemmas about the entry map
// ---------------------------------------------------------------------------

/// A key is in the entry map exactly when some entry carries it.
pub proof fn lemma_entries_map_dom(e: Seq<(String, TomlValue)>, k: Seq<char>)
    ensures
        entries_map(e).contains_key(k) <==> exists|i: int| 0 <= i < e.len() && #[trigger] e[i].0@ == k,
    decreases e.len(),
{
    if e.len() > 0 {
        lemma_entries_map_dom(e.drop_last(), k);
        if entries_map(e.drop_last()).contains_key(k) {
            let i = choose|i: int| 0 <= i < e.drop_last().len() && #[trigger] e.drop_last()[i].0@ == k;
            assert(e[i].0@ == k);
        }
        if exists|i: int| 0 <= i < e.len() && #[trigger] e[i].0@ == k {
            let i = choose|i: int| 0 <= i < e.len() && #[trigger] e[i].0@ == k;
            if i < e.len() - 1 {
                assert(e.drop_last()[i].0@ == k);
            }
        }
    }
}

/// With distinct keys, the entry map sends each entry's key to that entry's model.
pub proof fn lemma_entries_map_index(e: Seq<(String, TomlValue)>, i: int)
    requires
        keys_distinct(e),
        0 <= i < e.len(),
    ensures
        entries_map(e).contains_key(e[i].0@),
        entries_map(e)[e[i].0@] == model_of(e[i].1),
    decreases e.len(),
{
    if i < e.len() - 1 {
        assert(keys_distinct(e.drop_last()));
        lemma_entries_map_index(e.drop_last(), i);
        assert(e.drop_last()[i] == e[i]);
        assert(e.last().0@ != e[i].0@);
    }
}

/// Replacing the value of an entry updates the entry map at that key.
pub proof fn lemma_entries_map_update(e: Seq<(String, TomlValue)>, i: int, p: (String, TomlValue))
    requires
        keys_distinct(e),
        0 <= i < e.len(),
        p.0@ == e[i].0@,
    ensures
        keys_distinct(e.update(i, p)),
        entries_map(e.update(i, p)) == entries_map(e).insert(p.0@, model_of(p.1)),
    decreases e.len(),
{
    let u = e.update(i, p);
    assert(keys_distinct(u)) by {
        assert forall|a: int, b: int| 0 <= a < u.len() && 0 <= b < u.len() && a != b implies u[a].0@ != u[b].0@ by {
            if a != i && b != i {
                assert(u[a] == e[a] && u[b] == e[b]);
            } else if a == i {
                assert(u[b] == e[b]);
            } else {
                assert(u[a] == e[a]);
            }
        }
    }
    if i == e.len() - 1 {
        assert(u.drop_last() =~= e.drop_last());
        assert(entries_map(u) =~= entries_map(e).insert(p.0@, model_of(p.1)));
    } else {
        assert(keys_distinct(e.drop_last()));
        lemma_entries_map_update(e.drop_last(), i, p);
        assert(u.drop_last() =~= e.drop_last().update(i, p));
        assert(u.last() == e.last());
        assert(e.last().0@ != p.0@);
        assert(entries_map(u) =~= entries_map(e).insert(p.0@, model_of(p.1)));
    }
}

/// Appending an entry with a fresh key keeps the keys distinct.
pub proof fn lemma_push_fresh(e: Seq<(String, TomlValue)>, p: (String, TomlValue))
    requires
        keys_distinct(e),
        forall|i: int| 0 <= i < e.len() ==> #[trigger] e[i].0@ != p.0@,
    ensures
        keys_distinct(e.push(p)),
        entries_map(e.push(p)) == entries_map(e).insert(p.0@, model_of(p.1)),
{
    let u = e.push(p);
    assert(u.drop_last() =~= e);
    assert forall|a: int, b: int| 0 <= a < u.len() && 0 <= b < u.len() && a != b implies u[a].0@ != u[b].0@ by {
        if a < e.len() && b < e.len() {
            assert(u[a] == e[a] && u[b] == e[b]);
        } else if a == e.len() {
            assert(u[b] == e[b]);
        } else {
            assert(u[a] == e[a]);
        }
    }
}

/// Entry well-formedness, element by element.
pub proof fn lemma_entries_wf_index(e: Seq<(String, TomlValue)>)
    ensures
        entries_wf(e) <==> forall|i: int| 0 <= i < e.len() ==> value_wf(#[trigger] e[i].1),
    decreases e.len(),
{
    if e.len() > 0 {
        lemma_entries_wf_index(e.drop_last());
        if entries_wf(e) {
            assert forall|i: int| 0 <= i < e.len() implies value_wf(#[trigger] e[i].1) by {
                if i < e.len() - 1 {
                    assert(e.drop_last()[i] == e[i]);
                }
            }
        }
        if forall|i: int| 0 <= i < e.len() ==> value_wf(#[trigger] e[i].1) {
            assert forall|i: int| 0 <= i < e.drop_last().len() implies value_wf(#[trigger] e.drop_last()[i].1) by {
                assert(e.drop_last()[i] == e[i]);
            }
        }
    }
}

/// Array well-formedness, element by element.
pub proof fn lemma_array_wf_index(s: Seq<TomlValue>)
    ensures
        array_wf(s) <==> forall|i: int| 0 <= i < s.len() ==> value_wf(#[trigger] s[i]),
    decreases s.len(),
{
    if s.len() > 0 {
        lemma_array_wf_index(s.drop_last());
        if array_wf(s) {
            assert forall|i: int| 0 <= i < s.len() implies value_wf(#[trigger] s[i]) by {
                if i < s.len() - 1 {
                    assert(s.drop_last()[i] == s[i]);
                }
            }
        }
        if forall|i: int| 0 <= i < s.len() ==> value_wf(#[trigger] s[i]) {
            assert forall|i: int| 0 <= i < s.drop_last().len() implies value_wf(#[trigger] s.drop_last()[i]) by {
                assert(s.drop_last()[i] == s[i]);
            }
        }
    }
}

/// Array models, element by element.
pub proof fn lemma_array_models_index(s: Seq<TomlValue>)
    ensures
        array_models(s).len() == s.len(),
        forall|i: int| 0 <= i < s.len() ==> #[trigger] array_models(s)[i] == model_of(s[i]),
    decreases s.len(),
{
    if s.len() > 0 {
        lemma_array_models_index(s.drop_last());
        assert forall|i: int| 0 <= i < s.len() implies #[trigger] array_models(s)[i] == model_of(s[i]) by {
            if i < s.len() - 1 {
                assert(s.drop_last()[i] == s[i]);
            }
        }
    }
}

/// Entries with the same keys and models, position by position, denote the
/// same map, and keep keys distinct.
pub proof fn lemma_entries_same(a: Seq<(String, TomlValue)>, b: Seq<(String, TomlValue)>)
    requires
        a.len() == b.len(),
        forall|k: int| 0 <= k < a.len() ==> (#[trigger] a[k]).0@ == b[k].0@ && model_of(a[k].1) == model_of(b[k].1),
    ensures
        entries_map(a) == entries_map(b),
        keys_distinct(a) ==> keys_distinct(b),
    decreases a.len(),
{
    if a.len() > 0 {
        lemma_entries_same(a.drop_last(), b.drop_last());
        assert(a.last() == a[a.len() - 1]);
    }
    if keys_distinct(a) {
        assert forall|i: int, j: int| 0 <= i < b.len() && 0 <= j < b.len() && i != j implies b[i].0@ != b[j].0@ by {
            assert(a[i].0@ == b[i].0@ && a[j].0@ == b[j].0@);
        }
    }
}

/// Arrays with the same models, position by position, have the same models.
pub proof fn lemma_arrays_same(a: Seq<TomlValue>, b: Seq<TomlValue>)
    requires
        a.len() == b.len(),
        forall|k: int| 0 <= k < a.len() ==> model_of(#[trigger] a[k]) == model_of(b[k]),
    ensures
        array_models(a) == array_models(b),
    decreases a.len(),
{
    if a.len() > 0 {
        lemma_arrays_same(a.drop_last(), b.drop_last());
        assert(a.last() == a[a.len() - 1]);
    }
}

/// A copy of `v` with the same model.
pub fn copy_value(v: &TomlValue) -> (r: TomlValue)
    requires
        value_wf(*v),
    ensures
        r@ == v@,
        value_wf(r),
    decreases v,
{
    let ghost vv = *v;
    match v {
        TomlValue::String(s) => TomlValue::String(s.clone()),
        TomlValue::Integer(i) => TomlValue::Integer(*i),
        TomlValue::Float(s) => TomlValue::Float(s.clone()),
        TomlValue::Boolean(b) => TomlValue::Boolean(*b),
        TomlValue::Datetime(s) => TomlValue::Datetime(s.clone()),
        TomlValue::Array(a) => {
            proof {
                lemma_array_wf_index(a@);
            }
            let mut out: Vec<TomlValue> = Vec::new();
            let mut i: usize = 0;
            while i < a.len()
                invariant
                    i <= a@.len(),
                    out@.len() == i,
                    forall|k: int| 0 <= k < a@.len() ==> value_wf(#[trigger] a@[k]),
                    forall|k: int| 0 <= k < i ==> model_of(#[trigger] out@[k]) == model_of(a@[k]) && value_wf(out@[k]),
                    vv == *v,
                    vv matches TomlValue::Array(ve) && ve@ == a@,
                decreases a@.len() - i,
            {
                proof {
                    let ve = match vv { TomlValue::Array(ve) => ve, _ => arbitrary() };
                    assert(decreases_to!(vv => ve));
                    assert(decreases_to!(ve => ve@));
                    assert(decreases_to!(ve@ => ve@[i as int]));
                    assert(decreases_to!(vv => a@[i as int]));
                }
                let c = copy_value(&a[i]);
                out.push(c);
                i = i + 1;
            }
            proof {
                lemma_arrays_same(out@, a@);
                lemma_array_wf_index(out@);
            }
            TomlValue::Array(out)
        },
        TomlValue::Table(t) => {
            proof {
                lemma_entries_wf_index(t@);
            }
            let mut out: Vec<(String, TomlValue)> = Vec::new();
            let mut i: usize = 0;
            while i < t.len()
                invariant
                    i <= t@.len(),
                    out@.len() == i,
                    forall|k: int| 0 <= k < t@.len() ==> value_wf(#[trigger] t@[k].1),
                    forall|k: int| 0 <= k < i ==> (#[trigger] out@[k]).0@ == t@[k].0@ && model_of(out@[k].1) == model_of(t@[k].1) && value_wf(out@[k].1),
                    vv == *v,
                    vv matches TomlValue::Table(ve) && ve@ == t@,
                decreases t@.len() - i,
            {
                proof {
                    let ve = match vv { TomlValue::Table(ve) => ve, _ => arbitrary() };
                    assert(decreases_to!(vv => ve));
                    assert(decreases_to!(ve => ve@));
                    assert(decreases_to!(ve@ => ve@[i as int]));
                    assert(decreases_to!(ve@[i as int] => ve@[i as int].1));
                    assert(decreases_to!(vv => t@[i as int].1));
                }
                let c = copy_value(&t[i].1);
                out.push((t[i].0.clone(), c));
                i = i + 1;
            }
            proof {
                lemma_entries_same(t@, out@);
                lemma_entries_wf_index(out@);
            }
            TomlValue::Table(out)
        },
    }
}

// ---------------------------------------------------------------------------
// Executable table helpers
// ---------------------------------------------------------------------------

/// The index of the entry whose key is `key`, if any.
pub fn find_key(entries: &Vec<(String, TomlValue)>, key: &str) -> (r: Option<usize>)
    ensures
        r matches Some(i) ==> i < entries@.len() && entries@[i as int].0@ == key@,
        r is None ==> forall|i: int| 0 <= i < entries@.len() ==> #[trigger] entries@[i].0@ != key@,
{
    let n = entries.len();
    let mut i: usize = 0;
    while i < n
        invariant
            n == entries@.len(),
            i <= n,
            forall|j: int| 0 <= j < i ==> #[trigger] entries@[j].0@ != key@,
        decreases n - i,
    {
        if str_eq(entries[i].0.as_str(), key) {
            return Some(i);
        }
        i = i + 1;
    }
    None
}

impl TomlValue {
    /// An empty table.
    pub fn new_table() -> (r: TomlValue)
        ensures
            value_wf(r),
            r@ == TomlModel::Table(Map::empty()),
    {
        let r = TomlValue::Table(Vec::new());
        assert(entries_map(Seq::<(String, TomlValue)>::empty()) =~= Map::empty());
        r
    }

    /// The value stored under `key`, when `self` is a table that has it.
    pub fn get(&self, key: &str) -> (r: Option<&TomlValue>)
        requires
            value_wf(*self),
        ensures
            r is Some <==> (is_table(self@) && table_of(self@).contains_key(key@)),
            r matches Some(v) ==> (v@ == table_of(self@)[key@] && value_wf(*v)),
    {
        match self {
            TomlValue::Table(entries) => {
                proof {
                    lemma_entries_map_dom(entries@, key@);
                    lemma_entries_wf_index(entries@);
                }
                match find_key(entries, key) {
                    Some(i) => {
                        proof {
                            lemma_entries_map_index(entries@, i as int);
                        }
                        Some(&entries[i].1)
                    },
                    None => None,
                }
            },
            _ => None,
        }
    }

    /// The text of a string value.
    pub fn as_str(&self) -> (r: Option<&str>)
        ensures
            r matches Some(s) ==> self@ == TomlModel::Str(s@),
            r is None <==> !(self@ is Str),
    {
        match self {
            TomlValue::String(s) => Some(s.as_str()),
            _ => None,
        }
    }

    /// The number held by an integer value.
    pub fn as_integer(&self) -> (r: Option<i64>)
        ensures
            r matches Some(n) ==> self@ == TomlModel::Int(n as int),
            r is None <==> !(self@ is Int),
    {
        match self {
            TomlValue::Integer(n) => Some(*n),
            _ => None,
        }
    }

    /// The flag held by a boolean value.
    pub fn as_bool(&self) -> (r: Option<bool>)
        ensures
            r matches Some(b) ==> self@ == TomlModel::Bool(b),
            r is None <==> !(self@ is Bool),
    {
        match self {
            TomlValue::Boolean(b) => Some(*b),
            _ => None,
        }
    }

    /// The elements of an array value.
    pub fn as_array(&self) -> (r: Option<&Vec<TomlValue>>)
        ensures
            r matches Some(a) ==> self@ == TomlModel::Array(array_models(a@)),
            r is None <==> !(self@ is Array),
    {
        match self {
            TomlValue::Array(a) => Some(a),
            _ => None,
        }
    }

    /// The entries of a table value.
    pub fn as_table(&self) -> (r: Option<&Vec<(String, TomlValue)>>)
        ensures
            r matches Some(t) ==> self@ == TomlModel::Table(entries_map(t@)),
            r is None <==> !(self@ is Table),
    {
        match self {
            TomlValue::Table(t) => Some(t),
            _ => None,
        }
    }

    /// Whether the value is a table.
    pub fn is_table(&self) -> (r: bool)
        ensures
            r == is_table(self@),
    {
        match self {
            TomlValue::Table(_) => true,
            _ => false,
        }
    }
}

} // verus!
