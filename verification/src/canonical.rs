//! Canonical key order of TOML values, and the detection of keys a typed
//! configuration does not know.

use vstd::prelude::*;
use crate::value::{
    TomlValue, TomlModel, value_wf, keys_distinct, entries_wf, entries_map, array_wf, model_of,
    array_models, lemma_entries_map_dom, lemma_entries_map_index, lemma_entries_wf_index,
    lemma_array_wf_index, lemma_arrays_same, table_of, is_table,
};
use crate::order::{lex_le, lemma_lex_total, lemma_lex_antisym, lemma_lex_trans, lex_le_chars};
use crate::text::{chars_of, push_char, push_str, push_dec, dec_text, owned};
use crate::merge::{child_path, make_child_path};

verus! {

/// Every table in the tree lists its keys in strictly increasing order.
pub open spec fn value_sorted(v: TomlValue) -> bool
    decreases v,
{
    match v {
        TomlValue::Array(a) => array_sorted(a@),
        TomlValue::Table(t) => keys_increasing(t@) && entries_sorted(t@),
        _ => true,
    }
}

/// Every element of the array is sorted.
pub open spec fn array_sorted(s: Seq<TomlValue>) -> bool
    decreases s,
{
    if s.len() == 0 {
        true
    } else {
        array_sorted(s.drop_last()) && value_sorted(s.last())
    }
}

/// Every entry value is sorted.
pub open spec fn entries_sorted(s: Seq<(String, TomlValue)>) -> bool
    decreases s,
{
    if s.len() == 0 {
        true
    } else {
        entries_sorted(s.drop_last()) && value_sorted(s.last().1)
    }
}

/// The keys increase strictly.
pub open spec fn keys_increasing(e: Seq<(String, TomlValue)>) -> bool {
    forall|a: int, b: int| 0 <= a < b < e.len() ==> lex_le(e[a].0@, e[b].0@) && e[a].0@ != e[b].0@
}

proof fn lemma_entries_sorted_index(e: Seq<(String, TomlValue)>)
    ensures
        entries_sorted(e) <==> forall|i: int| 0 <= i < e.len() ==> value_sorted(#[trigger] e[i].1),
    decreases e.len(),
{
    if e.len() > 0 {
        lemma_entries_sorted_index(e.drop_last());
        if entries_sorted(e) {
            assert forall|i: int| 0 <= i < e.len() implies value_sorted(#[trigger] e[i].1) by {
                if i < e.len() - 1 {
                    assert(e.drop_last()[i] == e[i]);
                }
            }
        }
        if forall|i: int| 0 <= i < e.len() ==> value_sorted(#[trigger] e[i].1) {
            assert forall|i: int| 0 <= i < e.drop_last().len() implies value_sorted(#[trigger] e.drop_last()[i].1) by {
                assert(e.drop_last()[i] == e[i]);
            }
        }
    }
}

proof fn lemma_array_sorted_index(s: Seq<TomlValue>)
    ensures
        array_sorted(s) <==> forall|i: int| 0 <= i < s.len() ==> value_sorted(#[trigger] s[i]),
    decreases s.len(),
{
    if s.len() > 0 {
        lemma_array_sorted_index(s.drop_last());
        if array_sorted(s) {
            assert forall|i: int| 0 <= i < s.len() implies value_sorted(#[trigger] s[i]) by {
                if i < s.len() - 1 {
                    assert(s.drop_last()[i] == s[i]);
                }
            }
        }
        if forall|i: int| 0 <= i < s.len() ==> value_sorted(#[trigger] s[i]) {
            assert forall|i: int| 0 <= i < s.drop_last().len() implies value_sorted(#[trigger] s.drop_last()[i]) by {
                assert(s.drop_last()[i] == s[i]);
            }
        }
    }
}

/// Inserting an entry with a fresh key anywhere adds that key to the map.
proof fn lemma_insert_fresh(e: Seq<(String, TomlValue)>, p: int, x: (String, TomlValue))
    requires
        keys_distinct(e),
        0 <= p <= e.len(),
        forall|i: int| 0 <= i < e.len() ==> #[trigger] e[i].0@ != x.0@,
    ensures
        keys_distinct(e.insert(p, x)),
        entries_map(e.insert(p, x)) == entries_map(e).insert(x.0@, model_of(x.1)),
{
    let u = e.insert(p, x);
    e.insert_ensures(p, x);
    assert(keys_distinct(u)) by {
        assert forall|a: int, b: int| 0 <= a < u.len() && 0 <= b < u.len() && a != b implies u[a].0@ != u[b].0@ by {
            let ia = if a < p { a } else if a == p { -1 } else { a - 1 };
            let ib = if b < p { b } else if b == p { -1 } else { b - 1 };
            if ia >= 0 {
                assert(u[a] == e[ia]);
            }
            if ib >= 0 {
                assert(u[b] == e[ib]);
            }
        }
    }
    let m = entries_map(e).insert(x.0@, model_of(x.1));
    assert forall|k: Seq<char>| entries_map(u).contains_key(k) <==> m.contains_key(k) by {
        lemma_entries_map_dom(u, k);
        lemma_entries_map_dom(e, k);
        if entries_map(u).contains_key(k) {
            let i = choose|i: int| 0 <= i < u.len() && #[trigger] u[i].0@ == k;
            if i < p {
                assert(u[i] == e[i]);
            } else if i > p {
                assert(u[i] == e[i - 1]);
            }
        }
        if entries_map(e).contains_key(k) {
            let i = choose|i: int| 0 <= i < e.len() && #[trigger] e[i].0@ == k;
            if i < p {
                assert(u[i] == e[i]);
            } else {
                assert(u[i + 1] == e[i]);
            }
        }
        if k == x.0@ {
            assert(u[p] == x);
        }
    }
    assert forall|k: Seq<char>| #[trigger] entries_map(u).contains_key(k) implies entries_map(u)[k] == m[k] by {
        lemma_entries_map_dom(u, k);
        let i = choose|i: int| 0 <= i < u.len() && #[trigger] u[i].0@ == k;
        lemma_entries_map_index(u, i);
        if i < p {
            assert(u[i] == e[i]);
            lemma_entries_map_index(e, i);
        } else if i > p {
            assert(u[i] == e[i - 1]);
            lemma_entries_map_index(e, i - 1);
        } else {
            assert(u[i] == x);
        }
    }
    assert(entries_map(u) =~= m);
}

/// Put the entries of every table of `val` in increasing key order; the
/// model is unchanged.
pub fn sort_toml_value(val: &mut TomlValue)
    requires
        value_wf(*old(val)),
    ensures
        value_wf(*final(val)),
        final(val)@ == old(val)@,
        value_sorted(*final(val)),
    decreases *old(val),
{
    let ghost v0 = *val;
    let mut taken = TomlValue::Boolean(false);
    std::mem::swap(&mut taken, val);
    assert(taken == v0);
    match taken {
        TomlValue::Array(a) => {
            proof {
                lemma_array_wf_index(a@);
            }
            let mut a = a;
            let ghost a0 = a@;
            let mut i: usize = 0;
            while i < a.len()
                invariant
                    i <= a@.len(),
                    a@.len() == a0.len(),
                    v0 matches TomlValue::Array(ve) && ve@ == a0,
                    v0 == *old(val),
                    forall|k: int| i <= k < a0.len() ==> a@[k] == a0[k],
                    forall|k: int| 0 <= k < a0.len() ==> value_wf(#[trigger] a0[k]),
                    forall|k: int| 0 <= k < i ==> model_of(#[trigger] a@[k]) == model_of(a0[k]) && value_wf(a@[k]) && value_sorted(a@[k]),
                decreases a@.len() - i,
            {
                let mut x = TomlValue::Boolean(false);
                std::mem::swap(&mut x, &mut a[i]);
                proof {
                    let ve = match v0 { TomlValue::Array(ve) => ve, _ => arbitrary() };
                    assert(decreases_to!(v0 => ve));
                    assert(decreases_to!(ve => ve@));
                    assert(decreases_to!(ve@ => ve@[i as int]));
                    assert(x == a0[i as int]);
                    assert(decreases_to!(*old(val) => x));
                }
                sort_toml_value(&mut x);
                a.set(i, x);
                i = i + 1;
            }
            proof {
                lemma_arrays_same(a@, a0);
                lemma_array_wf_index(a@);
                lemma_array_sorted_index(a@);
            }
            *val = TomlValue::Array(a);
        },
        TomlValue::Table(t) => {
            proof {
                lemma_entries_wf_index(t@);
            }
            let ghost t0 = t@;
            let mut t = t;
            let n = t.len();
            let mut out: Vec<(String, TomlValue)> = Vec::new();
            let mut i: usize = 0;
            proof {
                assert(t0.take(0) =~= Seq::<(String, TomlValue)>::empty());
                assert(entries_map(out@) =~= Map::<Seq<char>, TomlModel>::empty());
            }
            while i < n
                invariant
                    i <= n,
                    n == t0.len(),
                    t@.len() == n,
                    v0 matches TomlValue::Table(ve) && ve@ == t0,
                    v0 == *old(val),
                    keys_distinct(t0),
                    forall|k: int| i <= k < n ==> t@[k] == t0[k],
                    forall|k: int| 0 <= k < n ==> value_wf(#[trigger] t0[k].1),
                    keys_distinct(out@),
                    keys_increasing(out@),
                    entries_map(out@) == entries_map(t0.take(i as int)),
                    forall|k: int| 0 <= k < out@.len() ==> value_wf(#[trigger] out@[k].1) && value_sorted(out@[k].1),
                    forall|k: int| 0 <= k < out@.len() ==> exists|j: int| 0 <= j < i && (#[trigger] out@[k]).0@ == t0[j].0@,
                decreases n - i,
            {
                let mut x = TomlValue::Boolean(false);
                std::mem::swap(&mut x, &mut t[i].1);
                let key = t[i].0.clone();
                proof {
                    let ve = match v0 { TomlValue::Table(ve) => ve, _ => arbitrary() };
                    assert(decreases_to!(v0 => ve));
                    assert(decreases_to!(ve => ve@));
                    assert(decreases_to!(ve@ => ve@[i as int]));
                    assert(decreases_to!(ve@[i as int] => ve@[i as int].1));
                    assert(x == t0[i as int].1);
                    assert(decreases_to!(*old(val) => x));
                }
                sort_toml_value(&mut x);
                let kc = chars_of(key.as_str());
                let mut p: usize = 0;
                while p < out.len() && lex_le_chars(chars_of(out[p].0.as_str()).as_slice(), kc.as_slice())
                    invariant
                        p <= out@.len(),
                        forall|q: int| 0 <= q < p ==> lex_le((#[trigger] out@[q]).0@, kc@),
                    decreases out@.len() - p,
                {
                    p = p + 1;
                }
                let ghost old_out = out@;
                proof {
                    // the key is fresh among the entries kept so far
                    assert forall|q: int| 0 <= q < old_out.len() implies #[trigger] old_out[q].0@ != kc@ by {
                        let j = choose|j: int| 0 <= j < i && old_out[q].0@ == t0[j].0@;
                        assert(t0[j].0@ != t0[i as int].0@);
                    }
                    assert(t0.take(i as int + 1) =~= t0.take(i as int).push(t0[i as int]));
                    assert(keys_distinct(t0.take(i as int))) by {
                        assert forall|a: int, b: int| 0 <= a < i && 0 <= b < i && a != b implies t0.take(i as int)[a].0@ != t0.take(i as int)[b].0@ by {
                            assert(t0.take(i as int)[a] == t0[a] && t0.take(i as int)[b] == t0[b]);
                        }
                    }
                    assert forall|q: int| 0 <= q < i implies #[trigger] t0.take(i as int)[q].0@ != t0[i as int].0@ by {
                        assert(t0.take(i as int)[q] == t0[q]);
                    }
                    crate::value::lemma_push_fresh(t0.take(i as int), t0[i as int]);
                }
                let entry = (key, x);
                out.insert(p, entry);
                proof {
                    lemma_insert_fresh(old_out, p as int, entry);
                    old_out.insert_ensures(p as int, entry);
                    assert(entries_map(out@) == entries_map(t0.take(i as int + 1)));
                    if p < old_out.len() {
                        assert(!lex_le(old_out[p as int].0@, kc@));
                        lemma_lex_total(kc@, old_out[p as int].0@);
                    }
                    assert forall|a: int, b: int| 0 <= a < b < out@.len() implies lex_le(out@[a].0@, out@[b].0@) && out@[a].0@ != out@[b].0@ by {
                        if a < p && b == p {
                            assert(out@[a] == old_out[a]);
                        } else if a == p && b > p {
                            assert(out@[b] == old_out[b - 1]);
                            if b - 1 > p {
                                lemma_lex_trans(kc@, old_out[p as int].0@, old_out[b - 1].0@);
                            }
                        } else if b < p {
                            assert(out@[a] == old_out[a] && out@[b] == old_out[b]);
                        } else if a < p && b > p {
                            assert(out@[a] == old_out[a] && out@[b] == old_out[b - 1]);
                        } else {
                            assert(out@[a] == old_out[a - 1] && out@[b] == old_out[b - 1]);
                        }
                    }
                    assert forall|k: int| 0 <= k < out@.len() implies exists|j: int| 0 <= j < i + 1 && (#[trigger] out@[k]).0@ == t0[j].0@ by {
                        if k < p {
                            assert(out@[k] == old_out[k]);
                        } else if k > p {
                            assert(out@[k] == old_out[k - 1]);
                        } else {
                            assert(out@[k].0@ == t0[i as int].0@);
                        }
                    }
                    assert forall|k: int| 0 <= k < out@.len() implies value_wf(#[trigger] out@[k].1) && value_sorted(out@[k].1) by {
                        if k < p {
                            assert(out@[k] == old_out[k]);
                        } else if k > p {
                            assert(out@[k] == old_out[k - 1]);
                        }
                    }
                }
                i = i + 1;
            }
            proof {
                assert(t0.take(n as int) =~= t0);
                lemma_entries_wf_index(out@);
                lemma_entries_sorted_index(out@);
            }
            *val = TomlValue::Table(out);
        },
        other => {
            *val = other;
        },
    }
}


// ---------------------------------------------------------------------------
// Unknown keys
// ---------------------------------------------------------------------------

/// The paths of keys of `o` (in its entry order) that `t` lacks: tables are
/// compared key by key, arrays element by element (`prefix[i]`), anything
/// else has none.
pub open spec fn unknown_paths(o: TomlValue, t: TomlModel, prefix: Seq<char>) -> Seq<Seq<char>>
    decreases o, 0nat,
{
    match o {
        TomlValue::Table(e) => if t is Table {
            unknown_in_entries(e@, table_of(t), prefix, e@.len())
        } else {
            Seq::empty()
        },
        TomlValue::Array(a) => match t {
            TomlModel::Array(ta) => unknown_in_elems(a@, ta, prefix, a@.len()),
            _ => Seq::empty(),
        },
        _ => Seq::empty(),
    }
}

/// The unknown paths of the first `n` entries of a table.
pub open spec fn unknown_in_entries(
    e: Seq<(String, TomlValue)>,
    tm: Map<Seq<char>, TomlModel>,
    prefix: Seq<char>,
    n: nat,
) -> Seq<Seq<char>>
    decreases e, n,
{
    if n == 0 || n > e.len() {
        Seq::empty()
    } else {
        let k = e[n - 1].0@;
        let p = child_path(prefix, k);
        unknown_in_entries(e, tm, prefix, (n - 1) as nat) + if tm.contains_key(k) {
            unknown_paths(e[n - 1].1, tm[k], p)
        } else {
            seq![p]
        }
    }
}

/// The path of element `i` below `prefix`: `prefix[i]`.
pub open spec fn index_path(prefix: Seq<char>, i: nat) -> Seq<char> {
    prefix + seq!['['] + dec_text(i) + seq![']']
}

/// The unknown paths of the first `n` elements of an array.
pub open spec fn unknown_in_elems(a: Seq<TomlValue>, ta: Seq<TomlModel>, prefix: Seq<char>, n: nat) -> Seq<Seq<char>>
    decreases a, n,
{
    if n == 0 || n > a.len() {
        Seq::empty()
    } else {
        unknown_in_elems(a, ta, prefix, (n - 1) as nat) + if n - 1 < ta.len() {
            unknown_paths(a[n - 1], ta[n - 1], index_path(prefix, (n - 1) as nat))
        } else {
            Seq::empty()
        }
    }
}

/// Append to `unknown` the paths of keys of `original` that `typed` lacks
/// (see [`unknown_paths`]).
pub fn collect_unknown_keys(original: &TomlValue, typed: &TomlValue, prefix: &str, unknown: &mut Vec<String>)
    requires
        value_wf(*original),
        value_wf(*typed),
    ensures
        crate::text::views(final(unknown)@) == crate::text::views(old(unknown)@) + unknown_paths(*original, typed@, prefix@),
    decreases *original,
{
    let ghost o0 = *original;
    let ghost u0 = crate::text::views(unknown@);
    match original {
        TomlValue::Table(e) => {
            if !typed.is_table() {
                assert(crate::text::views(unknown@) =~= u0 + unknown_paths(*original, typed@, prefix@));
                return;
            }
            proof {
                lemma_entries_wf_index(e@);
            }
            let mut i: usize = 0;
            while i < e.len()
                invariant
                    i <= e@.len(),
                    o0 == *original,
                    o0 matches TomlValue::Table(ve) && ve@ == e@,
                    forall|k: int| 0 <= k < e@.len() ==> value_wf(#[trigger] e@[k].1),
                    value_wf(*typed),
                    typed@ is Table,
                    crate::text::views(unknown@) == u0 + unknown_in_entries(e@, table_of(typed@), prefix@, i as nat),
                decreases e@.len() - i,
            {
                let ghost before = crate::text::views(unknown@);
                let path = make_child_path(prefix, e[i].0.as_str());
                match typed.get(e[i].0.as_str()) {
                    Some(tv) => {
                        proof {
                            let ve = match o0 { TomlValue::Table(ve) => ve, _ => arbitrary() };
                            assert(decreases_to!(o0 => ve));
                            assert(decreases_to!(ve => ve@));
                            assert(decreases_to!(ve@ => ve@[i as int]));
                            assert(decreases_to!(ve@[i as int] => ve@[i as int].1));
                            assert(decreases_to!(*original => e@[i as int].1));
                        }
                        collect_unknown_keys(&e[i].1, tv, path.as_str(), unknown);
                    },
                    None => {
                        unknown.push(path);
                        assert(crate::text::views(unknown@) =~= before.push(path@));
                    },
                }
                assert(crate::text::views(unknown@) =~= u0 + unknown_in_entries(e@, table_of(typed@), prefix@, i as nat + 1));
                i = i + 1;
            }
        },
        TomlValue::Array(a) => {
            let ta = match typed {
                TomlValue::Array(ta) => ta,
                _ => {
                    assert(crate::text::views(unknown@) =~= u0 + unknown_paths(*original, typed@, prefix@));
                    return;
                },
            };
            proof {
                lemma_array_wf_index(a@);
                lemma_array_wf_index(ta@);
                crate::value::lemma_array_models_index(ta@);
            }
            let mut i: usize = 0;
            while i < a.len()
                invariant
                    i <= a@.len(),
                    o0 == *original,
                    o0 matches TomlValue::Array(ve) && ve@ == a@,
                    forall|k: int| 0 <= k < a@.len() ==> value_wf(#[trigger] a@[k]),
                    forall|k: int| 0 <= k < ta@.len() ==> value_wf(#[trigger] ta@[k]),
                    array_models(ta@).len() == ta@.len(),
                    forall|k: int| 0 <= k < ta@.len() ==> #[trigger] array_models(ta@)[k] == model_of(ta@[k]),
                    typed@ == TomlModel::Array(array_models(ta@)),
                    crate::text::views(unknown@) == u0 + unknown_in_elems(a@, array_models(ta@), prefix@, i as nat),
                decreases a@.len() - i,
            {
                let ghost before = crate::text::views(unknown@);
                if i < ta.len() {
                    let mut path = owned(prefix);
                    push_char(&mut path, '[');
                    push_dec(&mut path, i as u64);
                    push_char(&mut path, ']');
                    proof {
                        let ve = match o0 { TomlValue::Array(ve) => ve, _ => arbitrary() };
                        assert(decreases_to!(o0 => ve));
                        assert(decreases_to!(ve => ve@));
                        assert(decreases_to!(ve@ => ve@[i as int]));
                        assert(decreases_to!(*original => a@[i as int]));
                        assert(path@ =~= index_path(prefix@, i as nat));
                    }
                    collect_unknown_keys(&a[i], &ta[i], path.as_str(), unknown);
                }
                assert(crate::text::views(unknown@) =~= u0 + unknown_in_elems(a@, array_models(ta@), prefix@, i as nat + 1));
                i = i + 1;
            }
        },
        _ => {
            assert(crate::text::views(unknown@) =~= u0 + unknown_paths(*original, typed@, prefix@));
        },
    }
}

/// The paths of keys of `original` that `typed` lacks, visiting the keys of
/// every table in increasing order (see [`unknown_paths`]).
pub open spec fn unknown_fields(original: TomlModel, typed: TomlModel) -> Seq<Seq<char>> {
    unknown_paths(
        choose|s: TomlValue| value_wf(s) && value_sorted(s) && s@ == original,
        typed,
        Seq::empty(),
    )
}

/// The paths of keys of `original` that the re-serialized typed value lacks
/// (see [`unknown_fields`]); none when the typed value could not be
/// serialized.
pub fn detect_unknown_fields(original: &TomlValue, typed: Option<&TomlValue>) -> (r: Vec<String>)
    requires
        value_wf(*original),
        typed matches Some(t) ==> value_wf(*t),
    ensures
        match typed {
            None => r@.len() == 0,
            Some(t) => crate::text::views(r@) == unknown_fields(original@, t@),
        },
{
    let mut unknown: Vec<String> = Vec::new();
    match typed {
        None => unknown,
        Some(t) => {
            let mut s = crate::value::copy_value(original);
            sort_toml_value(&mut s);
            let empty = String::new();
            assert(crate::text::views(unknown@) =~= Seq::<Seq<char>>::empty());
            collect_unknown_keys(&s, t, empty.as_str(), &mut unknown);
            assert(crate::text::views(unknown@) =~= unknown_paths(s, t@, Seq::empty()));
            proof {
                let c = choose|c: TomlValue| value_wf(c) && value_sorted(c) && c@ == original@;
                lemma_unknown_paths_unique(s, c, t@, Seq::empty());
            }
            unknown
        },
    }
}

// ---------------------------------------------------------------------------
// The sorted form of a value is unique
// ---------------------------------------------------------------------------

/// The key texts of a table's entries, in order.
pub open spec fn key_texts(e: Seq<(String, TomlValue)>) -> Seq<Seq<char>> {
    Seq::new(e.len(), |i: int| e[i].0@)
}

/// Two strictly increasing key sequences with the same elements are equal.
proof fn lemma_strict_same_keys(k1: Seq<Seq<char>>, k2: Seq<Seq<char>>)
    requires
        crate::order::strictly_sorted(k1),
        crate::order::strictly_sorted(k2),
        forall|x: Seq<char>| k1.contains(x) <==> k2.contains(x),
    ensures
        k1 == k2,
    decreases k1.len(),
{
    if k1.len() == 0 {
        if k2.len() > 0 {
            assert(k2.contains(k2[0]));
        }
        assert(k1 =~= k2);
        return;
    }
    assert(k1.contains(k1[0]));
    let j = choose|j: int| 0 <= j < k2.len() && k2[j] == k1[0];
    assert(k2.contains(k2[0]));
    let i = choose|i: int| 0 <= i < k1.len() && k1[i] == k2[0];
    if j > 0 {
        assert(lex_le(k2[0], k2[j]));
    } else {
        crate::order::lemma_lex_refl(k2[0]);
    }
    if i > 0 {
        assert(lex_le(k1[0], k1[i]));
    } else {
        crate::order::lemma_lex_refl(k1[0]);
    }
    lemma_lex_antisym(k1[0], k2[0]);
    let r1 = k1.drop_first();
    let r2 = k2.drop_first();
    assert forall|x: Seq<char>| r1.contains(x) <==> r2.contains(x) by {
        if r1.contains(x) {
            let a = choose|a: int| 0 <= a < r1.len() && r1[a] == x;
            assert(k1[a + 1] == x && k1[0] != x);
            assert(k1.contains(x));
            let b = choose|b: int| 0 <= b < k2.len() && k2[b] == x;
            assert(b != 0);
            assert(r2[b - 1] == x);
        }
        if r2.contains(x) {
            let a = choose|a: int| 0 <= a < r2.len() && r2[a] == x;
            assert(k2[a + 1] == x && k2[0] != x);
            assert(k2.contains(x));
            let b = choose|b: int| 0 <= b < k1.len() && k1[b] == x;
            assert(b != 0);
            assert(r1[b - 1] == x);
        }
    }
    assert(crate::order::strictly_sorted(r1)) by {
        assert forall|a: int, b: int| 0 <= a < b < r1.len() implies lex_le(r1[a], r1[b]) && r1[a] != r1[b] by {
            assert(r1[a] == k1[a + 1] && r1[b] == k1[b + 1]);
        }
    }
    assert(crate::order::strictly_sorted(r2)) by {
        assert forall|a: int, b: int| 0 <= a < b < r2.len() implies lex_le(r2[a], r2[b]) && r2[a] != r2[b] by {
            assert(r2[a] == k2[a + 1] && r2[b] == k2[b + 1]);
        }
    }
    lemma_strict_same_keys(r1, r2);
    assert(k1 =~= k2) by {
        assert(k1.len() == r1.len() + 1 && k2.len() == r2.len() + 1);
        assert forall|a: int| 0 <= a < k1.len() implies k1[a] == k2[a] by {
            if a > 0 {
                assert(k1[a] == r1[a - 1] && k2[a] == r2[a - 1]);
            }
        }
    }
}

/// Two sorted tables with the same map list the same keys, in the same
/// order, with values of the same models.
proof fn lemma_sorted_entries_same(e1: Seq<(String, TomlValue)>, e2: Seq<(String, TomlValue)>)
    requires
        keys_distinct(e1),
        keys_distinct(e2),
        keys_increasing(e1),
        keys_increasing(e2),
        entries_map(e1) == entries_map(e2),
    ensures
        e1.len() == e2.len(),
        forall|i: int| 0 <= i < e1.len() ==> (#[trigger] e1[i]).0@ == e2[i].0@ && model_of(e1[i].1) == model_of(e2[i].1),
{
    let k1 = key_texts(e1);
    let k2 = key_texts(e2);
    assert forall|x: Seq<char>| k1.contains(x) <==> k2.contains(x) by {
        lemma_entries_map_dom(e1, x);
        lemma_entries_map_dom(e2, x);
        if k1.contains(x) {
            let a = choose|a: int| 0 <= a < k1.len() && k1[a] == x;
            assert(e1[a].0@ == x);
            let b = choose|b: int| 0 <= b < e2.len() && #[trigger] e2[b].0@ == x;
            assert(k2[b] == x);
        }
        if k2.contains(x) {
            let a = choose|a: int| 0 <= a < k2.len() && k2[a] == x;
            assert(e2[a].0@ == x);
            let b = choose|b: int| 0 <= b < e1.len() && #[trigger] e1[b].0@ == x;
            assert(k1[b] == x);
        }
    }
    assert(crate::order::strictly_sorted(k1)) by {
        assert forall|a: int, b: int| 0 <= a < b < k1.len() implies lex_le(k1[a], k1[b]) && k1[a] != k1[b] by {
            assert(k1[a] == e1[a].0@ && k1[b] == e1[b].0@);
        }
    }
    assert(crate::order::strictly_sorted(k2)) by {
        assert forall|a: int, b: int| 0 <= a < b < k2.len() implies lex_le(k2[a], k2[b]) && k2[a] != k2[b] by {
            assert(k2[a] == e2[a].0@ && k2[b] == e2[b].0@);
        }
    }
    lemma_strict_same_keys(k1, k2);
    assert(k1.len() == e1.len() && k2.len() == e2.len());
    assert forall|i: int| 0 <= i < e1.len() implies (#[trigger] e1[i]).0@ == e2[i].0@ && model_of(e1[i].1) == model_of(e2[i].1) by {
        assert(k1[i] == e1[i].0@ && k2[i] == e2[i].0@);
        lemma_entries_map_index(e1, i);
        lemma_entries_map_index(e2, i);
    }
}

/// The unknown paths of a table's first `n` entries agree for two entry
/// sequences whose entries give the same unknown paths one by one.
proof fn lemma_unknown_entries_pointwise(
    e1: Seq<(String, TomlValue)>,
    e2: Seq<(String, TomlValue)>,
    tm: Map<Seq<char>, TomlModel>,
    prefix: Seq<char>,
    n: nat,
)
    requires
        e1.len() == e2.len(),
        n <= e1.len(),
        forall|i: int| 0 <= i < e1.len() ==> (#[trigger] e1[i]).0@ == e2[i].0@,
        forall|i: int, t: TomlModel, q: Seq<char>|
            0 <= i < e1.len() ==> #[trigger] unknown_paths(e1[i].1, t, q) == unknown_paths(e2[i].1, t, q),
    ensures
        unknown_in_entries(e1, tm, prefix, n) == unknown_in_entries(e2, tm, prefix, n),
    decreases n,
{
    if n > 0 {
        lemma_unknown_entries_pointwise(e1, e2, tm, prefix, (n - 1) as nat);
        assert(e1[n - 1].0@ == e2[n - 1].0@);
        let k = e1[n - 1].0@;
        if tm.contains_key(k) {
            assert(unknown_paths(e1[n - 1].1, tm[k], child_path(prefix, k)) == unknown_paths(e2[n - 1].1, tm[k], child_path(prefix, k)));
        }
    }
}

/// The unknown paths of an array's first `n` elements agree for two element
/// sequences whose elements give the same unknown paths one by one.
proof fn lemma_unknown_elems_pointwise(
    a1: Seq<TomlValue>,
    a2: Seq<TomlValue>,
    ta: Seq<TomlModel>,
    prefix: Seq<char>,
    n: nat,
)
    requires
        a1.len() == a2.len(),
        n <= a1.len(),
        forall|i: int, t: TomlModel, q: Seq<char>|
            0 <= i < a1.len() ==> #[trigger] unknown_paths(a1[i], t, q) == unknown_paths(a2[i], t, q),
    ensures
        unknown_in_elems(a1, ta, prefix, n) == unknown_in_elems(a2, ta, prefix, n),
    decreases n,
{
    if n > 0 {
        lemma_unknown_elems_pointwise(a1, a2, ta, prefix, (n - 1) as nat);
        if n - 1 < ta.len() {
            let q = index_path(prefix, (n - 1) as nat);
            assert(unknown_paths(a1[n - 1], ta[n - 1], q) == unknown_paths(a2[n - 1], ta[n - 1], q));
        }
    }
}

/// Two sorted, well-formed values with the same model have the same unknown
/// paths against any typed model: the order of visit depends on the model
/// alone.
pub proof fn lemma_unknown_paths_unique(s1: TomlValue, s2: TomlValue, t: TomlModel, p: Seq<char>)
    requires
        value_wf(s1),
        value_wf(s2),
        value_sorted(s1),
        value_sorted(s2),
        s1@ == s2@,
    ensures
        unknown_paths(s1, t, p) == unknown_paths(s2, t, p),
    decreases s1,
{
    match s1 {
        TomlValue::Table(e1) => {
            let e2 = match s2 {
                TomlValue::Table(e2) => e2,
                _ => {
                    assert(false);
                    arbitrary()
                },
            };
            lemma_entries_wf_index(e1@);
            lemma_entries_wf_index(e2@);
            lemma_entries_sorted_index(e1@);
            lemma_entries_sorted_index(e2@);
            lemma_sorted_entries_same(e1@, e2@);
            assert forall|i: int, tt: TomlModel, q: Seq<char>|
                0 <= i < e1@.len() implies #[trigger] unknown_paths(e1@[i].1, tt, q) == unknown_paths(e2@[i].1, tt, q) by {
                assert(decreases_to!(s1 => e1));
                assert(decreases_to!(e1 => e1@));
                assert(decreases_to!(e1@ => e1@[i]));
                assert(decreases_to!(e1@[i] => e1@[i].1));
                lemma_unknown_paths_unique(e1@[i].1, e2@[i].1, tt, q);
            }
            if t is Table {
                lemma_unknown_entries_pointwise(e1@, e2@, table_of(t), p, e1@.len());
            }
        },
        TomlValue::Array(a1) => {
            let a2 = match s2 {
                TomlValue::Array(a2) => a2,
                _ => {
                    assert(false);
                    arbitrary()
                },
            };
            lemma_array_wf_index(a1@);
            lemma_array_wf_index(a2@);
            lemma_array_sorted_index(a1@);
            lemma_array_sorted_index(a2@);
            crate::value::lemma_array_models_index(a1@);
            crate::value::lemma_array_models_index(a2@);
            assert(array_models(a1@) == array_models(a2@));
            assert forall|i: int, tt: TomlModel, q: Seq<char>|
                0 <= i < a1@.len() implies #[trigger] unknown_paths(a1@[i], tt, q) == unknown_paths(a2@[i], tt, q) by {
                assert(array_models(a1@)[i] == array_models(a2@)[i]);
                assert(decreases_to!(s1 => a1));
                assert(decreases_to!(a1 => a1@));
                assert(decreases_to!(a1@ => a1@[i]));
                lemma_unknown_paths_unique(a1@[i], a2@[i], tt, q);
            }
            match t {
                TomlModel::Array(ta) => {
                    lemma_unknown_elems_pointwise(a1@, a2@, ta, p, a1@.len());
                },
                _ => {},
            }
        },
        _ => {},
    }
}

} // verus!
