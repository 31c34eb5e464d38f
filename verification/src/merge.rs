//! Deep merge of TOML value trees, with field-level provenance.
//!
//! Tables merge key by key and recursively; every other value (arrays,
//! scalars) in the overlay replaces the base value entirely.  The traced
//! variant records, for every leaf the overlay writes, which layer wrote it.

use vstd::prelude::*;
use crate::lexical::{
    chars_eq_ignore_case, eq_ignore_case, i64_literal, is_float_literal, is_float_text, parse_i64,
};
use crate::text::{owned, push_char, push_str, str_eq, chars_of};
use crate::order::{lex_le, lex_le_chars, strictly_sorted, lemma_insert_strictly_sorted};
use crate::lexical::{split_on, lemma_split_on_nonempty};
use crate::value::{
    entries_map, entries_wf, find_key, keys_distinct, lemma_entries_map_dom,
    lemma_entries_map_index, lemma_entries_map_update, lemma_entries_wf_index, lemma_push_fresh,
    model_of, value_wf, TomlModel, TomlValue,
};

verus! {

// ---------------------------------------------------------------------------
// The model of merging
// ---------------------------------------------------------------------------

/// The model of `overlay` merged into `base`.
pub open spec fn merge_model(base: TomlModel, overlay: TomlModel) -> TomlModel
    decreases overlay,
{
    match (base, overlay) {
        (TomlModel::Table(b), TomlModel::Table(o)) => TomlModel::Table(
            Map::new(
                |k: Seq<char>| b.contains_key(k) || o.contains_key(k),
                |k: Seq<char>|
                    if o.contains_key(k) {
                        if b.contains_key(k) {
                            merge_model(b[k], o[k])
                        } else {
                            o[k]
                        }
                    } else {
                        b[k]
                    },
            ),
        ),
        (_, o) => o,
    }
}

/// Two tables merged key by key.
pub open spec fn merge_tables(
    b: Map<Seq<char>, TomlModel>,
    o: Map<Seq<char>, TomlModel>,
) -> Map<Seq<char>, TomlModel> {
    Map::new(
        |k: Seq<char>| b.contains_key(k) || o.contains_key(k),
        |k: Seq<char>|
            if o.contains_key(k) {
                if b.contains_key(k) {
                    merge_model(b[k], o[k])
                } else {
                    o[k]
                }
            } else {
                b[k]
            },
    )
}

/// The dotted path of `key` below `prefix` (`key` itself at the top level).
pub open spec fn child_path(prefix: Seq<char>, key: Seq<char>) -> Seq<char> {
    if prefix.len() == 0 {
        key
    } else {
        prefix + seq!['.'] + key
    }
}

/// The dotted paths of every leaf (non-table value) under `v`, rooted at `prefix`.
/// The empty path is never a leaf path.
pub open spec fn leaf_paths(v: TomlModel, prefix: Seq<char>) -> Set<Seq<char>>
    decreases v,
{
    match v {
        TomlModel::Table(t) => Set::new(
            |p: Seq<char>|
                exists|k: Seq<char>|
                    #![trigger child_path(prefix, k)]
                    t.contains_key(k) && leaf_paths(t[k], child_path(prefix, k)).contains(p),
        ),
        _ => if prefix.len() == 0 {
            Set::empty()
        } else {
            set![prefix]
        },
    }
}

/// The dotted paths that merging `overlay` into `base` at `prefix` writes:
/// keys merged recursively, every leaf of a subtree the overlay inserts or
/// puts in place of a non-table value, and the position of every other
/// replaced value.
pub open spec fn written_paths(base: TomlModel, overlay: TomlModel, prefix: Seq<char>) -> Set<Seq<char>>
    decreases overlay,
{
    match (base, overlay) {
        (TomlModel::Table(b), TomlModel::Table(o)) => Set::new(
            |p: Seq<char>|
                exists|k: Seq<char>|
                    #![trigger child_path(prefix, k)]
                    o.contains_key(k) && (if b.contains_key(k) {
                        written_paths(b[k], o[k], child_path(prefix, k))
                    } else {
                        leaf_paths(o[k], child_path(prefix, k))
                    }).contains(p),
        ),
        (_, TomlModel::Table(_)) => leaf_paths(overlay, prefix),
        _ => if prefix.len() == 0 {
            Set::empty()
        } else {
            set![prefix]
        },
    }
}

/// The paths written for key `k` of the overlay table `o` merged into `b`.
pub open spec fn written_at(
    b: Map<Seq<char>, TomlModel>,
    o: Map<Seq<char>, TomlModel>,
    k: Seq<char>,
    prefix: Seq<char>,
) -> Set<Seq<char>> {
    if b.contains_key(k) {
        written_paths(b[k], o[k], child_path(prefix, k))
    } else {
        leaf_paths(o[k], child_path(prefix, k))
    }
}

/// The map that sends every path of `s` to `v`.
pub open spec fn const_map(s: Set<Seq<char>>, v: Seq<char>) -> Map<Seq<char>, Seq<char>> {
    Map::new(|p: Seq<char>| s.contains(p), |p: Seq<char>| v)
}

// ---------------------------------------------------------------------------
// WinnerMap: field path -> winning layer id
// ---------------------------------------------------------------------------

/// The pairs of a winner map as a map from path text to layer-id text.
pub open spec fn pairs_map(e: Seq<(String, String)>) -> Map<Seq<char>, Seq<char>>
    decreases e.len(),
{
    if e.len() == 0 {
        Map::empty()
    } else {
        pairs_map(e.drop_last()).insert(e.last().0@, e.last().1@)
    }
}

/// The first components of the pairs are pairwise distinct.
pub open spec fn pair_keys_distinct(e: Seq<(String, String)>) -> bool {
    forall|i: int, j: int| 0 <= i < e.len() && 0 <= j < e.len() && i != j ==> e[i].0@ != e[j].0@
}

/// The first components of the pairs, in order.
pub open spec fn pair_keys(e: Seq<(String, String)>) -> Seq<Seq<char>> {
    Seq::new(e.len(), |i: int| e[i].0@)
}

proof fn lemma_pairs_insert_fresh(e: Seq<(String, String)>, p: int, x: (String, String))
    requires
        pair_keys_distinct(e),
        0 <= p <= e.len(),
        forall|i: int| 0 <= i < e.len() ==> #[trigger] e[i].0@ != x.0@,
    ensures
        pair_keys_distinct(e.insert(p, x)),
        pairs_map(e.insert(p, x)) == pairs_map(e).insert(x.0@, x.1@),
{
    let u = e.insert(p, x);
    e.insert_ensures(p, x);
    assert(pair_keys_distinct(u)) by {
        assert forall|a: int, b: int| 0 <= a < u.len() && 0 <= b < u.len() && a != b implies u[a].0@ != u[b].0@ by {
            if a != p && b != p {
                let ea = if a < p { a } else { a - 1 };
                let eb = if b < p { b } else { b - 1 };
                assert(u[a] == e[ea] && u[b] == e[eb]);
            } else if a == p {
                let eb = if b < p { b } else { b - 1 };
                assert(u[b] == e[eb]);
            } else {
                let ea = if a < p { a } else { a - 1 };
                assert(u[a] == e[ea]);
            }
        }
    }
    let m1 = pairs_map(u);
    let m2 = pairs_map(e).insert(x.0@, x.1@);
    assert forall|k: Seq<char>| m1.contains_key(k) <==> m2.contains_key(k) by {
        lemma_pairs_map_dom(u, k);
        lemma_pairs_map_dom(e, k);
        if m1.contains_key(k) {
            let i = choose|i: int| 0 <= i < u.len() && #[trigger] u[i].0@ == k;
            if i < p {
                assert(e[i].0@ == k);
            } else if i > p {
                assert(e[i - 1].0@ == k);
            }
        }
        if pairs_map(e).contains_key(k) {
            let i = choose|i: int| 0 <= i < e.len() && #[trigger] e[i].0@ == k;
            if i < p {
                assert(u[i].0@ == k);
            } else {
                assert(u[i + 1].0@ == k);
            }
        }
        if k == x.0@ {
            assert(u[p].0@ == k);
        }
    }
    assert forall|k: Seq<char>| #[trigger] m1.contains_key(k) implies m1[k] == m2[k] by {
        lemma_pairs_map_dom(u, k);
        let i = choose|i: int| 0 <= i < u.len() && #[trigger] u[i].0@ == k;
        lemma_pairs_map_index(u, i);
        if i < p {
            lemma_pairs_map_index(e, i);
        } else if i > p {
            lemma_pairs_map_index(e, i - 1);
        }
    }
    assert(m1 =~= m2);
}

/// Maps every final leaf config path (e.g. `"server.port"`) to the id of the
/// layer that last wrote it (e.g. `"layer-0"` or `"env"`).
#[derive(Debug)]
pub struct WinnerMap {
    entries: Vec<(String, String)>,
}

impl View for WinnerMap {
    type V = Map<Seq<char>, Seq<char>>;

    closed spec fn view(&self) -> Map<Seq<char>, Seq<char>> {
        pairs_map(self.entries@)
    }
}

proof fn lemma_pairs_map_dom(e: Seq<(String, String)>, k: Seq<char>)
    ensures
        pairs_map(e).contains_key(k) <==> exists|i: int| 0 <= i < e.len() && #[trigger] e[i].0@ == k,
    decreases e.len(),
{
    if e.len() > 0 {
        lemma_pairs_map_dom(e.drop_last(), k);
        if pairs_map(e.drop_last()).contains_key(k) {
            let i = choose|i: int| 0 <= i < e.drop_last().len() && #[trigger] e.drop_last()[i].0@ == k;
            assert(e[i].0@ == k);
        }
        if exists|i: int| 0 <= i < e.len() && #[trigger] e[i].0@ == k {
            let i = choose|i: int| 0 <= i < e.len() && #[trigger] e[i].0@ == k;
            if i < e.len() - 1 {
                assert(e.drop_last()[i].0@ == k);
            }
        }
    }
}

proof fn lemma_pairs_map_index(e: Seq<(String, String)>, i: int)
    requires
        pair_keys_distinct(e),
        0 <= i < e.len(),
    ensures
        pairs_map(e).contains_key(e[i].0@),
        pairs_map(e)[e[i].0@] == e[i].1@,
    decreases e.len(),
{
    if i < e.len() - 1 {
        assert(pair_keys_distinct(e.drop_last()));
        lemma_pairs_map_index(e.drop_last(), i);
        assert(e.drop_last()[i] == e[i]);
    }
}

proof fn lemma_pairs_map_update(e: Seq<(String, String)>, i: int, p: (String, String))
    requires
        pair_keys_distinct(e),
        0 <= i < e.len(),
        p.0@ == e[i].0@,
    ensures
        pair_keys_distinct(e.update(i, p)),
        pairs_map(e.update(i, p)) == pairs_map(e).insert(p.0@, p.1@),
    decreases e.len(),
{
    let u = e.update(i, p);
    assert(pair_keys_distinct(u)) by {
        assert forall|a: int, b: int| 0 <= a < u.len() && 0 <= b < u.len() && a != b implies u[a].0@ != u[b].0@ by {
            if a != i && b != i {
                assert(u[a] == e[a] && u[b] == e[b]);
            } else if a == i {
                assert(u[b] == e[b]);
            } else {
                assert(u[a] == e[a]);
            }
        }
    }
    if i == e.len() - 1 {
        assert(u.drop_last() =~= e.drop_last());
        assert(pairs_map(u) =~= pairs_map(e).insert(p.0@, p.1@));
    } else {
        assert(pair_keys_distinct(e.drop_last()));
        lemma_pairs_map_update(e.drop_last(), i, p);
        assert(u.drop_last() =~= e.drop_last().update(i, p));
        assert(u.last() == e.last());
        assert(pairs_map(u) =~= pairs_map(e).insert(p.0@, p.1@));
    }
}

proof fn lemma_pairs_push_fresh(e: Seq<(String, String)>, p: (String, String))
    requires
        pair_keys_distinct(e),
        forall|i: int| 0 <= i < e.len() ==> #[trigger] e[i].0@ != p.0@,
    ensures
        pair_keys_distinct(e.push(p)),
        pairs_map(e.push(p)) == pairs_map(e).insert(p.0@, p.1@),
{
    let u = e.push(p);
    assert(u.drop_last() =~= e);
    assert forall|a: int, b: int| 0 <= a < u.len() && 0 <= b < u.len() && a != b implies u[a].0@ != u[b].0@ by {
        if a < e.len() && b < e.len() {
            assert(u[a] == e[a] && u[b] == e[b]);
        } else if a == e.len() {
            assert(u[b] == e[b]);
        } else {
            assert(u[a] == e[a]);
        }
    }
}

impl Clone for WinnerMap {
    fn clone(&self) -> (r: WinnerMap)
        ensures
            r@ == self@,
    {
        proof {
            use_type_invariant(self);
        }
        let mut entries: Vec<(String, String)> = Vec::new();
        let mut i: usize = 0;
        while i < self.entries.len()
            invariant
                i <= self.entries@.len(),
                entries@.len() == i,
                forall|k: int| 0 <= k < i ==> (#[trigger] entries@[k]).0@ == self.entries@[k].0@ && entries@[k].1@ == self.entries@[k].1@,
            decreases self.entries@.len() - i,
        {
            let p = (self.entries[i].0.clone(), self.entries[i].1.clone());
            entries.push(p);
            i = i + 1;
        }
        proof {
            assert(pair_keys_distinct(entries@));
            assert(pair_keys(entries@) =~= pair_keys(self.entries@));
            lemma_pairs_map_same(entries@, self.entries@);
        }
        WinnerMap { entries }
    }
}

proof fn lemma_pairs_map_same(a: Seq<(String, String)>, b: Seq<(String, String)>)
    requires
        a.len() == b.len(),
        forall|k: int| 0 <= k < a.len() ==> (#[trigger] a[k]).0@ == b[k].0@ && a[k].1@ == b[k].1@,
    ensures
        pairs_map(a) == pairs_map(b),
    decreases a.len(),
{
    if a.len() > 0 {
        lemma_pairs_map_same(a.drop_last(), b.drop_last());
        assert(a.last() == a[a.len() - 1]);
    }
}

impl WinnerMap {
    #[verifier::type_invariant]
    spec fn inv(self) -> bool {
        &&& pair_keys_distinct(self.entries@)
        &&& strictly_sorted(pair_keys(self.entries@))
    }

    /// An empty winner map.
    pub fn new() -> (r: WinnerMap)
        ensures
            r@ == Map::<Seq<char>, Seq<char>>::empty(),
    {
        let r = WinnerMap { entries: Vec::new() };
        assert(pairs_map(r.entries@) =~= Map::empty());
        assert(pair_keys(r.entries@) =~= Seq::<Seq<char>>::empty());
        r
    }

    fn find(&self, key: &str) -> (r: Option<usize>)
        ensures
            r matches Some(i) ==> i < self.entries@.len() && self.entries@[i as int].0@ == key@,
            r is None ==> forall|i: int| 0 <= i < self.entries@.len() ==> #[trigger] self.entries@[i].0@ != key@,
    {
        let n = self.entries.len();
        let mut i: usize = 0;
        while i < n
            invariant
                n == self.entries@.len(),
                i <= n,
                forall|j: int| 0 <= j < i ==> #[trigger] self.entries@[j].0@ != key@,
            decreases n - i,
        {
            if str_eq(self.entries[i].0.as_str(), key) {
                return Some(i);
            }
            i = i + 1;
        }
        None
    }

    /// Record that `key` was won by `winner`, replacing any earlier winner;
    /// the pairs stay sorted by path.
    pub fn insert(&mut self, key: String, winner: String)
        ensures
            final(self)@ == old(self)@.insert(key@, winner@),
    {
        proof {
            use_type_invariant(&*self);
        }
        let kc = chars_of(key.as_str());
        let n = self.entries.len();
        let mut p: usize = 0;
        while p < n && lex_le_chars(chars_of(self.entries[p].0.as_str()).as_slice(), kc.as_slice())
            && !str_eq(self.entries[p].0.as_str(), key.as_str())
            invariant
                n == self.entries@.len(),
                p <= n,
                kc@ == key@,
                forall|q: int| 0 <= q < p ==> lex_le((#[trigger] self.entries@[q]).0@, key@) && self.entries@[q].0@ != key@,
            decreases n - p,
        {
            p = p + 1;
        }
        let ghost before = self.entries@;
        if p < n && str_eq(self.entries[p].0.as_str(), key.as_str()) {
            proof {
                lemma_pairs_map_update(before, p as int, (key, winner));
                assert(pair_keys(before.update(p as int, (key, winner))) =~= pair_keys(before));
            }
            let mut entries: Vec<(String, String)> = Vec::new();
            std::mem::swap(&mut entries, &mut self.entries);
            entries.set(p, (key, winner));
            assert(entries@ == before.update(p as int, (key, winner)));
            self.entries = entries;
        } else {
            proof {
                let ks = pair_keys(before);
                assert forall|q: int| 0 <= q < p implies lex_le(#[trigger] ks[q], key@) && ks[q] != key@ by {
                    assert(ks[q] == before[q].0@);
                }
                if p < n {
                    assert(ks[p as int] == before[p as int].0@);
                }
                lemma_insert_strictly_sorted(ks, p as int, key@);
                assert(pair_keys(before.insert(p as int, (key, winner))) =~= ks.insert(p as int, key@));
                assert forall|j: int| 0 <= j < before.len() implies #[trigger] before[j].0@ != key@ by {
                    assert(ks[j] == before[j].0@);
                }
                lemma_pairs_insert_fresh(before, p as int, (key, winner));
            }
            let mut entries: Vec<(String, String)> = Vec::new();
            std::mem::swap(&mut entries, &mut self.entries);
            entries.insert(p, (key, winner));
            self.entries = entries;
        }
    }

    /// The winning layer recorded for `key`, if any.
    pub fn get(&self, key: &str) -> (r: Option<&String>)
        ensures
            r is Some <==> self@.contains_key(key@),
            r matches Some(w) ==> w@ == self@[key@],
    {
        proof {
            use_type_invariant(self);
            lemma_pairs_map_dom(self.entries@, key@);
        }
        match self.find(key) {
            Some(i) => {
                proof {
                    lemma_pairs_map_index(self.entries@, i as int);
                }
                Some(&self.entries[i].1)
            },
            None => None,
        }
    }

    /// Whether a winner is recorded for `key`.
    pub fn contains_key(&self, key: &str) -> (r: bool)
        ensures
            r == self@.contains_key(key@),
    {
        self.get(key).is_some()
    }

    /// The number of recorded paths.
    pub fn len(&self) -> (r: usize)
        ensures
            r as int == self@.dom().len(),
    {
        proof {
            use_type_invariant(self);
            lemma_pairs_map_len(self.entries@);
        }
        self.entries.len()
    }

    /// The recorded `(path, winner)` pairs, in increasing order of path.
    pub fn pairs(&self) -> (r: &Vec<(String, String)>)
        ensures
            pair_keys_distinct(r@),
            strictly_sorted(pair_keys(r@)),
            pairs_map(r@) == self@,
    {
        proof {
            use_type_invariant(self);
        }
        &self.entries
    }

    /// Record every entry of `other`, each replacing any earlier winner.
    pub fn extend(&mut self, other: &WinnerMap)
        ensures
            final(self)@ == old(self)@.union_prefer_right(other@),
    {
        proof {
            use_type_invariant(other);
        }
        let n = other.entries.len();
        let mut i: usize = 0;
        while i < n
            invariant
                n == other.entries@.len(),
                i <= n,
                pair_keys_distinct(other.entries@),
                self@ == old(self)@.union_prefer_right(pairs_map(other.entries@.take(i as int))),
            decreases n - i,
        {
            let k = other.entries[i].0.clone();
            let w = other.entries[i].1.clone();
            self.insert(k, w);
            proof {
                let t = other.entries@.take(i as int + 1);
                assert(t.drop_last() =~= other.entries@.take(i as int));
                assert(self@ =~= old(self)@.union_prefer_right(pairs_map(t)));
            }
            i = i + 1;
        }
        assert(other.entries@.take(n as int) =~= other.entries@);
    }
}

proof fn lemma_pairs_map_len(e: Seq<(String, String)>)
    requires
        pair_keys_distinct(e),
    ensures
        pairs_map(e).dom().finite(),
        pairs_map(e).dom().len() == e.len(),
    decreases e.len(),
{
    if e.len() > 0 {
        assert(pair_keys_distinct(e.drop_last()));
        lemma_pairs_map_len(e.drop_last());
        lemma_pairs_map_dom(e.drop_last(), e.last().0@);
        if pairs_map(e.drop_last()).contains_key(e.last().0@) {
            let i = choose|i: int| 0 <= i < e.drop_last().len() && #[trigger] e.drop_last()[i].0@ == e.last().0@;
            assert(e[i].0@ == e.last().0@);
        }
    }
}

// ---------------------------------------------------------------------------
// Path text
// ---------------------------------------------------------------------------

/// The dotted path of `key` below `prefix`.
pub fn make_child_path(prefix: &str, key: &str) -> (r: String)
    ensures
        r@ == child_path(prefix@, key@),
{
    if prefix.is_empty() {
        owned(key)
    } else {
        let mut s = owned(prefix);
        push_char(&mut s, '.');
        push_str(&mut s, key);
        s
    }
}

// ---------------------------------------------------------------------------
// deep_merge
// ---------------------------------------------------------------------------

/// The merged model of two tables, processed up to a prefix of the overlay entries.
proof fn lemma_merge_tables_step(
    b: Map<Seq<char>, TomlModel>,
    o: Seq<(String, TomlValue)>,
    j: int,
)
    requires
        keys_distinct(o),
        0 <= j < o.len(),
    ensures
        !entries_map(o.take(j)).contains_key(o[j].0@),
        entries_map(o.take(j + 1)) == entries_map(o.take(j)).insert(o[j].0@, model_of(o[j].1)),
{
    assert(o.take(j + 1).drop_last() =~= o.take(j));
    lemma_entries_map_dom(o.take(j), o[j].0@);
    if entries_map(o.take(j)).contains_key(o[j].0@) {
        let i = choose|i: int| 0 <= i < o.take(j).len() && #[trigger] o.take(j)[i].0@ == o[j].0@;
        assert(o[i].0@ == o[j].0@);
    }
}

/// Merge `overlay` into `base`: tables are merged key by key and recursively;
/// any other overlay value replaces the base value entirely.
pub fn deep_merge(base: &mut TomlValue, overlay: TomlValue)
    requires
        value_wf(*old(base)),
        value_wf(overlay),
    ensures
        value_wf(*final(base)),
        final(base)@ == merge_model(old(base)@, overlay@),
    decreases overlay,
{
    let ghost ov = overlay;
    match overlay {
        TomlValue::Table(overlay_entries) => {
            if !base.is_table() {
                *base = TomlValue::Table(overlay_entries);
                return;
            }
            let ghost o = overlay_entries@;
            let ghost b0 = *base;
            let ghost bm = crate::value::table_of(base@);
            let mut base_entries: Vec<(String, TomlValue)> = Vec::new();
            match base {
                TomlValue::Table(be) => {
                    std::mem::swap(&mut base_entries, be);
                },
                _ => {},
            }
            assert(bm == entries_map(base_entries@));
            proof {
                lemma_entries_wf_index(o);
                lemma_entries_wf_index(base_entries@);
                assert(o.take(0) =~= Seq::<(String, TomlValue)>::empty());
                assert(merge_tables(bm, entries_map(o.take(0))) =~= bm);
            }
            let mut rest = overlay_entries;
            let n = rest.len();
            let mut j: usize = 0;
            while j < n
                invariant
                    n == o.len(),
                    j <= n,
                    rest@ =~= o.skip(j as int),
                    keys_distinct(o),
                    entries_wf(o),
                    keys_distinct(base_entries@),
                    entries_wf(base_entries@),
                    entries_map(base_entries@) == merge_tables(bm, entries_map(o.take(j as int))),
                    ov matches TomlValue::Table(ve) && ve@ == o,
                    ov == overlay,
                decreases n - j,
            {
                let (key, val) = rest.remove(0);
                proof {
                    assert(o[j as int] == (key, val));
                    lemma_merge_tables_step(bm, o, j as int);
                    lemma_entries_wf_index(o);
                    lemma_entries_wf_index(base_entries@);
                    lemma_entries_map_dom(base_entries@, key@);
                }
                match find_key(&base_entries, key.as_str()) {
                    Some(i) => {
                        let ghost pre0 = base_entries@;
                        let (bk, mut bv) = base_entries.remove(i);
                        proof {
                            let ve = match ov { TomlValue::Table(ve) => ve, _ => base_entries };
                            assert(decreases_to!(ov => ve));
                            assert(decreases_to!(ve => ve@));
                            assert(decreases_to!(ve@ => ve@[j as int]));
                            assert(decreases_to!(ve@[j as int] => ve@[j as int].1));
                            assert(decreases_to!(ov => val));
                        }
                        let ghost before = base_entries@.insert(i as int, (bk, bv));
                        let ghost old_bv = bv;
                        proof {
                            assert(before =~= pre0);
                        }
                        deep_merge(&mut bv, val);
                        base_entries.insert(i, (bk, bv));
                        proof {
                            let pre = before;
                            assert(base_entries@ =~= pre.update(i as int, (bk, bv)));
                            lemma_entries_map_index(pre, i as int);
                            lemma_entries_map_update(pre, i as int, (bk, bv));
                            lemma_entries_wf_index(pre);
                            lemma_entries_wf_index(base_entries@);
                            let oj = entries_map(o.take(j as int));
                            assert(pre[i as int].1 == old_bv);
                            assert(entries_map(pre)[key@] == old_bv@);
                            assert(merge_tables(bm, oj).contains_key(key@));
                            assert(bm.contains_key(key@));
                            assert(bm[key@] == old_bv@);
                            assert(entries_map(base_entries@) =~= merge_tables(bm, oj.insert(key@, val@)));
                        }
                    },
                    None => {
                        let ghost pre = base_entries@;
                        proof {
                            lemma_push_fresh(pre, (key, val));
                        }
                        base_entries.push((key, val));
                        proof {
                            lemma_entries_wf_index(base_entries@);
                            let oj = entries_map(o.take(j as int));
                            assert(entries_map(base_entries@) =~= merge_tables(bm, oj.insert(key@, val@)));
                        }
                    },
                }
                j = j + 1;
            }
            proof {
                assert(o.take(n as int) =~= o);
            }
            *base = TomlValue::Table(base_entries);
            proof {
                assert(b0@ == TomlModel::Table(bm));
                assert(ov@ == TomlModel::Table(entries_map(o)));
                let mm = merge_model(b0@, ov@);
                assert(crate::value::table_of(mm) =~= merge_tables(bm, entries_map(o)));
            }
        },
        other => {
            *base = other;
        },
    }
}

// ---------------------------------------------------------------------------
// Provenance-tracing merge
// ---------------------------------------------------------------------------

/// The leaf paths of the first `i` entries of a table rooted at `prefix`.
pub open spec fn leaves_upto(t: Seq<(String, TomlValue)>, i: int, prefix: Seq<char>) -> Set<Seq<char>> {
    Set::new(
        |p: Seq<char>|
            exists|a: int| 0 <= a < i && #[trigger] entry_leaves(t, a, prefix).contains(p),
    )
}

/// The leaf paths of entry `a` of a table rooted at `prefix`.
pub open spec fn entry_leaves(t: Seq<(String, TomlValue)>, a: int, prefix: Seq<char>) -> Set<Seq<char>> {
    leaf_paths(model_of(t[a].1), child_path(prefix, t[a].0@))
}

proof fn lemma_union_const(
    m: Map<Seq<char>, Seq<char>>,
    s: Set<Seq<char>>,
    t: Set<Seq<char>>,
    v: Seq<char>,
)
    ensures
        m.union_prefer_right(const_map(s, v)).union_prefer_right(const_map(t, v))
            == m.union_prefer_right(const_map(s.union(t), v)),
{
    assert(m.union_prefer_right(const_map(s, v)).union_prefer_right(const_map(t, v))
        =~= m.union_prefer_right(const_map(s.union(t), v)));
}

proof fn lemma_leaves_upto_step(t: Seq<(String, TomlValue)>, i: int, prefix: Seq<char>)
    requires
        0 <= i < t.len(),
    ensures
        leaves_upto(t, i + 1, prefix) == leaves_upto(t, i, prefix).union(entry_leaves(t, i, prefix)),
{
    assert forall|p: Seq<char>| leaves_upto(t, i + 1, prefix).contains(p)
        implies leaves_upto(t, i, prefix).union(entry_leaves(t, i, prefix)).contains(p) by {
        let a = choose|a: int| 0 <= a < i + 1 && #[trigger] entry_leaves(t, a, prefix).contains(p);
        if a < i {
            assert(leaves_upto(t, i, prefix).contains(p));
        }
    }
    assert forall|p: Seq<char>| leaves_upto(t, i, prefix).union(entry_leaves(t, i, prefix)).contains(p)
        implies leaves_upto(t, i + 1, prefix).contains(p) by {
        if leaves_upto(t, i, prefix).contains(p) {
            let a = choose|a: int| 0 <= a < i && #[trigger] entry_leaves(t, a, prefix).contains(p);
            assert(entry_leaves(t, a, prefix).contains(p));
        } else {
            assert(entry_leaves(t, i, prefix).contains(p));
        }
    }
    assert(leaves_upto(t, i + 1, prefix) =~= leaves_upto(t, i, prefix).union(entry_leaves(t, i, prefix)));
}

proof fn lemma_leaves_upto_all(t: Seq<(String, TomlValue)>, prefix: Seq<char>)
    requires
        keys_distinct(t),
    ensures
        leaves_upto(t, t.len() as int, prefix) == leaf_paths(TomlModel::Table(entries_map(t)), prefix),
{
    let em = entries_map(t);
    let l = leaf_paths(TomlModel::Table(em), prefix);
    assert forall|p: Seq<char>| leaves_upto(t, t.len() as int, prefix).contains(p) implies l.contains(p) by {
        let a = choose|a: int| 0 <= a < t.len() && #[trigger] entry_leaves(t, a, prefix).contains(p);
        lemma_entries_map_index(t, a);
        let k = t[a].0@;
        assert(em.contains_key(k) && leaf_paths(em[k], child_path(prefix, k)).contains(p));
    }
    assert forall|p: Seq<char>| l.contains(p) implies leaves_upto(t, t.len() as int, prefix).contains(p) by {
        let k = choose|k: Seq<char>|
            #![trigger child_path(prefix, k)]
            em.contains_key(k) && leaf_paths(em[k], child_path(prefix, k)).contains(p);
        lemma_entries_map_dom(t, k);
        let a = choose|a: int| 0 <= a < t.len() && #[trigger] t[a].0@ == k;
        lemma_entries_map_index(t, a);
        assert(entry_leaves(t, a, prefix).contains(p));
    }
    assert(leaves_upto(t, t.len() as int, prefix) =~= l);
}

/// Record every leaf under `value` (rooted at `prefix`) as won by `layer_id`.
pub fn record_all_leaves(value: &TomlValue, layer_id: &str, prefix: &str, winner_map: &mut WinnerMap)
    requires
        value_wf(*value),
    ensures
        final(winner_map)@ == old(winner_map)@.union_prefer_right(
            const_map(leaf_paths(value@, prefix@), layer_id@),
        ),
    decreases value,
{
    let ghost vv = *value;
    match value {
        TomlValue::Table(t) => {
            proof {
                lemma_entries_wf_index(t@);
                assert(leaves_upto(t@, 0, prefix@) =~= Set::empty());
                assert(old(winner_map)@.union_prefer_right(const_map(Set::empty(), layer_id@)) =~= old(winner_map)@);
            }
            let n = t.len();
            let mut i: usize = 0;
            while i < n
                invariant
                    n == t@.len(),
                    i <= n,
                    keys_distinct(t@),
                    entries_wf(t@),
                    forall|a: int| 0 <= a < t@.len() ==> value_wf(#[trigger] t@[a].1),
                    winner_map@ == old(winner_map)@.union_prefer_right(
                        const_map(leaves_upto(t@, i as int, prefix@), layer_id@),
                    ),
                    vv == *value,
                    vv matches TomlValue::Table(ve) && ve@ == t@,
                decreases n - i,
            {
                let child = make_child_path(prefix, t[i].0.as_str());
                proof {
                    let ve = match vv { TomlValue::Table(ve) => ve, _ => arbitrary() };
                    assert(decreases_to!(vv => ve));
                    assert(decreases_to!(ve => ve@));
                    assert(decreases_to!(ve@ => ve@[i as int]));
                    assert(decreases_to!(ve@[i as int] => ve@[i as int].1));
                    assert(decreases_to!(vv => t@[i as int].1));
                }
                record_all_leaves(&t[i].1, layer_id, child.as_str(), winner_map);
                proof {
                    lemma_leaves_upto_step(t@, i as int, prefix@);
                    lemma_union_const(
                        old(winner_map)@,
                        leaves_upto(t@, i as int, prefix@),
                        entry_leaves(t@, i as int, prefix@),
                        layer_id@,
                    );
                }
                i = i + 1;
            }
            proof {
                lemma_leaves_upto_all(t@, prefix@);
            }
        },
        _ => {
            if !prefix.is_empty() {
                winner_map.insert(owned(prefix), owned(layer_id));
                assert(final(winner_map)@ =~= old(winner_map)@.union_prefer_right(
                    const_map(leaf_paths(value@, prefix@), layer_id@)));
            } else {
                assert(old(winner_map)@ =~= old(winner_map)@.union_prefer_right(
                    const_map(leaf_paths(value@, prefix@), layer_id@)));
            }
        },
    }
}

/// The paths written by the first `j` overlay entries merged into table `b`.
pub open spec fn written_upto(
    b: Map<Seq<char>, TomlModel>,
    o: Seq<(String, TomlValue)>,
    j: int,
    prefix: Seq<char>,
) -> Set<Seq<char>> {
    Set::new(
        |p: Seq<char>|
            exists|a: int| 0 <= a < j && #[trigger] entry_written(b, o, a, prefix).contains(p),
    )
}

/// The paths written by overlay entry `a` merged into table `b`.
pub open spec fn entry_written(
    b: Map<Seq<char>, TomlModel>,
    o: Seq<(String, TomlValue)>,
    a: int,
    prefix: Seq<char>,
) -> Set<Seq<char>> {
    written_at(b, entries_map(o), o[a].0@, prefix)
}

proof fn lemma_written_upto_step(
    b: Map<Seq<char>, TomlModel>,
    o: Seq<(String, TomlValue)>,
    j: int,
    prefix: Seq<char>,
)
    requires
        0 <= j < o.len(),
    ensures
        written_upto(b, o, j + 1, prefix) == written_upto(b, o, j, prefix).union(entry_written(b, o, j, prefix)),
{
    assert forall|p: Seq<char>| written_upto(b, o, j + 1, prefix).contains(p)
        implies written_upto(b, o, j, prefix).union(entry_written(b, o, j, prefix)).contains(p) by {
        let a = choose|a: int| 0 <= a < j + 1 && #[trigger] entry_written(b, o, a, prefix).contains(p);
        if a < j {
            assert(written_upto(b, o, j, prefix).contains(p));
        }
    }
    assert forall|p: Seq<char>| written_upto(b, o, j, prefix).union(entry_written(b, o, j, prefix)).contains(p)
        implies written_upto(b, o, j + 1, prefix).contains(p) by {
        if written_upto(b, o, j, prefix).contains(p) {
            let a = choose|a: int| 0 <= a < j && #[trigger] entry_written(b, o, a, prefix).contains(p);
            assert(entry_written(b, o, a, prefix).contains(p));
        } else {
            assert(entry_written(b, o, j, prefix).contains(p));
        }
    }
    assert(written_upto(b, o, j + 1, prefix) =~= written_upto(b, o, j, prefix).union(entry_written(b, o, j, prefix)));
}

proof fn lemma_written_upto_all(b: Map<Seq<char>, TomlModel>, o: Seq<(String, TomlValue)>, prefix: Seq<char>)
    requires
        keys_distinct(o),
    ensures
        written_upto(b, o, o.len() as int, prefix)
            == written_paths(TomlModel::Table(b), TomlModel::Table(entries_map(o)), prefix),
{
    let om = entries_map(o);
    let w = written_paths(TomlModel::Table(b), TomlModel::Table(om), prefix);
    assert forall|p: Seq<char>| written_upto(b, o, o.len() as int, prefix).contains(p) implies w.contains(p) by {
        let a = choose|a: int| 0 <= a < o.len() && #[trigger] entry_written(b, o, a, prefix).contains(p);
        lemma_entries_map_index(o, a);
        let k = o[a].0@;
        assert(om.contains_key(k) && written_at(b, om, k, prefix).contains(p));
        assert(child_path(prefix, k) == child_path(prefix, k));
    }
    assert forall|p: Seq<char>| w.contains(p) implies written_upto(b, o, o.len() as int, prefix).contains(p) by {
        let k = choose|k: Seq<char>|
            #![trigger child_path(prefix, k)]
            om.contains_key(k) && (if b.contains_key(k) {
                written_paths(b[k], om[k], child_path(prefix, k))
            } else {
                leaf_paths(om[k], child_path(prefix, k))
            }).contains(p);
        lemma_entries_map_dom(o, k);
        let a = choose|a: int| 0 <= a < o.len() && #[trigger] o[a].0@ == k;
        assert(entry_written(b, o, a, prefix).contains(p));
    }
    assert(written_upto(b, o, o.len() as int, prefix) =~= w);
}

/// Like [`deep_merge`], and also records field-level provenance: every path the
/// overlay writes (see [`written_paths`]), every leaf it writes among them,
/// is mapped to `layer_id` in `winner_map`.
/// Paths the overlay does not touch keep whatever winner they had.
pub fn deep_merge_traced(
    base: &mut TomlValue,
    overlay: TomlValue,
    layer_id: &str,
    prefix: &str,
    winner_map: &mut WinnerMap,
)
    requires
        value_wf(*old(base)),
        value_wf(overlay),
    ensures
        value_wf(*final(base)),
        final(base)@ == merge_model(old(base)@, overlay@),
        final(winner_map)@ == old(winner_map)@.union_prefer_right(
            const_map(written_paths(old(base)@, overlay@, prefix@), layer_id@),
        ),
    decreases overlay,
{
    let ghost ov = overlay;
    let ghost b0 = *base;
    match overlay {
        TomlValue::Table(overlay_entries) => {
            if !base.is_table() {
                let whole = TomlValue::Table(overlay_entries);
                record_all_leaves(&whole, layer_id, prefix, winner_map);
                *base = whole;
                assert(final(winner_map)@ =~= old(winner_map)@.union_prefer_right(
                    const_map(written_paths(b0@, ov@, prefix@), layer_id@)));
                return;
            }
            let ghost o = overlay_entries@;
            let ghost bm = crate::value::table_of(base@);
            let mut base_entries: Vec<(String, TomlValue)> = Vec::new();
            match base {
                TomlValue::Table(be) => {
                    std::mem::swap(&mut base_entries, be);
                },
                _ => {},
            }
            assert(bm == entries_map(base_entries@));
            proof {
                lemma_entries_wf_index(o);
                lemma_entries_wf_index(base_entries@);
                assert(o.take(0) =~= Seq::<(String, TomlValue)>::empty());
                assert(merge_tables(bm, entries_map(o.take(0))) =~= bm);
                assert(written_upto(bm, o, 0, prefix@) =~= Set::empty());
                assert(old(winner_map)@.union_prefer_right(const_map(Set::empty(), layer_id@)) =~= old(winner_map)@);
            }
            let mut rest = overlay_entries;
            let n = rest.len();
            let mut j: usize = 0;
            while j < n
                invariant
                    n == o.len(),
                    j <= n,
                    rest@ =~= o.skip(j as int),
                    keys_distinct(o),
                    entries_wf(o),
                    keys_distinct(base_entries@),
                    entries_wf(base_entries@),
                    entries_map(base_entries@) == merge_tables(bm, entries_map(o.take(j as int))),
                    winner_map@ == old(winner_map)@.union_prefer_right(
                        const_map(written_upto(bm, o, j as int, prefix@), layer_id@),
                    ),
                    ov matches TomlValue::Table(ve) && ve@ == o,
                    ov == overlay,
                decreases n - j,
            {
                let (key, val) = rest.remove(0);
                let child = make_child_path(prefix, key.as_str());
                proof {
                    assert(o[j as int] == (key, val));
                    lemma_merge_tables_step(bm, o, j as int);
                    lemma_entries_wf_index(o);
                    lemma_entries_wf_index(base_entries@);
                    lemma_entries_map_dom(base_entries@, key@);
                    lemma_entries_map_index(o, j as int);
                    lemma_written_upto_step(bm, o, j as int, prefix@);
                }
                match find_key(&base_entries, key.as_str()) {
                    Some(i) => {
                        let ghost pre0 = base_entries@;
                        let (bk, mut bv) = base_entries.remove(i);
                        proof {
                            let ve = match ov { TomlValue::Table(ve) => ve, _ => base_entries };
                            assert(decreases_to!(ov => ve));
                            assert(decreases_to!(ve => ve@));
                            assert(decreases_to!(ve@ => ve@[j as int]));
                            assert(decreases_to!(ve@[j as int] => ve@[j as int].1));
                            assert(decreases_to!(ov => val));
                        }
                        let ghost before = base_entries@.insert(i as int, (bk, bv));
                        let ghost old_bv = bv;
                        let ghost wm_mid = winner_map@;
                        proof {
                            assert(before =~= pre0);
                        }
                        deep_merge_traced(&mut bv, val, layer_id, child.as_str(), winner_map);
                        base_entries.insert(i, (bk, bv));
                        proof {
                            let pre = before;
                            assert(base_entries@ =~= pre.update(i as int, (bk, bv)));
                            lemma_entries_map_index(pre, i as int);
                            lemma_entries_map_update(pre, i as int, (bk, bv));
                            lemma_entries_wf_index(pre);
                            lemma_entries_wf_index(base_entries@);
                            let oj = entries_map(o.take(j as int));
                            assert(pre[i as int].1 == old_bv);
                            assert(entries_map(pre)[key@] == old_bv@);
                            assert(merge_tables(bm, oj).contains_key(key@));
                            assert(bm.contains_key(key@));
                            assert(bm[key@] == old_bv@);
                            assert(entries_map(base_entries@) =~= merge_tables(bm, oj.insert(key@, val@)));
                            assert(entry_written(bm, o, j as int, prefix@)
                                == written_paths(old_bv@, val@, child@));
                            lemma_union_const(
                                old(winner_map)@,
                                written_upto(bm, o, j as int, prefix@),
                                entry_written(bm, o, j as int, prefix@),
                                layer_id@,
                            );
                        }
                    },
                    None => {
                        let ghost pre = base_entries@;
                        proof {
                            lemma_push_fresh(pre, (key, val));
                        }
                        record_all_leaves(&val, layer_id, child.as_str(), winner_map);
                        base_entries.push((key, val));
                        proof {
                            lemma_entries_wf_index(base_entries@);
                            let oj = entries_map(o.take(j as int));
                            assert(entries_map(base_entries@) =~= merge_tables(bm, oj.insert(key@, val@)));
                            assert(!bm.contains_key(key@));
                            assert(entry_written(bm, o, j as int, prefix@) == leaf_paths(val@, child@));
                            lemma_union_const(
                                old(winner_map)@,
                                written_upto(bm, o, j as int, prefix@),
                                entry_written(bm, o, j as int, prefix@),
                                layer_id@,
                            );
                        }
                    },
                }
                j = j + 1;
            }
            proof {
                assert(o.take(n as int) =~= o);
                lemma_written_upto_all(bm, o, prefix@);
            }
            *base = TomlValue::Table(base_entries);
            proof {
                assert(b0@ == TomlModel::Table(bm));
                assert(ov@ == TomlModel::Table(entries_map(o)));
                let mm = merge_model(b0@, ov@);
                assert(crate::value::table_of(mm) =~= merge_tables(bm, entries_map(o)));
            }
        },
        other => {
            *base = other;
            if !prefix.is_empty() {
                winner_map.insert(owned(prefix), owned(layer_id));
            }
            assert(final(winner_map)@ =~= old(winner_map)@.union_prefer_right(
                const_map(written_paths(b0@, ov@, prefix@), layer_id@)));
        },
    }
}

// ---------------------------------------------------------------------------
// Dotted-path insertion
// ---------------------------------------------------------------------------

/// The non-empty elements of `s`, in order.
pub open spec fn drop_empty(s: Seq<Seq<char>>) -> Seq<Seq<char>>
    decreases s.len(),
{
    if s.len() == 0 {
        s
    } else if s.last().len() > 0 {
        drop_empty(s.drop_last()).push(s.last())
    } else {
        drop_empty(s.drop_last())
    }
}

proof fn lemma_drop_empty_push(s: Seq<Seq<char>>, x: Seq<char>)
    ensures
        drop_empty(s.push(x)) == if x.len() > 0 {
            drop_empty(s).push(x)
        } else {
            drop_empty(s)
        },
{
    assert(s.push(x).drop_last() =~= s);
}

/// The non-empty pieces of `s` split at `d`, in order.
pub open spec fn nonempty_pieces(s: Seq<char>, d: char) -> Seq<Seq<char>> {
    drop_empty(split_on(s, d))
}

/// The model of `root` after storing `v` at the key path `segs`, creating
/// intermediate tables and replacing any non-table on the way by a table.
pub open spec fn set_model(root: TomlModel, segs: Seq<Seq<char>>, v: TomlModel) -> TomlModel
    decreases segs.len(),
{
    if segs.len() == 0 {
        root
    } else {
        let t = crate::value::table_of(root);
        if segs.len() == 1 {
            TomlModel::Table(t.insert(segs[0], v))
        } else {
            let child = if t.contains_key(segs[0]) {
                t[segs[0]]
            } else {
                TomlModel::Table(Map::empty())
            };
            TomlModel::Table(t.insert(segs[0], set_model(child, segs.drop_first(), v)))
        }
    }
}

/// The value found by following the key path `segs` from `root`.
pub open spec fn lookup(root: TomlModel, segs: Seq<Seq<char>>) -> Option<TomlModel>
    decreases segs.len(),
{
    if segs.len() == 0 {
        Some(root)
    } else {
        match root {
            TomlModel::Table(t) => if t.contains_key(segs[0]) {
                lookup(t[segs[0]], segs.drop_first())
            } else {
                None
            },
            _ => None,
        }
    }
}

/// The non-empty pieces of `path` split at `.` (calls nothing outside the library).
pub fn dotted_segments(path: &str) -> (r: Vec<String>)
    ensures
        r@.len() == nonempty_pieces(path@, '.').len(),
        forall|i: int| 0 <= i < r@.len() ==> #[trigger] r@[i]@ == nonempty_pieces(path@, '.')[i],
{
    let cs = crate::text::chars_of(path);
    let n = cs.len();
    let mut out: Vec<String> = Vec::new();
    let mut cur: Vec<char> = Vec::new();
    let mut i: usize = 0;
    proof {
        assert(cs@.take(0) =~= Seq::<char>::empty());
        assert(split_on(Seq::<char>::empty(), '.').drop_last() =~= Seq::<Seq<char>>::empty());
    }
    while i < n
        invariant
            n == cs@.len(),
            cs@ == path@,
            i <= n,
            split_on(cs@.take(i as int), '.').len() >= 1,
            cur@ == split_on(cs@.take(i as int), '.').last(),
            out@.len() == drop_empty(split_on(cs@.take(i as int), '.').drop_last()).len(),
            forall|k: int| 0 <= k < out@.len() ==> #[trigger] out@[k]@
                == drop_empty(split_on(cs@.take(i as int), '.').drop_last())[k],
        decreases n - i,
    {
        let c = cs[i];
        let ghost pre = cs@.take(i as int);
        let ghost post = cs@.take(i as int + 1);
        proof {
            assert(post.drop_last() =~= pre);
            assert(post.last() == c);
            lemma_split_on_nonempty(pre, '.');
        }
        if c == '.' {
            proof {
                assert(split_on(post, '.') == split_on(pre, '.').push(Seq::<char>::empty()));
                assert(split_on(post, '.').drop_last() =~= split_on(pre, '.'));
                assert(split_on(pre, '.') =~= split_on(pre, '.').drop_last().push(cur@));
                lemma_drop_empty_push(split_on(pre, '.').drop_last(), cur@);
            }
            if cur.len() > 0 {
                out.push(crate::text::string_of(&cur));
            }
            cur = Vec::new();
            proof {
                assert(split_on(post, '.').last() =~= Seq::<char>::empty());
                assert(out@.len() == drop_empty(split_on(post, '.').drop_last()).len());
            }
        } else {
            cur.push(c);
            proof {
                let r = split_on(pre, '.');
                assert(split_on(post, '.') == r.update(r.len() - 1, r.last().push(c)));
                assert(split_on(post, '.').drop_last() =~= r.drop_last());
            }
        }
        i = i + 1;
    }
    proof {
        assert(cs@.take(n as int) =~= cs@);
        let sp = split_on(cs@, '.');
        lemma_split_on_nonempty(cs@, '.');
        assert(sp =~= sp.drop_last().push(cur@));
        lemma_drop_empty_push(sp.drop_last(), cur@);
    }
    if cur.len() > 0 {
        out.push(crate::text::string_of(&cur));
    }
    out
}

/// The views of a vector of strings.
pub open spec fn views_of(v: Seq<String>) -> Seq<Seq<char>> {
    Seq::new(v.len(), |i: int| v[i]@)
}

/// Store `value` at the key path `segs[i..]` below `root` (see [`set_model`]).
fn set_path(root: &mut TomlValue, segs: &Vec<String>, i: usize, value: TomlValue)
    requires
        i < segs@.len(),
        value_wf(*old(root)),
        value_wf(value),
    ensures
        value_wf(*final(root)),
        final(root)@ == set_model(old(root)@, views_of(segs@).skip(i as int), value@),
    decreases segs@.len() - i,
{
    let ghost r0 = *root;
    let ghost segv = views_of(segs@).skip(i as int);
    let ghost t0 = crate::value::table_of(r0@);
    let mut entries: Vec<(String, TomlValue)> = Vec::new();
    match root {
        TomlValue::Table(be) => {
            std::mem::swap(&mut entries, be);
        },
        _ => {},
    }
    proof {
        if !(r0 is Table) {
            assert(entries_map(entries@) =~= Map::empty());
        }
        assert(entries_map(entries@) == t0);
        lemma_entries_wf_index(entries@);
        assert(segv[0] == segs@[i as int]@);
        lemma_entries_map_dom(entries@, segs@[i as int]@);
    }
    let key = &segs[i];
    let found = find_key(&entries, key.as_str());
    if i == segs.len() - 1 {
        match found {
            Some(j) => {
                let ghost pre = entries@;
                let kc = key.clone();
                proof {
                    lemma_entries_map_update(pre, j as int, (kc, value));
                }
                entries.set(j, (kc, value));
            },
            None => {
                let kc = key.clone();
                proof {
                    lemma_push_fresh(entries@, (kc, value));
                }
                entries.push((kc, value));
            },
        }
        proof {
            lemma_entries_wf_index(entries@);
            assert(segv.len() == 1);
        }
    } else {
        proof {
            assert(segv.drop_first() =~= views_of(segs@).skip(i as int + 1));
        }
        match found {
            Some(j) => {
                let ghost pre0 = entries@;
                let (k, mut child) = entries.remove(j);
                proof {
                    lemma_entries_map_index(pre0, j as int);
                    lemma_entries_wf_index(pre0);
                    assert(pre0[j as int] == (k, child));
                }
                let ghost old_child = child;
                set_path(&mut child, segs, i + 1, value);
                proof {
                    assert(entries@.insert(j as int, (k, old_child)) =~= pre0);
                    lemma_entries_map_update(pre0, j as int, (k, child));
                }
                entries.insert(j, (k, child));
                proof {
                    assert(entries@ =~= pre0.update(j as int, (k, child)));
                }
            },
            None => {
                let mut child = TomlValue::new_table();
                set_path(&mut child, segs, i + 1, value);
                let kc = key.clone();
                proof {
                    lemma_push_fresh(entries@, (kc, child));
                }
                entries.push((kc, child));
            },
        }
        proof {
            lemma_entries_wf_index(entries@);
        }
    }
    *root = TomlValue::Table(entries);
}

/// Store `value` at the dotted key path `path` below `root`, creating
/// intermediate tables as needed (empty path pieces are ignored; a path with
/// no non-empty piece leaves `root` unchanged).
pub fn set_dotted(root: &mut TomlValue, path: &str, value: TomlValue)
    requires
        value_wf(*old(root)),
        value_wf(value),
    ensures
        value_wf(*final(root)),
        final(root)@ == set_model(old(root)@, nonempty_pieces(path@, '.'), value@),
{
    let segs = dotted_segments(path);
    proof {
        assert(views_of(segs@) =~= nonempty_pieces(path@, '.'));
        assert(views_of(segs@).skip(0) =~= views_of(segs@));
    }
    if segs.len() == 0 {
        return;
    }
    set_path(root, &segs, 0, value);
}

// ---------------------------------------------------------------------------
// Environment value coercion
// ---------------------------------------------------------------------------

/// The TOML value an environment string coerces to: `true`/`false` (any
/// ASCII case) become booleans, an `i64` literal an integer, an `f64`
/// literal a float (kept as its text), anything else a string.
pub open spec fn env_value_model(s: Seq<char>) -> TomlModel {
    if eq_ignore_case(s, seq!['t', 'r', 'u', 'e']) {
        TomlModel::Bool(true)
    } else if eq_ignore_case(s, seq!['f', 'a', 'l', 's', 'e']) {
        TomlModel::Bool(false)
    } else if i64_literal(s) is Some {
        TomlModel::Int(i64_literal(s).unwrap())
    } else if is_float_literal(s) {
        TomlModel::Float(s)
    } else {
        TomlModel::Str(s)
    }
}

/// Best-effort conversion of an environment string to a typed TOML value
/// (see [`env_value_model`]): bool, then integer, then float, then string.
pub fn env_str_to_value(s: &str) -> (r: TomlValue)
    ensures
        value_wf(r),
        r@ == env_value_model(s@),
{
    let cs = crate::text::chars_of(s);
    let t = ['t', 'r', 'u', 'e'];
    let f = ['f', 'a', 'l', 's', 'e'];
    proof {
        assert(t@ =~= seq!['t', 'r', 'u', 'e']);
        assert(f@ =~= seq!['f', 'a', 'l', 's', 'e']);
    }
    if chars_eq_ignore_case(&cs, t.as_slice()) {
        return TomlValue::Boolean(true);
    }
    if chars_eq_ignore_case(&cs, f.as_slice()) {
        return TomlValue::Boolean(false);
    }
    match parse_i64(cs.as_slice()) {
        Some(n) => TomlValue::Integer(n),
        None => {
            if is_float_text(cs.as_slice()) {
                TomlValue::Float(owned(s))
            } else {
                TomlValue::String(owned(s))
            }
        },
    }
}

} // verus!
