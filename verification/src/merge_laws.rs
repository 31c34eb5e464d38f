//! Laws of layered merging and dotted-path insertion.

use vstd::prelude::*;
use crate::merge::{child_path, leaf_paths, lookup, merge_model, set_model, written_paths, const_map};
use crate::value::{table_of, TomlModel};

verus! {

/// Every leaf of a merged tree is a leaf of the base or a path the overlay wrote.
pub proof fn lemma_merge_leaves(b: TomlModel, o: TomlModel, prefix: Seq<char>)
    ensures
        leaf_paths(merge_model(b, o), prefix).subset_of(
            leaf_paths(b, prefix).union(written_paths(b, o, prefix)),
        ),
    decreases o,
{
    match (b, o) {
        (TomlModel::Table(bt), TomlModel::Table(ot)) => {
            let m = merge_model(b, o);
            let mt = table_of(m);
            assert forall|p: Seq<char>| leaf_paths(m, prefix).contains(p) implies
                leaf_paths(b, prefix).union(written_paths(b, o, prefix)).contains(p) by {
                let k = choose|k: Seq<char>|
                    #![trigger child_path(prefix, k)]
                    mt.contains_key(k) && leaf_paths(mt[k], child_path(prefix, k)).contains(p);
                let c = child_path(prefix, k);
                if ot.contains_key(k) {
                    if bt.contains_key(k) {
                        lemma_merge_leaves(bt[k], ot[k], c);
                        if leaf_paths(bt[k], c).contains(p) {
                            assert(leaf_paths(b, prefix).contains(p));
                        } else {
                            assert(written_paths(b, o, prefix).contains(p));
                        }
                    } else {
                        assert(written_paths(b, o, prefix).contains(p));
                    }
                } else {
                    assert(leaf_paths(b, prefix).contains(p));
                }
            }
        },
        _ => {},
    }
}

/// Conservation of provenance: if every leaf of the base has a recorded
/// winner, then after a traced merge every leaf of the result has one.
pub proof fn law_merge_conserves_winners(
    b: TomlModel,
    o: TomlModel,
    prefix: Seq<char>,
    winners: Map<Seq<char>, Seq<char>>,
    layer_id: Seq<char>,
)
    requires
        leaf_paths(b, prefix).subset_of(winners.dom()),
    ensures
        leaf_paths(merge_model(b, o), prefix).subset_of(
            winners.union_prefer_right(const_map(written_paths(b, o, prefix), layer_id)).dom(),
        ),
{
    lemma_merge_leaves(b, o, prefix);
}

/// A later layer wins: a non-table value the overlay holds at a key path is
/// what the merged tree holds there.
pub proof fn law_overlay_leaf_wins(b: TomlModel, o: TomlModel, segs: Seq<Seq<char>>, v: TomlModel)
    requires
        lookup(o, segs) == Some(v),
        !(v is Table),
    ensures
        lookup(merge_model(b, o), segs) == Some(v),
    decreases segs.len(),
{
    if segs.len() > 0 {
        match (b, o) {
            (TomlModel::Table(bt), TomlModel::Table(ot)) => {
                let k = segs[0];
                if bt.contains_key(k) {
                    law_overlay_leaf_wins(bt[k], ot[k], segs.drop_first(), v);
                }
            },
            _ => {},
        }
    }
}

/// The path is untouched by the overlay below the tables both trees share.
pub open spec fn untouched(b: TomlModel, o: TomlModel, segs: Seq<Seq<char>>) -> bool
    decreases segs.len(),
{
    &&& segs.len() > 0
    &&& b is Table
    &&& o is Table
    &&& (!table_of(o).contains_key(segs[0]) || (table_of(b).contains_key(segs[0]) && untouched(
        table_of(b)[segs[0]],
        table_of(o)[segs[0]],
        segs.drop_first(),
    )))
}

/// Keys the overlay does not mention keep their base values.
pub proof fn law_untouched_preserved(b: TomlModel, o: TomlModel, segs: Seq<Seq<char>>)
    requires
        untouched(b, o, segs),
    ensures
        lookup(merge_model(b, o), segs) == lookup(b, segs),
    decreases segs.len(),
{
    let k = segs[0];
    let bt = table_of(b);
    let ot = table_of(o);
    if ot.contains_key(k) {
        law_untouched_preserved(bt[k], ot[k], segs.drop_first());
    }
}

/// Merging a layer into an identical tree changes nothing.
pub proof fn law_merge_idempotent(m: TomlModel)
    ensures
        merge_model(m, m) == m,
    decreases m,
{
    match m {
        TomlModel::Table(t) => {
            let r = merge_model(m, m);
            assert forall|k: Seq<char>| t.contains_key(k) implies table_of(r)[k] == t[k] by {
                law_merge_idempotent(t[k]);
            }
            assert(table_of(r) =~= t);
        },
        _ => {},
    }
}

/// Merging an empty table changes nothing in a table.
pub proof fn law_merge_empty_overlay(b: TomlModel)
    requires
        b is Table,
    ensures
        merge_model(b, TomlModel::Table(Map::empty())) == b,
{
    assert(table_of(merge_model(b, TomlModel::Table(Map::empty()))) =~= table_of(b));
}

/// What is stored at a dotted key path is read back there.
pub proof fn law_set_then_lookup(root: TomlModel, segs: Seq<Seq<char>>, v: TomlModel)
    requires
        segs.len() > 0,
    ensures
        lookup(set_model(root, segs, v), segs) == Some(v),
    decreases segs.len(),
{
    if segs.len() > 1 {
        let t = table_of(root);
        let child = if t.contains_key(segs[0]) {
            t[segs[0]]
        } else {
            TomlModel::Table(Map::empty())
        };
        law_set_then_lookup(child, segs.drop_first(), v);
    } else {
        assert(lookup(v, segs.drop_first()) == Some(v));
    }
}

/// Storing at a key path leaves every other top-level key unchanged.
pub proof fn law_set_keeps_other_keys(root: TomlModel, segs: Seq<Seq<char>>, v: TomlModel, k: Seq<char>)
    requires
        segs.len() > 0,
        root is Table,
        k != segs[0],
    ensures
        table_of(set_model(root, segs, v)).contains_key(k) == table_of(root).contains_key(k),
        table_of(root).contains_key(k) ==> table_of(set_model(root, segs, v))[k] == table_of(root)[k],
{
}

} // verus!
