//! Laws of provenance-tracked loading: every final field has a winning
//! layer, the winner map is the union of the layers' maps, the layer report
//! follows the found sources, no required source is missing, and a search
//! that finds nothing changes only the source report.

use vstd::prelude::*;
use crate::merge::leaf_paths;
use crate::merge_laws::law_merge_conserves_winners;
use crate::reports::{SourceEntryView, LayerEntryView, SourceKind};
use crate::loader::{
    BoundedView, LayerView, ReadView, LoadFailure, LoaderView, EnvApplied, bounded_step, bounded_upto, bounded_start,
    merge_found_spec, found_entry, missing_entry, text_digest, merge_step, merge_upto, merged_spec, env_overlay,
    env_apply,
};
use crate::merge::{nonempty_pieces, drop_empty};
use crate::lexical::split_on;

verus! {

/// The found entries of a source list, in order.
pub open spec fn found_sources(s: Seq<SourceEntryView>) -> Seq<SourceEntryView>
    decreases s.len(),
{
    if s.len() == 0 {
        s
    } else if s.last().found {
        found_sources(s.drop_last()).push(s.last())
    } else {
        found_sources(s.drop_last())
    }
}

/// The union of the layers' winning maps, a later layer winning a path.
pub open spec fn layers_union(ls: Seq<LayerEntryView>) -> Map<Seq<char>, Seq<char>>
    decreases ls.len(),
{
    if ls.len() == 0 {
        Map::empty()
    } else {
        layers_union(ls.drop_last()).union_prefer_right(ls.last().winning_field_map)
    }
}

/// The layers' digests, concatenated in order.
pub open spec fn digests_concat(ls: Seq<LayerEntryView>) -> Seq<char>
    decreases ls.len(),
{
    if ls.len() == 0 {
        Seq::empty()
    } else {
        digests_concat(ls.drop_last()) + ls.last().digest
    }
}

/// Layer `k` of a load was made from the found source `f`: its id and
/// priority are `k`, it names the source and carries its digest, and its
/// order digest is the digest of the first `k + 1` layer digests.
pub open spec fn layer_from(l: LayerEntryView, f: SourceEntryView, k: int, ls: Seq<LayerEntryView>) -> bool {
    &&& l.layer_id == k
    &&& l.priority == k
    &&& l.source_id == f.source_id
    &&& l.layer_name == f.label
    &&& f.digest == Some(l.digest)
    &&& l.layer_order_digest == text_digest(digests_concat(ls.take(k + 1)))
}

/// What every state of a provenance-tracked load satisfies.
pub open spec fn load_consistent(st: BoundedView) -> bool {
    &&& leaf_paths(st.value, Seq::empty()).subset_of(st.winners.dom())
    &&& forall|i: int| 0 <= i < st.sources.len() ==> (#[trigger] st.sources[i]).required ==> st.sources[i].found
    &&& st.winners == layers_union(st.layers)
    &&& st.order == digests_concat(st.layers)
    &&& st.layers.len() == found_sources(st.sources).len()
    &&& forall|k: int| 0 <= k < st.layers.len() ==> layer_from(#[trigger] st.layers[k], found_sources(st.sources)[k], k, st.layers)
}

proof fn lemma_start_consistent(cwd: Seq<char>)
    ensures
        load_consistent(bounded_start(cwd)),
{
    let st = bounded_start(cwd);
    assert(leaf_paths(st.value, Seq::empty()) =~= Set::empty());
    assert(layers_union(st.layers) =~= Map::empty());
}

proof fn lemma_found_step_consistent(
    st: BoundedView,
    entry: SourceEntryView,
    label: Seq<char>,
    content: Seq<char>,
    new_last: Option<Seq<char>>,
    env: Seq<(String, String)>,
)
    requires
        load_consistent(st),
        entry.found,
        entry.label == label,
        entry.source_id == st.sources.len(),
        entry.digest == Some(text_digest(content)),
        merge_found_spec(st, entry, label, content, new_last, env) is Ok,
    ensures
        load_consistent(merge_found_spec(st, entry, label, content, new_last, env)->Ok_0),
{
    let st2 = merge_found_spec(st, entry, label, content, new_last, env)->Ok_0;
    let v = match crate::loader::parse_expanded_spec(content, label, env) {
        Ok(v) => v,
        Err(_) => arbitrary(),
    };
    let lid = crate::loader::layer_id_text(entry.source_id);
    law_merge_conserves_winners(st.value, v, Seq::empty(), st.winners, lid);
    assert(st2.layers.drop_last() =~= st.layers);
    assert(st2.sources.drop_last() =~= st.sources);
    let f1 = found_sources(st.sources);
    let f2 = found_sources(st2.sources);
    assert(f2 =~= f1.push(entry));
    assert forall|k: int| 0 <= k < st2.layers.len() implies layer_from(#[trigger] st2.layers[k], f2[k], k, st2.layers) by {
        if k < st.layers.len() {
            assert(st2.layers[k] == st.layers[k]);
            assert(f2[k] == f1[k]);
            assert(st2.layers.take(k + 1) =~= st.layers.take(k + 1));
            assert(layer_from(st.layers[k], f1[k], k, st.layers));
        } else {
            assert(st2.layers.take(k + 1) =~= st2.layers);
        }
    }
    assert forall|i: int| 0 <= i < st2.sources.len() implies (#[trigger] st2.sources[i]).required ==> st2.sources[i].found by {
        if i < st.sources.len() {
            assert(st2.sources[i] == st.sources[i]);
        }
    }
}

proof fn lemma_missing_step_consistent(st: BoundedView, e: SourceEntryView)
    requires
        load_consistent(st),
        !e.found,
        !e.required,
    ensures
        load_consistent(BoundedView { sources: st.sources.push(e), ..st }),
{
    let s2 = st.sources.push(e);
    assert(s2.drop_last() =~= st.sources);
    assert(found_sources(s2) == found_sources(st.sources));
    assert forall|i: int| 0 <= i < s2.len() implies (#[trigger] s2[i]).required ==> s2[i].found by {
        if i < st.sources.len() {
            assert(s2[i] == st.sources[i]);
        }
    }
}

proof fn lemma_step_consistent(st: BoundedView, layer: LayerView, read: ReadView, env: Seq<(String, String)>)
    requires
        load_consistent(st),
        bounded_step(st, layer, read, env) is Ok,
    ensures
        load_consistent(bounded_step(st, layer, read, env)->Ok_0),
{
    let id = st.sources.len();
    match layer {
        LayerView::Str { content, label } => {
            lemma_found_step_consistent(st, found_entry(id, SourceKind::Str, label, None, true, content), label, content, None, env);
        },
        LayerView::File { path } => match read {
            ReadView::Found { path: p, content } => {
                lemma_found_step_consistent(st, found_entry(id, SourceKind::File, p, Some(p), true, content), p, content, Some(p), env);
            },
            _ => {},
        },
        LayerView::FileIfExists { path } => match read {
            ReadView::Missing => {
                lemma_missing_step_consistent(st, missing_entry(id, SourceKind::OptionalFile, path, Some(path), false));
            },
            ReadView::Found { path: p, content } => {
                lemma_found_step_consistent(st, found_entry(id, SourceKind::OptionalFile, p, Some(p), false, content), p, content, Some(p), env);
            },
            _ => {},
        },
        LayerView::FindFile { name } => match read {
            ReadView::Missing => {
                lemma_missing_step_consistent(st, missing_entry(id, SourceKind::FindFile, name, None, false));
            },
            ReadView::Found { path: p, content } => {
                lemma_found_step_consistent(st, found_entry(id, SourceKind::FindFile, p, Some(p), false, content), p, content, Some(p), env);
            },
            _ => {},
        },
    }
}

proof fn lemma_upto_consistent(cwd: Seq<char>, layers: Seq<LayerView>, reads: Seq<ReadView>, env: Seq<(String, String)>, n: nat)
    requires
        bounded_upto(bounded_start(cwd), layers, reads, env, n) is Ok,
    ensures
        load_consistent(bounded_upto(bounded_start(cwd), layers, reads, env, n)->Ok_0),
    decreases n,
{
    if n == 0 {
        lemma_start_consistent(cwd);
    } else {
        let prev = bounded_upto(bounded_start(cwd), layers, reads, env, (n - 1) as nat);
        if prev is Ok {
            lemma_upto_consistent(cwd, layers, reads, env, (n - 1) as nat);
            lemma_step_consistent(prev->Ok_0, layers[n - 1], reads[n - 1], env);
        }
    }
}

/// A successful provenance-tracked load (what [`crate::loader::Loader::load_bounded`]
/// returns) accounts for everything it did:
/// - every field of the final value has a winning layer;
/// - no required source is missing (a missing required file is an error instead);
/// - the global winner map is the union of the layers' winning maps, later
///   layers winning;
/// - there is one layer per found source, in order: layer `k` has id and
///   priority `k`, names the source, carries its digest, and its order digest
///   is the digest of the first `k + 1` layer digests.
pub proof fn law_bounded_load_accounts(cwd: Seq<char>, layers: Seq<LayerView>, reads: Seq<ReadView>, env: Seq<(String, String)>)
    requires
        bounded_upto(bounded_start(cwd), layers, reads, env, layers.len()) is Ok,
    ensures
        ({
            let st = bounded_upto(bounded_start(cwd), layers, reads, env, layers.len())->Ok_0;
            &&& leaf_paths(st.value, Seq::empty()).subset_of(st.winners.dom())
            &&& forall|i: int| 0 <= i < st.sources.len() ==> (#[trigger] st.sources[i]).required ==> st.sources[i].found
            &&& st.winners == layers_union(st.layers)
            &&& st.layers.len() == found_sources(st.sources).len()
            &&& forall|k: int| 0 <= k < st.layers.len() ==> layer_from(#[trigger] st.layers[k], found_sources(st.sources)[k], k, st.layers)
        }),
{
    lemma_upto_consistent(cwd, layers, reads, env, layers.len());
}

proof fn lemma_upto_prefix(
    st0: BoundedView,
    l1: Seq<LayerView>,
    r1: Seq<ReadView>,
    l2: Seq<LayerView>,
    r2: Seq<ReadView>,
    env: Seq<(String, String)>,
    n: nat,
)
    requires
        n <= l1.len(),
        n <= l2.len(),
        n <= r1.len(),
        n <= r2.len(),
        forall|i: int| 0 <= i < n ==> l1[i] == l2[i] && r1[i] == r2[i],
    ensures
        bounded_upto(st0, l1, r1, env, n) == bounded_upto(st0, l2, r2, env, n),
    decreases n,
{
    if n > 0 {
        lemma_upto_prefix(st0, l1, r1, l2, r2, env, (n - 1) as nat);
    }
}

/// A file search that finds nothing, added as the last layer, changes only
/// the source report: it records one optional, not-found `FindFile` source,
/// and the value, winners, layers and last path stay as they were; a failing
/// load fails the same way.
pub proof fn law_find_file_missing_changes_only_sources(
    cwd: Seq<char>,
    layers: Seq<LayerView>,
    reads: Seq<ReadView>,
    env: Seq<(String, String)>,
    name: Seq<char>,
)
    requires
        reads.len() == layers.len(),
    ensures
        match bounded_upto(bounded_start(cwd), layers, reads, env, layers.len()) {
            Ok(st) => bounded_upto(
                bounded_start(cwd),
                layers.push(LayerView::FindFile { name }),
                reads.push(ReadView::Missing),
                env,
                layers.len() + 1,
            ) == Ok::<BoundedView, LoadFailure>(BoundedView {
                sources: st.sources.push(missing_entry(st.sources.len(), SourceKind::FindFile, name, None, false)),
                ..st
            }),
            Err(f) => bounded_upto(
                bounded_start(cwd),
                layers.push(LayerView::FindFile { name }),
                reads.push(ReadView::Missing),
                env,
                layers.len() + 1,
            ) == Err::<BoundedView, LoadFailure>(f),
        },
{
    let l2 = layers.push(LayerView::FindFile { name });
    let r2 = reads.push(ReadView::Missing);
    lemma_upto_prefix(bounded_start(cwd), layers, reads, l2, r2, env, layers.len());
}

/// A file search that finds the file at `p` merges it exactly as a
/// required file layer at `p` would: the same value, winners, layers, order
/// and last path (only the source's kind and requiredness differ).
pub proof fn law_find_file_found_merges_like_file(st: BoundedView, name: Seq<char>, p: Seq<char>, content: Seq<char>, env: Seq<(String, String)>)
    ensures
        match (
            bounded_step(st, LayerView::FindFile { name }, ReadView::Found { path: p, content }, env),
            bounded_step(st, LayerView::File { path: p }, ReadView::Found { path: p, content }, env),
        ) {
            (Ok(a), Ok(b)) => a.value == b.value && a.winners == b.winners && a.layers == b.layers && a.order == b.order
                && a.last == b.last,
            (Err(f), Err(g)) => f == g,
            _ => false,
        },
{
}

/// The environment applied with provenance changes the value exactly as the
/// plain environment overlay does, whatever winners and entries it started
/// with: each matching variable's coerced value is stored at its key path,
/// in order.
pub proof fn law_env_apply_value_is_overlay(st: EnvApplied, vars: Seq<(String, String)>, prefix: Seq<char>)
    ensures
        env_apply(st, vars, prefix).value == env_overlay(st.value, vars, prefix),
    decreases vars.len(),
{
    if vars.len() > 0 {
        law_env_apply_value_is_overlay(st, vars.drop_last(), prefix);
        let e: Seq<char> = Seq::empty();
        assert(split_on(e, '.') == seq![e]);
        assert(seq![e].drop_last() =~= Seq::<Seq<char>>::empty());
        assert(drop_empty(Seq::<Seq<char>>::empty()) == Seq::<Seq<char>>::empty());
        assert(drop_empty(seq![e]) == drop_empty(Seq::<Seq<char>>::empty()));
        assert(nonempty_pieces(e, '.') =~= Seq::<Seq<char>>::empty());
    }
}

/// Plain merging and provenance-tracked loading of the same layers agree:
/// after `n` layers both fail with the same failure, or both succeed with
/// the same value and last path.
proof fn lemma_merge_agrees_with_bounded(
    cwd: Seq<char>,
    layers: Seq<LayerView>,
    reads: Seq<ReadView>,
    env: Seq<(String, String)>,
    n: nat,
)
    requires
        n <= layers.len(),
        n <= reads.len(),
    ensures
        match bounded_upto(bounded_start(cwd), layers, reads, env, n) {
            Ok(b) => merge_upto((bounded_start(cwd).value, cwd), layers, reads, env, n)
                == Ok::<(crate::value::TomlModel, Seq<char>), LoadFailure>((b.value, b.last)),
            Err(f) => merge_upto((bounded_start(cwd).value, cwd), layers, reads, env, n)
                == Err::<(crate::value::TomlModel, Seq<char>), LoadFailure>(f),
        },
    decreases n,
{
    if n > 0 {
        lemma_merge_agrees_with_bounded(cwd, layers, reads, env, (n - 1) as nat);
    }
}

/// Merging a loader's layers (with its environment overrides) gives what a
/// provenance-tracked load of the same layers followed by applying the
/// environment under the same prefix gives: the load fails exactly when the
/// merge does, with the same failure; otherwise the merged value is the
/// loaded value with the overrides applied (unchanged without a prefix),
/// and the last path is the load's.
pub proof fn law_merge_is_load_then_env(
    l: LoaderView,
    reads: Seq<ReadView>,
    cwd: Seq<char>,
    env: Seq<(String, String)>,
)
    requires
        reads.len() == l.layers.len(),
    ensures
        match bounded_upto(bounded_start(cwd), l.layers, reads, env, l.layers.len()) {
            Ok(b) => merged_spec(l, reads, cwd, env) == Ok::<(crate::value::TomlModel, Seq<char>), LoadFailure>((
                match l.env_prefix {
                    Some(p) => env_apply(
                        EnvApplied { value: b.value, winners: b.winners, entries: Seq::empty() },
                        env,
                        p,
                    ).value,
                    None => b.value,
                },
                b.last,
            )),
            Err(f) => merged_spec(l, reads, cwd, env) == Err::<(crate::value::TomlModel, Seq<char>), LoadFailure>(f),
        },
{
    lemma_merge_agrees_with_bounded(cwd, l.layers, reads, env, l.layers.len());
    match bounded_upto(bounded_start(cwd), l.layers, reads, env, l.layers.len()) {
        Ok(b) => {
            match l.env_prefix {
                Some(p) => {
                    law_env_apply_value_is_overlay(
                        EnvApplied { value: b.value, winners: b.winners, entries: Seq::empty() },
                        env,
                        p,
                    );
                },
                None => {},
            }
        },
        Err(f) => {},
    }
}

} // verus!
