//! The configuration witness: a BLAKE3 digest binding the provenance of a
//! load and its validation fitness to the canonical bytes of the config.

use vstd::prelude::*;
use crate::text::{owned, push_char, push_str, push_dec, dec_text, join, views, join_strings, chars_of, string_of};
use crate::digest::{blake3_hex_of, blake3_hex, blake3_hex_str, utf8, is_hex_lower};
use crate::order::{lex_order, cviews, sort_texts, lemma_sorted_unique, lemma_lex_total_ordering};
use crate::reports::{SourceEntry, SourceReport, LayerReport, EnvOverrideReport, SourceEntryView, source_views, layer_entry_views, env_entry_views, EnvEntryView, LayerEntryView};
use vstd::relations::sorted_by;
use crate::ratio::{fixed6, fixed6_text};

verus! {

// ---------------------------------------------------------------------------
// Stable order of sources by id
// ---------------------------------------------------------------------------

/// `(id, digest)` of each source.
pub open spec fn id_digests(s: Seq<SourceEntryView>) -> Seq<(nat, Option<Seq<char>>)> {
    Seq::new(s.len(), |i: int| (s[i].source_id, s[i].digest))
}

/// `x` inserted into `t` after the last item whose id is at most its own.
pub open spec fn insert_by_id(t: Seq<(nat, Option<Seq<char>>)>, x: (nat, Option<Seq<char>>)) -> Seq<(nat, Option<Seq<char>>)>
    decreases t.len(),
{
    if t.len() == 0 {
        seq![x]
    } else if t.last().0 <= x.0 {
        t.push(x)
    } else {
        insert_by_id(t.drop_last(), x).push(t.last())
    }
}

/// The items in increasing id order, equal ids in their original order.
pub open spec fn sort_by_id(s: Seq<(nat, Option<Seq<char>>)>) -> Seq<(nat, Option<Seq<char>>)>
    decreases s.len(),
{
    if s.len() == 0 {
        s
    } else {
        insert_by_id(sort_by_id(s.drop_last()), s.last())
    }
}

/// The digests present, in order.
pub open spec fn present_digests(s: Seq<(nat, Option<Seq<char>>)>) -> Seq<Seq<char>>
    decreases s.len(),
{
    if s.len() == 0 {
        Seq::empty()
    } else {
        match s.last().1 {
            Some(d) => present_digests(s.drop_last()).push(d),
            None => present_digests(s.drop_last()),
        }
    }
}

/// The views of `(id, digest)` items.
pub open spec fn item_views(v: Seq<(usize, Option<String>)>) -> Seq<(nat, Option<Seq<char>>)> {
    Seq::new(v.len(), |i: int| (v[i].0 as nat, crate::reports::opt_text(v[i].1)))
}

proof fn lemma_insert_by_id_at(t: Seq<(nat, Option<Seq<char>>)>, x: (nat, Option<Seq<char>>), p: int)
    requires
        0 <= p <= t.len(),
        forall|k: int| p <= k < t.len() ==> #[trigger] t[k].0 > x.0,
        p > 0 ==> t[p - 1].0 <= x.0,
    ensures
        insert_by_id(t, x) == t.insert(p, x),
    decreases t.len(),
{
    if t.len() == 0 {
        assert(t.insert(p, x) =~= seq![x]);
    } else if t.last().0 <= x.0 {
        assert(p == t.len());
        assert(t.insert(p, x) =~= t.push(x));
    } else {
        lemma_insert_by_id_at(t.drop_last(), x, p);
        assert(t.insert(p, x) =~= t.drop_last().insert(p, x).push(t.last()));
    }
}

/// The digests of the sources, taken in increasing id order (stable).
fn source_digests_in_id_order(report: &SourceReport) -> (r: Vec<String>)
    ensures
        views(r@) == present_digests(sort_by_id(id_digests(source_views(report.entries@)))),
{
    let ghost all = id_digests(source_views(report.entries@));
    let mut sorted: Vec<(usize, Option<String>)> = Vec::new();
    let mut i: usize = 0;
    while i < report.entries.len()
        invariant
            i <= report.entries@.len(),
            all == id_digests(source_views(report.entries@)),
            item_views(sorted@) == sort_by_id(all.take(i as int)),
        decreases report.entries@.len() - i,
    {
        let e = &report.entries[i];
        let item = (e.source_id, match &e.digest {
            Some(d) => Some(d.clone()),
            None => None,
        });
        let ghost xv = (item.0 as nat, crate::reports::opt_text(item.1));
        assert(xv == all[i as int]);
        let mut p = sorted.len();
        while p > 0 && sorted[p - 1].0 > item.0
            invariant
                p <= sorted@.len(),
                forall|k: int| p <= k < sorted@.len() ==> (#[trigger] sorted@[k]).0 > item.0,
            decreases p,
        {
            p = p - 1;
        }
        let ghost before = item_views(sorted@);
        proof {
            assert forall|k: int| p <= k < before.len() implies #[trigger] before[k].0 > xv.0 by {
                assert(before[k].0 == sorted@[k].0 as nat);
            }
            if p > 0 {
                assert(before[p - 1].0 == sorted@[p - 1].0 as nat);
            }
            lemma_insert_by_id_at(before, xv, p as int);
            assert(all.take(i as int + 1).drop_last() =~= all.take(i as int));
        }
        sorted.insert(p, item);
        assert(item_views(sorted@) =~= before.insert(p as int, xv));
        i = i + 1;
    }
    assert(all.take(report.entries@.len() as int) =~= all);
    let mut out: Vec<String> = Vec::new();
    let mut k: usize = 0;
    let ghost sv = item_views(sorted@);
    while k < sorted.len()
        invariant
            k <= sorted@.len(),
            sv == item_views(sorted@),
            views(out@) == present_digests(sv.take(k as int)),
        decreases sorted@.len() - k,
    {
        assert(sv.take(k as int + 1).drop_last() =~= sv.take(k as int));
        let ghost before = views(out@);
        match &sorted[k].1 {
            Some(d) => {
                out.push(d.clone());
                assert(views(out@) =~= before.push(d@));
            },
            None => {},
        }
        k = k + 1;
    }
    assert(sv.take(sorted@.len() as int) =~= sv);
    out
}

// ---------------------------------------------------------------------------
// The witness
// ---------------------------------------------------------------------------

/// `key=path:digest` for an environment entry.
pub open spec fn env_item_text(e: EnvEntryView) -> Seq<char> {
    e.raw_env_key + seq!['='] + e.mapped_path + seq![':'] + e.raw_value_digest
}

/// The texts of the accepted environment entries, in order.
pub open spec fn accepted_texts(s: Seq<EnvEntryView>) -> Seq<Seq<char>>
    decreases s.len(),
{
    if s.len() == 0 {
        Seq::empty()
    } else if s.last().accepted {
        accepted_texts(s.drop_last()).push(env_item_text(s.last()))
    } else {
        accepted_texts(s.drop_last())
    }
}

/// The layer-order digest of the last layer (empty when there is none).
pub open spec fn last_order_digest(l: Seq<LayerEntryView>) -> Seq<char> {
    if l.len() > 0 {
        l.last().layer_order_digest
    } else {
        Seq::empty()
    }
}

/// The text the witness hashes: the source digests in id order joined by
/// `,`; the last layer-order digest; the accepted environment entries as
/// sorted `key=path:digest` texts joined by `,`; the fitness with six
/// decimals; the BLAKE3 hex of the canonical bytes; all joined by `|`.
pub open spec fn witness_text(
    sources: Seq<SourceEntryView>,
    layers: Seq<LayerEntryView>,
    env: Seq<EnvEntryView>,
    passed: nat,
    run: nat,
    canonical: Seq<u8>,
) -> Seq<char> {
    join(
        seq![
            join(present_digests(sort_by_id(id_digests(sources))), seq![',']),
            last_order_digest(layers),
            join(accepted_texts(env).sort_by(lex_order()), seq![',']),
            fixed6(passed, run),
            blake3_hex_of(canonical),
        ],
        seq!['|'],
    )
}

/// A digest binding provenance and validation fitness to canonical bytes.
#[derive(Debug, Clone, PartialEq, Eq)]
pub struct ConfigWitness {
    hash: String,
}

impl View for ConfigWitness {
    type V = Seq<char>;

    closed spec fn view(&self) -> Seq<char> {
        self.hash@
    }
}

impl ConfigWitness {
    /// The BLAKE3 hex digest that binds all provenance inputs.
    pub fn hash(&self) -> (r: &str)
        ensures
            r@ == self@,
    {
        self.hash.as_str()
    }

    /// The witness of a load: the BLAKE3 hex of the UTF-8 bytes of
    /// [`witness_text`], with the fitness given as the ratio `passed / run`:
    /// 64 lowercase hexadecimal characters.
    pub fn compute(
        source_report: &SourceReport,
        layer_report: &LayerReport,
        env_report: &EnvOverrideReport,
        fitness: (usize, usize),
        canonical_bytes: &[u8],
    ) -> (r: ConfigWitness)
        ensures
            r@ == blake3_hex_of(utf8(witness_text(
                source_views(source_report.entries@),
                layer_entry_views(layer_report.entries@),
                env_entry_views(env_report.entries@),
                fitness.0 as nat,
                fitness.1 as nat,
                canonical_bytes@,
            ))),
            r@.len() == 64,
            forall|i: int| 0 <= i < r@.len() ==> is_hex_lower(#[trigger] r@[i]),
    {
        let mut parts: Vec<String> = Vec::new();
        let digests = source_digests_in_id_order(source_report);
        parts.push(join_strings(&digests, ","));
        let n = layer_report.entries.len();
        let lod = if n > 0 {
            layer_report.entries[n - 1].layer_order_digest.clone()
        } else {
            String::new()
        };
        parts.push(lod);
        let ghost ev = env_entry_views(env_report.entries@);
        let mut texts: Vec<Vec<char>> = Vec::new();
        let mut i: usize = 0;
        while i < env_report.entries.len()
            invariant
                i <= env_report.entries@.len(),
                ev == env_entry_views(env_report.entries@),
                cviews(texts@) == accepted_texts(ev.take(i as int)),
            decreases env_report.entries@.len() - i,
        {
            assert(ev.take(i as int + 1).drop_last() =~= ev.take(i as int));
            let e = &env_report.entries[i];
            if e.accepted {
                let mut t = e.raw_env_key.clone();
                assert(t@ == e.raw_env_key@);
                push_char(&mut t, '=');
                push_str(&mut t, e.mapped_path.as_str());
                push_char(&mut t, ':');
                push_str(&mut t, e.raw_value_digest.as_str());
                let tc = chars_of(t.as_str());
                assert(ev[i as int] == e@);
                assert(tc@ =~= env_item_text(ev[i as int]));
                let ghost before = cviews(texts@);
                texts.push(tc);
                assert(cviews(texts@) =~= before.push(env_item_text(ev[i as int])));
            }
            i = i + 1;
        }
        assert(ev.take(env_report.entries@.len() as int) =~= ev);
        let sorted = sort_texts(texts);
        proof {
            lemma_lex_total_ordering();
            accepted_texts(ev).lemma_sort_by_ensures(lex_order());
            lemma_sorted_unique(cviews(sorted@), accepted_texts(ev).sort_by(lex_order()));
        }
        let env_joined = crate::order::join_chars(&sorted, ',');
        parts.push(string_of(&env_joined));
        parts.push(fixed6_text(fitness.0, fitness.1));
        parts.push(blake3_hex(canonical_bytes));
        let joined = join_strings(&parts, "|");
        proof {
            reveal_strlit(",");
            reveal_strlit("|");
            assert(","@ =~= seq![',']);
            assert("|"@ =~= seq!['|']);
            assert(views(parts@) =~= seq![
                join(present_digests(sort_by_id(id_digests(source_views(source_report.entries@)))), seq![',']),
                last_order_digest(layer_entry_views(layer_report.entries@)),
                join(accepted_texts(ev).sort_by(lex_order()), seq![',']),
                fixed6(fitness.0 as nat, fitness.1 as nat),
                blake3_hex_of(canonical_bytes@),
            ]);
        }
        ConfigWitness { hash: blake3_hex_str(joined.as_str()) }
    }
}

} // verus!
