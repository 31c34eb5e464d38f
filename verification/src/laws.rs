//! Properties of the library as a whole: conformance fitness, variant
//! fingerprints, environment expansion, path policies, unknown fields, the
//! witness and the lifecycle log.

use vstd::prelude::*;
use vstd::relations::sorted_by;
use crate::text::join;
use crate::validation::{ErrorView, Severity, fitness_of, failed_count, variant_of, pair_texts, pair_text, loc_text, kind_code};
use crate::merge::{child_path, lookup};
use crate::value::{lemma_entries_map_dom, lemma_entries_map_index, lemma_entries_wf_index};
use crate::env::expand_spec;
use crate::lexical::has_char;
use crate::path::{PathPolicy, resolution, resolved_text, starts_with_path, clean_text, base_dir, is_abs};
use crate::validation::has_traversal;
use crate::value::{TomlValue, TomlModel, value_wf, table_of, entries_map, array_models};
use crate::canonical::{unknown_paths, unknown_fields, unknown_in_entries, unknown_in_elems, value_sorted, lemma_unknown_paths_unique};
use crate::order::{lex_order, lemma_lex_total_ordering, lemma_sorted_unique, cviews};
use crate::witness::{witness_text, accepted_texts};
use crate::reports::{SourceEntryView, LayerEntryView, EnvEntryView};
use crate::ocel::{ocel_objects, add_objects, event_objects, has_object, ObjectView};
use crate::events::AdmissionEvent;
use crate::schema::{
    Schema, ConstraintView, schema_errors, schema_checks, schema_errors_upto, schema_checks_upto, fields_errors,
    fields_count, constraints_errors, child,
};
use crate::validation::SegView;
use crate::env::env_key_path;
use crate::loader::{env_overlay, env_apply, EnvApplied, Provenance};
use crate::admission::{AdmittedConfig, strict_admission, admission_unknown};
use crate::error::Error;
use crate::validation::ReportView;
use crate::toml_io::toml_rendered;
use crate::digest::{blake3_hex_of, utf8, is_hex_lower};
use crate::reports::{source_views, layer_entry_views, env_entry_views};

verus! {

// ---------------------------------------------------------------------------
// Validation analytics
// ---------------------------------------------------------------------------

/// Fitness is a ratio of at most one: the checks passed never exceed the
/// checks run, at least one check is counted, and a report with no failure
/// of severity `Error` or above has full fitness.
pub proof fn law_fitness_bounded(checks_run: nat, errors: Seq<ErrorView>)
    ensures
        fitness_of(checks_run, errors).0 <= fitness_of(checks_run, errors).1,
        fitness_of(checks_run, errors).1 >= 1,
        failed_count(errors) == 0 ==> fitness_of(checks_run, errors).0 == fitness_of(checks_run, errors).1,
{
}

/// The variant fingerprint depends only on the `loc:code` pairs of the
/// errors, counted with multiplicity: not on their order, messages, inputs
/// or severities.
pub proof fn law_variant_depends_on_pairs(s1: Seq<ErrorView>, s2: Seq<ErrorView>)
    requires
        pair_texts(s1).to_multiset() == pair_texts(s2).to_multiset(),
    ensures
        variant_of(s1) == variant_of(s2),
{
    lemma_lex_total_ordering();
    let a = pair_texts(s1).sort_by(lex_order());
    let b = pair_texts(s2).sort_by(lex_order());
    pair_texts(s1).lemma_sort_by_ensures(lex_order());
    pair_texts(s2).lemma_sort_by_ensures(lex_order());
    lemma_sorted_unique(a, b);
}

// ---------------------------------------------------------------------------
// Environment expansion
// ---------------------------------------------------------------------------

/// A text without `$` expands to itself, whatever the environment.
pub proof fn law_expand_without_dollar(s: Seq<char>, vars: Seq<(String, String)>)
    requires
        !has_char(s, '$'),
    ensures
        expand_spec(s, vars) == s,
    decreases s.len(),
{
    if s.len() > 0 {
        assert(s[0] != '$') by {
            assert(s.contains(s[0]));
        }
        assert(!has_char(s.drop_first(), '$')) by {
            if s.drop_first().contains('$') {
                let i = choose|i: int| 0 <= i < s.drop_first().len() && s.drop_first()[i] == '$';
                assert(s[i + 1] == '$');
                assert(s.contains('$'));
            }
        }
        law_expand_without_dollar(s.drop_first(), vars);
        assert(seq![s[0]] + s.drop_first() =~= s);
    }
}

// ---------------------------------------------------------------------------
// Path policies
// ---------------------------------------------------------------------------

/// A path with a NUL character is rejected under every policy.
pub proof fn law_null_byte_rejected(raw: Seq<char>, source: Seq<char>, policy: PathPolicy)
    requires
        has_char(raw, '\0'),
    ensures
        resolution(raw, source, policy) == Err::<Seq<char>, Seq<char>>("null_byte_detected"@),
{
}

/// A path with a traversal segment (backslashes read as slashes) is
/// rejected under every policy.
pub proof fn law_traversal_rejected(raw: Seq<char>, source: Seq<char>, policy: PathPolicy)
    requires
        has_traversal(raw),
    ensures
        resolution(raw, source, policy) is Err,
{
}

/// A path accepted under the sandbox policy lies within the sandbox root.
pub proof fn law_sandbox_contains(raw: Seq<char>, source: Seq<char>, root: String)
    requires
        resolution(raw, source, PathPolicy::Sandbox { root }) is Ok,
    ensures
        starts_with_path(resolution(raw, source, PathPolicy::Sandbox { root })->Ok_0, clean_text(root@)),
{
}

/// An accepted relative path is resolved against the directory of its
/// source file, and cleaned.
pub proof fn law_relative_resolved_against_source(raw: Seq<char>, source: Seq<char>, policy: PathPolicy)
    requires
        !is_abs(raw),
        resolution(raw, source, policy) is Ok,
    ensures
        resolution(raw, source, policy)->Ok_0 == clean_text(crate::path::join_text(base_dir(source), raw)),
{
}

// ---------------------------------------------------------------------------
// Unknown fields
// ---------------------------------------------------------------------------

/// A well-formed value has no key its own model lacks.
pub proof fn lemma_no_unknown_paths_against_itself(s: TomlValue, p: Seq<char>)
    requires
        value_wf(s),
    ensures
        unknown_paths(s, s@, p) == Seq::<Seq<char>>::empty(),
    decreases s,
{
    match s {
        TomlValue::Table(e) => {
            crate::value::lemma_entries_wf_index(e@);
            assert forall|i: int| 0 <= i < e@.len() implies
                entries_map(e@).contains_key(e@[i].0@) && entries_map(e@)[e@[i].0@] == (#[trigger] e@[i]).1@ && value_wf(e@[i].1) by {
                crate::value::lemma_entries_map_index(e@, i);
            }
            assert forall|i: int, q: Seq<char>| 0 <= i < e@.len() implies #[trigger] unknown_paths(e@[i].1, e@[i].1@, q) == Seq::<Seq<char>>::empty() by {
                assert(decreases_to!(s => e));
                assert(decreases_to!(e => e@));
                assert(decreases_to!(e@ => e@[i]));
                assert(decreases_to!(e@[i] => e@[i].1));
                lemma_no_unknown_paths_against_itself(e@[i].1, q);
            }
            lemma_no_unknown_entries(e@, p, e@.len());
        },
        TomlValue::Array(a) => {
            crate::value::lemma_array_wf_index(a@);
            crate::value::lemma_array_models_index(a@);
            assert forall|i: int, q: Seq<char>| 0 <= i < a@.len() implies #[trigger] unknown_paths(a@[i], a@[i]@, q) == Seq::<Seq<char>>::empty() by {
                assert(decreases_to!(s => a));
                assert(decreases_to!(a => a@));
                assert(decreases_to!(a@ => a@[i]));
                lemma_no_unknown_paths_against_itself(a@[i], q);
            }
            lemma_no_unknown_elems(a@, p, a@.len());
        },
        _ => {},
    }
}

proof fn lemma_no_unknown_entries(e: Seq<(String, TomlValue)>, p: Seq<char>, n: nat)
    requires
        n <= e.len(),
        forall|i: int| 0 <= i < e.len() ==> entries_map(e).contains_key(e[i].0@) && entries_map(e)[e[i].0@] == (#[trigger] e[i]).1@,
        forall|i: int, q: Seq<char>| 0 <= i < e.len() ==> #[trigger] unknown_paths(e[i].1, e[i].1@, q) == Seq::<Seq<char>>::empty(),
    ensures
        unknown_in_entries(e, entries_map(e), p, n) == Seq::<Seq<char>>::empty(),
    decreases n,
{
    if n > 0 {
        lemma_no_unknown_entries(e, p, (n - 1) as nat);
        let k = e[n - 1].0@;
        assert(entries_map(e).contains_key(k) && entries_map(e)[k] == e[n - 1].1@);
        assert(unknown_paths(e[n - 1].1, e[n - 1].1@, crate::merge::child_path(p, k)) == Seq::<Seq<char>>::empty());
        assert(unknown_in_entries(e, entries_map(e), p, n) =~= Seq::<Seq<char>>::empty());
    }
}

proof fn lemma_no_unknown_elems(a: Seq<TomlValue>, p: Seq<char>, n: nat)
    requires
        n <= a.len(),
        array_models(a).len() == a.len(),
        forall|i: int| 0 <= i < a.len() ==> #[trigger] array_models(a)[i] == a[i]@,
        forall|i: int, q: Seq<char>| 0 <= i < a.len() ==> #[trigger] unknown_paths(a[i], a[i]@, q) == Seq::<Seq<char>>::empty(),
    ensures
        unknown_in_elems(a, array_models(a), p, n) == Seq::<Seq<char>>::empty(),
    decreases n,
{
    if n > 0 {
        lemma_no_unknown_elems(a, p, (n - 1) as nat);
        assert(array_models(a)[n - 1] == a[n - 1]@);
        assert(unknown_paths(a[n - 1], a[n - 1]@, crate::canonical::index_path(p, (n - 1) as nat)) == Seq::<Seq<char>>::empty());
        assert(unknown_in_elems(a, array_models(a), p, n) =~= Seq::<Seq<char>>::empty());
    }
}

/// A configuration whose typed form is exactly its tree has no unknown
/// fields: strict admission rejects only keys the type does not know.
pub proof fn law_no_unknown_fields_against_itself(s: TomlValue)
    requires
        value_wf(s),
        value_sorted(s),
    ensures
        unknown_fields(s@, s@) == Seq::<Seq<char>>::empty(),
{
    let c = choose|c: TomlValue| value_wf(c) && value_sorted(c) && c@ == s@;
    lemma_unknown_paths_unique(c, s, s@, Seq::empty());
    lemma_no_unknown_paths_against_itself(s, Seq::empty());
}

// ---------------------------------------------------------------------------
// The witness
// ---------------------------------------------------------------------------

/// The witness text does not depend on the order in which the accepted
/// environment overrides were recorded.
pub proof fn law_witness_ignores_env_order(
    sources: Seq<SourceEntryView>,
    layers: Seq<LayerEntryView>,
    env1: Seq<EnvEntryView>,
    env2: Seq<EnvEntryView>,
    passed: nat,
    run: nat,
    canonical: Seq<u8>,
)
    requires
        accepted_texts(env1).to_multiset() == accepted_texts(env2).to_multiset(),
    ensures
        witness_text(sources, layers, env1, passed, run, canonical) == witness_text(sources, layers, env2, passed, run, canonical),
{
    lemma_lex_total_ordering();
    accepted_texts(env1).lemma_sort_by_ensures(lex_order());
    accepted_texts(env2).lemma_sort_by_ensures(lex_order());
    lemma_sorted_unique(accepted_texts(env1).sort_by(lex_order()), accepted_texts(env2).sort_by(lex_order()));
}

// ---------------------------------------------------------------------------
// The lifecycle log
// ---------------------------------------------------------------------------

/// `x` is one of `objs` or one of `new`.
spec fn from_either(x: ObjectView, objs: Seq<ObjectView>, new: Seq<ObjectView>) -> bool {
    (exists|k: int| 0 <= k < objs.len() && #[trigger] objs[k] == x) || (exists|k: int| 0 <= k < new.len() && #[trigger] new[k] == x)
}

/// Adding objects keeps identities distinct and adds only objects of `new`.
proof fn lemma_add_objects_distinct(objs: Seq<ObjectView>, new: Seq<ObjectView>)
    requires
        forall|i: int, j: int| 0 <= i < j < objs.len() ==> objs[i].id != objs[j].id,
    ensures
        forall|i: int, j: int| 0 <= i < j < add_objects(objs, new).len() ==> add_objects(objs, new)[i].id != add_objects(objs, new)[j].id,
        forall|i: int| 0 <= i < add_objects(objs, new).len() ==> from_either(#[trigger] add_objects(objs, new)[i], objs, new),
    decreases new.len(),
{
    if new.len() == 0 {
        assert forall|i: int| 0 <= i < add_objects(objs, new).len() implies from_either(#[trigger] add_objects(objs, new)[i], objs, new) by {
            assert(objs[i] == add_objects(objs, new)[i]);
        }
    } else {
        let d = new.drop_last();
        lemma_add_objects_distinct(objs, d);
        let before = add_objects(objs, d);
        let after = add_objects(objs, new);
        assert forall|i: int| 0 <= i < before.len() implies from_either(#[trigger] before[i], objs, new) by {
            assert(from_either(before[i], objs, d));
            if exists|k: int| 0 <= k < d.len() && #[trigger] d[k] == before[i] {
                let k = choose|k: int| 0 <= k < d.len() && #[trigger] d[k] == before[i];
                assert(new[k] == d[k]);
            }
        }
        if !has_object(before, new.last().id) {
            assert(after == before.push(new.last()));
            assert forall|i: int, j: int| 0 <= i < j < after.len() implies after[i].id != after[j].id by {
                if j == after.len() - 1 {
                    assert(after[i] == before[i]);
                    if before[i].id == new.last().id {
                        assert(has_object(before, new.last().id));
                    }
                } else {
                    assert(after[i] == before[i] && after[j] == before[j]);
                }
            }
            assert forall|i: int| 0 <= i < after.len() implies from_either(#[trigger] after[i], objs, new) by {
                if i < before.len() {
                    assert(after[i] == before[i]);
                } else {
                    assert(new[new.len() - 1] == after[i]);
                }
            }
        } else {
            assert(after == before);
        }
    }
}

/// The objects of the lifecycle log of `events` have distinct identities,
/// and each carries at most the `run_id` attribute of its run: the log
/// records history only, with no quality score.
pub proof fn law_ocel_objects_distinct_and_plain(events: Seq<AdmissionEvent>)
    ensures
        forall|i: int, j: int| 0 <= i < j < ocel_objects(events).len() ==> ocel_objects(events)[i].id != ocel_objects(events)[j].id,
        forall|i: int, a: int| 0 <= i < ocel_objects(events).len() && 0 <= a < ocel_objects(events)[i].attributes.len() ==> (#[trigger] ocel_objects(events)[i].attributes[a]).0 == "run_id"@,
    decreases events.len(),
{
    if events.len() > 0 {
        law_ocel_objects_distinct_and_plain(events.drop_last());
        let objs = ocel_objects(events.drop_last());
        let new = event_objects(events.last());
        lemma_add_objects_distinct(objs, new);
        let all = ocel_objects(events);
        assert forall|i: int, a: int| 0 <= i < all.len() && 0 <= a < all[i].attributes.len() implies (#[trigger] all[i].attributes[a]).0 == "run_id"@ by {
            assert(from_either(all[i], objs, new));
            if exists|k: int| 0 <= k < objs.len() && #[trigger] objs[k] == all[i] {
                let k = choose|k: int| 0 <= k < objs.len() && #[trigger] objs[k] == all[i];
                assert(objs[k].attributes[a].0 == "run_id"@);
            } else {
                let k = choose|k: int| 0 <= k < new.len() && #[trigger] new[k] == all[i];
                if k > 0 {
                    assert(new[k].attributes.len() == 0);
                }
            }
        }
    }
}


// ---------------------------------------------------------------------------
// Schemas
// ---------------------------------------------------------------------------

proof fn lemma_constraints_errors_bounded(cs: Seq<ConstraintView>, name: Seq<char>, v: Option<TomlModel>, p: Seq<SegView>)
    ensures
        constraints_errors(cs, name, v, p).len() <= cs.len(),
    decreases cs.len(),
{
    if cs.len() > 0 {
        lemma_constraints_errors_bounded(cs.drop_last(), name, v, p);
    }
}

proof fn lemma_fields_errors_bounded(fs: Seq<(Seq<char>, Seq<ConstraintView>)>, v: Option<TomlModel>, p: Seq<SegView>)
    ensures
        fields_errors(fs, v, p).len() <= fields_count(fs),
    decreases fs.len(),
{
    if fs.len() > 0 {
        lemma_fields_errors_bounded(fs.drop_last(), v, p);
        lemma_constraints_errors_bounded(fs.last().1, fs.last().0, child(v, fs.last().0), p);
    }
}

proof fn lemma_schema_errors_bounded(s: Schema, v: Option<TomlModel>, p: Seq<SegView>, n: nat)
    ensures
        schema_errors_upto(s, v, p, n).len() <= schema_checks_upto(s, v, n),
    decreases s, n,
{
    if n == 0 || n > s.sections@.len() {
        lemma_fields_errors_bounded(crate::schema::fields_view(s.fields@), v, p);
    } else {
        let name = s.sections@[n - 1].0@;
        let sub = s.sections@[n - 1].1;
        lemma_schema_errors_bounded(s, v, p, (n - 1) as nat);
        assert(decreases_to!(s => s.sections));
        assert(decreases_to!(s.sections => s.sections@));
        assert(decreases_to!(s.sections@ => s.sections@[n - 1]));
        assert(decreases_to!(s.sections@[n - 1] => sub));
        lemma_schema_errors_bounded(sub, child(v, name), p.push(SegView::Key(name)), sub.sections@.len());
    }
}

/// A schema reports at most one error per check it runs, so its fitness
/// is a ratio between zero and one.
pub proof fn law_schema_errors_within_checks(s: Schema, v: TomlModel)
    ensures
        schema_errors(s, v, Seq::empty()).len() <= schema_checks(s, v),
{
    lemma_schema_errors_bounded(s, Some(v), Seq::empty(), s.sections@.len());
}


// ---------------------------------------------------------------------------
// Environment overrides
// ---------------------------------------------------------------------------

/// Variables that do not carry the configured prefix are never admitted:
/// when none matches, the overrides leave the tree unchanged and record
/// nothing.
pub proof fn law_unprefixed_env_ignored(m: TomlModel, st: EnvApplied, vars: Seq<(String, String)>, prefix: Seq<char>)
    requires
        forall|i: int| 0 <= i < vars.len() ==> env_key_path(#[trigger] vars[i].0@, prefix) is None,
    ensures
        env_overlay(m, vars, prefix) == m,
        env_apply(st, vars, prefix) == st,
    decreases vars.len(),
{
    if vars.len() > 0 {
        let p = vars.drop_last();
        assert forall|i: int| 0 <= i < p.len() implies env_key_path(#[trigger] p[i].0@, prefix) is None by {
            assert(p[i] == vars[i]);
        }
        law_unprefixed_env_ignored(m, st, p, prefix);
        assert(env_key_path(vars[vars.len() - 1].0@, prefix) is None);
    }
}


// ---------------------------------------------------------------------------
// Admission
// ---------------------------------------------------------------------------

/// An admitted configuration always passed: the tree has no key its type
/// lacks, the report its validation recorded holds no failure of severity
/// `Error` or above, the envelope holds the value with its provenance, and
/// its witness is what `ConfigWitness::compute` gives for its reports with
/// full fitness and the canonical text of the value: 64 lowercase hex
/// characters.
pub proof fn law_admitted_passed_and_witnessed<T>(
    r: Result<AdmittedConfig<T>, Error>,
    original: TomlModel,
    typed: Result<TomlModel, Seq<char>>,
    report: ReportView,
    value: T,
    p: Provenance,
    type_path: Seq<char>,
)
    requires
        strict_admission(r, original, typed, report, value, p, type_path),
        r is Ok,
    ensures
        admission_unknown(original, typed).len() == 0,
        failed_count(report.errors) == 0,
        r->Ok_0.admitted_value() == value,
        r->Ok_0.admitted_provenance() == p,
        typed matches Ok(t) && toml_rendered(t) matches Ok(c) && r->Ok_0.admitted_witness()@ == blake3_hex_of(
            utf8(
                witness_text(
                    source_views(p.source_report.entries@),
                    layer_entry_views(p.layer_report.entries@),
                    env_entry_views(p.env_report.entries@),
                    1,
                    1,
                    utf8(c),
                ),
            ),
        ),
        r->Ok_0.admitted_witness()@.len() == 64,
        forall|i: int| 0 <= i < 64 ==> is_hex_lower(#[trigger] r->Ok_0.admitted_witness()@[i]),
{
}

// ---------------------------------------------------------------------------
// Failures by severity, fingerprints by location, unknown nested keys
// ---------------------------------------------------------------------------

/// Only errors of severity `Error` or `Fatal` are failures: the failed count
/// of a report is the number of its errors of those two severities.
pub proof fn law_failed_counts_errors_and_fatal(s: Seq<ErrorView>)
    ensures
        failed_count(s) == s.filter(|e: ErrorView| e.severity == Severity::Error || e.severity == Severity::Fatal).len(),
    decreases s.len(),
{
    reveal(Seq::filter);
    if s.len() > 0 {
        law_failed_counts_errors_and_fatal(s.drop_last());
    }
}

/// Warnings and advisories never fail a validation: a report whose errors
/// are all of severity `Warning` or `Advisory` has no failure, and every
/// check that ran counts as passed.
pub proof fn law_warnings_never_fail(checks_run: nat, s: Seq<ErrorView>)
    requires
        forall|i: int| 0 <= i < s.len() ==> (#[trigger] s[i]).severity == Severity::Warning || s[i].severity == Severity::Advisory,
    ensures
        failed_count(s) == 0,
        checks_run > 0 ==> fitness_of(checks_run, s) == (checks_run, checks_run),
    decreases s.len(),
{
    if s.len() > 0 {
        assert(s.last() == s[s.len() - 1]);
        law_warnings_never_fail(checks_run, s.drop_last());
    }
}

/// The `loc:code` text of an error is its location, `:`, then its code, so
/// two errors with the same location and different codes have different
/// texts, two errors with the same code at different locations have
/// different texts, and two one-error reports failing the same code at
/// different locations hand different texts to the variant fingerprint.
pub proof fn law_variant_text_keeps_location(e1: ErrorView, e2: ErrorView)
    ensures
        pair_text(e1).len() > loc_text(e1.loc).len(),
        pair_text(e1).subrange(0, loc_text(e1.loc).len() as int) == loc_text(e1.loc),
        pair_text(e1)[loc_text(e1.loc).len() as int] == ':',
        pair_text(e1).subrange(loc_text(e1.loc).len() as int + 1, pair_text(e1).len() as int) == kind_code(e1.kind),
        loc_text(e1.loc) == loc_text(e2.loc) && kind_code(e1.kind) != kind_code(e2.kind) ==> pair_text(e1) != pair_text(e2),
        kind_code(e1.kind) == kind_code(e2.kind) && loc_text(e1.loc) != loc_text(e2.loc) ==> {
            &&& pair_text(e1) != pair_text(e2)
            &&& join(pair_texts(seq![e1]).sort_by(lex_order()), seq!['|'])
                != join(pair_texts(seq![e2]).sort_by(lex_order()), seq!['|'])
        },
{
    let l1 = loc_text(e1.loc);
    let l2 = loc_text(e2.loc);
    let c = kind_code(e1.kind);
    assert(pair_text(e1).subrange(0, l1.len() as int) =~= l1);
    assert(pair_text(e1).subrange(l1.len() as int + 1, pair_text(e1).len() as int) =~= c);
    if l1 == l2 && kind_code(e1.kind) != kind_code(e2.kind) && pair_text(e1) == pair_text(e2) {
        assert(pair_text(e2).subrange(l2.len() as int + 1, pair_text(e2).len() as int) =~= kind_code(e2.kind));
    }
    if kind_code(e1.kind) == kind_code(e2.kind) && l1 != l2 {
        assert(pair_text(e1).len() == l1.len() + 1 + c.len());
        assert(pair_text(e2).len() == l2.len() + 1 + c.len());
        if pair_text(e1) == pair_text(e2) {
            assert(l1.len() == l2.len());
            assert(pair_text(e2).subrange(0, l2.len() as int) =~= l2);
        }
        lemma_lex_total_ordering();
        let s1 = pair_texts(seq![e1]);
        let s2 = pair_texts(seq![e2]);
        assert(s1 =~= seq![pair_text(e1)]);
        assert(s2 =~= seq![pair_text(e2)]);
        s1.lemma_sort_by_ensures(lex_order());
        s2.lemma_sort_by_ensures(lex_order());
        assert(sorted_by(s1, lex_order()));
        assert(sorted_by(s2, lex_order()));
        lemma_sorted_unique(s1.sort_by(lex_order()), s1);
        lemma_sorted_unique(s2.sort_by(lex_order()), s2);
        assert(join(s1, seq!['|']) == pair_text(e1));
        assert(join(s2, seq!['|']) == pair_text(e2));
    }
}

/// The dotted path of the keys `segs` below `prefix`.
pub open spec fn key_path(prefix: Seq<char>, segs: Seq<Seq<char>>) -> Seq<char>
    decreases segs.len(),
{
    if segs.len() == 0 {
        prefix
    } else {
        key_path(child_path(prefix, segs[0]), segs.drop_first())
    }
}

proof fn lemma_concat_contains(a: Seq<Seq<char>>, b: Seq<Seq<char>>, q: Seq<char>)
    ensures
        a.contains(q) ==> (a + b).contains(q),
        b.contains(q) ==> (a + b).contains(q),
{
    if a.contains(q) {
        let j = choose|j: int| 0 <= j < a.len() && a[j] == q;
        assert((a + b)[j] == q);
    }
    if b.contains(q) {
        let j = choose|j: int| 0 <= j < b.len() && b[j] == q;
        assert((a + b)[a.len() + j] == q);
    }
}

/// Entry `i` of a table contributes its unknown paths to the table's.
proof fn lemma_entry_contributes(e: Seq<(String, TomlValue)>, tm: Map<Seq<char>, TomlModel>, prefix: Seq<char>, n: nat, i: int)
    requires
        0 <= i < n <= e.len(),
    ensures
        !tm.contains_key(e[i].0@) ==> unknown_in_entries(e, tm, prefix, n).contains(child_path(prefix, e[i].0@)),
        forall|q: Seq<char>|
            tm.contains_key(e[i].0@) && #[trigger] unknown_paths(e[i].1, tm[e[i].0@], child_path(prefix, e[i].0@)).contains(q)
                ==> unknown_in_entries(e, tm, prefix, n).contains(q),
    decreases n,
{
    let k = e[(n - 1) as int].0@;
    let last = if tm.contains_key(k) {
        unknown_paths(e[(n - 1) as int].1, tm[k], child_path(prefix, k))
    } else {
        seq![child_path(prefix, k)]
    };
    let front = unknown_in_entries(e, tm, prefix, (n - 1) as nat);
    assert(unknown_in_entries(e, tm, prefix, n) == front + last);
    if i < n - 1 {
        lemma_entry_contributes(e, tm, prefix, (n - 1) as nat, i);
        lemma_concat_contains(front, last, child_path(prefix, e[i].0@));
        assert forall|q: Seq<char>| front.contains(q) implies (front + last).contains(q) by {
            lemma_concat_contains(front, last, q);
        }
    } else {
        assert forall|q: Seq<char>| last.contains(q) implies (front + last).contains(q) by {
            lemma_concat_contains(front, last, q);
        }
        if !tm.contains_key(k) {
            assert(last[0] == child_path(prefix, k));
            assert(last.contains(child_path(prefix, k)));
            lemma_concat_contains(front, last, child_path(prefix, k));
        }
    }
}

/// A key of the configuration that the typed form lacks is reported at its
/// full dotted path, however deep its table: when following the keys `segs`
/// from `o` and from the typed model `t` reaches a table in both, and the
/// original table has a key `k` that the typed one lacks, the unknown paths
/// of `o` (rooted at `prefix`) contain `segs` then `k` as a dotted path.
pub proof fn law_unknown_key_reported_at_its_path(
    o: TomlValue,
    t: TomlModel,
    prefix: Seq<char>,
    segs: Seq<Seq<char>>,
    k: Seq<char>,
)
    requires
        value_wf(o),
        lookup(o@, segs) matches Some(TomlModel::Table(om)) && om.contains_key(k),
        lookup(t, segs) matches Some(TomlModel::Table(tm)) && !tm.contains_key(k),
    ensures
        unknown_paths(o, t, prefix).contains(child_path(key_path(prefix, segs), k)),
    decreases segs.len(),
{
    match o {
        TomlValue::Table(e) => {
            lemma_entries_wf_index(e@);
            let kk = if segs.len() == 0 {
                k
            } else {
                segs[0]
            };
            lemma_entries_map_dom(e@, kk);
            let i = choose|i: int| 0 <= i < e@.len() && #[trigger] e@[i].0@ == kk;
            lemma_entries_map_index(e@, i);
            let tm0 = table_of(t);
            assert(t is Table);
            assert(unknown_paths(o, t, prefix) == unknown_in_entries(e@, tm0, prefix, e@.len()));
            if segs.len() > 0 {
                assert(tm0.contains_key(kk));
                law_unknown_key_reported_at_its_path(e@[i].1, tm0[kk], child_path(prefix, kk), segs.drop_first(), k);
            }
            lemma_entry_contributes(e@, tm0, prefix, e@.len(), i);
        },
        _ => {
            assert(false);
        },
    }
}

/// Strict admission sees unknown keys in nested tables: the unknown fields
/// of a configuration against its typed form contain the dotted path of
/// every key, at any depth, whose table the typed form has but which the
/// typed table lacks (e.g. `server.extra` when `[server]` has `extra` and
/// the typed `server` does not).
pub proof fn law_unknown_fields_report_nested_keys(s: TomlValue, t: TomlModel, segs: Seq<Seq<char>>, k: Seq<char>)
    requires
        value_wf(s),
        value_sorted(s),
        lookup(s@, segs) matches Some(TomlModel::Table(om)) && om.contains_key(k),
        lookup(t, segs) matches Some(TomlModel::Table(tm)) && !tm.contains_key(k),
    ensures
        unknown_fields(s@, t).contains(child_path(key_path(Seq::empty(), segs), k)),
{
    let c = choose|c: TomlValue| value_wf(c) && value_sorted(c) && c@ == s@;
    lemma_unknown_paths_unique(c, s, t, Seq::empty());
    law_unknown_key_reported_at_its_path(s, t, Seq::empty(), segs, k);
}

} // verus!
