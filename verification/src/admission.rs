//! Admission: the strict and exploratory pipelines that turn a resolved load
//! into a witnessed [`AdmittedConfig`], the canonical TOML text of a value,
//! and the [`TrustedLoader`] builder with its one-shot [`TrustedConfig`].
//!
//! Serializing a configuration value to TOML is done by the caller: each
//! step that needs it takes the value's TOML tree (or the serializer's error
//! message) as an argument.

use vstd::prelude::*;
use crate::text::{views, owned, push_str, push_char, chars_of, string_of};
use crate::value::{TomlValue, TomlModel, value_wf, copy_value};
use crate::canonical::{sort_toml_value, detect_unknown_fields, unknown_fields};
use crate::lexical::{split_on, split_chars};
use crate::validation::{
    ValidationError, ValidationErrors, ErrorView, ReportView, KindView, SegView, Severity, ErrorKind,
    Loc, LocSegment, seg_views, error_views, failed_count, after_last_path_sep, copy_string,
    Validate, Validator,
};
use crate::error::Error;
use crate::toml_io::{render_toml, toml_rendered};
use crate::digest::{utf8, utf8_bytes, fnv1a, fnv1a_spec, blake3_hex_of, is_hex_lower};
use crate::witness::{ConfigWitness, witness_text};
use crate::reports::{SourceReport, LayerReport, EnvOverrideReport, source_views, layer_entry_views, env_entry_views};
use crate::merge::WinnerMap;
use crate::env::EnvSnapshot;
use crate::loader::{
    Config, EnvResolved, Deserialized, Provenance, ConfigLifecycle, Loader, LoaderView, LayerView,
    SourceRead, read_views, failure_of, merged_spec, bounded_upto, bounded_start, env_apply, EnvApplied,
    validation_outcome, Validated, Frozen, ConfigLayer, layer_views,
};

verus! {

// ---------------------------------------------------------------------------
// Unknown fields
// ---------------------------------------------------------------------------

/// The error reporting an unknown field at the dotted path `path`: located
/// at its dot-separated keys, code `unknown_field`, severity `Error`, the
/// path as input.
pub open spec fn unknown_field_error(path: Seq<char>) -> ErrorView {
    ErrorView {
        loc: split_on(path, '.').map_values(|k: Seq<char>| SegView::Key(k)),
        kind: KindView::Predicate { code: "unknown_field"@ },
        severity: Severity::Error,
        input: Some(path),
        msg: "unknown field: `"@ + path + seq!['`'],
    }
}

/// The report of unknown fields: one error per path, in order, and one
/// check per path.
pub open spec fn unknown_fields_report(paths: Seq<Seq<char>>) -> ReportView {
    ReportView {
        errors: paths.map_values(|p: Seq<char>| unknown_field_error(p)),
        title: None,
        checks_run: paths.len(),
    }
}

/// The error for the unknown field at `path` (see [`unknown_field_error`]).
pub fn unknown_field_error_of(path: &String) -> (r: ValidationError)
    ensures
        r@ == unknown_field_error(path@),
{
    let cs = chars_of(path.as_str());
    let pieces = split_chars(cs.as_slice(), '.');
    let ghost parts = split_on(path@, '.');
    let mut segs: Vec<LocSegment> = Vec::new();
    let mut i: usize = 0;
    while i < pieces.len()
        invariant
            i <= pieces@.len(),
            pieces@.len() == parts.len(),
            parts == split_on(path@, '.'),
            forall|k: int| 0 <= k < pieces@.len() ==> (#[trigger] pieces@[k])@ == parts[k],
            seg_views(segs@) == parts.take(i as int).map_values(|k: Seq<char>| SegView::Key(k)),
        decreases pieces@.len() - i,
    {
        let ghost before = seg_views(segs@);
        segs.push(LocSegment::Key(string_of(&pieces[i])));
        assert(seg_views(segs@) =~= before.push(SegView::Key(parts[i as int])));
        assert(parts.take(i as int + 1).map_values(|k: Seq<char>| SegView::Key(k))
            =~= parts.take(i as int).map_values(|k: Seq<char>| SegView::Key(k)).push(SegView::Key(parts[i as int])));
        i = i + 1;
    }
    assert(parts.take(pieces@.len() as int) =~= parts);
    let mut msg = owned("unknown field: `");
    push_str(&mut msg, path.as_str());
    push_char(&mut msg, '`');
    let r = ValidationError {
        loc: Loc(segs),
        kind: ErrorKind::Predicate { code: "unknown_field" },
        severity: Severity::Error,
        input: Some(copy_string(path)),
        msg,
    };
    assert(r@.msg =~= unknown_field_error(path@).msg);
    r
}

/// The report of the unknown fields at `paths` (see
/// [`unknown_fields_report`]).
pub fn unknown_fields_errors(paths: &Vec<String>) -> (r: ValidationErrors)
    ensures
        r@ == unknown_fields_report(views(paths@)),
{
    let mut errors: Vec<ValidationError> = Vec::new();
    let mut i: usize = 0;
    while i < paths.len()
        invariant
            i <= paths@.len(),
            error_views(errors@) == views(paths@).take(i as int).map_values(|p: Seq<char>| unknown_field_error(p)),
        decreases paths@.len() - i,
    {
        let ghost before = error_views(errors@);
        errors.push(unknown_field_error_of(&paths[i]));
        assert(error_views(errors@) =~= before.push(unknown_field_error(paths@[i as int]@)));
        assert(views(paths@).take(i as int + 1).map_values(|p: Seq<char>| unknown_field_error(p))
            =~= views(paths@).take(i as int).map_values(|p: Seq<char>| unknown_field_error(p)).push(
            unknown_field_error(paths@[i as int]@),
        ));
        i = i + 1;
    }
    assert(views(paths@).take(paths@.len() as int) =~= views(paths@));
    ValidationErrors::from_parts(errors, paths.len())
}

// ---------------------------------------------------------------------------
// Canonical text
// ---------------------------------------------------------------------------

/// The canonical TOML text of a value's tree: its tables in key order,
/// rendered by `toml::to_string`; the serializer's error as a `Serialize`
/// error.
pub fn canonical_toml(typed: &TomlValue) -> (r: Result<String, Error>)
    requires
        value_wf(*typed),
    ensures
        match toml_rendered(typed@) {
            Ok(t) => r matches Ok(s) && s@ == t,
            Err(m) => r matches Err(Error::Serialize(s)) && s@ == m,
        },
{
    let mut sorted = copy_value(typed);
    sort_toml_value(&mut sorted);
    match render_toml(&sorted) {
        Ok(t) => Ok(t),
        Err(m) => Err(Error::Serialize(m)),
    }
}

impl<T> Config<Validated<T>> {
    /// The canonical text to save for this validated configuration, given
    /// `typed`, the tree its value serializes to (see [`canonical_toml`]);
    /// the caller writes it to the file.
    pub fn save_canonical(&self, typed: &TomlValue) -> (r: Result<String, Error>)
        requires
            value_wf(*typed),
        ensures
            match toml_rendered(typed@) {
                Ok(t) => r matches Ok(s) && s@ == t,
                Err(m) => r matches Err(Error::Serialize(s)) && s@ == m,
            },
    {
        canonical_toml(typed)
    }
}

impl<T> Config<Frozen<T>> {
    /// The canonical text to save for this frozen configuration, given
    /// `typed`, the tree its value serializes to (see [`canonical_toml`]);
    /// the caller writes it to the file.
    pub fn save_canonical(&self, typed: &TomlValue) -> (r: Result<String, Error>)
        requires
            value_wf(*typed),
        ensures
            match toml_rendered(typed@) {
                Ok(t) => r matches Ok(s) && s@ == t,
                Err(m) => r matches Err(Error::Serialize(s)) && s@ == m,
            },
    {
        canonical_toml(typed)
    }
}

// ---------------------------------------------------------------------------
// The admission envelope
// ---------------------------------------------------------------------------

/// A validated, witnessed configuration with the provenance of its load.
/// Its fields are private: only admission makes one.
#[derive(Debug)]
pub struct AdmittedConfig<T> {
    value: T,
    witness: ConfigWitness,
    provenance: Provenance,
}

impl<T> AdmittedConfig<T> {
    /// The admitted value.
    pub closed spec fn admitted_value(&self) -> T {
        self.value
    }

    /// The witness.
    pub closed spec fn admitted_witness(&self) -> ConfigWitness {
        self.witness
    }

    /// The provenance.
    pub closed spec fn admitted_provenance(&self) -> Provenance {
        self.provenance
    }

    /// The deserialized and validated configuration value.
    pub fn value(&self) -> (r: &T)
        ensures
            *r == self.admitted_value(),
    {
        &self.value
    }

    /// The witness binding the provenance to the canonical bytes.
    pub fn witness(&self) -> (r: &ConfigWitness)
        ensures
            *r == self.admitted_witness(),
    {
        &self.witness
    }

    /// The source provenance report.
    pub fn source_report(&self) -> (r: &SourceReport)
        ensures
            *r == self.admitted_provenance().source_report,
    {
        &self.provenance.source_report
    }

    /// The layer merge provenance report.
    pub fn layer_report(&self) -> (r: &LayerReport)
        ensures
            *r == self.admitted_provenance().layer_report,
    {
        &self.provenance.layer_report
    }

    /// The environment override provenance report.
    pub fn env_report(&self) -> (r: &EnvOverrideReport)
        ensures
            *r == self.admitted_provenance().env_report,
    {
        &self.provenance.env_report
    }

    /// The final map from field path to winning layer.
    pub fn global_winner_map(&self) -> (r: &WinnerMap)
        ensures
            *r == self.admitted_provenance().global_winner_map,
    {
        &self.provenance.global_winner_map
    }

    /// Consume the envelope and return the value.
    pub fn into_value(self) -> (r: T)
        ensures
            r == self.admitted_value(),
    {
        self.value
    }
}

/// The witness of an admission with provenance `p` whose value has the
/// canonical TOML text `canonical`: full fitness `1 / 1` (validation passed).
pub open spec fn admission_witness(p: Provenance, canonical: Seq<char>) -> Seq<char> {
    blake3_hex_of(
        utf8(
            witness_text(
                source_views(p.source_report.entries@),
                layer_entry_views(p.layer_report.entries@),
                env_entry_views(p.env_report.entries@),
                1,
                1,
                utf8(canonical),
            ),
        ),
    )
}

/// The models of a serialization outcome.
pub open spec fn typed_view(typed: Result<TomlValue, String>) -> Result<TomlModel, Seq<char>> {
    match typed {
        Ok(t) => Ok(t@),
        Err(m) => Err(m@),
    }
}

/// What building the envelope gives for `value` with provenance `p`, once
/// validation passed, when serializing the value gave `typed`: the
/// serializer's error, or the envelope with the witness of the canonical text.
pub open spec fn admitted_as<T>(
    r: Result<AdmittedConfig<T>, Error>,
    value: T,
    p: Provenance,
    typed: Result<TomlModel, Seq<char>>,
) -> bool {
    match typed {
        Err(m) => r matches Err(Error::Serialize(s)) && s@ == m,
        Ok(t) => match toml_rendered(t) {
            Err(m) => r matches Err(Error::Serialize(s)) && s@ == m,
            Ok(c) => r matches Ok(a) && a.admitted_value() == value && a.admitted_provenance() == p
                && a.admitted_witness()@ == admission_witness(p, c) && a.admitted_witness()@.len() == 64
                && forall|i: int| 0 <= i < 64 ==> is_hex_lower(#[trigger] a.admitted_witness()@[i]),
        },
    }
}

/// What strict admission gives, from the tree `original`, the value's
/// serialization `typed` and the report its validation recorded: the
/// unknown fields when there are any, otherwise the report titled after the
/// type when it holds a failure of severity `Error` or above, otherwise the
/// envelope (see [`admitted_as`]).
pub open spec fn strict_admission<T>(
    r: Result<AdmittedConfig<T>, Error>,
    original: TomlModel,
    typed: Result<TomlModel, Seq<char>>,
    report: ReportView,
    value: T,
    p: Provenance,
    type_path: Seq<char>,
) -> bool {
    let u = admission_unknown(original, typed);
    if u.len() > 0 {
        r matches Err(Error::Invalid(rep)) && rep@ == unknown_fields_report(u)
    } else if failed_count(report.errors) > 0 {
        r matches Err(Error::Invalid(rep)) && rep@ == (ReportView { title: Some(after_last_path_sep(type_path)), ..report })
    } else {
        admitted_as(r, value, p, typed)
    }
}

/// Build the envelope (see [`admitted_as`]).
fn build_admitted<T>(value: T, provenance: Provenance, typed: &Result<TomlValue, String>) -> (r: Result<AdmittedConfig<T>, Error>)
    requires
        typed matches Ok(t) ==> value_wf(*t),
    ensures
        admitted_as(r, value, provenance, typed_view(*typed)),
{
    match typed {
        Err(m) => Err(Error::Serialize(copy_string(m))),
        Ok(t) => {
            let canonical = canonical_toml(t)?;
            let bytes = utf8_bytes(canonical.as_str());
            let witness = ConfigWitness::compute(
                &provenance.source_report,
                &provenance.layer_report,
                &provenance.env_report,
                (1, 1),
                bytes.as_slice(),
            );
            Ok(AdmittedConfig { value, witness, provenance })
        },
    }
}

/// A configuration being admitted: its deserialized, normalized value, the
/// resolved tree it came from, and the provenance of the load.
#[derive(Debug)]
pub struct Admission<T> {
    config: Config<Deserialized<T>>,
    original: TomlValue,
    provenance: Provenance,
}

impl<T> Admission<T> {
    /// The normalized value.
    pub closed spec fn admission_value(&self) -> T {
        self.config.state.0
    }

    /// The model of the resolved tree the value came from.
    pub closed spec fn original_model(&self) -> TomlModel {
        self.original@
    }

    /// The provenance of the load.
    pub closed spec fn admission_provenance(&self) -> Provenance {
        self.provenance
    }

    /// The resolved tree is well formed.
    pub closed spec fn wf(&self) -> bool {
        value_wf(self.original)
    }

    /// The normalized value, to serialize.
    pub fn value(&self) -> (r: &T)
        ensures
            *r == self.admission_value(),
    {
        self.config.get()
    }
}

/// The unknown fields of an admission whose value serialized to `typed`:
/// none when serialization failed.
pub open spec fn admission_unknown(original: TomlModel, typed: Result<TomlModel, Seq<char>>) -> Seq<Seq<char>> {
    match typed {
        Ok(t) => unknown_fields(original, t),
        Err(_) => Seq::empty(),
    }
}

impl<T: Validate + ConfigLifecycle> Admission<T> {
    /// Admit strictly, given the report the value's validation recorded and
    /// its serialization `typed`: unknown fields first (one `unknown_field`
    /// error each), then any failure of severity `Error` or above (the report
    /// titled after the type at `type_path`), then the envelope (see
    /// [`admitted_as`]).
    pub fn admit_with_report(self, report: ValidationErrors, typed: Result<TomlValue, String>, type_path: &str) -> (r: Result<AdmittedConfig<T>, Error>)
        requires
            self.wf(),
            typed matches Ok(t) ==> value_wf(t),
        ensures
            strict_admission(
                r,
                self.original_model(),
                typed_view(typed),
                report@,
                self.admission_value(),
                self.admission_provenance(),
                type_path@,
            ),
    {
        let unknown = match &typed {
            Ok(t) => detect_unknown_fields(&self.original, Some(t)),
            Err(_) => Vec::new(),
        };
        assert(views(unknown@) == admission_unknown(self.original_model(), typed_view(typed)));
        if unknown.len() > 0 {
            return Err(Error::Invalid(unknown_fields_errors(&unknown)));
        }
        match validation_outcome(report, type_path) {
            Err(rep) => Err(Error::Invalid(rep)),
            Ok(()) => build_admitted(self.config.state.0, self.provenance, &typed),
        }
    }

    /// Admit without rejecting unknown fields, given the report the value's
    /// validation recorded and its serialization `typed`.
    pub fn admit_exploratory_with_report(self, report: ValidationErrors, typed: Result<TomlValue, String>, type_path: &str) -> (r: Result<AdmittedConfig<T>, Error>)
        requires
            typed matches Ok(t) ==> value_wf(t),
        ensures
            if failed_count(report@.errors) > 0 {
                r matches Err(Error::Invalid(rep)) && rep@ == (ReportView { title: Some(after_last_path_sep(type_path@)), ..report@ })
            } else {
                admitted_as(r, self.admission_value(), self.admission_provenance(), typed_view(typed))
            },
    {
        match validation_outcome(report, type_path) {
            Err(rep) => Err(Error::Invalid(rep)),
            Ok(()) => build_admitted(self.config.state.0, self.provenance, &typed),
        }
    }

    /// The report of running the value's validation and lifecycle checks.
    fn validation_report(&self) -> (r: ValidationErrors)
        ensures
            r@.title is None,
    {
        let mut v = Validator::new();
        self.config.state.0.validate(&mut v);
        self.config.state.0.validate_lifecycle(&mut v);
        v.into_report()
    }

    /// Admit strictly: reject unknown fields, validate, and build the
    /// envelope from the value's serialization `typed` (see
    /// [`Admission::admit_with_report`]; the report is what the value's own
    /// validation records).
    pub fn finish(self, typed: Result<TomlValue, String>, type_path: &str) -> (r: Result<AdmittedConfig<T>, Error>)
        requires
            self.wf(),
            typed matches Ok(t) ==> value_wf(t),
        ensures
            ({
                let u = admission_unknown(self.original_model(), typed_view(typed));
                if u.len() > 0 {
                    r matches Err(Error::Invalid(rep)) && rep@ == unknown_fields_report(u)
                } else {
                    ||| r matches Err(Error::Invalid(rep)) && failed_count(rep@.errors) > 0
                        && rep@.title == Some(after_last_path_sep(type_path@))
                    ||| admitted_as(r, self.admission_value(), self.admission_provenance(), typed_view(typed))
                }
            }),
            exists|report: ReportView|
                report.title is None && #[trigger] strict_admission(
                    r,
                    self.original_model(),
                    typed_view(typed),
                    report,
                    self.admission_value(),
                    self.admission_provenance(),
                    type_path@,
                ),
    {
        let ghost original = self.original_model();
        let ghost value = self.admission_value();
        let ghost prov = self.admission_provenance();
        let ghost tv = typed_view(typed);
        let report = self.validation_report();
        let ghost rv = report@;
        let r = self.admit_with_report(report, typed, type_path);
        assert(strict_admission(r, original, tv, rv, value, prov, type_path@));
        r
    }

    /// Admit without rejecting unknown fields (for exploration while a
    /// schema is still taking shape).
    pub fn finish_exploratory(self, typed: Result<TomlValue, String>, type_path: &str) -> (r: Result<AdmittedConfig<T>, Error>)
        requires
            typed matches Ok(t) ==> value_wf(t),
        ensures
            (r matches Err(Error::Invalid(rep)) && failed_count(rep@.errors) > 0
                && rep@.title == Some(after_last_path_sep(type_path@)))
            || admitted_as(r, self.admission_value(), self.admission_provenance(), typed_view(typed)),
    {
        let report = self.validation_report();
        self.admit_exploratory_with_report(report, typed, type_path)
    }
}

impl Config<EnvResolved> {
    /// Start admitting `value` (deserialized from the resolved tree): it is
    /// normalized, and the tree and the provenance are kept.
    pub fn begin_admission<T: ConfigLifecycle>(self, value: T) -> (r: Admission<T>)
        requires
            value_wf(self.state.value),
        ensures
            r.wf(),
            r.original_model() == self.state.value@,
            r.admission_provenance() == (Provenance {
                source_report: self.state.source_report,
                layer_report: self.state.layer_report,
                env_report: self.state.env_report,
                global_winner_map: self.state.global_winner_map,
            }),
    {
        let original = copy_value(&self.state.value);
        let (merged, provenance) = self.into_parts();
        let config = merged.deserialized(value);
        Admission { config, original, provenance }
    }
}

// ---------------------------------------------------------------------------
// The trusted loader
// ---------------------------------------------------------------------------

/// The path of the last file loaded.
#[derive(Debug, Clone, PartialEq, Eq)]
pub struct ConfigSourceReport {
    /// Path to the TOML file.
    pub path: String,
}

/// Validation statistics of a trusted load.
#[derive(Debug, Clone, PartialEq)]
pub struct ValidationReport {
    /// Total number of checks run.
    pub checks_run: usize,
    /// Number of checks passed.
    pub checks_passed: usize,
    /// The validation errors.
    pub errors: Vec<ValidationError>,
}

impl ValidationReport {
    /// Conformance fitness as the ratio `(passed, run)`: `(1, 1)` when no
    /// check ran.
    pub fn fitness(&self) -> (r: (usize, usize))
        ensures
            r == (if self.checks_run == 0 {
                (1usize, 1usize)
            } else {
                (self.checks_passed, self.checks_run)
            }),
    {
        if self.checks_run == 0 {
            (1, 1)
        } else {
            (self.checks_passed, self.checks_run)
        }
    }
}

/// The FNV-1a digest of the merged tree's TOML text.
#[derive(Debug, Clone, Copy, PartialEq, Eq, PartialOrd, Ord, Hash)]
pub struct ConfigDigest(pub u64);

/// A trusted configuration: the value with its source, validation report and
/// digest.
#[derive(Debug, Clone, PartialEq)]
pub struct TrustedConfig<T> {
    /// The validated configuration value.
    pub value: T,
    /// The source of the configuration.
    pub source: ConfigSourceReport,
    /// The validation report.
    pub validation: ValidationReport,
    /// The digest of the merged tree.
    pub digest: ConfigDigest,
}

/// What a trusted load of `value` gives, given the report its validation
/// recorded, the merged tree `merged`, the last file loaded and the type's
/// path: the serializer's error for the tree; otherwise any recorded error
/// (of any severity) rejects the load with the report titled after the type;
/// otherwise the value with an empty report and the FNV-1a digest of the
/// tree's TOML text.
pub open spec fn trusted_as<T>(
    r: Result<TrustedConfig<T>, Error>,
    value: T,
    report: ReportView,
    merged: TomlModel,
    last_path: Seq<char>,
    type_path: Seq<char>,
) -> bool {
    match toml_rendered(merged) {
        Err(m) => r matches Err(Error::Serialize(s)) && s@ == m,
        Ok(text) => if report.errors.len() > 0 {
            r matches Err(Error::Invalid(rep)) && rep@ == (ReportView { title: Some(after_last_path_sep(type_path)), ..report })
        } else {
            r matches Ok(tc) && tc.value == value && tc.source.path@ == last_path
                && tc.validation.checks_run == report.checks_run && tc.validation.checks_passed == report.checks_run
                && tc.validation.errors@.len() == 0 && tc.digest.0 == fnv1a_spec(utf8(text))
        },
    }
}

/// The trusted configuration of `value` given the report its validation
/// recorded (see [`trusted_as`]).
pub fn trusted_from_report<T>(value: T, report: ValidationErrors, merged: &TomlValue, last_path: &str, type_path: &str) -> (r: Result<TrustedConfig<T>, Error>)
    ensures
        trusted_as(r, value, report@, merged@, last_path@, type_path@),
{
    let text = match render_toml(merged) {
        Ok(t) => t,
        Err(m) => return Err(Error::Serialize(m)),
    };
    let digest = ConfigDigest(fnv1a(utf8_bytes(text.as_str()).as_slice()));
    if report.len() > 0 {
        let mut report = report;
        report.set_title_for_path(type_path);
        return Err(Error::Invalid(report));
    }
    let checks_run = report.checks_run();
    let validation = ValidationReport { checks_run, checks_passed: checks_run, errors: Vec::new() };
    assert(validation.errors@.len() == 0);
    Ok(TrustedConfig { value, source: ConfigSourceReport { path: owned(last_path) }, validation, digest })
}

/// The trusted configuration of `value` (deserialized by the caller from
/// `merged`, loaded last from `last_path`): normalize it, run its validation
/// and lifecycle checks, and digest the tree (see [`trusted_as`]).
pub fn trusted_config<T: Validate + ConfigLifecycle>(value: T, merged: &TomlValue, last_path: &str, type_path: &str) -> (r: Result<TrustedConfig<T>, Error>)
    ensures
        toml_rendered(merged@) matches Err(m) ==> r matches Err(Error::Serialize(s)) && s@ == m,
        toml_rendered(merged@) matches Ok(text) ==> match r {
            Ok(tc) => tc.source.path@ == last_path@ && tc.validation.errors@.len() == 0
                && tc.validation.checks_passed == tc.validation.checks_run && tc.digest.0 == fnv1a_spec(utf8(text)),
            Err(e) => e matches Error::Invalid(rep) && rep@.errors.len() > 0 && rep@.title == Some(after_last_path_sep(type_path@)),
        },
{
    let mut value = value;
    value.normalize();
    let mut v = Validator::new();
    value.validate(&mut v);
    value.validate_lifecycle(&mut v);
    trusted_from_report(value, v.into_report(), merged, last_path, type_path)
}

/// Builder of a stack of sources for trusted loading: a [`Loader`] whose
/// environment overrides are applied with provenance.
#[derive(Debug)]
pub struct TrustedLoader {
    loader: Loader,
}

impl View for TrustedLoader {
    type V = LoaderView;

    closed spec fn view(&self) -> LoaderView {
        self.loader@
    }
}

impl TrustedLoader {
    /// An empty loader.
    pub fn new() -> (r: TrustedLoader)
        ensures
            r@.layers.len() == 0,
            r@.env_prefix is None,
    {
        TrustedLoader { loader: Loader::new() }
    }

    /// Add a literal TOML text as the next layer.
    pub fn layer_str(self, content: &str, label: &str) -> (r: TrustedLoader)
        ensures
            r@ == (LoaderView {
                layers: self@.layers.push(LayerView::Str { content: content@, label: label@ }),
                ..self@
            }),
    {
        TrustedLoader { loader: self.loader.layer_str(content, label) }
    }

    /// Add a required file as the next layer.
    pub fn layer_file(self, path: &str) -> (r: TrustedLoader)
        ensures
            r@ == (LoaderView { layers: self@.layers.push(LayerView::File { path: path@ }), ..self@ }),
    {
        TrustedLoader { loader: self.loader.layer_file(path) }
    }

    /// Add an optional file as the next layer.
    pub fn layer_file_if_exists(self, path: &str) -> (r: TrustedLoader)
        ensures
            r@ == (LoaderView {
                layers: self@.layers.push(LayerView::FileIfExists { path: path@ }),
                ..self@
            }),
    {
        TrustedLoader { loader: self.loader.layer_file_if_exists(path) }
    }

    /// Add, as the next layer, the file found by walking up from the working
    /// directory.
    pub fn find_file(self, file_name: &str) -> (r: TrustedLoader)
        ensures
            r@ == (LoaderView {
                layers: self@.layers.push(LayerView::FindFile { name: file_name@ }),
                ..self@
            }),
    {
        TrustedLoader { loader: self.loader.find_file(file_name) }
    }

    /// Apply the environment variables starting with `prefix`.
    pub fn env_prefix(self, prefix: &str) -> (r: TrustedLoader)
        ensures
            r@ == (LoaderView { env_prefix: Some(prefix@), ..self@ }),
    {
        TrustedLoader { loader: self.loader.env_prefix(prefix) }
    }

    /// The layers, in order: what the caller reads before a load.
    pub fn layers(&self) -> (r: &Vec<ConfigLayer>)
        ensures
            layer_views(r@) == self@.layers,
    {
        self.loader.layers()
    }

    /// The merged tree and last file path of the layers with the
    /// environment overrides (see [`merged_spec`]), for a one-shot
    /// [`trusted_config`].
    pub fn merged(&self, reads: &Vec<SourceRead>, cwd: &str, env: &EnvSnapshot) -> (r: Result<(TomlValue, String), Error>)
        requires
            reads@.len() == self@.layers.len(),
        ensures
            match merged_spec(self@, read_views(reads@), cwd@, env.vars@) {
                Ok(st) => r matches Ok((v, p)) && v@ == st.0 && p@ == st.1 && value_wf(v),
                Err(f) => r matches Err(e) && failure_of(e) == f,
            },
    {
        self.loader.merge_layers(reads, cwd, env)
    }

    /// Load every layer with provenance (see [`bounded_upto`]) and apply the
    /// environment overrides under the prefix with their record (see
    /// [`env_apply`]): the resolved state from which a configuration is
    /// frozen or admitted.
    pub fn resolve(self, reads: &Vec<SourceRead>, cwd: &str, env: &EnvSnapshot) -> (r: Result<Config<EnvResolved>, Error>)
        requires
            reads@.len() == self@.layers.len(),
        ensures
            match bounded_upto(bounded_start(cwd@), self@.layers, read_views(reads@), env.vars@, self@.layers.len()) {
                Ok(st) => r matches Ok(c) && {
                    &&& value_wf(c.state.value)
                    &&& c.path@ == st.last
                    &&& source_views(c.state.source_report.entries@) == st.sources
                    &&& layer_entry_views(c.state.layer_report.entries@) == st.layers
                    &&& match self@.env_prefix {
                        Some(p) => {
                            let a = env_apply(EnvApplied { value: st.value, winners: st.winners, entries: Seq::empty() }, env.vars@, p);
                            &&& c.state.value@ == a.value
                            &&& c.state.global_winner_map@ == a.winners
                            &&& env_entry_views(c.state.env_report.entries@) == a.entries
                            &&& c.state.env_report.prefix@ == p
                        },
                        None => {
                            &&& c.state.value@ == st.value
                            &&& c.state.global_winner_map@ == st.winners
                            &&& c.state.env_report.entries@.len() == 0
                            &&& c.state.env_report.prefix@.len() == 0
                        },
                    }
                },
                Err(f) => r matches Err(e) && failure_of(e) == f,
            },
    {
        let prefix = match self.loader.prefix() {
            Some(p) => Some(owned(p.as_str())),
            None => None,
        };
        let bounded = self.loader.load_bounded(reads, cwd, env)?;
        match &prefix {
            Some(p) => bounded.apply_env(Some(p.as_str()), env),
            None => bounded.apply_env(None, env),
        }
    }
}

} // verus!
