//! The lifecycle events of a configuration admission, as plain data.

use vstd::prelude::*;
use crate::text::owned;

verus! {

/// The stages of a configuration's lifecycle.
#[derive(Debug, Clone, Copy, PartialEq, Eq)]
pub enum ConfigEventKind {
    /// A source file or environment prefix was discovered.
    SourceDiscovered,
    /// Overlays and defaults were merged.
    LayerMerged,
    /// Environment variables were resolved and applied.
    EnvResolved,
    /// The merged configuration was deserialized into its type.
    ConfigDeserialized,
    /// The typed configuration was validated.
    ConfigValidated,
    /// The canonical sorted TOML was written.
    CanonicalSaved,
}

/// The name of an event kind (its variant's name).
pub open spec fn kind_name(k: ConfigEventKind) -> Seq<char> {
    match k {
        ConfigEventKind::SourceDiscovered => "SourceDiscovered"@,
        ConfigEventKind::LayerMerged => "LayerMerged"@,
        ConfigEventKind::EnvResolved => "EnvResolved"@,
        ConfigEventKind::ConfigDeserialized => "ConfigDeserialized"@,
        ConfigEventKind::ConfigValidated => "ConfigValidated"@,
        ConfigEventKind::CanonicalSaved => "CanonicalSaved"@,
    }
}

impl ConfigEventKind {
    /// The name of this kind, as it is displayed.
    pub fn name(&self) -> (r: &'static str)
        ensures
            r@ == kind_name(*self),
    {
        match self {
            ConfigEventKind::SourceDiscovered => "SourceDiscovered",
            ConfigEventKind::LayerMerged => "LayerMerged",
            ConfigEventKind::EnvResolved => "EnvResolved",
            ConfigEventKind::ConfigDeserialized => "ConfigDeserialized",
            ConfigEventKind::ConfigValidated => "ConfigValidated",
            ConfigEventKind::CanonicalSaved => "CanonicalSaved",
        }
    }

    /// The name of this kind (see [`ConfigEventKind::name`]).
    pub fn to_string(&self) -> (r: String)
        ensures
            r@ == kind_name(*self),
    {
        owned(self.name())
    }
}

/// One lifecycle event of an admission run.
#[derive(Debug, Clone)]
pub struct AdmissionEvent {
    /// The admission run.
    pub run_id: String,
    /// This event.
    pub event_id: String,
    /// Deterministic sequence number or timestamp.
    pub timestamp_or_sequence: u64,
    /// The activity.
    pub event_kind: ConfigEventKind,
    /// The objects the event relates to (`source_…`, `layer_…`, …).
    pub object_refs: Vec<String>,
    /// String attributes.
    pub attributes: Vec<(String, String)>,
}

impl AdmissionEvent {
    /// A new event.
    pub fn new(
        run_id: &str,
        event_id: &str,
        seq: u64,
        kind: ConfigEventKind,
        object_refs: Vec<String>,
        attributes: Vec<(String, String)>,
    ) -> (r: AdmissionEvent)
        ensures
            r.run_id@ == run_id@,
            r.event_id@ == event_id@,
            r.timestamp_or_sequence == seq,
            r.event_kind == kind,
            r.object_refs == object_refs,
            r.attributes == attributes,
    {
        AdmissionEvent {
            run_id: owned(run_id),
            event_id: owned(event_id),
            timestamp_or_sequence: seq,
            event_kind: kind,
            object_refs,
            attributes,
        }
    }
}

} // verus!
