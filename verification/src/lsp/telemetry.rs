//! Editor-time telemetry records: the kinds of events and where they go.
//!
//! Telemetry is lifecycle history only; it computes no quality score.

use vstd::prelude::*;
use crate::path::{join_text, join_path};
use crate::lsp::gate::GateState;

verus! {

/// The kinds of editor events.
#[derive(Debug, Clone, Copy, PartialEq, Eq)]
pub enum EventKind {
    DocumentOpened,
    DocumentChanged,
    DocumentClosed,
    DiagnosticRaised,
    DiagnosticCleared,
}

/// The name of an event kind.
pub open spec fn event_kind_name(k: EventKind) -> Seq<char> {
    match k {
        EventKind::DocumentOpened => "DocumentOpened"@,
        EventKind::DocumentChanged => "DocumentChanged"@,
        EventKind::DocumentClosed => "DocumentClosed"@,
        EventKind::DiagnosticRaised => "DiagnosticRaised"@,
        EventKind::DiagnosticCleared => "DiagnosticCleared"@,
    }
}

impl EventKind {
    /// The name of this kind (its variant's name).
    pub fn as_str(self) -> (r: &'static str)
        ensures
            r@ == event_kind_name(self),
    {
        match self {
            EventKind::DocumentOpened => "DocumentOpened",
            EventKind::DocumentChanged => "DocumentChanged",
            EventKind::DocumentClosed => "DocumentClosed",
            EventKind::DiagnosticRaised => "DiagnosticRaised",
            EventKind::DiagnosticCleared => "DiagnosticCleared",
        }
    }
}

/// The destination of telemetry records: `.star-toml/ocel.jsonl` below the
/// workspace root.
#[derive(Debug, Clone)]
pub struct OcelEmitter {
    path: String,
}

impl View for OcelEmitter {
    type V = Seq<char>;

    closed spec fn view(&self) -> Seq<char> {
        self.path@
    }
}

impl OcelEmitter {
    /// The emitter for the workspace at `workspace_root`.
    pub fn new(workspace_root: &str) -> (r: OcelEmitter)
        ensures
            r@ == join_text(join_text(workspace_root@, ".star-toml"@), "ocel.jsonl"@),
    {
        let dir = join_path(workspace_root, ".star-toml");
        OcelEmitter { path: join_path(dir.as_str(), "ocel.jsonl") }
    }

    /// The file the records are appended to.
    pub fn path(&self) -> (r: &str)
        ensures
            r@ == self@,
    {
        self.path.as_str()
    }
}

/// The diagnostics event after a publish: `DiagnosticCleared` when there is
/// no diagnostic, otherwise `DiagnosticRaised` with the error and warning
/// counts.
pub fn diagnostics_event(state: &GateState) -> (r: (EventKind, Option<(usize, usize)>))
    ensures
        state.diagnostics == 0 ==> r == (EventKind::DiagnosticCleared, None::<(usize, usize)>),
        state.diagnostics != 0 ==> r == (EventKind::DiagnosticRaised, Some((state.errors, state.warnings))),
{
    if state.diagnostics == 0 {
        (EventKind::DiagnosticCleared, None)
    } else {
        (EventKind::DiagnosticRaised, Some((state.errors, state.warnings)))
    }
}

} // verus!
