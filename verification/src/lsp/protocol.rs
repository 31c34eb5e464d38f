//! The language-server protocol values the analysis produces.

use vstd::prelude::*;

verus! {

/// A position in a document: zero-based line and byte column.
#[derive(Debug, Clone, Copy, PartialEq, Eq)]
pub struct Position {
    pub line: u32,
    pub character: u32,
}

/// A range of a document, from `start` to `end`.
#[derive(Debug, Clone, Copy, PartialEq, Eq)]
pub struct Range {
    pub start: Position,
    pub end: Position,
}

/// How severe a diagnostic is.
#[derive(Debug, Clone, Copy, PartialEq, Eq)]
pub enum DiagnosticSeverity {
    Error,
    Warning,
    Information,
    Hint,
}

/// A diagnostic of a document.
#[derive(Debug, Clone)]
pub struct Diagnostic {
    /// Where it applies.
    pub range: Range,
    /// How severe it is.
    pub severity: Option<DiagnosticSeverity>,
    /// Its stable code.
    pub code: Option<String>,
    /// What produced it.
    pub source: Option<String>,
    /// Its message.
    pub message: String,
}

/// The model of a diagnostic.
pub struct DiagnosticView {
    pub range: Range,
    pub severity: Option<DiagnosticSeverity>,
    pub code: Option<Seq<char>>,
    pub source: Option<Seq<char>>,
    pub message: Seq<char>,
}

impl View for Diagnostic {
    type V = DiagnosticView;

    open spec fn view(&self) -> DiagnosticView {
        DiagnosticView {
            range: self.range,
            severity: self.severity,
            code: match self.code {
                Some(c) => Some(c@),
                None => None,
            },
            source: match self.source {
                Some(s) => Some(s@),
                None => None,
            },
            message: self.message@,
        }
    }
}

/// The models of diagnostics.
pub open spec fn diagnostic_views(s: Seq<Diagnostic>) -> Seq<DiagnosticView> {
    Seq::new(s.len(), |i: int| s[i]@)
}

} // verus!
