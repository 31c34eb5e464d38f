//! The ANDON signal: a summary of a document's diagnostics, the text of its
//! file, and where the workspace root is.
//!
//! The signal is editor-time only: it grants no standing.

use vstd::prelude::*;
use crate::text::{owned, push_str, push_dec, dec_text};
use crate::path::{parent_text, parent_of, join_text, join_path, lemma_parent_shorter};
use crate::loader::{ancestors, walk_start};
use crate::lsp::protocol::{Diagnostic, DiagnosticSeverity, DiagnosticView, diagnostic_views};

verus! {

/// The number of diagnostics of severity `sev`.
pub open spec fn count_severity(d: Seq<DiagnosticView>, sev: DiagnosticSeverity) -> nat
    decreases d.len(),
{
    if d.len() == 0 {
        0
    } else {
        count_severity(d.drop_last(), sev) + if d.last().severity == Some(sev) {
            1nat
        } else {
            0nat
        }
    }
}

/// The summary of a document's diagnostics.
#[derive(Debug, Clone, Copy, PartialEq, Eq)]
pub struct GateState {
    /// Whether any error was raised.
    pub andon: bool,
    /// The number of diagnostics.
    pub diagnostics: usize,
    /// The number of errors.
    pub errors: usize,
    /// The number of warnings.
    pub warnings: usize,
}

impl GateState {
    /// The summary of `diags`: their count, errors, warnings, and the ANDON
    /// signal when there is an error.
    pub fn from_diagnostics(diags: &[Diagnostic]) -> (r: GateState)
        ensures
            r.diagnostics == diags@.len(),
            r.errors == count_severity(diagnostic_views(diags@), DiagnosticSeverity::Error),
            r.warnings == count_severity(diagnostic_views(diags@), DiagnosticSeverity::Warning),
            r.andon == (r.errors > 0),
    {
        let ghost dv = diagnostic_views(diags@);
        let mut errors: usize = 0;
        let mut warnings: usize = 0;
        let mut i: usize = 0;
        while i < diags.len()
            invariant
                i <= diags@.len(),
                dv == diagnostic_views(diags@),
                errors == count_severity(dv.take(i as int), DiagnosticSeverity::Error),
                warnings == count_severity(dv.take(i as int), DiagnosticSeverity::Warning),
                errors <= i,
                warnings <= i,
            decreases diags@.len() - i,
        {
            assert(dv.take(i as int + 1).drop_last() =~= dv.take(i as int));
            assert(dv.take(i as int + 1).last() == diags@[i as int]@);
            match diags[i].severity {
                Some(DiagnosticSeverity::Error) => {
                    errors = errors + 1;
                },
                Some(DiagnosticSeverity::Warning) => {
                    warnings = warnings + 1;
                },
                _ => {},
            }
            i = i + 1;
        }
        assert(dv.take(diags@.len() as int) =~= dv);
        GateState { andon: errors > 0, diagnostics: diags.len(), errors, warnings }
    }
}

/// The ANDON file's text: `ANDON=0|1`, then the counts, one per line.
pub open spec fn gate_text_of(s: GateState) -> Seq<char> {
    "ANDON="@ + (if s.andon {
        "1"@
    } else {
        "0"@
    }) + "\ndiagnostics="@ + dec_text(s.diagnostics as nat) + "\nerrors="@ + dec_text(s.errors as nat) + "\nwarnings="@
        + dec_text(s.warnings as nat) + "\n"@
}

/// The text written to the ANDON file (see [`gate_text_of`]).
pub fn gate_text(state: &GateState) -> (r: String)
    ensures
        r@ == gate_text_of(*state),
{
    let mut out = owned("ANDON=");
    if state.andon {
        push_str(&mut out, "1");
    } else {
        push_str(&mut out, "0");
    }
    push_str(&mut out, "\ndiagnostics=");
    push_dec(&mut out, state.diagnostics as u64);
    push_str(&mut out, "\nerrors=");
    push_dec(&mut out, state.errors as u64);
    push_str(&mut out, "\nwarnings=");
    push_dec(&mut out, state.warnings as u64);
    push_str(&mut out, "\n");
    assert(out@ =~= gate_text_of(*state));
    out
}

/// The path of the ANDON file below the workspace root.
pub fn gate_path(workspace_root: &str) -> (r: String)
    ensures
        r@ == join_text(join_text(workspace_root@, ".star-toml"@), "lsp.gate"@),
{
    let dir = join_path(workspace_root, ".star-toml");
    join_path(dir.as_str(), "lsp.gate")
}

/// `probe` confirmed a workspace marker (`Cargo.toml`, `.git` or
/// `.star-toml`) in `dir`.
pub open spec fn marker_confirmed<F: Fn(&String) -> bool>(probe: F, dir: Seq<char>) -> bool {
    exists|s: String|
        (s@ == join_text(dir, "Cargo.toml"@) || s@ == join_text(dir, ".git"@) || s@ == join_text(dir, ".star-toml"@))
            && #[trigger] probe.ensures((&s,), true)
}

/// `probe` denied every workspace marker in `dir`.
pub open spec fn markers_denied<F: Fn(&String) -> bool>(probe: F, dir: Seq<char>) -> bool {
    &&& exists|s: String| s@ == join_text(dir, "Cargo.toml"@) && #[trigger] probe.ensures((&s,), false)
    &&& exists|s: String| s@ == join_text(dir, ".git"@) && #[trigger] probe.ensures((&s,), false)
    &&& exists|s: String| s@ == join_text(dir, ".star-toml"@) && #[trigger] probe.ensures((&s,), false)
}

/// The fallback root: the parent of the file path, or the path itself.
pub open spec fn fallback_root(file_path: Seq<char>) -> Seq<char> {
    match parent_text(file_path) {
        Some(p) => p,
        None => file_path,
    }
}

/// Walk up from `file_path` (from its parent when it is a file) and return
/// the first directory where `probe` confirms a workspace marker; when none
/// is confirmed, the parent of `file_path` (or `file_path` itself).
pub fn resolve_workspace_root<F: Fn(&String) -> bool>(file_path: &str, is_file: bool, probe: F) -> (r: String)
    requires
        forall|s: &String| #[trigger] probe.requires((s,)),
    ensures
        ({
            let chain = ancestors(walk_start(file_path@, is_file));
            ||| exists|k: int| {
                &&& 0 <= k < chain.len()
                &&& r@ == #[trigger] chain[k]
                &&& marker_confirmed(probe, chain[k])
                &&& forall|j: int| 0 <= j < k ==> markers_denied(probe, #[trigger] chain[j])
            }
            ||| {
                &&& r@ == fallback_root(file_path@)
                &&& forall|j: int| 0 <= j < chain.len() ==> markers_denied(probe, #[trigger] chain[j])
            }
        }),
{
    let mut dir = owned(file_path);
    if is_file {
        match parent_of(file_path) {
            Some(p) => {
                dir = p;
            },
            None => {},
        }
    }
    let ghost chain = ancestors(walk_start(file_path@, is_file));
    let ghost mut k: int = 0;
    loop
        invariant
            0 <= k < chain.len(),
            chain == ancestors(walk_start(file_path@, is_file)),
            chain.skip(k) == ancestors(dir@),
            forall|s: &String| #[trigger] probe.requires((s,)),
            forall|j: int| 0 <= j < k ==> markers_denied(probe, #[trigger] chain[j]),
        decreases dir@.len(),
    {
        proof {
            assert(chain.skip(k)[0] == chain[k]);
            assert(ancestors(dir@)[0] == dir@);
        }
        let c1 = join_path(dir.as_str(), "Cargo.toml");
        let f1 = probe(&c1);
        if f1 {
            assert(marker_confirmed(probe, chain[k]));
            return dir;
        }
        let c2 = join_path(dir.as_str(), ".git");
        let f2 = probe(&c2);
        if f2 {
            assert(marker_confirmed(probe, chain[k]));
            return dir;
        }
        let c3 = join_path(dir.as_str(), ".star-toml");
        let f3 = probe(&c3);
        if f3 {
            assert(marker_confirmed(probe, chain[k]));
            return dir;
        }
        assert(markers_denied(probe, chain[k]));
        proof {
            lemma_parent_shorter(dir@);
        }
        match parent_of(dir.as_str()) {
            Some(p) => {
                proof {
                    assert(ancestors(dir@) == seq![dir@] + ancestors(p@));
                    assert(chain.skip(k + 1) =~= chain.skip(k).drop_first());
                    assert(ancestors(dir@).drop_first() =~= ancestors(p@));
                    k = k + 1;
                    assert(ancestors(p@).len() > 0) by {
                        if parent_text(p@) matches Some(q) {
                        }
                    }
                }
                dir = p;
            },
            None => {
                proof {
                    assert(ancestors(dir@) == seq![dir@]);
                    assert(chain.len() == k + 1);
                }
                return match parent_of(file_path) {
                    Some(p) => p,
                    None => owned(file_path),
                };
            },
        }
    }
}

} // verus!
