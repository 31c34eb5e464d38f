//! Quick fixes offered for the analysis's own diagnostics.

use vstd::prelude::*;
use crate::text::{owned, str_eq};
use crate::lsp::protocol::{Diagnostic, DiagnosticView};
use crate::lsp::diagnostics::{DUPLICATE_KEY, INVALID_TOML, PATH_TRAVERSAL, RELATIVE_ONLY_ABSOLUTE};
use crate::lsp::analyzer::copy_diagnostic;

verus! {

/// A quick fix: its title and the diagnostic it answers.
#[derive(Debug, Clone)]
pub struct CodeAction {
    /// What the fix does.
    pub title: String,
    /// The action kind, `quickfix`.
    pub kind: String,
    /// The diagnostics it answers.
    pub diagnostics: Vec<Diagnostic>,
    /// Whether it is the preferred action.
    pub is_preferred: bool,
}

/// The title of the quick fix for a diagnostic code, for the codes that
/// have one.
pub open spec fn fix_title(code: Option<Seq<char>>) -> Option<Seq<char>> {
    match code {
        Some(c) => if c == DUPLICATE_KEY@ {
            Some("Remove duplicate key (manual edit required)"@)
        } else if c == PATH_TRAVERSAL@ {
            Some("Remove path traversal sequence"@)
        } else if c == RELATIVE_ONLY_ABSOLUTE@ {
            Some("Convert to relative path"@)
        } else if c == INVALID_TOML@ {
            Some("Fix TOML syntax"@)
        } else {
            None
        },
        None => None,
    }
}

/// The quick fixes of `ds`, in order: a title with its diagnostic for each
/// diagnostic whose code has a fix.
pub open spec fn fixes_of(ds: Seq<DiagnosticView>) -> Seq<(Seq<char>, DiagnosticView)>
    decreases ds.len(),
{
    if ds.len() == 0 {
        Seq::empty()
    } else {
        fixes_of(ds.drop_last()) + match fix_title(ds.last().code) {
            Some(t) => seq![(t, ds.last())],
            None => Seq::empty(),
        }
    }
}

/// The title of the fix for `code` (see [`fix_title`]).
fn title_for(code: &Option<String>) -> (r: Option<&'static str>)
    ensures
        match fix_title(match code { Some(c) => Some(c@), None => None }) {
            Some(t) => r matches Some(s) && s@ == t,
            None => r is None,
        },
{
    match code {
        Some(c) => {
            if str_eq(c.as_str(), DUPLICATE_KEY) {
                Some("Remove duplicate key (manual edit required)")
            } else if str_eq(c.as_str(), PATH_TRAVERSAL) {
                Some("Remove path traversal sequence")
            } else if str_eq(c.as_str(), RELATIVE_ONLY_ABSOLUTE) {
                Some("Convert to relative path")
            } else if str_eq(c.as_str(), INVALID_TOML) {
                Some("Fix TOML syntax")
            } else {
                None
            }
        },
        None => None,
    }
}

/// The quick fixes for `diags` (see [`fixes_of`]): each a preferred
/// `quickfix` answering its one diagnostic.
pub fn code_actions(diags: &[Diagnostic]) -> (r: Vec<CodeAction>)
    ensures
        r@.len() == fixes_of(Seq::new(diags@.len(), |i: int| diags@[i]@)).len(),
        forall|i: int| 0 <= i < r@.len() ==> {
            let f = fixes_of(Seq::new(diags@.len(), |j: int| diags@[j]@))[i];
            &&& (#[trigger] r@[i]).title@ == f.0
            &&& r@[i].kind@ == "quickfix"@
            &&& r@[i].diagnostics@.len() == 1
            &&& r@[i].diagnostics@[0]@ == f.1
            &&& r@[i].is_preferred
        },
{
    let ghost dv = Seq::new(diags@.len(), |i: int| diags@[i]@);
    let mut out: Vec<CodeAction> = Vec::new();
    let mut i: usize = 0;
    while i < diags.len()
        invariant
            i <= diags@.len(),
            dv == Seq::new(diags@.len(), |j: int| diags@[j]@),
            out@.len() == fixes_of(dv.take(i as int)).len(),
            forall|k: int| 0 <= k < out@.len() ==> {
                let f = fixes_of(dv.take(i as int))[k];
                &&& (#[trigger] out@[k]).title@ == f.0
                &&& out@[k].kind@ == "quickfix"@
                &&& out@[k].diagnostics@.len() == 1
                &&& out@[k].diagnostics@[0]@ == f.1
                &&& out@[k].is_preferred
            },
        decreases diags@.len() - i,
    {
        let ghost before = fixes_of(dv.take(i as int));
        assert(dv.take(i as int + 1).drop_last() =~= dv.take(i as int));
        assert(dv.take(i as int + 1).last() == diags@[i as int]@);
        let d = &diags[i];
        match title_for(&d.code) {
            Some(t) => {
                let mut ds: Vec<Diagnostic> = Vec::new();
                ds.push(copy_diagnostic(d));
                out.push(CodeAction { title: owned(t), kind: owned("quickfix"), diagnostics: ds, is_preferred: true });
                proof {
                    reveal_strlit("quickfix");
                }
            },
            None => {},
        }
        i = i + 1;
    }
    assert(dv.take(diags@.len() as int) =~= dv);
    out
}

} // verus!
