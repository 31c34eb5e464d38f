//! The open documents of an editor session, each with its analysis. The
//! session decides; the caller writes the ANDON file and the telemetry.

use vstd::prelude::*;
use crate::text::str_eq;
use crate::lsp::protocol::{Diagnostic, diagnostic_views};
use crate::lsp::analyzer::{StarTomlDocumentAnalyzer, analyzable, analysis};

verus! {

/// The text of each open document by URI (a later entry for the same URI
/// wins).
pub open spec fn docs_of(s: Seq<StarTomlDocumentAnalyzer>) -> Map<Seq<char>, Seq<char>>
    decreases s.len(),
{
    if s.len() == 0 {
        Map::empty()
    } else {
        docs_of(s.drop_last()).insert(s.last().uri@, s.last().text@)
    }
}

/// No URI is open twice.
pub open spec fn uris_distinct(s: Seq<StarTomlDocumentAnalyzer>) -> bool {
    forall|i: int, j: int| 0 <= i < s.len() && 0 <= j < s.len() && i != j ==> s[i].uri@ != s[j].uri@
}

proof fn lemma_docs_of(s: Seq<StarTomlDocumentAnalyzer>)
    requires
        uris_distinct(s),
    ensures
        forall|k: Seq<char>| docs_of(s).contains_key(k) <==> exists|i: int| 0 <= i < s.len() && #[trigger] s[i].uri@ == k,
        forall|i: int| 0 <= i < s.len() ==> docs_of(s)[#[trigger] s[i].uri@] == s[i].text@,
    decreases s.len(),
{
    if s.len() > 0 {
        let p = s.drop_last();
        lemma_docs_of(p);
        assert forall|k: Seq<char>| docs_of(s).contains_key(k) <==> exists|i: int| 0 <= i < s.len() && #[trigger] s[i].uri@ == k by {
            if docs_of(s).contains_key(k) {
                if k == s.last().uri@ {
                    assert(s[s.len() - 1].uri@ == k);
                } else {
                    assert(docs_of(p).contains_key(k));
                    let i = choose|i: int| 0 <= i < p.len() && #[trigger] p[i].uri@ == k;
                    assert(p[i] == s[i]);
                    assert(s[i].uri@ == k);
                }
            }
            if exists|i: int| 0 <= i < s.len() && #[trigger] s[i].uri@ == k {
                let i = choose|i: int| 0 <= i < s.len() && #[trigger] s[i].uri@ == k;
                if i < s.len() - 1 {
                    assert(p[i] == s[i]);
                    assert(p[i].uri@ == k);
                }
            }
        }
        assert forall|i: int| 0 <= i < s.len() implies docs_of(s)[#[trigger] s[i].uri@] == s[i].text@ by {
            if i < s.len() - 1 {
                assert(p[i] == s[i]);
                assert(s[i].uri@ != s.last().uri@);
            }
        }
    }
}

/// The open documents of a session, with the workspace they belong to.
#[derive(Debug)]
pub struct ServerState {
    /// The analysis of each open document.
    pub analyzers: Vec<StarTomlDocumentAnalyzer>,
    /// The workspace root, where the ANDON file and telemetry go.
    pub workspace_root: String,
}

impl View for ServerState {
    type V = Map<Seq<char>, Seq<char>>;

    open spec fn view(&self) -> Map<Seq<char>, Seq<char>> {
        docs_of(self.analyzers@)
    }
}

impl ServerState {
    /// Each document is open once, with a sound analysis.
    pub open spec fn wf(&self) -> bool {
        &&& uris_distinct(self.analyzers@)
        &&& forall|i: int| 0 <= i < self.analyzers@.len() ==> (#[trigger] self.analyzers@[i]).wf()
    }

    /// A session with no open document.
    pub fn new(workspace_root: String) -> (r: ServerState)
        ensures
            r.wf(),
            r@ == Map::<Seq<char>, Seq<char>>::empty(),
            r.workspace_root == workspace_root,
    {
        ServerState { analyzers: Vec::new(), workspace_root }
    }

    /// The position of the document at `uri`.
    fn position(&self, uri: &str) -> (r: Option<usize>)
        requires
            self.wf(),
        ensures
            match r {
                Some(i) => i < self.analyzers@.len() && self.analyzers@[i as int].uri@ == uri@,
                None => !self@.contains_key(uri@),
            },
    {
        proof {
            lemma_docs_of(self.analyzers@);
        }
        let mut i: usize = 0;
        while i < self.analyzers.len()
            invariant
                i <= self.analyzers@.len(),
                forall|j: int| 0 <= j < i ==> (#[trigger] self.analyzers@[j]).uri@ != uri@,
            decreases self.analyzers@.len() - i,
        {
            if str_eq(self.analyzers[i].uri.as_str(), uri) {
                return Some(i);
            }
            i = i + 1;
        }
        None
    }

    /// Store `a` as the analysis of its document, replacing an earlier one.
    fn store(&mut self, a: StarTomlDocumentAnalyzer)
        requires
            old(self).wf(),
            a.wf(),
        ensures
            final(self).wf(),
            final(self)@ == old(self)@.insert(a.uri@, a.text@),
            final(self).workspace_root == old(self).workspace_root,
    {
        let ghost s0 = self.analyzers@;
        let ghost k = a.uri@;
        let ghost t = a.text@;
        proof {
            lemma_docs_of(s0);
        }
        match self.position(a.uri.as_str()) {
            Some(i) => {
                self.analyzers.set(i, a);
                let ghost s1 = self.analyzers@;
                assert(s1 == s0.update(i as int, s1[i as int]));
                assert(uris_distinct(s1)) by {
                    assert forall|x: int, y: int| 0 <= x < s1.len() && 0 <= y < s1.len() && x != y implies s1[x].uri@ != s1[y].uri@ by {
                        if x != i && y != i {
                            assert(s1[x] == s0[x] && s1[y] == s0[y]);
                        } else if x == i {
                            assert(s1[y] == s0[y]);
                        } else {
                            assert(s1[x] == s0[x]);
                        }
                    }
                }
                proof {
                    lemma_docs_of(s1);
                    assert forall|q: Seq<char>| #[trigger] docs_of(s1).contains_key(q) == docs_of(s0).insert(k, t).contains_key(q) by {
                        if exists|j: int| 0 <= j < s0.len() && #[trigger] s0[j].uri@ == q {
                            let j = choose|j: int| 0 <= j < s0.len() && #[trigger] s0[j].uri@ == q;
                            if j != i {
                                assert(s1[j] == s0[j]);
                            }
                            assert(s1[j].uri@ == q);
                        }
                        if exists|j: int| 0 <= j < s1.len() && #[trigger] s1[j].uri@ == q {
                            let j = choose|j: int| 0 <= j < s1.len() && #[trigger] s1[j].uri@ == q;
                            if j != i {
                                assert(s1[j] == s0[j]);
                                assert(s0[j].uri@ == q);
                            }
                        }
                    }
                    assert forall|q: Seq<char>| #[trigger] docs_of(s1).contains_key(q) implies docs_of(s1)[q] == docs_of(s0).insert(k, t)[q] by {
                        let j = choose|j: int| 0 <= j < s1.len() && #[trigger] s1[j].uri@ == q;
                        if j != i {
                            assert(s1[j] == s0[j]);
                        }
                    }
                    assert(docs_of(s1) =~= docs_of(s0).insert(k, t));
                }
            },
            None => {
                self.analyzers.push(a);
                let ghost s1 = self.analyzers@;
                assert(s1.drop_last() =~= s0);
                assert(uris_distinct(s1)) by {
                    assert forall|x: int, y: int| 0 <= x < s1.len() && 0 <= y < s1.len() && x != y implies s1[x].uri@ != s1[y].uri@ by {
                        if x < s0.len() && y < s0.len() {
                            assert(s1[x] == s0[x] && s1[y] == s0[y]);
                        } else if x < s0.len() {
                            assert(s1[x] == s0[x]);
                            assert(docs_of(s0).contains_key(s0[x].uri@));
                        } else {
                            assert(s1[y] == s0[y]);
                            assert(docs_of(s0).contains_key(s0[y].uri@));
                        }
                    }
                }
            },
        }
    }

    /// Open the document `uri` with `content`: analyze it, keep it, and
    /// return its diagnostics (see [`analysis`]).
    pub fn open(&mut self, uri: String, content: String) -> (r: Vec<Diagnostic>)
        requires
            old(self).wf(),
            analyzable(content@),
        ensures
            final(self).wf(),
            final(self)@ == old(self)@.insert(uri@, content@),
            diagnostic_views(r@) == analysis(content@),
            final(self).workspace_root == old(self).workspace_root,
    {
        let a = StarTomlDocumentAnalyzer::new(uri, content);
        let diags = a.diagnostics();
        self.store(a);
        diags
    }

    /// The document `uri` now reads `content`: its analysis is updated (or
    /// made, when it was not open) and its diagnostics returned.
    pub fn change(&mut self, uri: &str, content: String) -> (r: Vec<Diagnostic>)
        requires
            old(self).wf(),
            analyzable(content@),
        ensures
            final(self).wf(),
            final(self)@ == old(self)@.insert(uri@, content@),
            diagnostic_views(r@) == analysis(content@),
            final(self).workspace_root == old(self).workspace_root,
    {
        let a = StarTomlDocumentAnalyzer::new(crate::text::owned(uri), content);
        let diags = a.diagnostics();
        self.store(a);
        diags
    }

    /// Close the document `uri`.
    pub fn close(&mut self, uri: &str)
        requires
            old(self).wf(),
        ensures
            final(self).wf(),
            final(self)@ == old(self)@.remove(uri@),
            final(self).workspace_root == old(self).workspace_root,
    {
        let ghost s0 = self.analyzers@;
        proof {
            lemma_docs_of(s0);
        }
        match self.position(uri) {
            None => {
                assert(docs_of(s0).remove(uri@) =~= docs_of(s0));
            },
            Some(i) => {
                let _ = self.analyzers.remove(i);
                let ghost s1 = self.analyzers@;
                assert(s1 =~= s0.remove(i as int));
                assert(uris_distinct(s1)) by {
                    assert forall|x: int, y: int| 0 <= x < s1.len() && 0 <= y < s1.len() && x != y implies s1[x].uri@ != s1[y].uri@ by {
                        let x0 = if x < i { x } else { x + 1 };
                        let y0 = if y < i { y } else { y + 1 };
                        assert(s1[x] == s0[x0] && s1[y] == s0[y0]);
                    }
                }
                proof {
                    lemma_docs_of(s1);
                    assert forall|q: Seq<char>| #[trigger] docs_of(s1).contains_key(q) == docs_of(s0).remove(uri@).contains_key(q) by {
                        if exists|j: int| 0 <= j < s1.len() && #[trigger] s1[j].uri@ == q {
                            let j = choose|j: int| 0 <= j < s1.len() && #[trigger] s1[j].uri@ == q;
                            let j0 = if j < i { j } else { j + 1 };
                            assert(s0[j0].uri@ == q);
                            assert(j0 != i);
                        }
                        if q != uri@ && exists|j: int| 0 <= j < s0.len() && #[trigger] s0[j].uri@ == q {
                            let j = choose|j: int| 0 <= j < s0.len() && #[trigger] s0[j].uri@ == q;
                            assert(j != i);
                            let j1 = if j < i { j } else { j - 1 };
                            assert(s1[j1].uri@ == q);
                        }
                    }
                    assert forall|q: Seq<char>| #[trigger] docs_of(s1).contains_key(q) implies docs_of(s1)[q] == docs_of(s0)[q] by {
                        let j = choose|j: int| 0 <= j < s1.len() && #[trigger] s1[j].uri@ == q;
                        let j0 = if j < i { j } else { j + 1 };
                        assert(s1[j] == s0[j0]);
                    }
                    assert(docs_of(s1) =~= docs_of(s0).remove(uri@));
                }
            },
        }
    }

    /// Apply `f` to the analysis of the document `uri`, when it is open.
    pub fn with_analyzer<F: FnOnce(&StarTomlDocumentAnalyzer) -> R, R>(&self, uri: &str, f: F) -> (r: Option<R>)
        requires
            self.wf(),
            forall|a: &StarTomlDocumentAnalyzer| #[trigger] f.requires((a,)),
        ensures
            r is None <==> !self@.contains_key(uri@),
            r matches Some(x) ==> exists|i: int|
                0 <= i < self.analyzers@.len() && #[trigger] self.analyzers@[i].uri@ == uri@
                    && self.analyzers@[i].text@ == self@[uri@] && f.ensures((&self.analyzers@[i],), x),
    {
        proof {
            lemma_docs_of(self.analyzers@);
        }
        match self.position(uri) {
            None => {
                assert(!self@.contains_key(uri@));
                None
            },
            Some(i) => {
                let a = &self.analyzers[i];
                assert(a.wf());
                assert(self@[uri@] == a.text@);
                let x = f(a);
                assert(self.analyzers@[i as int].uri@ == uri@);
                Some(x)
            },
        }
    }
}

} // verus!
