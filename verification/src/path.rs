//! Paths as text with Unix semantics: parents, joining, lexical cleaning,
//! and the path policies that resolve a configured path against the file it
//! came from and accept or reject it with an audit witness.

use vstd::prelude::*;
use crate::text::{chars_of, owned, push_char, push_str, string_of, join};
use crate::lexical::{split_on, split_chars};
use crate::validation::{has_traversal, traversal_in, contains_char};
use crate::lexical::has_char;

verus! {

// ---------------------------------------------------------------------------
// Parent and join
// ---------------------------------------------------------------------------

/// The path starts at the root.
pub open spec fn is_abs(s: Seq<char>) -> bool {
    s.len() > 0 && s[0] == '/'
}

/// `s` without trailing separators and trailing `.` pieces (a lone `/` and a
/// leading `.` stay).
pub open spec fn strip_trailing(s: Seq<char>) -> Seq<char>
    decreases s.len(),
{
    if s.len() > 1 && s.last() == '/' {
        strip_trailing(s.drop_last())
    } else if s.len() >= 2 && s.last() == '.' && s[s.len() - 2] == '/' {
        strip_trailing(s.drop_last())
    } else {
        s
    }
}

/// The index just after the last `/` of `s` (0 when there is none).
pub open spec fn after_last_slash(s: Seq<char>) -> nat
    decreases s.len(),
{
    if s.len() == 0 {
        0
    } else if s.last() == '/' {
        s.len()
    } else {
        after_last_slash(s.drop_last())
    }
}

/// The parent of a path, as `Path::parent` gives it on Unix: `None` for the
/// empty path and the root.
pub open spec fn parent_text(s: Seq<char>) -> Option<Seq<char>> {
    let t = strip_trailing(s);
    if t.len() == 0 || t == seq!['/'] {
        None
    } else {
        let k = after_last_slash(t);
        if k == 0 {
            Some(Seq::empty())
        } else {
            Some(strip_trailing(t.take(k as int)))
        }
    }
}

/// `dir` joined with `rel`, as `Path::join` does on Unix: an absolute `rel`
/// replaces `dir`; otherwise a separator is added unless `dir` is empty or
/// already ends with one.
pub open spec fn join_text(dir: Seq<char>, rel: Seq<char>) -> Seq<char> {
    if is_abs(rel) {
        rel
    } else if dir.len() == 0 {
        rel
    } else if dir.last() == '/' {
        dir + rel
    } else {
        dir + seq!['/'] + rel
    }
}

proof fn lemma_strip_trailing(s: Seq<char>)
    ensures
        strip_trailing(s).len() <= s.len(),
        strip_trailing(s) == s.take(strip_trailing(s).len() as int),
        strip_trailing(s).len() > 1 ==> strip_trailing(s).last() != '/',
        s.len() > 0 ==> strip_trailing(s).len() > 0,
    decreases s.len(),
{
    if s.len() > 1 && s.last() == '/' {
        lemma_strip_trailing(s.drop_last());
        assert(s.drop_last().take(strip_trailing(s).len() as int) =~= s.take(strip_trailing(s).len() as int));
    } else if s.len() >= 2 && s.last() == '.' && s[s.len() - 2] == '/' {
        lemma_strip_trailing(s.drop_last());
        assert(s.drop_last().take(strip_trailing(s).len() as int) =~= s.take(strip_trailing(s).len() as int));
    } else {
        assert(s.take(s.len() as int) =~= s);
    }
}

proof fn lemma_after_last_slash(s: Seq<char>)
    ensures
        after_last_slash(s) <= s.len(),
        after_last_slash(s) > 0 ==> s[after_last_slash(s) - 1] == '/',
        forall|j: int| after_last_slash(s) <= j < s.len() ==> s[j] != '/',
    decreases s.len(),
{
    if s.len() > 0 && s.last() != '/' {
        lemma_after_last_slash(s.drop_last());
        assert forall|j: int| after_last_slash(s) <= j < s.len() implies s[j] != '/' by {
            if j < s.len() - 1 {
                assert(s[j] == s.drop_last()[j]);
            }
        }
    }
}

/// A parent is shorter than its path.
pub proof fn lemma_parent_shorter(s: Seq<char>)
    ensures
        parent_text(s) matches Some(p) ==> p.len() < s.len(),
{
    let t = strip_trailing(s);
    lemma_strip_trailing(s);
    if t.len() > 0 && t != seq!['/'] {
        let k = after_last_slash(t);
        lemma_after_last_slash(t);
        if k > 0 {
            lemma_strip_trailing(t.take(k as int));
            if k == t.len() {
                assert(t.last() == '/');
                assert(t.len() == 1);
                assert(t =~= seq!['/']);
            }
        }
    }
}

fn strip_trailing_exec(s: &[char], len: usize) -> (r: usize)
    requires
        len <= s@.len(),
    ensures
        r <= len,
        strip_trailing(s@.take(len as int)) == s@.take(r as int),
{
    let mut n = len;
    while (n > 1 && s[n - 1] == '/') || (n >= 2 && s[n - 1] == '.' && s[n - 2] == '/')
        invariant
            n <= len,
            len <= s@.len(),
            strip_trailing(s@.take(len as int)) == strip_trailing(s@.take(n as int)),
        decreases n,
    {
        assert(s@.take(n as int).drop_last() =~= s@.take(n as int - 1));
        n = n - 1;
    }
    assert(strip_trailing(s@.take(n as int)) == s@.take(n as int));
    n
}

/// The parent of `path` (see [`parent_text`]).
pub fn parent_of(path: &str) -> (r: Option<String>)
    ensures
        match r {
            Some(p) => parent_text(path@) == Some(p@),
            None => parent_text(path@) is None,
        },
{
    let cs = chars_of(path);
    let n = cs.len();
    assert(cs@.take(n as int) =~= cs@);
    let t = strip_trailing_exec(cs.as_slice(), n);
    if t == 0 || (t == 1 && cs[0] == '/') {
        assert(t == 1 ==> cs@.take(t as int) =~= seq!['/']);
        return None;
    }
    assert(cs@.take(t as int) != seq!['/']) by {
        if t == 1 {
            assert(cs@.take(1)[0] == cs@[0]);
            assert(seq!['/'][0] == '/');
        } else {
            assert(cs@.take(t as int).len() != seq!['/'].len());
        }
    }
    let ghost tt = cs@.take(t as int);
    let mut k = t;
    assert(tt.take(k as int) =~= tt);
    while k > 0 && cs[k - 1] != '/'
        invariant
            k <= t,
            t <= cs@.len(),
            tt == cs@.take(t as int),
            after_last_slash(tt) == after_last_slash(tt.take(k as int)),
        decreases k,
    {
        assert(tt.take(k as int).drop_last() =~= tt.take(k as int - 1));
        k = k - 1;
    }
    proof {
        if k > 0 {
            assert(tt.take(k as int).last() == '/');
        }
        assert(after_last_slash(tt) == k);
    }
    if k == 0 {
        return Some(String::new());
    }
    let m = strip_trailing_exec(cs.as_slice(), k);
    assert(tt.take(k as int) =~= cs@.take(k as int));
    let head = vstd::slice::slice_subrange(cs.as_slice(), 0, m);
    let mut v: Vec<char> = Vec::new();
    let mut i: usize = 0;
    while i < head.len()
        invariant
            i <= head@.len(),
            v@ == head@.take(i as int),
        decreases head@.len() - i,
    {
        v.push(head[i]);
        assert(v@ =~= head@.take(i as int + 1));
        i = i + 1;
    }
    assert(v@ =~= cs@.take(m as int));
    Some(string_of(&v))
}

/// `dir` joined with `rel` (see [`join_text`]).
pub fn join_path(dir: &str, rel: &str) -> (r: String)
    ensures
        r@ == join_text(dir@, rel@),
{
    let rc = chars_of(rel);
    if rc.len() > 0 && rc[0] == '/' {
        return owned(rel);
    }
    let dc = chars_of(dir);
    if dc.len() == 0 {
        return owned(rel);
    }
    let mut out = owned(dir);
    if dc[dc.len() - 1] != '/' {
        push_char(&mut out, '/');
    }
    push_str(&mut out, rel);
    out
}

// ---------------------------------------------------------------------------
// Lexical cleaning
// ---------------------------------------------------------------------------

/// The pieces of a path that name something: not empty and not `.`.
pub open spec fn named_pieces(s: Seq<Seq<char>>) -> Seq<Seq<char>>
    decreases s.len(),
{
    if s.len() == 0 {
        s
    } else if s.last().len() == 0 || s.last() == seq!['.'] {
        named_pieces(s.drop_last())
    } else {
        named_pieces(s.drop_last()).push(s.last())
    }
}

/// The components of a path, without the root: its pieces between `/` that
/// are neither empty nor `.`.
pub open spec fn comps(s: Seq<char>) -> Seq<Seq<char>> {
    named_pieces(split_on(s, '/'))
}

/// Fold components into `acc`: `..` drops the last one kept (if any), any
/// other is kept.
pub open spec fn clean_fold(acc: Seq<Seq<char>>, cs: Seq<Seq<char>>) -> Seq<Seq<char>>
    decreases cs.len(),
{
    if cs.len() == 0 {
        acc
    } else {
        let a = clean_fold(acc, cs.drop_last());
        if cs.last() == seq!['.', '.'] {
            if a.len() > 0 {
                a.drop_last()
            } else {
                a
            }
        } else {
            a.push(cs.last())
        }
    }
}

/// The text of a cleaned path: `/` for an absolute one, then the kept
/// components joined with `/`.
pub open spec fn cleaned_text(abs: bool, kept: Seq<Seq<char>>) -> Seq<char> {
    (if abs {
        seq!['/']
    } else {
        Seq::empty()
    }) + join(kept, seq!['/'])
}

/// `p` cleaned lexically: `.` pieces and repeated separators dropped, `..`
/// removing the component before it, without touching the file system.
pub open spec fn clean_text(p: Seq<char>) -> Seq<char> {
    cleaned_text(is_abs(p), clean_fold(Seq::empty(), comps(p)))
}

fn named_pieces_exec(pieces: &Vec<Vec<char>>) -> (r: Vec<Vec<char>>)
    ensures
        crate::order::cviews(r@) == named_pieces(crate::order::cviews(pieces@)),
{
    let ghost ps = crate::order::cviews(pieces@);
    let mut out: Vec<Vec<char>> = Vec::new();
    let mut i: usize = 0;
    while i < pieces.len()
        invariant
            i <= pieces@.len(),
            ps == crate::order::cviews(pieces@),
            crate::order::cviews(out@) == named_pieces(ps.take(i as int)),
        decreases pieces@.len() - i,
    {
        assert(ps.take(i as int + 1).drop_last() =~= ps.take(i as int));
        assert(ps.take(i as int + 1).last() == pieces@[i as int]@);
        let dot: Vec<char> = vec!['.'];
        assert(dot@ =~= seq!['.']);
        let p = &pieces[i];
        if p.len() == 0 || crate::lexical::chars_eq(p.as_slice(), dot.as_slice()) {
        } else {
            let mut c: Vec<char> = Vec::new();
            let mut k: usize = 0;
            while k < p.len()
                invariant
                    k <= p@.len(),
                    c@ == p@.take(k as int),
                decreases p@.len() - k,
            {
                c.push(p[k]);
                assert(c@ =~= p@.take(k as int + 1));
                k = k + 1;
            }
            assert(c@ =~= p@);
            out.push(c);
        }
        assert(crate::order::cviews(out@) =~= named_pieces(ps.take(i as int + 1)));
        i = i + 1;
    }
    assert(ps.take(pieces@.len() as int) =~= ps);
    out
}

/// The components of `s` (see [`comps`]).
pub fn comps_of(s: &str) -> (r: Vec<Vec<char>>)
    ensures
        crate::order::cviews(r@) == comps(s@),
{
    let cs = chars_of(s);
    let pieces = split_chars(cs.as_slice(), '/');
    assert(crate::order::cviews(pieces@) =~= split_on(s@, '/'));
    named_pieces_exec(&pieces)
}

/// Fold the components `cs` into `acc` (see [`clean_fold`]).
fn clean_fold_exec(acc: &mut Vec<Vec<char>>, cs: Vec<Vec<char>>)
    ensures
        crate::order::cviews(final(acc)@) == clean_fold(crate::order::cviews(old(acc)@), crate::order::cviews(cs@)),
{
    let ghost a0 = crate::order::cviews(acc@);
    let ghost cv = crate::order::cviews(cs@);
    let mut cs = cs;
    let mut i: usize = 0;
    let n = cs.len();
    let dotdot: Vec<char> = vec!['.', '.'];
    while i < n
        invariant
            i <= n,
            n == cs@.len(),
            dotdot@ == seq!['.', '.'],
            forall|k: int| i <= k < n ==> (#[trigger] cs@[k])@ == cv[k],
            cv.len() == n,
            crate::order::cviews(acc@) == clean_fold(a0, cv.take(i as int)),
        decreases n - i,
    {
        let mut c: Vec<char> = Vec::new();
        std::mem::swap(&mut c, &mut cs[i]);
        assert(c@ == cv[i as int]);
        assert(cv.take(i as int + 1).drop_last() =~= cv.take(i as int));
        assert(cv.take(i as int + 1).last() == cv[i as int]);
        let ghost before = crate::order::cviews(acc@);
        if crate::lexical::chars_eq(c.as_slice(), dotdot.as_slice()) {
            if acc.len() > 0 {
                acc.pop();
                assert(crate::order::cviews(acc@) =~= before.drop_last());
            }
        } else {
            acc.push(c);
            assert(crate::order::cviews(acc@) =~= before.push(cv[i as int]));
        }
        i = i + 1;
    }
    assert(cv.take(n as int) =~= cv);
}

/// The text of the cleaned path `abs`, `kept` (see [`cleaned_text`]).
fn cleaned_text_exec(abs: bool, kept: &Vec<Vec<char>>) -> (r: String)
    ensures
        r@ == cleaned_text(abs, crate::order::cviews(kept@)),
{
    let joined = crate::order::join_chars(kept, '/');
    let mut v: Vec<char> = Vec::new();
    if abs {
        v.push('/');
    }
    let mut i: usize = 0;
    let ghost base = v@;
    while i < joined.len()
        invariant
            i <= joined@.len(),
            v@ == base + joined@.take(i as int),
        decreases joined@.len() - i,
    {
        v.push(joined[i]);
        assert(v@ =~= base + joined@.take(i as int + 1));
        i = i + 1;
    }
    assert(joined@.take(joined@.len() as int) =~= joined@);
    assert(v@ =~= cleaned_text(abs, crate::order::cviews(kept@)));
    string_of(&v)
}

/// Lexically clean `p` (see [`clean_text`]).
pub fn clean_path(p: &str) -> (r: String)
    ensures
        r@ == clean_text(p@),
{
    let cs = chars_of(p);
    let abs = cs.len() > 0 && cs[0] == '/';
    let mut acc: Vec<Vec<char>> = Vec::new();
    assert(crate::order::cviews(acc@) =~= Seq::<Seq<char>>::empty());
    clean_fold_exec(&mut acc, comps_of(p));
    cleaned_text_exec(abs, &acc)
}

// ---------------------------------------------------------------------------
// Policies
// ---------------------------------------------------------------------------

/// Which paths are acceptable.
#[derive(Debug, Clone)]
pub enum PathPolicy {
    /// The path must resolve within `root`.
    Sandbox { root: String },
    /// The path must be relative and stay within the source file's directory.
    RelativeOnly,
    /// The path must not begin with a forbidden system prefix.
    BlockForbidden,
}

/// Audit record of an accepted path.
#[derive(Debug, Clone)]
pub struct PathWitness {
    /// The path as given.
    pub raw_path: String,
    /// The source file that anchored relative resolution.
    pub source_path: String,
    /// The resolved, cleaned path.
    pub resolved_path: Option<String>,
    /// The name of the policy applied.
    pub policy: String,
    /// Whether the policy accepted the path.
    pub accepted: bool,
    /// The rejection code, when rejected.
    pub rejection_code: Option<String>,
    /// The sandbox root, for the sandbox policy.
    pub sandbox_root: Option<String>,
}

/// The model of a path witness: its texts by their views.
pub struct PathWitnessView {
    pub raw_path: Seq<char>,
    pub source_path: Seq<char>,
    pub resolved_path: Option<Seq<char>>,
    pub policy: Seq<char>,
    pub accepted: bool,
    pub rejection_code: Option<Seq<char>>,
    pub sandbox_root: Option<Seq<char>>,
}

impl View for PathWitness {
    type V = PathWitnessView;

    open spec fn view(&self) -> PathWitnessView {
        PathWitnessView {
            raw_path: self.raw_path@,
            source_path: self.source_path@,
            resolved_path: crate::validation::opt_view(self.resolved_path),
            policy: self.policy@,
            accepted: self.accepted,
            rejection_code: crate::validation::opt_view(self.rejection_code),
            sandbox_root: crate::validation::opt_view(self.sandbox_root),
        }
    }
}

/// The sandbox root a policy enforces, if any.
pub open spec fn policy_root(p: PathPolicy) -> Option<Seq<char>> {
    match p {
        PathPolicy::Sandbox { root } => Some(root@),
        _ => None,
    }
}

/// The witness of checking `raw` from `source` under `policy`: accepted
/// with the resolved path, or rejected with no resolved path and the
/// rejection code (see [`resolution`]).
pub open spec fn witness_of(raw: Seq<char>, source: Seq<char>, policy: PathPolicy) -> PathWitnessView {
    match resolution(raw, source, policy) {
        Ok(p) => PathWitnessView {
            raw_path: raw,
            source_path: source,
            resolved_path: Some(p),
            policy: policy_name(policy),
            accepted: true,
            rejection_code: None,
            sandbox_root: policy_root(policy),
        },
        Err(c) => PathWitnessView {
            raw_path: raw,
            source_path: source,
            resolved_path: None,
            policy: policy_name(policy),
            accepted: false,
            rejection_code: Some(c),
            sandbox_root: policy_root(policy),
        },
    }
}

/// The witness of checking `raw_path` from `source_path` under `policy`,
/// whether the path is accepted or not (see [`witness_of`]).
pub fn path_witness(raw_path: &str, source_path: &str, policy: &PathPolicy) -> (w: PathWitness)
    ensures
        w@ == witness_of(raw_path@, source_path@, *policy),
{
    match resolve_and_validate(raw_path, source_path, policy) {
        Ok((_, w)) => w,
        Err(code) => {
            let name = match policy {
                PathPolicy::Sandbox { .. } => owned("Sandbox"),
                PathPolicy::RelativeOnly => owned("RelativeOnly"),
                PathPolicy::BlockForbidden => owned("BlockForbidden"),
            };
            let sandbox_root = match policy {
                PathPolicy::Sandbox { root } => Some(root.clone()),
                _ => None,
            };
            proof {
                reveal_strlit("Sandbox");
                reveal_strlit("RelativeOnly");
                reveal_strlit("BlockForbidden");
            }
            PathWitness {
                raw_path: owned(raw_path),
                source_path: owned(source_path),
                resolved_path: None,
                policy: name,
                accepted: false,
                rejection_code: Some(code),
                sandbox_root,
            }
        },
    }
}

/// The name of a policy.
pub open spec fn policy_name(p: PathPolicy) -> Seq<char> {
    match p {
        PathPolicy::Sandbox { .. } => "Sandbox"@,
        PathPolicy::RelativeOnly => "RelativeOnly"@,
        PathPolicy::BlockForbidden => "BlockForbidden"@,
    }
}

/// The directory relative paths are resolved against: the source's parent,
/// or `.` when it has none.
pub open spec fn base_dir(source: Seq<char>) -> Seq<char> {
    match parent_text(source) {
        Some(d) => d,
        None => seq!['.'],
    }
}

/// Where `raw` resolves from `source`: `raw` itself when absolute, otherwise
/// joined to the source's directory; then cleaned.
pub open spec fn resolved_text(raw: Seq<char>, source: Seq<char>) -> Seq<char> {
    clean_text(if is_abs(raw) {
        raw
    } else {
        join_text(base_dir(source), raw)
    })
}

/// `a` starts with `b` component by component (both cleaned): the empty
/// relative path is a prefix of everything; otherwise both are absolute or
/// both relative, and the components of `b` begin those of `a`.
pub open spec fn starts_with_path(a: Seq<char>, b: Seq<char>) -> bool {
    (!is_abs(b) && comps(b).len() == 0) || (is_abs(a) == is_abs(b) && comps(b).len() <= comps(a).len()
        && comps(a).take(comps(b).len() as int) == comps(b))
}

/// The system prefixes the forbidding policy rejects.
pub open spec fn forbidden_prefixes() -> Seq<Seq<char>> {
    seq!["/etc"@, "/dev"@, "/proc"@, "/sys"@, "/var/run"@, ".git"@]
}

/// Some forbidden prefix begins `resolved` by components or `raw` as text.
pub open spec fn is_forbidden(raw: Seq<char>, resolved: Seq<char>) -> bool {
    exists|i: int|
        0 <= i < 6 && (starts_with_path(resolved, #[trigger] forbidden_prefixes()[i])
            || (forbidden_prefixes()[i].len() <= raw.len() && raw.take(forbidden_prefixes()[i].len() as int) == forbidden_prefixes()[i]))
}

/// The outcome of resolving `raw` from `source` under `policy`: the resolved
/// path, or the rejection code.
pub open spec fn resolution(raw: Seq<char>, source: Seq<char>, policy: PathPolicy) -> Result<Seq<char>, Seq<char>> {
    let resolved = resolved_text(raw, source);
    if has_char(raw, '\0') {
        Err("null_byte_detected"@)
    } else if policy is RelativeOnly && is_abs(raw) {
        Err("relative_only_escape:absolute_path_forbidden"@)
    } else if has_traversal(raw) {
        Err("path_traversal_detected"@)
    } else {
        match policy {
            PathPolicy::BlockForbidden => if is_forbidden(raw, resolved) {
                Err("forbidden_path"@)
            } else {
                Ok(resolved)
            },
            PathPolicy::Sandbox { root } => if !starts_with_path(resolved, clean_text(root@)) {
                Err("sandbox_escape:"@ + raw)
            } else {
                Ok(resolved)
            },
            PathPolicy::RelativeOnly => if !starts_with_path(resolved, clean_text(base_dir(source))) {
                Err("relative_only_escape:"@ + raw)
            } else {
                Ok(resolved)
            },
        }
    }
}

/// Whether `a` starts with `b` by components (see [`starts_with_path`]).
pub fn path_starts_with(a: &str, b: &str) -> (r: bool)
    ensures
        r == starts_with_path(a@, b@),
{
    let ac = chars_of(a);
    let bc = chars_of(b);
    let a_abs = ac.len() > 0 && ac[0] == '/';
    let b_abs = bc.len() > 0 && bc[0] == '/';
    let ca = comps_of(a);
    let cb = comps_of(b);
    if !b_abs && cb.len() == 0 {
        return true;
    }
    if a_abs != b_abs || cb.len() > ca.len() {
        return false;
    }
    let mut i: usize = 0;
    while i < cb.len()
        invariant
            i <= cb@.len(),
            cb@.len() <= ca@.len(),
            crate::order::cviews(ca@) == comps(a@),
            crate::order::cviews(cb@) == comps(b@),
            forall|k: int| 0 <= k < i ==> comps(a@)[k] == comps(b@)[k],
        decreases cb@.len() - i,
    {
        assert(crate::order::cviews(ca@)[i as int] == ca@[i as int]@);
        assert(crate::order::cviews(cb@)[i as int] == cb@[i as int]@);
        if !crate::lexical::chars_eq(ca[i].as_slice(), cb[i].as_slice()) {
            assert(comps(a@).take(comps(b@).len() as int)[i as int] != comps(b@)[i as int]);
            return false;
        }
        i = i + 1;
    }
    assert(comps(a@).take(comps(b@).len() as int) =~= comps(b@));
    true
}

/// Whether `s` starts with the text `p`.
fn text_starts_with(s: &str, p: &str) -> (r: bool)
    ensures
        r == (p@.len() <= s@.len() && s@.take(p@.len() as int) == p@),
{
    let sc = chars_of(s);
    let pc = chars_of(p);
    if pc.len() > sc.len() {
        return false;
    }
    let head = vstd::slice::slice_subrange(sc.as_slice(), 0, pc.len());
    crate::lexical::chars_eq(head, pc.as_slice())
}

/// The directory relative paths are resolved against (see [`base_dir`]).
pub fn base_dir_of(source: &str) -> (r: String)
    ensures
        r@ == base_dir(source@),
{
    match parent_of(source) {
        Some(d) => d,
        None => {
            let r = owned(".");
            proof {
                reveal_strlit(".");
            }
            assert(r@ =~= seq!['.']);
            r
        },
    }
}

/// Resolve `raw_path` against the directory of `source_path` and enforce
/// `policy`: the resolved path and its witness, or the rejection code (see
/// [`resolution`]).
pub fn resolve_and_validate(raw_path: &str, source_path: &str, policy: &PathPolicy) -> (r: Result<(String, PathWitness), String>)
    ensures
        match r {
            Ok((resolved, w)) => {
                &&& resolution(raw_path@, source_path@, *policy) == Ok::<Seq<char>, Seq<char>>(resolved@)
                &&& w.raw_path@ == raw_path@
                &&& w.source_path@ == source_path@
                &&& w.resolved_path matches Some(p) && p@ == resolved@
                &&& w.policy@ == policy_name(*policy)
                &&& w.accepted
                &&& w.rejection_code is None
                &&& match *policy {
                    PathPolicy::Sandbox { root } => w.sandbox_root matches Some(s) && s@ == root@,
                    _ => w.sandbox_root is None,
                }
            },
            Err(code) => resolution(raw_path@, source_path@, *policy) == Err::<Seq<char>, Seq<char>>(code@),
        },
{
    let policy_name_text = match policy {
        PathPolicy::Sandbox { .. } => owned("Sandbox"),
        PathPolicy::RelativeOnly => owned("RelativeOnly"),
        PathPolicy::BlockForbidden => owned("BlockForbidden"),
    };
    let sandbox_root = match policy {
        PathPolicy::Sandbox { root } => Some(root.clone()),
        _ => None,
    };
    if contains_char(raw_path, '\0') {
        return Err(owned("null_byte_detected"));
    }
    let rc = chars_of(raw_path);
    let raw_abs = rc.len() > 0 && rc[0] == '/';
    let relative_only = match policy {
        PathPolicy::RelativeOnly => true,
        _ => false,
    };
    if relative_only && raw_abs {
        return Err(owned("relative_only_escape:absolute_path_forbidden"));
    }
    if traversal_in(raw_path) {
        return Err(owned("path_traversal_detected"));
    }
    let base = base_dir_of(source_path);
    let joined = if raw_abs {
        owned(raw_path)
    } else {
        join_path(base.as_str(), raw_path)
    };
    let resolved = clean_path(joined.as_str());
    assert(resolved@ == resolved_text(raw_path@, source_path@));
    match policy {
        PathPolicy::BlockForbidden => {
            let prefixes: [&str; 6] = ["/etc", "/dev", "/proc", "/sys", "/var/run", ".git"];
            let mut i: usize = 0;
            while i < 6
                invariant
                    i <= 6,
                    prefixes@.len() == 6,
                    !has_char(raw_path@, '\0'),
                    !has_traversal(raw_path@),
                    *policy is BlockForbidden,
                    resolved@ == resolved_text(raw_path@, source_path@),
                    forall|k: int| 0 <= k < 6 ==> (#[trigger] prefixes@[k])@ == forbidden_prefixes()[k],
                    forall|k: int|
                        0 <= k < i ==> !(starts_with_path(resolved@, #[trigger] forbidden_prefixes()[k]) || (
                        forbidden_prefixes()[k].len() <= raw_path@.len() && raw_path@.take(
                            forbidden_prefixes()[k].len() as int,
                        ) == forbidden_prefixes()[k])),
                decreases 6 - i,
            {
                let fp = prefixes[i];
                if path_starts_with(resolved.as_str(), fp) || text_starts_with(raw_path, fp) {
                    assert(is_forbidden(raw_path@, resolved@)) by {
                        assert(prefixes@[i as int]@ == forbidden_prefixes()[i as int]);
                        assert(starts_with_path(resolved@, forbidden_prefixes()[i as int]) || (
                            forbidden_prefixes()[i as int].len() <= raw_path@.len() && raw_path@.take(
                            forbidden_prefixes()[i as int].len() as int) == forbidden_prefixes()[i as int]));
                    }
                    return Err(owned("forbidden_path"));
                }
                i = i + 1;
            }
            assert(!is_forbidden(raw_path@, resolved@));
        },
        PathPolicy::Sandbox { root } => {
            let clean_root = clean_path(root.as_str());
            if !path_starts_with(resolved.as_str(), clean_root.as_str()) {
                let mut code = owned("sandbox_escape:");
                push_str(&mut code, raw_path);
                return Err(code);
            }
        },
        PathPolicy::RelativeOnly => {
            let clean_base = clean_path(base.as_str());
            if !path_starts_with(resolved.as_str(), clean_base.as_str()) {
                let mut code = owned("relative_only_escape:");
                push_str(&mut code, raw_path);
                return Err(code);
            }
        },
    }
    let witness = PathWitness {
        raw_path: owned(raw_path),
        source_path: owned(source_path),
        resolved_path: Some(resolved.clone()),
        policy: policy_name_text,
        accepted: true,
        rejection_code: None,
        sandbox_root,
    };
    Ok((resolved, witness))
}

} // verus!
