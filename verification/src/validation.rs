//! Path-precise, multi-error validation with conformance analytics.
//!
//! A [`Validator`] descends a configuration tree ([`Validator::field`],
//! [`Validator::index`]), counts every atomic check it runs, and records each
//! failure as a [`ValidationError`] at its [`Loc`].  [`Validator::finish`]
//! yields a [`ValidationErrors`] report, whose analytics (fitness, variant
//! fingerprint, grouping by section) are specified here over the recorded
//! errors.

use vstd::prelude::*;
use crate::text::{
    dec_text, int_text, join, views, push_char, push_str, push_dec, i64_text, join_strings,
    str_eq, owned,
};
use crate::lexical::{
    is_digit, is_ascii_alnum, ascii_upper, digit_char, alnum_char, upper_char, all_digits,
    digits_value, split_on, split_chars, all_digits_in, digits_value_capped, upper_seq, has_char,
};
use crate::digest::{utf8, fnv1a_spec, fnv1a, utf8_bytes};
use crate::path::{PathWitness, PathWitnessView, PathPolicy, path_witness, witness_of, resolution};
use crate::order::{lex_le, lex_order, cviews, sort_texts, lemma_sorted_unique, lemma_lex_total_ordering};
use vstd::relations::sorted_by;

verus! {

// ---------------------------------------------------------------------------
// Locations
// ---------------------------------------------------------------------------

/// One segment of a [`Loc`]: a table key or an array index.
#[derive(Debug, Clone, PartialEq, Eq, Hash)]
pub enum LocSegment {
    /// A table key, e.g. `server` in `server.port`.
    Key(String),
    /// An array index, e.g. `2` in `stages[2]`.
    Index(usize),
}

/// A path to a value in the configuration tree.
#[derive(Debug, Clone, PartialEq, Eq, Hash)]
pub struct Loc(pub Vec<LocSegment>);

/// The model of a location segment.
pub enum SegView {
    Key(Seq<char>),
    Index(nat),
}

impl View for LocSegment {
    type V = SegView;

    open spec fn view(&self) -> SegView {
        match self {
            LocSegment::Key(k) => SegView::Key(k@),
            LocSegment::Index(n) => SegView::Index(*n as nat),
        }
    }
}

/// The models of a sequence of segments.
pub open spec fn seg_views(s: Seq<LocSegment>) -> Seq<SegView> {
    Seq::new(s.len(), |i: int| s[i]@)
}

impl View for Loc {
    type V = Seq<SegView>;

    open spec fn view(&self) -> Seq<SegView> {
        seg_views(self.0@)
    }
}

/// The text of segment `s`; `first` tells whether it opens the path.
pub open spec fn seg_text(s: SegView, first: bool) -> Seq<char> {
    match s {
        SegView::Key(k) => if first {
            k
        } else {
            seq!['.'] + k
        },
        SegView::Index(n) => seq!['['] + dec_text(n) + seq![']'],
    }
}

/// The text of a non-empty run of segments, e.g. `server.tls.port` or `[2].name`.
pub open spec fn segs_text(s: Seq<SegView>) -> Seq<char>
    decreases s.len(),
{
    if s.len() == 0 {
        Seq::empty()
    } else {
        segs_text(s.drop_last()) + seg_text(s.last(), s.len() == 1)
    }
}

/// The text of the root location.
pub open spec fn root_text() -> Seq<char> {
    seq!['(', 'r', 'o', 'o', 't', ')']
}

/// The rendered text of a location: `(root)` for the empty path.
pub open spec fn loc_text(s: Seq<SegView>) -> Seq<char> {
    if s.len() == 0 {
        root_text()
    } else {
        segs_text(s)
    }
}

/// Append the text of `segs` to `out`.
fn push_segments(out: &mut String, segs: &Vec<LocSegment>)
    ensures
        final(out)@ == old(out)@ + segs_text(seg_views(segs@)),
{
    let ghost start = out@;
    let mut i: usize = 0;
    while i < segs.len()
        invariant
            i <= segs.len(),
            out@ == start + segs_text(seg_views(segs@).take(i as int)),
        decreases segs.len() - i,
    {
        match &segs[i] {
            LocSegment::Key(k) => {
                if i > 0 {
                    push_char(out, '.');
                }
                push_str(out, k.as_str());
            },
            LocSegment::Index(n) => {
                push_char(out, '[');
                push_dec(out, *n as u64);
                push_char(out, ']');
            },
        }
        proof {
            let p = seg_views(segs@).take(i as int + 1);
            assert(p.drop_last() =~= seg_views(segs@).take(i as int));
            assert(p.last() == segs@[i as int]@);
            assert(out@ =~= start + segs_text(p));
        }
        i = i + 1;
    }
    assert(seg_views(segs@).take(segs.len() as int) =~= seg_views(segs@));
}

impl Loc {
    /// A location made of `segs`, outermost first.
    pub fn new(segs: Vec<LocSegment>) -> (r: Loc)
        ensures
            r.0@ == segs@,
            r@ == seg_views(segs@),
    {
        Loc(segs)
    }

    /// The root location (no segments).
    pub fn root() -> (r: Loc)
        ensures
            r.0@.len() == 0,
            r@.len() == 0,
    {
        Loc(Vec::new())
    }

    /// The segments making up this location, outermost first.
    pub fn segments(&self) -> (r: &[LocSegment])
        ensures
            r@ == self.0@,
    {
        self.0.as_slice()
    }

    /// True for the root location, which has no segments.
    pub fn is_root(&self) -> (r: bool)
        ensures
            r == (self@.len() == 0),
    {
        self.0.len() == 0
    }

    /// The rendered location, e.g. `server.tls.port`, `[2].name` or `(root)`.
    pub fn to_string(&self) -> (r: String)
        ensures
            r@ == loc_text(self@),
    {
        let mut out = String::new();
        if self.0.len() == 0 {
            push_str(&mut out, "(root)");
            proof {
                reveal_strlit("(root)");
            }
            assert(out@ =~= root_text());
        } else {
            push_segments(&mut out, &self.0);
            assert(out@ =~= segs_text(self@));
        }
        out
    }
}

// ---------------------------------------------------------------------------
// Severity
// ---------------------------------------------------------------------------

/// How severe a failure is, ordered `Advisory < Warning < Error < Fatal`.
#[derive(Debug, Clone, Copy, PartialEq, Eq, Structural, PartialOrd, Ord, Hash)]
pub enum Severity {
    /// A best-practice hint; the configuration is usable.
    Advisory,
    /// Risky but technically valid.
    Warning,
    /// A violated constraint; the default level.
    Error,
    /// Unrecoverable; evaluation should halt.
    Fatal,
}

/// The rank of a severity in the order `Advisory < Warning < Error < Fatal`.
pub open spec fn rank(s: Severity) -> nat {
    match s {
        Severity::Advisory => 0,
        Severity::Warning => 1,
        Severity::Error => 2,
        Severity::Fatal => 3,
    }
}

/// The stable code of a severity.
pub open spec fn severity_code(s: Severity) -> Seq<char> {
    match s {
        Severity::Advisory => "advisory"@,
        Severity::Warning => "warning"@,
        Severity::Error => "error"@,
        Severity::Fatal => "fatal"@,
    }
}

impl Default for Severity {
    fn default() -> (r: Severity)
        ensures
            r == Severity::Error,
    {
        Severity::Error
    }
}

impl Severity {
    /// Stable string code: `advisory`, `warning`, `error` or `fatal`.
    pub fn code(&self) -> (r: &str)
        ensures
            r@ == severity_code(*self),
    {
        match self {
            Severity::Advisory => "advisory",
            Severity::Warning => "warning",
            Severity::Error => "error",
            Severity::Fatal => "fatal",
        }
    }

    /// The rank of this severity: 0 for `Advisory` up to 3 for `Fatal`.
    pub fn rank(&self) -> (r: u8)
        ensures
            r as nat == rank(*self),
    {
        match self {
            Severity::Advisory => 0,
            Severity::Warning => 1,
            Severity::Error => 2,
            Severity::Fatal => 3,
        }
    }

    /// Whether this severity is at least `other`.
    pub fn at_least(&self, other: Severity) -> (r: bool)
        ensures
            r == (rank(*self) >= rank(other)),
    {
        self.rank() >= other.rank()
    }

    /// The text of this severity (its code).
    pub fn to_string(&self) -> (r: String)
        ensures
            r@ == severity_code(*self),
    {
        owned(self.code())
    }
}

// ---------------------------------------------------------------------------
// Error kinds
// ---------------------------------------------------------------------------

/// The structured reason a value failed validation.
#[derive(Debug, Clone, PartialEq, Eq)]
pub enum ErrorKind {
    /// A required value was absent.
    Missing,
    /// A string or collection was empty but must not be.
    Empty,
    /// A number fell outside the allowed range.
    OutOfRange {
        /// Inclusive lower bound, if any.
        lower: Option<String>,
        /// Inclusive upper bound, if any.
        upper: Option<String>,
    },
    /// A string or collection was shorter than allowed.
    TooShort {
        /// Minimum length.
        min: usize,
        /// Actual length.
        actual: usize,
    },
    /// A string or collection was longer than allowed.
    TooLong {
        /// Maximum length.
        max: usize,
        /// Actual length.
        actual: usize,
    },
    /// A value was not among the permitted choices.
    NotOneOf {
        /// The permitted values.
        allowed: Vec<String>,
    },
    /// A cross-field constraint was violated; `related` names the other fields.
    Inconsistent {
        /// The other fields of the constraint.
        related: Vec<String>,
        /// Caller-defined stable code.
        code: &'static str,
    },
    /// A custom predicate failed; `code` is a caller-chosen identifier.
    Predicate {
        /// Stable, caller-defined error code.
        code: &'static str,
    },
}

/// The model of an error kind: its texts by their views.
pub enum KindView {
    Missing,
    Empty,
    OutOfRange { lower: Option<Seq<char>>, upper: Option<Seq<char>> },
    TooShort { min: nat, actual: nat },
    TooLong { max: nat, actual: nat },
    NotOneOf { allowed: Seq<Seq<char>> },
    Inconsistent { related: Seq<Seq<char>>, code: Seq<char> },
    Predicate { code: Seq<char> },
}

/// The view of an optional string.
pub open spec fn opt_view(o: Option<String>) -> Option<Seq<char>> {
    match o {
        Some(s) => Some(s@),
        None => None,
    }
}

impl View for ErrorKind {
    type V = KindView;

    open spec fn view(&self) -> KindView {
        match self {
            ErrorKind::Missing => KindView::Missing,
            ErrorKind::Empty => KindView::Empty,
            ErrorKind::OutOfRange { lower, upper } => KindView::OutOfRange {
                lower: opt_view(*lower),
                upper: opt_view(*upper),
            },
            ErrorKind::TooShort { min, actual } => KindView::TooShort {
                min: *min as nat,
                actual: *actual as nat,
            },
            ErrorKind::TooLong { max, actual } => KindView::TooLong {
                max: *max as nat,
                actual: *actual as nat,
            },
            ErrorKind::NotOneOf { allowed } => KindView::NotOneOf { allowed: views(allowed@) },
            ErrorKind::Inconsistent { related, code } => KindView::Inconsistent {
                related: views(related@),
                code: code@,
            },
            ErrorKind::Predicate { code } => KindView::Predicate { code: code@ },
        }
    }
}

/// The stable code of an error kind.
pub open spec fn kind_code(k: KindView) -> Seq<char> {
    match k {
        KindView::Missing => "missing"@,
        KindView::Empty => "empty"@,
        KindView::OutOfRange { .. } => "out_of_range"@,
        KindView::TooShort { .. } => "too_short"@,
        KindView::TooLong { .. } => "too_long"@,
        KindView::NotOneOf { .. } => "not_one_of"@,
        KindView::Inconsistent { code, .. } => code,
        KindView::Predicate { code } => code,
    }
}

impl ErrorKind {
    /// A stable, machine-matchable code for this kind.
    pub fn code(&self) -> (r: &str)
        ensures
            r@ == kind_code(self@),
    {
        match self {
            ErrorKind::Missing => "missing",
            ErrorKind::Empty => "empty",
            ErrorKind::OutOfRange { .. } => "out_of_range",
            ErrorKind::TooShort { .. } => "too_short",
            ErrorKind::TooLong { .. } => "too_long",
            ErrorKind::NotOneOf { .. } => "not_one_of",
            ErrorKind::Inconsistent { code, .. } => *code,
            ErrorKind::Predicate { code } => *code,
        }
    }
}

// ---------------------------------------------------------------------------
// One failure
// ---------------------------------------------------------------------------

/// A single validation failure at a precise [`Loc`].
#[derive(Debug, Clone, PartialEq, Eq)]
pub struct ValidationError {
    /// Where in the tree the failure occurred.
    pub loc: Loc,
    /// The structured reason.
    pub kind: ErrorKind,
    /// How severe the failure is.
    pub severity: Severity,
    /// The offending value, as text, when it was captured.
    pub input: Option<String>,
    /// Human-readable message.
    pub msg: String,
}

/// The model of one failure.
pub struct ErrorView {
    pub loc: Seq<SegView>,
    pub kind: KindView,
    pub severity: Severity,
    pub input: Option<Seq<char>>,
    pub msg: Seq<char>,
}

impl View for ValidationError {
    type V = ErrorView;

    open spec fn view(&self) -> ErrorView {
        ErrorView {
            loc: self.loc@,
            kind: self.kind@,
            severity: self.severity,
            input: opt_view(self.input),
            msg: self.msg@,
        }
    }
}

/// The repair hint for an error of kind `k` with message `msg`.
pub open spec fn hint_text(k: KindView, msg: Seq<char>) -> Seq<char> {
    match k {
        KindView::Empty => "provide a non-empty value"@,
        KindView::Missing => "add this required field"@,
        KindView::OutOfRange { lower, upper } => match (lower, upper) {
            (Some(lo), Some(hi)) => "use a value in the range "@ + lo + "..="@ + hi,
            (Some(lo), None) => "use a value ≥ "@ + lo,
            (None, Some(hi)) => "use a value ≤ "@ + hi,
            (None, None) => "use a value within the required range"@,
        },
        KindView::NotOneOf { allowed } => "choose one of: "@ + join(allowed, ", "@),
        KindView::TooShort { min, .. } => "provide at least "@ + dec_text(min)
            + " items/characters"@,
        KindView::TooLong { max, .. } => "use at most "@ + dec_text(max) + " items/characters"@,
        KindView::Inconsistent { related, .. } => "ensure this field is consistent with: "@
            + join(related, ", "@),
        KindView::Predicate { .. } => msg,
    }
}

/// The rendered text of one error:
/// `loc`, a newline, two spaces and the message, then ``(got: `input`)`` when
/// an input was captured, then `[code]`, then `<severity>` unless it is `Error`.
pub open spec fn error_text(e: ErrorView) -> Seq<char> {
    loc_text(e.loc) + "\n  "@ + e.msg + (match e.input {
        Some(i) => " (got: `"@ + i + "`)"@,
        None => Seq::empty(),
    }) + " ["@ + kind_code(e.kind) + "]"@ + (if e.severity != Severity::Error {
        " <"@ + severity_code(e.severity) + ">"@
    } else {
        Seq::empty()
    })
}

impl ValidationError {
    /// Shorthand for the code of the kind.
    pub fn code(&self) -> (r: &str)
        ensures
            r@ == kind_code(self.kind@),
    {
        self.kind.code()
    }

    /// Whether this error requires an immediate halt.
    pub fn is_fatal(&self) -> (r: bool)
        ensures
            r == (self.severity == Severity::Fatal),
    {
        self.severity == Severity::Fatal
    }

    /// The minimum edit that would repair this error, derived from its kind.
    pub fn repair_hint(&self) -> (r: String)
        ensures
            r@ == hint_text(self.kind@, self.msg@),
    {
        let mut out = String::new();
        match &self.kind {
            ErrorKind::Empty => {
                push_str(&mut out, "provide a non-empty value");
            },
            ErrorKind::Missing => {
                push_str(&mut out, "add this required field");
            },
            ErrorKind::OutOfRange { lower, upper } => {
                match (lower, upper) {
                    (Some(lo), Some(hi)) => {
                        push_str(&mut out, "use a value in the range ");
                        push_str(&mut out, lo.as_str());
                        push_str(&mut out, "..=");
                        push_str(&mut out, hi.as_str());
                    },
                    (Some(lo), None) => {
                        push_str(&mut out, "use a value ≥ ");
                        push_str(&mut out, lo.as_str());
                    },
                    (None, Some(hi)) => {
                        push_str(&mut out, "use a value ≤ ");
                        push_str(&mut out, hi.as_str());
                    },
                    (None, None) => {
                        push_str(&mut out, "use a value within the required range");
                    },
                }
            },
            ErrorKind::NotOneOf { allowed } => {
                push_str(&mut out, "choose one of: ");
                let j = join_strings(allowed, ", ");
                push_str(&mut out, j.as_str());
            },
            ErrorKind::TooShort { min, .. } => {
                push_str(&mut out, "provide at least ");
                push_dec(&mut out, *min as u64);
                push_str(&mut out, " items/characters");
            },
            ErrorKind::TooLong { max, .. } => {
                push_str(&mut out, "use at most ");
                push_dec(&mut out, *max as u64);
                push_str(&mut out, " items/characters");
            },
            ErrorKind::Inconsistent { related, .. } => {
                push_str(&mut out, "ensure this field is consistent with: ");
                let j = join_strings(related, ", ");
                push_str(&mut out, j.as_str());
            },
            ErrorKind::Predicate { .. } => {
                push_str(&mut out, self.msg.as_str());
            },
        }
        assert(out@ =~= hint_text(self.kind@, self.msg@));
        out
    }

    /// The rendered error (see [`error_text`]).
    pub fn to_string(&self) -> (r: String)
        ensures
            r@ == error_text(self@),
    {
        let mut out = self.loc.to_string();
        push_str(&mut out, "\n  ");
        push_str(&mut out, self.msg.as_str());
        match &self.input {
            Some(i) => {
                push_str(&mut out, " (got: `");
                push_str(&mut out, i.as_str());
                push_str(&mut out, "`)");
            },
            None => {},
        }
        push_str(&mut out, " [");
        push_str(&mut out, self.code());
        push_str(&mut out, "]");
        if self.severity != Severity::Error {
            push_str(&mut out, " <");
            push_str(&mut out, self.severity.code());
            push_str(&mut out, ">");
        }
        assert(out@ =~= error_text(self@));
        out
    }
}


// ---------------------------------------------------------------------------
// Copies with known contents
// ---------------------------------------------------------------------------

/// A copy of `s` with the same view.
pub fn copy_string(s: &String) -> (r: String)
    ensures
        r@ == s@,
{
    s.clone()
}

/// A copy of a location's segments.
pub fn copy_segments(v: &Vec<LocSegment>) -> (r: Vec<LocSegment>)
    ensures
        seg_views(r@) == seg_views(v@),
{
    let mut out: Vec<LocSegment> = Vec::new();
    let mut i: usize = 0;
    while i < v.len()
        invariant
            i <= v.len(),
            out@.len() == i,
            forall|k: int| 0 <= k < i ==> (#[trigger] out@[k])@ == v@[k]@,
        decreases v.len() - i,
    {
        let seg = match &v[i] {
            LocSegment::Key(k) => LocSegment::Key(copy_string(k)),
            LocSegment::Index(n) => LocSegment::Index(*n),
        };
        out.push(seg);
        i = i + 1;
    }
    assert(seg_views(out@) =~= seg_views(v@));
    out
}

/// A copy of a vector of strings.
pub fn copy_strings(v: &Vec<String>) -> (r: Vec<String>)
    ensures
        views(r@) == views(v@),
{
    let mut out: Vec<String> = Vec::new();
    let mut i: usize = 0;
    while i < v.len()
        invariant
            i <= v.len(),
            out@.len() == i,
            forall|k: int| 0 <= k < i ==> (#[trigger] out@[k])@ == v@[k]@,
        decreases v.len() - i,
    {
        out.push(copy_string(&v[i]));
        i = i + 1;
    }
    assert(views(out@) =~= views(v@));
    out
}

/// Owned copies of borrowed texts.
pub fn own_strs(v: &[&str]) -> (r: Vec<String>)
    ensures
        views(r@) == str_views(v@),
{
    let mut out: Vec<String> = Vec::new();
    let mut i: usize = 0;
    while i < v.len()
        invariant
            i <= v.len(),
            out@.len() == i,
            forall|k: int| 0 <= k < i ==> (#[trigger] out@[k])@ == v@[k]@,
        decreases v.len() - i,
    {
        out.push(owned(v[i]));
        i = i + 1;
    }
    assert(views(out@) =~= str_views(v@));
    out
}

/// The views of a sequence of borrowed texts.
pub open spec fn str_views(v: Seq<&str>) -> Seq<Seq<char>> {
    Seq::new(v.len(), |i: int| v[i]@)
}

/// A copy of an error kind.
pub fn copy_kind(k: &ErrorKind) -> (r: ErrorKind)
    ensures
        r@ == k@,
{
    match k {
        ErrorKind::Missing => ErrorKind::Missing,
        ErrorKind::Empty => ErrorKind::Empty,
        ErrorKind::OutOfRange { lower, upper } => {
            let lower = match lower {
                Some(x) => Some(copy_string(x)),
                None => None,
            };
            let upper = match upper {
                Some(x) => Some(copy_string(x)),
                None => None,
            };
            ErrorKind::OutOfRange { lower, upper }
        },
        ErrorKind::TooShort { min, actual } => ErrorKind::TooShort { min: *min, actual: *actual },
        ErrorKind::TooLong { max, actual } => ErrorKind::TooLong { max: *max, actual: *actual },
        ErrorKind::NotOneOf { allowed } => ErrorKind::NotOneOf { allowed: copy_strings(allowed) },
        ErrorKind::Inconsistent { related, code } => ErrorKind::Inconsistent {
            related: copy_strings(related),
            code: *code,
        },
        ErrorKind::Predicate { code } => ErrorKind::Predicate { code: *code },
    }
}

/// A copy of one error.
pub fn copy_error(e: &ValidationError) -> (r: ValidationError)
    ensures
        r@ == e@,
{
    let input = match &e.input {
        Some(x) => Some(copy_string(x)),
        None => None,
    };
    ValidationError {
        loc: Loc(copy_segments(&e.loc.0)),
        kind: copy_kind(&e.kind),
        severity: e.severity,
        input,
        msg: copy_string(&e.msg),
    }
}

// ---------------------------------------------------------------------------
// The report
// ---------------------------------------------------------------------------

/// The models of a sequence of errors.
pub open spec fn error_views(s: Seq<ValidationError>) -> Seq<ErrorView> {
    Seq::new(s.len(), |i: int| s[i]@)
}

/// The models of a sequence of borrowed errors.
pub open spec fn ref_views(s: Seq<&ValidationError>) -> Seq<ErrorView> {
    Seq::new(s.len(), |i: int| s[i]@)
}

/// A non-empty collection of failures with the number of checks that ran.
#[derive(Debug, Clone, PartialEq, Eq)]
pub struct ValidationErrors {
    pub(crate) errors: Vec<ValidationError>,
    pub(crate) title: Option<String>,
    pub(crate) checks_run: usize,
}

/// The model of a report.
pub struct ReportView {
    pub errors: Seq<ErrorView>,
    pub title: Option<Seq<char>>,
    pub checks_run: nat,
}

impl View for ValidationErrors {
    type V = ReportView;

    closed spec fn view(&self) -> ReportView {
        ReportView {
            errors: error_views(self.errors@),
            title: opt_view(self.title),
            checks_run: self.checks_run as nat,
        }
    }
}

/// The number of errors of severity `Error` or above.
pub open spec fn failed_count(s: Seq<ErrorView>) -> nat
    decreases s.len(),
{
    if s.len() == 0 {
        0
    } else {
        failed_count(s.drop_last()) + if rank(s.last().severity) >= 2 {
            1nat
        } else {
            0nat
        }
    }
}

/// The errors of severity at least `min`, in order.
pub open spec fn at_least(s: Seq<ErrorView>, min: Severity) -> Seq<ErrorView>
    decreases s.len(),
{
    if s.len() == 0 {
        s
    } else if rank(s.last().severity) >= rank(min) {
        at_least(s.drop_last(), min).push(s.last())
    } else {
        at_least(s.drop_last(), min)
    }
}

/// Conformance fitness as the ratio `(passed, run)`: `(1, 1)` when no check
/// ran, otherwise the checks not failed at severity `Error` or above (never
/// below zero) over the checks run.
pub open spec fn fitness_of(checks_run: nat, errors: Seq<ErrorView>) -> (nat, nat) {
    if checks_run == 0 {
        (1, 1)
    } else {
        let f = failed_count(errors);
        (if checks_run >= f {
            (checks_run - f) as nat
        } else {
            0
        }, checks_run)
    }
}

/// The `loc:code` text of an error.
pub open spec fn pair_text(e: ErrorView) -> Seq<char> {
    loc_text(e.loc) + seq![':'] + kind_code(e.kind)
}

/// The `loc:code` texts of a sequence of errors.
pub open spec fn pair_texts(s: Seq<ErrorView>) -> Seq<Seq<char>> {
    Seq::new(s.len(), |i: int| pair_text(s[i]))
}

/// The variant fingerprint: FNV-1a of the UTF-8 bytes of the sorted `loc:code`
/// texts joined with `|`.
pub open spec fn variant_of(s: Seq<ErrorView>) -> u64 {
    fnv1a_spec(utf8(join(pair_texts(s).sort_by(lex_order()), seq!['|'])))
}

/// The section of an error: its first segment when that is a key, else `(root)`.
pub open spec fn section_of(e: ErrorView) -> Seq<char> {
    if e.loc.len() > 0 && e.loc[0] is Key {
        e.loc[0]->Key_0
    } else {
        root_text()
    }
}

/// The errors of section `key`, in order.
pub open spec fn in_section(s: Seq<ErrorView>, key: Seq<char>) -> Seq<ErrorView>
    decreases s.len(),
{
    if s.len() == 0 {
        s
    } else if section_of(s.last()) == key {
        in_section(s.drop_last(), key).push(s.last())
    } else {
        in_section(s.drop_last(), key)
    }
}

/// An absent section has no errors.
pub proof fn lemma_in_section_absent(s: Seq<ErrorView>, key: Seq<char>)
    requires
        forall|t: int| 0 <= t < s.len() ==> section_of(s[t]) != key,
    ensures
        in_section(s, key).len() == 0,
    decreases s.len(),
{
    if s.len() > 0 {
        lemma_in_section_absent(s.drop_last(), key);
    }
}

/// The texts of a sequence of errors.
pub open spec fn error_texts(s: Seq<ErrorView>) -> Seq<Seq<char>> {
    Seq::new(s.len(), |i: int| error_text(s[i]))
}

/// The rendered report: a header line `N validation error(s)[ for TITLE]`,
/// then the rendered errors separated by newlines.
pub open spec fn report_text(r: ReportView) -> Seq<char> {
    let n = r.errors.len();
    dec_text(n) + " validation "@ + (if n == 1 {
        "error"@
    } else {
        "errors"@
    }) + (match r.title {
        Some(t) => " for "@ + t,
        None => Seq::empty(),
    }) + seq!['\n'] + join(error_texts(r.errors), seq!['\n'])
}

/// The text after the last `::` of `s` (all of `s` when it has none).
pub open spec fn after_last_path_sep(s: Seq<char>) -> Seq<char>
    decreases s.len(),
{
    if s.len() < 2 {
        s
    } else if s[s.len() - 2] == ':' && s[s.len() - 1] == ':' {
        Seq::empty()
    } else {
        after_last_path_sep(s.drop_last()).push(s.last())
    }
}

/// The text after the last `::` of `s`.
fn short_name(s: &str) -> (r: String)
    ensures
        r@ == after_last_path_sep(s@),
{
    let cs = crate::text::chars_of(s);
    let n = cs.len();
    let mut start: usize = n;
    // find the start of the text after the last `::`
    let mut i: usize = n;
    assert(cs@.take(n as int) =~= cs@);
    assert(cs@.subrange(n as int, n as int) =~= Seq::<char>::empty());
    assert(after_last_path_sep(s@) =~= after_last_path_sep(cs@.take(i as int)) + cs@.subrange(i as int, n as int));
    while i >= 2 && !(cs[i - 2] == ':' && cs[i - 1] == ':')
        invariant
            i <= n,
            n == cs@.len(),
            cs@ == s@,
            after_last_path_sep(s@) == after_last_path_sep(cs@.take(i as int)) + cs@.subrange(i as int, n as int),
        decreases i,
    {
        proof {
            let t = cs@.take(i as int);
            assert(t.drop_last() =~= cs@.take(i as int - 1));
            assert(cs@.subrange(i as int - 1, n as int) =~= seq![cs@[i as int - 1]] + cs@.subrange(i as int, n as int));
        }
        i = i - 1;
    }
    if i >= 2 {
        start = i;
    } else {
        start = 0;
        assert(after_last_path_sep(cs@.take(i as int)) == cs@.take(i as int));
    }
    let mut out = String::new();
    let mut k = start;
    while k < n
        invariant
            start <= k <= n,
            n == cs@.len(),
            out@ == cs@.subrange(start as int, k as int),
        decreases n - k,
    {
        push_char(&mut out, cs[k]);
        assert(out@ =~= cs@.subrange(start as int, k as int + 1));
        k = k + 1;
    }
    proof {
        if i >= 2 {
            assert(after_last_path_sep(cs@.take(i as int)) =~= Seq::<char>::empty());
        }
        assert(cs@.take(0) =~= Seq::<char>::empty());
        assert(cs@.subrange(0, n as int) =~= cs@);
    }
    assert(out@ =~= after_last_path_sep(s@));
    out
}

impl ValidationErrors {
    /// A report of `errors` from `checks_run` checks, with no title.
    pub(crate) fn from_parts(errors: Vec<ValidationError>, checks_run: usize) -> (r: ValidationErrors)
        ensures
            r@ == (ReportView { errors: error_views(errors@), title: None, checks_run: checks_run as nat }),
    {
        ValidationErrors { errors, title: None, checks_run }
    }

    /// The individual errors, in the order they were found.
    pub fn errors(&self) -> (r: &[ValidationError])
        ensures
            error_views(r@) == self@.errors,
    {
        self.errors.as_slice()
    }

    /// The number of errors.
    pub fn len(&self) -> (r: usize)
        ensures
            r == self@.errors.len(),
    {
        self.errors.len()
    }

    /// Whether there are no errors (a report always has at least one).
    pub fn is_empty(&self) -> (r: bool)
        ensures
            r == (self@.errors.len() == 0),
    {
        self.errors.len() == 0
    }

    /// The number of checks that ran.
    pub fn checks_run(&self) -> (r: usize)
        ensures
            r == self@.checks_run,
    {
        self.checks_run
    }

    /// The name of what the report is about, if set.
    pub fn title(&self) -> (r: Option<&str>)
        ensures
            match r {
                Some(t) => self@.title == Some(t@),
                None => self@.title is None,
            },
    {
        match &self.title {
            Some(t) => Some(t.as_str()),
            None => None,
        }
    }

    /// Set the title to `title`.
    pub fn set_title(&mut self, title: &str)
        ensures
            final(self)@ == (ReportView { title: Some(title@), ..old(self)@ }),
    {
        self.title = Some(owned(title));
    }

    /// Set the title to the short name of the type whose path is `type_path`
    /// (the text after its last `::`).
    pub fn set_title_for_path(&mut self, type_path: &str)
        ensures
            final(self)@ == (ReportView { title: Some(after_last_path_sep(type_path@)), ..old(self)@ }),
    {
        let short = short_name(type_path);
        self.title = Some(short);
    }

    /// Whether any error is `Fatal`.
    pub fn has_fatal(&self) -> (r: bool)
        ensures
            r == exists|i: int| 0 <= i < self@.errors.len() && #[trigger] self@.errors[i].severity == Severity::Fatal,
    {
        let mut i: usize = 0;
        while i < self.errors.len()
            invariant
                i <= self.errors@.len(),
                self@.errors == error_views(self.errors@),
                forall|j: int| 0 <= j < i ==> self@.errors[j].severity != Severity::Fatal,
            decreases self.errors@.len() - i,
        {
            if self.errors[i].is_fatal() {
                assert(self@.errors[i as int].severity == Severity::Fatal);
                return true;
            }
            i = i + 1;
        }
        false
    }

    /// The errors at or above severity `min`, in order.
    pub fn errors_above(&self, min: Severity) -> (r: Vec<&ValidationError>)
        ensures
            ref_views(r@) == at_least(self@.errors, min),
    {
        let mut out: Vec<&ValidationError> = Vec::new();
        let mut i: usize = 0;
        while i < self.errors.len()
            invariant
                i <= self.errors@.len(),
                self@.errors == error_views(self.errors@),
                ref_views(out@) == at_least(self@.errors.take(i as int), min),
            decreases self.errors@.len() - i,
        {
            let e = &self.errors[i];
            proof {
                assert(self@.errors.take(i as int + 1).drop_last() =~= self@.errors.take(i as int));
            }
            if e.severity.at_least(min) {
                out.push(e);
            }
            assert(ref_views(out@) =~= at_least(self@.errors.take(i as int + 1), min));
            i = i + 1;
        }
        assert(self@.errors.take(self.errors@.len() as int) =~= self@.errors);
        out
    }

    /// The variant fingerprint of the failure pattern (see [`variant_of`]):
    /// equal for reports with the same `loc:code` pairs, whatever their order.
    pub fn variant_id(&self) -> (r: u64)
        ensures
            r == variant_of(self@.errors),
    {
        let ghost es = self@.errors;
        let mut pairs: Vec<Vec<char>> = Vec::new();
        let mut i: usize = 0;
        while i < self.errors.len()
            invariant
                i <= self.errors@.len(),
                es == error_views(self.errors@),
                pairs@.len() == i,
                forall|k: int| 0 <= k < i ==> (#[trigger] pairs@[k])@ == pair_text(es[k]),
            decreases self.errors@.len() - i,
        {
            let e = &self.errors[i];
            let lt = e.loc.to_string();
            let mut cs = crate::text::chars_of(lt.as_str());
            cs.push(':');
            let code = crate::text::chars_of(e.code());
            let mut k: usize = 0;
            let ghost base = cs@;
            while k < code.len()
                invariant
                    k <= code@.len(),
                    cs@ == base + code@.take(k as int),
                decreases code@.len() - k,
            {
                cs.push(code[k]);
                assert(cs@ =~= base + code@.take(k as int + 1));
                k = k + 1;
            }
            assert(code@.take(code@.len() as int) =~= code@);
            assert(cs@ =~= pair_text(es[i as int]));
            pairs.push(cs);
            i = i + 1;
        }
        assert(cviews(pairs@) =~= pair_texts(es));
        let sorted = sort_texts(pairs);
        proof {
            lemma_lex_total_ordering();
            pair_texts(es).lemma_sort_by_ensures(lex_order());
            lemma_sorted_unique(cviews(sorted@), pair_texts(es).sort_by(lex_order()));
        }
        let joined = crate::order::join_chars(&sorted, '|');
        let bytes = crate::digest::utf8_of_chars(joined.as_slice());
        fnv1a(bytes.as_slice())
    }

    /// The errors grouped by section (the first key of their location, or
    /// `(root)`), sections in increasing order, errors in their original order.
    pub fn by_section(&self) -> (r: Vec<(String, Vec<&ValidationError>)>)
        ensures
            forall|a: int, b: int| 0 <= a < b < r@.len() ==> lex_le(r@[a].0@, r@[b].0@) && r@[a].0@ != r@[b].0@,
            forall|j: int| 0 <= j < r@.len() ==> ref_views((#[trigger] r@[j]).1@) == in_section(self@.errors, r@[j].0@),
            forall|j: int| 0 <= j < r@.len() ==> in_section(self@.errors, (#[trigger] r@[j]).0@).len() > 0,
            forall|t: int| 0 <= t < self@.errors.len() ==> exists|j: int| 0 <= j < r@.len() && (#[trigger] r@[j]).0@ == section_of(#[trigger] self@.errors[t]),
    {
        let ghost es = self@.errors;
        let mut groups: Vec<(String, Vec<&ValidationError>)> = Vec::new();
        let mut keys: Vec<Vec<char>> = Vec::new();
        let mut i: usize = 0;
        while i < self.errors.len()
            invariant
                i <= self.errors@.len(),
                es == error_views(self.errors@),
                keys@.len() == groups@.len(),
                forall|j: int| 0 <= j < keys@.len() ==> (#[trigger] keys@[j])@ == groups@[j].0@,
                forall|a: int, b: int| 0 <= a < b < keys@.len() ==> lex_le(keys@[a]@, keys@[b]@) && keys@[a]@ != keys@[b]@,
                forall|j: int| 0 <= j < groups@.len() ==> ref_views((#[trigger] groups@[j]).1@) == in_section(es.take(i as int), groups@[j].0@),
                forall|j: int| 0 <= j < groups@.len() ==> in_section(es.take(i as int), (#[trigger] groups@[j]).0@).len() > 0,
                forall|t: int| 0 <= t < i ==> exists|j: int| 0 <= j < groups@.len() && (#[trigger] groups@[j]).0@ == section_of(#[trigger] es[t]),
            decreases self.errors@.len() - i,
        {
            let e = &self.errors[i];
            let ghost ev = es[i as int];
            let ghost pre = es.take(i as int);
            let ghost post = es.take(i as int + 1);
            assert(post.drop_last() =~= pre);
            assert(post.last() == ev);
            let key: String = match e.loc.0.first() {
                Some(LocSegment::Key(k)) => copy_string(k),
                _ => {
                    let r = owned("(root)");
                    proof {
                        reveal_strlit("(root)");
                    }
                    assert(r@ =~= root_text());
                    r
                },
            };
            assert(key@ == section_of(ev));
            let kc = crate::text::chars_of(key.as_str());
            let mut p: usize = 0;
            while p < keys.len() && crate::order::lex_le_chars(keys[p].as_slice(), kc.as_slice()) && !crate::lexical::chars_eq(keys[p].as_slice(), kc.as_slice())
                invariant
                    p <= keys@.len(),
                    forall|q: int| 0 <= q < p ==> lex_le((#[trigger] keys@[q])@, kc@) && keys@[q]@ != kc@,
                decreases keys@.len() - p,
            {
                p = p + 1;
            }
            let ghost old_groups = groups@;
            let ghost old_keys = keys@;
            if p < keys.len() && crate::lexical::chars_eq(keys[p].as_slice(), kc.as_slice()) {
                let mut g = groups.remove(p);
                g.1.push(e);
                groups.insert(p, g);
                proof {
                    assert forall|j: int| 0 <= j < groups@.len() implies ref_views((#[trigger] groups@[j]).1@) == in_section(post, groups@[j].0@) by {
                        if j == p {
                            assert(ref_views(groups@[j].1@) =~= ref_views(old_groups[j].1@).push(ev));
                        } else {
                            assert(groups@[j] == old_groups[j]);
                            assert(old_keys[j]@ != old_keys[p as int]@);
                        }
                    }
                    assert forall|j: int| 0 <= j < groups@.len() implies in_section(post, (#[trigger] groups@[j]).0@).len() > 0 by {
                        if j != p {
                            assert(groups@[j] == old_groups[j]);
                        }
                    }
                    assert forall|t: int| 0 <= t < i + 1 implies exists|j: int| 0 <= j < groups@.len() && (#[trigger] groups@[j]).0@ == section_of(#[trigger] es[t]) by {
                        if t == i {
                            assert(groups@[p as int].0@ == section_of(es[t]));
                        } else {
                            let j0 = choose|j: int| 0 <= j < old_groups.len() && (#[trigger] old_groups[j]).0@ == section_of(es[t]);
                            assert(groups@[j0].0@ == section_of(es[t]));
                        }
                    }
                }
            } else {
                proof {
                    let ck = cviews(old_keys);
                    assert(crate::order::strictly_sorted(ck)) by {
                        assert forall|a: int, b: int| 0 <= a < b < ck.len() implies lex_le(ck[a], ck[b]) && ck[a] != ck[b] by {
                            assert(ck[a] == old_keys[a]@ && ck[b] == old_keys[b]@);
                        }
                    }
                    assert forall|q: int| 0 <= q < p implies lex_le(#[trigger] ck[q], kc@) && ck[q] != kc@ by {
                        assert(ck[q] == old_keys[q]@);
                    }
                    if p < old_keys.len() {
                        assert(ck[p as int] == old_keys[p as int]@);
                    }
                    crate::order::lemma_insert_strictly_sorted(ck, p as int, kc@);
                    assert forall|t: int| 0 <= t < pre.len() implies section_of(pre[t]) != kc@ by {
                        let j0 = choose|j: int| 0 <= j < old_groups.len() && (#[trigger] old_groups[j]).0@ == section_of(es[t]);
                        assert(cviews(old_keys)[j0] == old_keys[j0]@);
                    }
                    lemma_in_section_absent(pre, kc@);
                }
                let mut v: Vec<&ValidationError> = Vec::new();
                v.push(e);
                groups.insert(p, (key, v));
                keys.insert(p, kc);
                proof {
                    assert(cviews(keys@) =~= cviews(old_keys).insert(p as int, kc@));
                    assert forall|j: int| 0 <= j < keys@.len() implies (#[trigger] keys@[j])@ == groups@[j].0@ by {
                        if j < p {
                            assert(keys@[j] == old_keys[j] && groups@[j] == old_groups[j]);
                        } else if j > p {
                            assert(keys@[j] == old_keys[j - 1] && groups@[j] == old_groups[j - 1]);
                        }
                    }
                    assert(crate::order::strictly_sorted(cviews(keys@)));
                    assert forall|a: int, b: int| 0 <= a < b < keys@.len() implies lex_le(keys@[a]@, keys@[b]@) && keys@[a]@ != keys@[b]@ by {
                        assert(cviews(keys@)[a] == keys@[a]@ && cviews(keys@)[b] == keys@[b]@);
                        assert(lex_le(cviews(keys@)[a], cviews(keys@)[b]));
                    }
                    assert forall|j: int| 0 <= j < groups@.len() implies ref_views((#[trigger] groups@[j]).1@) == in_section(post, groups@[j].0@) by {
                        if j == p {
                            assert(ref_views(groups@[j].1@) =~= seq![ev]);
                            assert(in_section(pre, kc@).len() == 0);
                            assert(in_section(post, kc@) =~= seq![ev]);
                        } else if j < p {
                            assert(groups@[j] == old_groups[j]);
                            assert(cviews(old_keys)[j] != kc@);
                        } else {
                            assert(groups@[j] == old_groups[j - 1]);
                            assert(cviews(old_keys)[j - 1] != kc@);
                        }
                    }
                    assert forall|j: int| 0 <= j < groups@.len() implies in_section(post, (#[trigger] groups@[j]).0@).len() > 0 by {
                        if j < p {
                            assert(groups@[j] == old_groups[j]);
                        } else if j > p {
                            assert(groups@[j] == old_groups[j - 1]);
                        }
                    }
                    assert forall|t: int| 0 <= t < i + 1 implies exists|j: int| 0 <= j < groups@.len() && (#[trigger] groups@[j]).0@ == section_of(#[trigger] es[t]) by {
                        if t == i {
                            assert(groups@[p as int].0@ == section_of(es[t]));
                        } else {
                            let j0 = choose|j: int| 0 <= j < old_groups.len() && (#[trigger] old_groups[j]).0@ == section_of(es[t]);
                            if j0 < p {
                                assert(groups@[j0] == old_groups[j0]);
                            } else {
                                assert(groups@[j0 + 1] == old_groups[j0]);
                            }
                        }
                    }
                }
            }
            i = i + 1;
        }
        assert(es.take(self.errors@.len() as int) =~= es);
        assert forall|a: int, b: int| 0 <= a < b < groups@.len() implies lex_le(groups@[a].0@, groups@[b].0@) && groups@[a].0@ != groups@[b].0@ by {
            assert(keys@[a]@ == groups@[a].0@ && keys@[b]@ == groups@[b].0@);
        }
        groups
    }

    /// The rendered report (see [`report_text`]).
    pub fn to_string(&self) -> (r: String)
        ensures
            r@ == report_text(self@),
    {
        let n = self.errors.len();
        let mut out = String::new();
        push_dec(&mut out, n as u64);
        push_str(&mut out, " validation ");
        if n == 1 {
            push_str(&mut out, "error");
        } else {
            push_str(&mut out, "errors");
        }
        match &self.title {
            Some(t) => {
                push_str(&mut out, " for ");
                push_str(&mut out, t.as_str());
            },
            None => {},
        }
        push_char(&mut out, '\n');
        let ghost head = out@;
        let ghost es = self@.errors;
        let mut i: usize = 0;
        while i < n
            invariant
                n == self.errors@.len(),
                i <= n,
                es == error_views(self.errors@),
                out@ == head + join(error_texts(es).take(i as int), seq!['\n']),
            decreases n - i,
        {
            if i > 0 {
                push_char(&mut out, '\n');
            }
            let t = self.errors[i].to_string();
            push_str(&mut out, t.as_str());
            proof {
                let p = error_texts(es).take(i as int + 1);
                assert(p.drop_last() =~= error_texts(es).take(i as int));
                assert(p.last() == error_text(es[i as int]));
                assert(out@ =~= head + join(p, seq!['\n']));
            }
            i = i + 1;
        }
        assert(error_texts(es).take(n as int) =~= error_texts(es));
        assert(out@ =~= report_text(self@));
        out
    }

    /// The number of errors of severity `Error` or above.
    pub fn failed(&self) -> (r: usize)
        ensures
            r as nat == failed_count(self@.errors),
    {
        let mut failed: usize = 0;
        let mut i: usize = 0;
        while i < self.errors.len()
            invariant
                i <= self.errors@.len(),
                self@.errors == error_views(self.errors@),
                failed == failed_count(self@.errors.take(i as int)),
                failed <= i,
            decreases self.errors@.len() - i,
        {
            proof {
                assert(self@.errors.take(i as int + 1).drop_last() =~= self@.errors.take(i as int));
            }
            if self.errors[i].severity.at_least(Severity::Error) {
                failed = failed + 1;
            }
            i = i + 1;
        }
        assert(self@.errors.take(self.errors@.len() as int) =~= self@.errors);
        failed
    }

    /// Conformance fitness as the ratio `(passed, run)` (see [`fitness_of`]).
    pub fn fitness(&self) -> (r: (usize, usize))
        ensures
            (r.0 as nat, r.1 as nat) == fitness_of(self@.checks_run, self@.errors),
    {
        if self.checks_run == 0 {
            return (1, 1);
        }
        let failed = self.failed();
        let passed = self.checks_run.saturating_sub(failed);
        (passed, self.checks_run)
    }
}


// ---------------------------------------------------------------------------
// Rules on text
// ---------------------------------------------------------------------------

/// One component of a semantic version: digits, no leading zero unless it is
/// `0`, and a value that fits in `u32`.
pub open spec fn semver_part_ok(p: Seq<char>) -> bool {
    &&& p.len() > 0
    &&& all_digits(p)
    &&& !(p.len() > 1 && p[0] == '0')
    &&& digits_value(p) <= u32::MAX
}

/// `MAJOR.MINOR.PATCH`, each a valid component.
pub open spec fn semver_ok(s: Seq<char>) -> bool {
    let parts = split_on(s, '.');
    parts.len() == 3 && forall|i: int| 0 <= i < 3 ==> semver_part_ok(#[trigger] parts[i])
}

/// One hostname label: 1 to 63 ASCII letters, digits or `-`, not starting or
/// ending with `-`.
pub open spec fn label_ok(l: Seq<char>) -> bool {
    &&& l.len() > 0
    &&& l.len() <= 63
    &&& l[0] != '-'
    &&& l[l.len() - 1] != '-'
    &&& forall|i: int| 0 <= i < l.len() ==> is_ascii_alnum(#[trigger] l[i]) || l[i] == '-'
}

/// `s` without one trailing `.`.
pub open spec fn strip_trailing_dot(s: Seq<char>) -> Seq<char> {
    if s.len() > 0 && s.last() == '.' {
        s.drop_last()
    } else {
        s
    }
}

/// A DNS hostname of at most 253 characters, with an optional trailing dot,
/// made of valid labels separated by `.`.
pub open spec fn hostname_ok(s: Seq<char>) -> bool {
    let n = strip_trailing_dot(s);
    &&& s.len() > 0
    &&& s.len() <= 253
    &&& n.len() > 0
    &&& forall|i: int| 0 <= i < split_on(n, '.').len() ==> label_ok(#[trigger] split_on(n, '.')[i])
}

/// `s` with every `\` replaced by `/`.
pub open spec fn slashes(s: Seq<char>) -> Seq<char> {
    Seq::new(s.len(), |i: int| if s[i] == '\\' { '/' } else { s[i] })
}

/// A piece between separators (`/` or `\`) is `..`.
pub open spec fn has_traversal(s: Seq<char>) -> bool {
    exists|i: int| 0 <= i < split_on(slashes(s), '/').len() && #[trigger] split_on(slashes(s), '/')[i] == seq!['.', '.']
}

/// The path is absolute (starts with `/`).
pub open spec fn is_absolute_path(s: Seq<char>) -> bool {
    s.len() > 0 && s[0] == '/'
}

/// The problems `check_path` reports for a non-empty path, in order.
pub open spec fn path_problems(s: Seq<char>, must_be_absolute: Option<bool>) -> Seq<Seq<char>> {
    let a = if has_char(s, '\0') {
        seq!["path must not contain null bytes"@]
    } else {
        Seq::empty()
    };
    let b = if has_traversal(s) {
        a.push("path traversal ('..') is not allowed"@)
    } else {
        a
    };
    match must_be_absolute {
        Some(true) => if !is_absolute_path(s) {
            b.push("path must be absolute"@)
        } else {
            b
        },
        Some(false) => if is_absolute_path(s) {
            b.push("path must be relative"@)
        } else {
            b
        },
        None => b,
    }
}

/// The unit suffixes of a size, in the order they are tried.
pub open spec fn size_suffixes() -> Seq<Seq<char>> {
    seq![seq!['B'], seq!['K', 'B'], seq!['M', 'B'], seq!['G', 'B'], seq!['T', 'B']]
}

/// `u` ends with `suffix` and what precedes it is a `u64` in decimal digits.
pub open spec fn size_with(u: Seq<char>, suffix: Seq<char>) -> bool {
    let p = u.subrange(0, u.len() - suffix.len());
    &&& u.len() >= suffix.len()
    &&& u.subrange(u.len() - suffix.len(), u.len() as int) == suffix
    &&& p.len() > 0
    &&& all_digits(p)
    &&& digits_value(p) <= u64::MAX
}

/// A size like `512MB`: digits, then one of `B`, `KB`, `MB`, `GB`, `TB`, case-insensitively.
pub open spec fn size_ok(s: Seq<char>) -> bool {
    exists|k: int| 0 <= k < 5 && size_with(upper_seq(s), #[trigger] size_suffixes()[k])
}

fn semver_part_exec(p: &[char]) -> (r: bool)
    ensures
        r == semver_part_ok(p@),
{
    if p.len() == 0 || !all_digits_in(p, 0, p.len()) {
        assert(p@.subrange(0, p@.len() as int) =~= p@);
        return false;
    }
    assert(p@.subrange(0, p@.len() as int) =~= p@);
    if p.len() > 1 && p[0] == '0' {
        return false;
    }
    match digits_value_capped(p, 0, p.len(), 4294967295u64) {
        Some(_) => true,
        None => false,
    }
}

/// Whether `s` is a semantic version `MAJOR.MINOR.PATCH`.
pub fn semver_valid(s: &str) -> (r: bool)
    ensures
        r == semver_ok(s@),
{
    let cs = crate::text::chars_of(s);
    let parts = split_chars(cs.as_slice(), '.');
    if parts.len() != 3 {
        return false;
    }
    let a = semver_part_exec(parts[0].as_slice());
    let b = semver_part_exec(parts[1].as_slice());
    let c = semver_part_exec(parts[2].as_slice());
    proof {
        let sp = split_on(s@, '.');
        assert(parts@[0]@ == sp[0] && parts@[1]@ == sp[1] && parts@[2]@ == sp[2]);
        if a && b && c {
            assert forall|i: int| 0 <= i < 3 implies semver_part_ok(#[trigger] sp[i]) by {
                if i == 1 {
                } else if i == 2 {
                }
            }
        }
    }
    a && b && c
}

fn label_exec(l: &[char]) -> (r: bool)
    ensures
        r == label_ok(l@),
{
    let n = l.len();
    if n == 0 || n > 63 || l[0] == '-' || l[n - 1] == '-' {
        return false;
    }
    let mut i: usize = 0;
    while i < n
        invariant
            n == l@.len(),
            i <= n,
            forall|j: int| 0 <= j < i ==> is_ascii_alnum(#[trigger] l@[j]) || l@[j] == '-',
        decreases n - i,
    {
        if !(alnum_char(l[i]) || l[i] == '-') {
            return false;
        }
        i = i + 1;
    }
    true
}

/// Whether `s` is a valid DNS hostname (see [`hostname_ok`]).
pub fn hostname_valid(s: &str) -> (r: bool)
    ensures
        r == hostname_ok(s@),
{
    let cs = crate::text::chars_of(s);
    let n = cs.len();
    if n == 0 || n > 253 {
        return false;
    }
    let m: usize = if cs[n - 1] == '.' { n - 1 } else { n };
    if m == 0 {
        assert(strip_trailing_dot(s@).len() == 0);
        return false;
    }
    let norm = vstd::slice::slice_subrange(cs.as_slice(), 0, m);
    assert(norm@ =~= strip_trailing_dot(s@));
    let labels = split_chars(norm, '.');
    let mut i: usize = 0;
    while i < labels.len()
        invariant
            i <= labels@.len(),
            labels@.len() == split_on(norm@, '.').len(),
            forall|k: int| 0 <= k < labels@.len() ==> (#[trigger] labels@[k])@ == split_on(norm@, '.')[k],
            forall|k: int| 0 <= k < i ==> label_ok(#[trigger] split_on(norm@, '.')[k]),
            norm@ == strip_trailing_dot(s@),
        decreases labels@.len() - i,
    {
        if !label_exec(labels[i].as_slice()) {
            assert(!label_ok(split_on(norm@, '.')[i as int]));
            return false;
        }
        i = i + 1;
    }
    true
}

/// Whether `s` contains a `..` piece between `/` or `\` separators.
pub fn traversal_in(s: &str) -> (r: bool)
    ensures
        r == has_traversal(s@),
{
    let cs = crate::text::chars_of(s);
    let mut norm: Vec<char> = Vec::new();
    let mut i: usize = 0;
    while i < cs.len()
        invariant
            i <= cs@.len(),
            norm@ == slashes(cs@).take(i as int),
        decreases cs@.len() - i,
    {
        if cs[i] == '\\' {
            norm.push('/');
        } else {
            norm.push(cs[i]);
        }
        assert(norm@ =~= slashes(cs@).take(i as int + 1));
        i = i + 1;
    }
    assert(norm@ =~= slashes(s@));
    let pieces = split_chars(norm.as_slice(), '/');
    let dots: Vec<char> = vec!['.', '.'];
    let mut k: usize = 0;
    while k < pieces.len()
        invariant
            k <= pieces@.len(),
            norm@ == slashes(s@),
            dots@ == seq!['.', '.'],
            pieces@.len() == split_on(norm@, '/').len(),
            forall|j: int| 0 <= j < pieces@.len() ==> (#[trigger] pieces@[j])@ == split_on(norm@, '/')[j],
            forall|j: int| 0 <= j < k ==> #[trigger] split_on(norm@, '/')[j] != seq!['.', '.'],
        decreases pieces@.len() - k,
    {
        if crate::lexical::chars_eq(pieces[k].as_slice(), dots.as_slice()) {
            assert(split_on(slashes(s@), '/')[k as int] == seq!['.', '.']);
            return true;
        }
        k = k + 1;
    }
    false
}

fn size_with_exec(u: &[char], suffix: &[char]) -> (r: bool)
    ensures
        r == size_with(u@, suffix@),
{
    if u.len() < suffix.len() {
        return false;
    }
    let cut = u.len() - suffix.len();
    let tail = vstd::slice::slice_subrange(u, cut, u.len());
    if !crate::lexical::chars_eq(tail, suffix) {
        return false;
    }
    if cut == 0 || !all_digits_in(u, 0, cut) {
        return false;
    }
    match digits_value_capped(u, 0, cut, u64::MAX) {
        Some(_) => true,
        None => false,
    }
}

/// Whether `s` is a size such as `512MB` (see [`size_ok`]).
pub fn size_valid(s: &str) -> (r: bool)
    ensures
        r == size_ok(s@),
{
    let cs = crate::text::chars_of(s);
    let mut up: Vec<char> = Vec::new();
    let mut i: usize = 0;
    while i < cs.len()
        invariant
            i <= cs@.len(),
            up@ == upper_seq(cs@).take(i as int),
        decreases cs@.len() - i,
    {
        up.push(upper_char(cs[i]));
        assert(up@ =~= upper_seq(cs@).take(i as int + 1));
        i = i + 1;
    }
    assert(up@ =~= upper_seq(s@));
    let b: Vec<char> = vec!['B'];
    let kb: Vec<char> = vec!['K', 'B'];
    let mb: Vec<char> = vec!['M', 'B'];
    let gb: Vec<char> = vec!['G', 'B'];
    let tb: Vec<char> = vec!['T', 'B'];
    let r0 = size_with_exec(up.as_slice(), b.as_slice());
    let r1 = size_with_exec(up.as_slice(), kb.as_slice());
    let r2 = size_with_exec(up.as_slice(), mb.as_slice());
    let r3 = size_with_exec(up.as_slice(), gb.as_slice());
    let r4 = size_with_exec(up.as_slice(), tb.as_slice());
    proof {
        let sf = size_suffixes();
        assert(sf[0] == b@ && sf[1] == kb@ && sf[2] == mb@ && sf[3] == gb@ && sf[4] == tb@);
        if r0 || r1 || r2 || r3 || r4 {
            if r0 { assert(size_with(upper_seq(s@), sf[0])); }
            else if r1 { assert(size_with(upper_seq(s@), sf[1])); }
            else if r2 { assert(size_with(upper_seq(s@), sf[2])); }
            else if r3 { assert(size_with(upper_seq(s@), sf[3])); }
            else { assert(size_with(upper_seq(s@), sf[4])); }
        } else {
            assert forall|k: int| 0 <= k < 5 implies !size_with(upper_seq(s@), #[trigger] sf[k]) by {
                if k == 0 {} else if k == 1 {} else if k == 2 {} else if k == 3 {} else {}
            }
        }
    }
    r0 || r1 || r2 || r3 || r4
}

/// Whether `s` contains the character `c`.
pub fn contains_char(s: &str, c: char) -> (r: bool)
    ensures
        r == has_char(s@, c),
{
    let cs = crate::text::chars_of(s);
    let mut i: usize = 0;
    while i < cs.len()
        invariant
            i <= cs@.len(),
            cs@ == s@,
            forall|j: int| 0 <= j < i ==> cs@[j] != c,
        decreases cs@.len() - i,
    {
        if cs[i] == c {
            assert(s@[i as int] == c);
            return true;
        }
        i = i + 1;
    }
    false
}


// ---------------------------------------------------------------------------
// The validator
// ---------------------------------------------------------------------------

/// Accumulates errors while tracking the current location, and counts every
/// check that runs.
#[derive(Debug)]
pub struct Validator {
    loc: Vec<LocSegment>,
    pub(crate) errors: Vec<ValidationError>,
    pub(crate) checks_run: usize,
    pending_severity: Severity,
    /// The witness of every path checked with [`Validator::check_path_safe`], in order.
    pub path_witnesses: Vec<PathWitness>,
}

/// The model of a validator: where it stands, what it recorded, how many
/// checks ran, and the severity it stamps on new errors.
pub struct ValidatorView {
    pub loc: Seq<SegView>,
    pub errors: Seq<ErrorView>,
    pub checks_run: nat,
    pub severity: Severity,
    pub path_witnesses: Seq<PathWitnessView>,
}

impl View for Validator {
    type V = ValidatorView;

    closed spec fn view(&self) -> ValidatorView {
        ValidatorView {
            loc: seg_views(self.loc@),
            errors: error_views(self.errors@),
            checks_run: self.checks_run as nat,
            severity: self.pending_severity,
            path_witnesses: Seq::new(self.path_witnesses@.len(), |i: int| self.path_witnesses@[i]@),
        }
    }
}

/// `v` after one more check ran.
pub open spec fn counted(v: ValidatorView) -> ValidatorView {
    ValidatorView { checks_run: v.checks_run + 1, ..v }
}

/// `v` after recording an error at its current location.
pub open spec fn recorded_here(
    v: ValidatorView,
    kind: KindView,
    input: Option<Seq<char>>,
    msg: Seq<char>,
) -> ValidatorView {
    ValidatorView {
        errors: v.errors.push(
            ErrorView { loc: v.loc, kind, severity: v.severity, input, msg },
        ),
        ..v
    }
}

/// `v` after recording an error at its sub-field `field`.
pub open spec fn recorded_at(
    v: ValidatorView,
    field: Seq<char>,
    kind: KindView,
    input: Option<Seq<char>>,
    msg: Seq<char>,
) -> ValidatorView {
    ValidatorView {
        errors: v.errors.push(
            ErrorView { loc: v.loc.push(SegView::Key(field)), kind, severity: v.severity, input, msg },
        ),
        ..v
    }
}

/// A check of `field`: one more check ran, and when it failed, an error was
/// recorded at `field`.
pub open spec fn checked(
    v: ValidatorView,
    ok: bool,
    field: Seq<char>,
    kind: KindView,
    input: Option<Seq<char>>,
    msg: Seq<char>,
) -> ValidatorView {
    if ok {
        counted(v)
    } else {
        recorded_at(counted(v), field, kind, input, msg)
    }
}

/// `v` after descending into `seg`.
pub open spec fn entered(v: ValidatorView, seg: SegView) -> ValidatorView {
    ValidatorView { loc: v.loc.push(seg), ..v }
}

/// `v` after stepping back out of its innermost segment.
pub open spec fn left(v: ValidatorView) -> ValidatorView {
    ValidatorView {
        loc: if v.loc.len() > 0 {
            v.loc.drop_last()
        } else {
            v.loc
        },
        ..v
    }
}

/// The views of borrowed texts, when they are all `&str`.
pub open spec fn texts(v: Seq<&str>) -> Seq<Seq<char>> {
    str_views(v)
}

impl Default for Validator {
    fn default() -> (r: Validator)
        ensures
            r@ == (ValidatorView {
                loc: Seq::empty(),
                errors: Seq::empty(),
                checks_run: 0,
                severity: Severity::Error,
                path_witnesses: Seq::empty(),
            }),
    {
        Validator::new()
    }
}

impl Validator {
    /// A fresh validator at the root, with no errors, no checks, severity `Error`.
    pub fn new() -> (r: Validator)
        ensures
            r@ == (ValidatorView {
                loc: Seq::empty(),
                errors: Seq::empty(),
                checks_run: 0,
                severity: Severity::Error,
                path_witnesses: Seq::empty(),
            }),
    {
        let r = Validator {
            loc: Vec::new(),
            errors: Vec::new(),
            checks_run: 0,
            pending_severity: Severity::Error,
            path_witnesses: Vec::new(),
        };
        assert(r@.loc =~= Seq::<SegView>::empty());
        assert(r@.path_witnesses =~= Seq::<PathWitnessView>::empty());
        assert(r@.errors =~= Seq::<ErrorView>::empty());
        r
    }

    /// The errors recorded so far.
    pub fn errors(&self) -> (r: &[ValidationError])
        ensures
            error_views(r@) == self@.errors,
    {
        self.errors.as_slice()
    }

    /// The number of checks run so far.
    pub fn checks_run(&self) -> (r: usize)
        ensures
            r == self@.checks_run,
    {
        self.checks_run
    }

    /// Descend into table key `name`, run `f`, then step back out: errors
    /// recorded inside `f` are located under `name`.
    pub fn field<F: FnOnce(&mut Validator)>(&mut self, name: &str, f: F)
        requires
            forall|v: &mut Validator|
                (*v)@ == entered(old(self)@, SegView::Key(name@)) ==> #[trigger] f.requires((v,)),
        ensures
            exists|v: &mut Validator|
                {
                    &&& (*v)@ == entered(old(self)@, SegView::Key(name@))
                    &&& #[trigger] f.ensures((v,), ())
                    &&& final(self)@ == left(final(v)@)
                },
    {
        self.loc.push(LocSegment::Key(owned(name)));
        assert(self@.loc =~= old(self)@.loc.push(SegView::Key(name@)));
        assert(self@ == entered(old(self)@, SegView::Key(name@)));
        f(self);
        let ghost mid = self@;
        let ghost mid_loc = self.loc@;
        self.loc.pop();
        proof {
            if mid_loc.len() > 0 {
                assert(self@.loc =~= mid.loc.drop_last());
            } else {
                assert(self@.loc =~= mid.loc);
            }
            assert(self@ == left(mid));
        }
    }

    /// Descend into array index `i`, run `f`, then step back out.
    pub fn index<F: FnOnce(&mut Validator)>(&mut self, i: usize, f: F)
        requires
            forall|v: &mut Validator|
                (*v)@ == entered(old(self)@, SegView::Index(i as nat)) ==> #[trigger] f.requires((v,)),
        ensures
            exists|v: &mut Validator|
                {
                    &&& (*v)@ == entered(old(self)@, SegView::Index(i as nat))
                    &&& #[trigger] f.ensures((v,), ())
                    &&& final(self)@ == left(final(v)@)
                },
    {
        self.loc.push(LocSegment::Index(i));
        assert(self@.loc =~= old(self)@.loc.push(SegView::Index(i as nat)));
        assert(self@ == entered(old(self)@, SegView::Index(i as nat)));
        f(self);
        let ghost mid = self@;
        let ghost mid_loc = self.loc@;
        self.loc.pop();
        proof {
            if mid_loc.len() > 0 {
                assert(self@.loc =~= mid.loc.drop_last());
            } else {
                assert(self@.loc =~= mid.loc);
            }
            assert(self@ == left(mid));
        }
    }

    /// Run `f` with `severity` stamped on every error recorded inside it,
    /// then restore the enclosing severity.
    pub fn with_severity<F: FnOnce(&mut Validator)>(&mut self, severity: Severity, f: F)
        requires
            forall|v: &mut Validator|
                (*v)@ == (ValidatorView { severity, ..old(self)@ }) ==> #[trigger] f.requires((v,)),
        ensures
            exists|v: &mut Validator|
                {
                    &&& (*v)@ == (ValidatorView { severity, ..old(self)@ })
                    &&& #[trigger] f.ensures((v,), ())
                    &&& final(self)@ == (ValidatorView { severity: old(self)@.severity, ..final(v)@ })
                },
    {
        let prev = self.pending_severity;
        self.pending_severity = severity;
        f(self);
        self.pending_severity = prev;
    }

    fn record(&mut self, kind: ErrorKind, input: Option<String>, msg: String)
        ensures
            final(self)@ == recorded_here(old(self)@, kind@, opt_view(input), msg@),
    {
        let loc = Loc(copy_segments(&self.loc));
        let e = ValidationError { loc, kind, severity: self.pending_severity, input, msg };
        self.errors.push(e);
        assert(final(self)@.errors =~= old(self)@.errors.push(e@));
    }

    fn record_at(&mut self, field: &str, kind: ErrorKind, input: Option<String>, msg: String)
        ensures
            final(self)@ == recorded_at(old(self)@, field@, kind@, opt_view(input), msg@),
    {
        self.loc.push(LocSegment::Key(owned(field)));
        assert(self@.loc =~= old(self)@.loc.push(SegView::Key(field@)));
        self.record(kind, input, msg);
        let ghost mid_loc = self.loc@;
        self.loc.pop();
        assert(self.loc@ =~= mid_loc.drop_last());
        assert(seg_views(self.loc@) =~= seg_views(mid_loc).drop_last());
        assert(self@.loc =~= old(self)@.loc);
    }

    /// Record an error of `kind` at the current location.
    pub fn error(&mut self, kind: ErrorKind, msg: &str)
        ensures
            final(self)@ == recorded_here(old(self)@, kind@, None, msg@),
    {
        self.record(kind, None, owned(msg));
    }

    /// Record an error of `kind` at the current location, with the offending value.
    pub fn error_with(&mut self, kind: ErrorKind, input: &str, msg: &str)
        ensures
            final(self)@ == recorded_here(old(self)@, kind@, Some(input@), msg@),
    {
        self.record(kind, Some(owned(input)), owned(msg));
    }

    /// Fail `field` with `empty` when `value` is empty.
    pub fn check_non_empty(&mut self, field: &str, value: &str)
        requires
            old(self)@.checks_run < usize::MAX,
        ensures
            final(self)@ == checked(old(self)@, value@.len() > 0, field@, KindView::Empty,
                Some("\"\""@), "must not be empty"@),
    {
        self.checks_run = self.checks_run + 1;
        if value.is_empty() {
            self.record_at(field, ErrorKind::Empty, Some(owned("\"\"")), owned("must not be empty"));
        }
    }

    /// Fail `field` with `out_of_range` when `value` is outside `lo..=hi`.
    pub fn check_range(&mut self, field: &str, value: i64, lo: i64, hi: i64)
        requires
            old(self)@.checks_run < usize::MAX,
        ensures
            final(self)@ == checked(
                old(self)@,
                lo <= value <= hi,
                field@,
                KindView::OutOfRange { lower: Some(int_text(lo as int)), upper: Some(int_text(hi as int)) },
                Some(int_text(value as int)),
                "input must be in range "@ + int_text(lo as int) + "..="@ + int_text(hi as int),
            ),
    {
        self.checks_run = self.checks_run + 1;
        if !(lo <= value && value <= hi) {
            let lo_t = i64_text(lo);
            let hi_t = i64_text(hi);
            let mut msg = owned("input must be in range ");
            push_str(&mut msg, lo_t.as_str());
            push_str(&mut msg, "..=");
            push_str(&mut msg, hi_t.as_str());
            let kind = ErrorKind::OutOfRange { lower: Some(lo_t), upper: Some(hi_t) };
            self.record_at(field, kind, Some(i64_text(value)), msg);
        }
    }

    /// Fail `field` with `not_one_of` when `value` is not among `allowed`.
    pub fn check_one_of(&mut self, field: &str, value: &str, allowed: &[&str])
        requires
            old(self)@.checks_run < usize::MAX,
        ensures
            final(self)@ == checked(
                old(self)@,
                texts(allowed@).contains(value@),
                field@,
                KindView::NotOneOf { allowed: texts(allowed@) },
                Some(value@),
                "must be one of: "@ + join(texts(allowed@), ", "@),
            ),
    {
        self.checks_run = self.checks_run + 1;
        let mut found = false;
        let mut i: usize = 0;
        while i < allowed.len()
            invariant
                i <= allowed@.len(),
                found == exists|j: int| 0 <= j < i && #[trigger] texts(allowed@)[j] == value@,
            decreases allowed@.len() - i,
        {
            if str_eq(allowed[i], value) {
                assert(texts(allowed@)[i as int] == value@);
                found = true;
            }
            i = i + 1;
        }
        if !found {
            assert(!texts(allowed@).contains(value@));
            let owned_allowed = own_strs(allowed);
            let joined = join_strings(&owned_allowed, ", ");
            let mut msg = owned("must be one of: ");
            push_str(&mut msg, joined.as_str());
            self.record_at(field, ErrorKind::NotOneOf { allowed: owned_allowed }, Some(owned(value)), msg);
        } else {
            proof {
                let j = choose|j: int| 0 <= j < allowed@.len() && #[trigger] texts(allowed@)[j] == value@;
                assert(texts(allowed@).contains(value@));
            }
        }
    }

    /// Fail `field` with the caller's `code` when `passed` is false.
    pub fn check_predicate(&mut self, field: &str, passed: bool, code: &'static str, msg: &str)
        requires
            old(self)@.checks_run < usize::MAX,
        ensures
            final(self)@ == checked(old(self)@, passed, field@, KindView::Predicate { code: code@ }, None, msg@),
    {
        self.checks_run = self.checks_run + 1;
        if !passed {
            self.record_at(field, ErrorKind::Predicate { code }, None, owned(msg));
        }
    }

    /// A cross-field constraint: when `condition` is false, fail
    /// `primary_field` with the caller's `code`, naming `related_fields`.
    pub fn check_consistent(
        &mut self,
        primary_field: &str,
        related_fields: &[&str],
        condition: bool,
        code: &'static str,
        msg: &str,
    )
        requires
            old(self)@.checks_run < usize::MAX,
        ensures
            final(self)@ == checked(
                old(self)@,
                condition,
                primary_field@,
                KindView::Inconsistent { related: texts(related_fields@), code: code@ },
                None,
                msg@,
            ),
    {
        self.checks_run = self.checks_run + 1;
        if !condition {
            let related = own_strs(related_fields);
            self.record_at(primary_field, ErrorKind::Inconsistent { related, code }, None, owned(msg));
        }
    }

    /// Fail `field` with `invalid_semver` unless `value` is `MAJOR.MINOR.PATCH`.
    pub fn check_semver(&mut self, field: &str, value: &str)
        requires
            old(self)@.checks_run < usize::MAX,
        ensures
            final(self)@ == checked(
                old(self)@,
                semver_ok(value@),
                field@,
                KindView::Predicate { code: "invalid_semver"@ },
                Some(value@),
                "Invalid version format: '"@ + value@ + "'. Expected semver format (e.g., 1.0.0)"@,
            ),
    {
        self.checks_run = self.checks_run + 1;
        if !semver_valid(value) {
            let mut msg = owned("Invalid version format: '");
            push_str(&mut msg, value);
            push_str(&mut msg, "'. Expected semver format (e.g., 1.0.0)");
            self.record_at(field, ErrorKind::Predicate { code: "invalid_semver" }, Some(owned(value)), msg);
        }
    }

    /// Fail `field` with `invalid_ip_or_domain` unless `value` is an IP
    /// address (`value_is_ip`, as the caller found by parsing it) or a DNS
    /// hostname.
    pub fn check_ip_or_domain(&mut self, field: &str, value: &str, value_is_ip: bool)
        requires
            old(self)@.checks_run < usize::MAX,
        ensures
            final(self)@ == checked(
                old(self)@,
                value_is_ip || hostname_ok(value@),
                field@,
                KindView::Predicate { code: "invalid_ip_or_domain"@ },
                Some(value@),
                "Invalid IP or domain hostname: '"@ + value@ + "'"@,
            ),
    {
        self.checks_run = self.checks_run + 1;
        if !value_is_ip && !hostname_valid(value) {
            let mut msg = owned("Invalid IP or domain hostname: '");
            push_str(&mut msg, value);
            push_str(&mut msg, "'");
            self.record_at(field, ErrorKind::Predicate { code: "invalid_ip_or_domain" }, Some(owned(value)), msg);
        }
    }

    /// Fail `field` unless `value` is a safe path: non-empty (`empty`), and
    /// otherwise free of null bytes and `..` pieces and, when asked, absolute
    /// or relative (`invalid_path`, listing every problem).
    pub fn check_path(&mut self, field: &str, value: &str, must_be_absolute: Option<bool>)
        requires
            old(self)@.checks_run < usize::MAX,
        ensures
            value@.len() == 0 ==> final(self)@ == recorded_at(counted(old(self)@), field@,
                KindView::Empty, Some("\"\""@), "path must not be empty"@),
            value@.len() > 0 ==> final(self)@ == checked(
                old(self)@,
                path_problems(value@, must_be_absolute).len() == 0,
                field@,
                KindView::Predicate { code: "invalid_path"@ },
                Some(value@),
                "Invalid path '"@ + value@ + "': "@ + join(path_problems(value@, must_be_absolute), ", "@),
            ),
    {
        self.checks_run = self.checks_run + 1;
        if value.is_empty() {
            self.record_at(field, ErrorKind::Empty, Some(owned("\"\"")), owned("path must not be empty"));
            return;
        }
        let mut problems: Vec<String> = Vec::new();
        if contains_char(value, '\0') {
            problems.push(owned("path must not contain null bytes"));
        }
        if traversal_in(value) {
            problems.push(owned("path traversal ('..') is not allowed"));
        }
        let cs = crate::text::chars_of(value);
        let absolute = cs.len() > 0 && cs[0] == '/';
        match must_be_absolute {
            Some(true) => {
                if !absolute {
                    problems.push(owned("path must be absolute"));
                }
            },
            Some(false) => {
                if absolute {
                    problems.push(owned("path must be relative"));
                }
            },
            None => {},
        }
        assert(views(problems@) =~= path_problems(value@, must_be_absolute));
        if problems.len() > 0 {
            let joined = join_strings(&problems, ", ");
            let mut msg = owned("Invalid path '");
            push_str(&mut msg, value);
            push_str(&mut msg, "': ");
            push_str(&mut msg, joined.as_str());
            self.record_at(field, ErrorKind::Predicate { code: "invalid_path" }, Some(owned(value)), msg);
        }
    }

    /// Check that the path `value` of `field`, read from the file `source`,
    /// is safe under `policy` (see [`crate::path::resolution`]): one more
    /// check runs and the path's witness is recorded whether it passes or
    /// not; a rejected path also records an `unsafe_path` error at `field`
    /// with the rejection code.
    pub fn check_path_safe(&mut self, field: &str, value: &str, source: &str, policy: PathPolicy)
        requires
            old(self)@.checks_run < usize::MAX,
        ensures
            ({
                let w = witness_of(value@, source@, policy);
                let after = ValidatorView { path_witnesses: old(self)@.path_witnesses.push(w), ..old(self)@ };
                final(self)@ == match resolution(value@, source@, policy) {
                    Ok(_) => counted(after),
                    Err(code) => recorded_at(counted(after), field@, KindView::Predicate { code: "unsafe_path"@ },
                        Some(value@), "Unsafe path '"@ + value@ + "': "@ + code),
                }
            }),
    {
        let w = path_witness(value, source, &policy);
        let rejected = !w.accepted;
        let code = match &w.rejection_code {
            Some(c) => c.clone(),
            None => String::new(),
        };
        let ghost before = self.path_witnesses@;
        self.path_witnesses.push(w);
        assert(self@.path_witnesses =~= old(self)@.path_witnesses.push(witness_of(value@, source@, policy)));
        self.checks_run = self.checks_run + 1;
        if rejected {
            let mut msg = owned("Unsafe path '");
            push_str(&mut msg, value);
            push_str(&mut msg, "': ");
            push_str(&mut msg, code.as_str());
            proof {
                reveal_strlit("Unsafe path '");
                reveal_strlit("': ");
            }
            self.record_at(field, ErrorKind::Predicate { code: "unsafe_path" }, Some(owned(value)), msg);
        }
    }

    /// Fail `field` with `invalid_size_format` unless `value` is a size such as `512MB`.
    pub fn check_size_format(&mut self, field: &str, value: &str)
        requires
            old(self)@.checks_run < usize::MAX,
        ensures
            final(self)@ == checked(
                old(self)@,
                size_ok(value@),
                field@,
                KindView::Predicate { code: "invalid_size_format"@ },
                Some(value@),
                "Invalid size format: '"@ + value@ + "'. Expected format like '1GB', '512MB'"@,
            ),
    {
        self.checks_run = self.checks_run + 1;
        if !size_valid(value) {
            let mut msg = owned("Invalid size format: '");
            push_str(&mut msg, value);
            push_str(&mut msg, "'. Expected format like '1GB', '512MB'");
            self.record_at(field, ErrorKind::Predicate { code: "invalid_size_format" }, Some(owned(value)), msg);
        }
    }

    /// When `active_profile` is `target_profile`, a check of `field` that
    /// fails with `code` unless `condition` holds; otherwise nothing.
    pub fn check_profile(
        &mut self,
        field: &str,
        active_profile: &str,
        target_profile: &str,
        condition: bool,
        code: &'static str,
        msg: &str,
    )
        requires
            old(self)@.checks_run < usize::MAX,
        ensures
            active_profile@ == target_profile@ ==> final(self)@ == checked(old(self)@, condition, field@,
                KindView::Predicate { code: code@ }, None, msg@),
            active_profile@ != target_profile@ ==> final(self)@ == old(self)@,
    {
        if str_eq(active_profile, target_profile) {
            self.checks_run = self.checks_run + 1;
            if !condition {
                self.record_at(field, ErrorKind::Predicate { code }, None, owned(msg));
            }
        }
    }

    /// A check of `field` that fails with `code` unless `policy()` returns true.
    pub fn check_policy<F: FnOnce() -> bool>(&mut self, field: &str, policy: F, code: &'static str, msg: &str)
        requires
            old(self)@.checks_run < usize::MAX,
            policy.requires(()),
        ensures
            exists|b: bool|
                {
                    &&& #[trigger] policy.ensures((), b)
                    &&& final(self)@ == checked(old(self)@, b, field@, KindView::Predicate { code: code@ }, None, msg@)
                },
    {
        self.checks_run = self.checks_run + 1;
        let b = policy();
        if !b {
            self.record_at(field, ErrorKind::Predicate { code }, None, owned(msg));
        }
    }

    /// Consume the validator into the report of what it recorded (which may
    /// hold no error).
    pub fn into_report(self) -> (r: ValidationErrors)
        ensures
            r@ == (ReportView { errors: self@.errors, title: None, checks_run: self@.checks_run }),
    {
        ValidationErrors { errors: self.errors, title: None, checks_run: self.checks_run }
    }

    /// Consume the validator: `Ok` when nothing was recorded, otherwise the
    /// report of every recorded error with the number of checks that ran.
    pub fn finish(self) -> (r: Result<(), ValidationErrors>)
        ensures
            r is Ok <==> self@.errors.len() == 0,
            r matches Err(e) ==> e@ == (ReportView {
                errors: self@.errors,
                title: None,
                checks_run: self@.checks_run,
            }),
    {
        if self.errors.len() == 0 {
            Ok(())
        } else {
            Err(ValidationErrors { errors: self.errors, title: None, checks_run: self.checks_run })
        }
    }
}

// ---------------------------------------------------------------------------
// Validate
// ---------------------------------------------------------------------------

/// Implemented by configuration types that check their own invariants.
pub trait Validate {
    /// Record any invariant violations into `v`.
    fn validate(&self, v: &mut Validator);

    /// Run validation from a fresh validator: `Err` carries every recorded
    /// failure (at least one), untitled.
    fn check(&self) -> (r: Result<(), ValidationErrors>)
        ensures
            r matches Err(e) ==> e@.errors.len() > 0 && e@.title is None,
    {
        let mut v = Validator::new();
        self.validate(&mut v);
        v.finish()
    }

    /// Like [`Validate::check`], but hands `self` back on success.
    fn validated(self) -> (r: Result<Self, ValidationErrors>) where Self: Sized
        ensures
            r matches Ok(s) ==> s == self,
            r matches Err(e) ==> e@.errors.len() > 0 && e@.title is None,
    {
        match self.check() {
            Ok(()) => Ok(self),
            Err(errs) => Err(errs),
        }
    }
}

} // verus!
