//! Diagnostic codes, the diagnostics of a document, and their ranges.
//!
//! Every diagnostic here is advisory: none grants a configuration standing.

use vstd::prelude::*;
use crate::text::{owned, push_str, push_char, push_dec, chars_of, dec_text, string_of};
use crate::lexical::{split_on, split_chars, lemma_split_on_nonempty};
use crate::scan::{byte_len, byte_len_of, lemma_byte_len_take, lines_of, lines, first_occurrence, occurs, find_chars, occurs_at, char_width, char_width_of};
use crate::validation::{ValidationError, Severity, loc_text, kind_code, hint_text};
use crate::lsp::protocol::{Position, Range, DiagnosticSeverity, Diagnostic, DiagnosticView};

verus! {

// ---------------------------------------------------------------------------
// Codes
// ---------------------------------------------------------------------------

/// The document is not valid TOML.
pub const INVALID_TOML: &'static str = "invalid_toml";
/// A key the typed schema does not know.
pub const UNKNOWN_FIELD: &'static str = "unknown_field";
/// A path value with a traversal sequence.
pub const PATH_TRAVERSAL: &'static str = "path_traversal_detected";
/// An absolute path where only relative ones may be allowed.
pub const RELATIVE_ONLY_ABSOLUTE: &'static str = "relative_only_escape:absolute_path_forbidden";
/// A key defined twice in one table.
pub const DUPLICATE_KEY: &'static str = "duplicate_key";
/// A reference to lifecycle history as if it were standing.
pub const OCEL_NOT_STANDING: &'static str = "ocel_history_not_standing";
/// A reference to the admission quality score.
pub const Q_CONFIG_AUTHORITY: &'static str = "q_config_requires_witness_and_failset_zero";
/// An environment override was reported.
pub const ENV_OVERRIDE_REPORTED: &'static str = "env_override_reported";

/// The source name stamped on every diagnostic.
pub open spec fn source_name() -> Seq<char> {
    "star-toml-lsp"@
}

// ---------------------------------------------------------------------------
// Ranges
// ---------------------------------------------------------------------------

/// The position at `line`, `col`.
pub open spec fn position(line: u32, col: u32) -> Position {
    Position { line, character: col }
}

fn pos(line: u32, col: u32) -> (r: Position)
    ensures
        r == position(line, col),
{
    Position { line, character: col }
}

/// The position at `line`, `col`.
pub fn position_of(line: u32, col: u32) -> (r: Position)
    ensures
        r == position(line, col),
{
    Position { line, character: col }
}

/// The range of `len` bytes from `line`, `col`.
pub fn point_range(line: u32, col: u32, len: u32) -> (r: Range)
    requires
        col + len <= u32::MAX,
    ensures
        r == (Range { start: position(line, col), end: position(line, (col + len) as u32) }),
{
    Range { start: pos(line, col), end: pos(line, col + len) }
}

/// The byte length of line `line` of `text` (0 past the last line).
pub open spec fn line_byte_len(text: Seq<char>, line: int) -> nat {
    if 0 <= line < lines_of(text).len() {
        byte_len(lines_of(text)[line])
    } else {
        0
    }
}

/// The range of the whole of line `line` of `text`.
pub fn full_line_range(line: u32, text: &str) -> (r: Range)
    requires
        byte_len(text@) <= usize::MAX,
    ensures
        r == (Range { start: position(line, 0), end: position(line, line_byte_len(text@, line as int) as u32) }),
{
    let cs = chars_of(text);
    let ls = lines(cs.as_slice());
    let n: usize = if (line as usize) < ls.len() {
        let l = &ls[line as usize];
        proof {
            assert(l@ == lines_of(text@)[line as int]);
            crate::scan::lemma_line_fits(text@, line as int);
            assert(l@.take(l@.len() as int) =~= l@);
        }
        byte_len_of(l.as_slice(), l.len())
    } else {
        0
    };
    Range { start: pos(line, 0), end: pos(line, n as u32) }
}

/// The start of the document: its first character.
pub open spec fn start_range() -> Range {
    Range { start: position(0, 0), end: position(0, 1) }
}

/// The range of the first character of the document.
pub fn document_start() -> (r: Range)
    ensures
        r == start_range(),
{
    Range { start: pos(0, 0), end: pos(0, 1) }
}

// ---------------------------------------------------------------------------
// Diagnostics
// ---------------------------------------------------------------------------

/// A diagnostic of this analysis.
pub open spec fn made(range: Range, severity: DiagnosticSeverity, code: Seq<char>, message: Seq<char>) -> DiagnosticView {
    DiagnosticView { range, severity: Some(severity), code: Some(code), source: Some(source_name()), message }
}

fn make(range: Range, severity: DiagnosticSeverity, code: &str, message: String) -> (r: Diagnostic)
    ensures
        r@ == made(range, severity, code@, message@),
{
    Diagnostic { range, severity: Some(severity), code: Some(owned(code)), source: Some(owned("star-toml-lsp")), message }
}

/// A TOML parse failure with the parser's `detail`.
pub fn invalid_toml(range: Range, detail: &str) -> (r: Diagnostic)
    ensures
        r@ == made(range, DiagnosticSeverity::Error, INVALID_TOML@, "TOML parse error: "@ + detail@),
{
    let mut m = owned("TOML parse error: ");
    push_str(&mut m, detail);
    make(range, DiagnosticSeverity::Error, INVALID_TOML, m)
}

/// A key at `field_path` the typed schema does not know.
pub fn unknown_field(range: Range, field_path: &str) -> (r: Diagnostic)
    ensures
        r@ == made(range, DiagnosticSeverity::Error, UNKNOWN_FIELD@, "unknown field `"@ + field_path@ + "` — not present in schema"@),
{
    let mut m = owned("unknown field `");
    push_str(&mut m, field_path);
    push_str(&mut m, "` — not present in schema");
    make(range, DiagnosticSeverity::Error, UNKNOWN_FIELD, m)
}

/// The key `key` defined again, first on the zero-based line `first_line`
/// (reported one-based).
pub fn duplicate_key(range: Range, key: &str, first_line: u32) -> (r: Diagnostic)
    requires
        first_line < u32::MAX,
    ensures
        r@ == made(
            range,
            DiagnosticSeverity::Error,
            DUPLICATE_KEY@,
            "duplicate key `"@ + key@ + "` (first defined on line "@ + dec_text(first_line as nat + 1) + ")"@,
        ),
{
    let mut m = owned("duplicate key `");
    push_str(&mut m, key);
    push_str(&mut m, "` (first defined on line ");
    push_dec(&mut m, (first_line + 1) as u64);
    push_str(&mut m, ")");
    make(range, DiagnosticSeverity::Error, DUPLICATE_KEY, m)
}

/// The message of a traversal in `raw`.
pub open spec fn traversal_message(raw: Seq<char>) -> Seq<char> {
    "path traversal detected in `"@ + raw + "` — `..` or `\\..` sequences are forbidden"@
}

/// A path value `raw` with a traversal sequence.
pub fn path_traversal(range: Range, raw: &str) -> (r: Diagnostic)
    ensures
        r@ == made(range, DiagnosticSeverity::Error, PATH_TRAVERSAL@, traversal_message(raw@)),
{
    let mut m = owned("path traversal detected in `");
    push_str(&mut m, raw);
    push_str(&mut m, "` — `..` or `\\..` sequences are forbidden");
    make(range, DiagnosticSeverity::Error, PATH_TRAVERSAL, m)
}

/// An absolute path `raw` under a policy that allows only relative ones.
pub fn relative_only_absolute(range: Range, raw: &str) -> (r: Diagnostic)
    ensures
        r@ == made(
            range,
            DiagnosticSeverity::Error,
            RELATIVE_ONLY_ABSOLUTE@,
            "absolute path `"@ + raw@ + "` is forbidden under RelativeOnly policy"@,
        ),
{
    let mut m = owned("absolute path `");
    push_str(&mut m, raw);
    push_str(&mut m, "` is forbidden under RelativeOnly policy");
    make(range, DiagnosticSeverity::Error, RELATIVE_ONLY_ABSOLUTE, m)
}

/// The message that lifecycle history grants no standing.
pub open spec fn ocel_message() -> Seq<char> {
    "OCEL tracks lifecycle history — it does not grant q_config standing. Standing requires ConfigWitness + failset_cardinality = 0."@
}

/// Information that lifecycle history grants no standing.
pub fn ocel_not_standing(range: Range) -> (r: Diagnostic)
    ensures
        r@ == made(range, DiagnosticSeverity::Information, OCEL_NOT_STANDING@, ocel_message()),
{
    make(
        range,
        DiagnosticSeverity::Information,
        OCEL_NOT_STANDING,
        owned("OCEL tracks lifecycle history — it does not grant q_config standing. Standing requires ConfigWitness + failset_cardinality = 0."),
    )
}

/// The message on what standing requires.
pub open spec fn q_config_message() -> Seq<char> {
    "q_config = 1 iff BoundSatisfied ∧ TransformLawful ∧ WitnessComplete ∧ CounterexamplesAbsent. The LSP cannot grant this — use TrustedLoader::load_admitted() at runtime."@
}

/// Information on what standing requires.
pub fn q_config_authority_note(range: Range) -> (r: Diagnostic)
    ensures
        r@ == made(range, DiagnosticSeverity::Information, Q_CONFIG_AUTHORITY@, q_config_message()),
{
    make(
        range,
        DiagnosticSeverity::Information,
        Q_CONFIG_AUTHORITY,
        owned("q_config = 1 iff BoundSatisfied ∧ TransformLawful ∧ WitnessComplete ∧ CounterexamplesAbsent. The LSP cannot grant this — use TrustedLoader::load_admitted() at runtime."),
    )
}

// ---------------------------------------------------------------------------
// Offsets and positions
// ---------------------------------------------------------------------------

/// The byte offsets of the starts of the lines of `s`: 0, then the offset
/// after each `\n`.
pub open spec fn line_starts(s: Seq<char>) -> Seq<int>
    decreases s.len(),
{
    if s.len() == 0 {
        seq![0]
    } else if s.last() == '\n' {
        line_starts(s.drop_last()).push(byte_len(s) as int)
    } else {
        line_starts(s.drop_last())
    }
}

/// Line starts begin at 0, increase strictly and stay within the text.
pub proof fn lemma_line_starts_sorted(s: Seq<char>)
    ensures
        line_starts(s).len() >= 1,
        line_starts(s)[0] == 0,
        forall|a: int, b: int| 0 <= a < b < line_starts(s).len() ==> line_starts(s)[a] < line_starts(s)[b],
        forall|a: int| 0 <= a < line_starts(s).len() ==> 0 <= #[trigger] line_starts(s)[a] <= byte_len(s),
    decreases s.len(),
{
    if s.len() > 0 {
        lemma_line_starts_sorted(s.drop_last());
        assert(byte_len(s) == byte_len(s.drop_last()) + char_width(s.last()));
    }
}

/// The byte offsets of the line starts of `text`.
pub fn line_start_offsets(text: &str) -> (r: Vec<usize>)
    requires
        byte_len(text@) <= usize::MAX,
    ensures
        r@.len() == line_starts(text@).len(),
        forall|k: int| 0 <= k < r@.len() ==> r@[k] as int == #[trigger] line_starts(text@)[k],
{
    let cs = chars_of(text);
    let mut offsets: Vec<usize> = Vec::new();
    offsets.push(0);
    let mut off: usize = 0;
    let mut i: usize = 0;
    proof {
        assert(cs@.take(0) =~= Seq::<char>::empty());
    }
    while i < cs.len()
        invariant
            i <= cs@.len(),
            cs@ == text@,
            byte_len(text@) <= usize::MAX,
            off as int == byte_len(cs@.take(i as int)),
            offsets@.len() == line_starts(cs@.take(i as int)).len(),
            forall|k: int| 0 <= k < offsets@.len() ==> offsets@[k] as int == #[trigger] line_starts(cs@.take(i as int))[k],
        decreases cs@.len() - i,
    {
        let c = cs[i];
        proof {
            lemma_byte_len_take(cs@, i as int);
            lemma_byte_len_take(cs@, i as int + 1);
            assert(cs@.take(i as int + 1).drop_last() =~= cs@.take(i as int));
            assert(cs@.take(i as int + 1).last() == c);
        }
        off = off + char_width_of(c);
        if c == '\n' {
            offsets.push(off);
        }
        i = i + 1;
    }
    assert(cs@.take(cs@.len() as int) =~= cs@);
    offsets
}

/// The line of byte offset `off` given sorted line starts: the last start
/// not after it.
pub open spec fn line_index(starts: Seq<int>, off: int) -> int {
    choose|l: int| 0 <= l < starts.len() && #[trigger] starts[l] <= off && (l + 1 == starts.len() || off < starts[l + 1])
}

/// The position of byte offset `off` given the line starts: its line, and
/// its byte column in that line.
pub open spec fn offset_position(starts: Seq<int>, off: int) -> Position {
    let l = line_index(starts, off);
    position(l as u32, (off - starts[l]) as u32)
}

/// The models of offsets.
pub open spec fn int_views(s: Seq<usize>) -> Seq<int> {
    Seq::new(s.len(), |i: int| s[i] as int)
}

/// The position of byte offset `offset` given the sorted line starts.
pub fn offset_to_position(offset: usize, line_starts: &[usize]) -> (r: Position)
    requires
        line_starts@.len() > 0,
        line_starts@[0] <= offset,
        forall|a: int, b: int| 0 <= a < b < line_starts@.len() ==> line_starts@[a] <= line_starts@[b],
    ensures
        r == offset_position(int_views(line_starts@), offset as int),
{
    let ghost st = int_views(line_starts@);
    let n = line_starts.len();
    let mut i: usize = 1;
    while i < n && line_starts[i] <= offset
        invariant
            1 <= i <= n == line_starts@.len(),
            forall|k: int| 0 <= k < i ==> line_starts@[k] <= offset,
        decreases n - i,
    {
        i = i + 1;
    }
    let l = i - 1;
    proof {
        let c = line_index(st, offset as int);
        assert(st[l as int] <= offset);
        assert(l as int + 1 == st.len() || offset < st[l as int + 1]);
        assert(0 <= c < st.len() && st[c] <= offset && (c + 1 == st.len() || offset < st[c + 1]));
        if c < l {
            assert(st[c + 1] <= st[l as int]);
        } else if c > l {
            assert(st[l as int + 1] <= st[c]);
        }
        assert(c == l);
    }
    pos(l as u32, (offset - line_starts[l]) as u32)
}

// ---------------------------------------------------------------------------
// Key ranges
// ---------------------------------------------------------------------------

/// The last dot-separated segment of a path.
pub open spec fn last_key(dotted: Seq<char>) -> Seq<char> {
    split_on(dotted, '.').last()
}

/// The texts searched for a key, in order: `k =`, `k=`, `"k" =`, `[k]`.
pub open spec fn key_needles(k: Seq<char>) -> Seq<Seq<char>> {
    seq![k + " ="@, k + "="@, seq!['"'] + k + seq!['"'] + " ="@, seq!['['] + k + seq![']']]
}

/// The byte offset of the first occurrence of `needle` in `text`.
pub open spec fn find_offset(text: Seq<char>, needle: Seq<char>) -> int {
    byte_len(text.take(first_occurrence(text, needle))) as int
}

/// The range of key `k` whose needle was found at byte offset `off`.
pub open spec fn key_range_at(text: Seq<char>, off: int, k: Seq<char>) -> Range {
    let start = offset_position(line_starts(text), off);
    Range { start, end: position(start.line, (start.character + byte_len(k)) as u32) }
}

/// The range of the last key of `dotted` in `text`: at the first needle
/// (see [`key_needles`]) that occurs, in order.
pub open spec fn key_range(text: Seq<char>, dotted: Seq<char>) -> Option<Range> {
    let k = last_key(dotted);
    let ns = key_needles(k);
    if occurs(text, ns[0]) {
        Some(key_range_at(text, find_offset(text, ns[0]), k))
    } else if occurs(text, ns[1]) {
        Some(key_range_at(text, find_offset(text, ns[1]), k))
    } else if occurs(text, ns[2]) {
        Some(key_range_at(text, find_offset(text, ns[2]), k))
    } else if occurs(text, ns[3]) {
        Some(key_range_at(text, find_offset(text, ns[3]), k))
    } else {
        None
    }
}

/// An occurrence ends within the text, in bytes.
proof fn lemma_occurrence_fits(text: Seq<char>, needle: Seq<char>, i: int)
    requires
        occurs_at(text, needle, i),
    ensures
        byte_len(text.take(i)) + byte_len(needle) <= byte_len(text),
{
    lemma_byte_len_take(text, i + needle.len());
    assert(text.take(i + needle.len()) =~= text.take(i) + needle) by {
        assert(text.subrange(i, i + needle.len()) == needle);
    }
    crate::scan::lemma_byte_len_concat(text.take(i), needle);
}

/// The position of a byte offset is on a line and column within the text.
proof fn lemma_position_col(text: Seq<char>, off: int)
    requires
        0 <= off <= byte_len(text) <= u32::MAX,
    ensures
        0 <= off - line_starts(text)[line_index(line_starts(text), off)] <= off,
        offset_position(line_starts(text), off).character == off - line_starts(text)[line_index(line_starts(text), off)],
{
    lemma_line_starts_sorted(text);
    let st = line_starts(text);
    let mut l: int = 0;
    assert(st[0] <= off);
    let c = line_index(st, off);
    if !(0 <= c < st.len() && st[c] <= off && (c + 1 == st.len() || off < st[c + 1])) {
        // the last start not after `off` witnesses the choice
        let w = choose_last_le(st, off);
        assert(0 <= w < st.len() && st[w] <= off && (w + 1 == st.len() || off < st[w + 1]));
    }
    assert(st[c] >= 0);
}

/// The last index of a sorted sequence starting at or below `off` whose
/// element is not after `off`.
proof fn choose_last_le(st: Seq<int>, off: int) -> (w: int)
    requires
        st.len() >= 1,
        st[0] <= off,
    ensures
        0 <= w < st.len() && st[w] <= off && (w + 1 == st.len() || off < st[w + 1]),
    decreases st.len(),
{
    if st.len() == 1 {
        0
    } else if st.last() <= off {
        (st.len() - 1) as int
    } else {
        let w = choose_last_le(st.drop_last(), off);
        assert(st.drop_last()[w] == st[w]);
        if w + 1 < st.drop_last().len() {
            assert(st.drop_last()[w + 1] == st[w + 1]);
        }
        w
    }
}

/// Offsets equal to the line starts of `text` meet the needs of
/// [`offset_to_position`].
pub proof fn lemma_starts_ok(starts: Seq<usize>, text: Seq<char>)
    requires
        starts.len() == line_starts(text).len(),
        forall|q: int| 0 <= q < starts.len() ==> starts[q] as int == #[trigger] line_starts(text)[q],
    ensures
        starts.len() > 0,
        starts[0] == 0,
        forall|a: int, b: int| 0 <= a < b < starts.len() ==> starts[a] <= starts[b],
        int_views(starts) == line_starts(text),
{
    lemma_line_starts_sorted(text);
    assert(int_views(starts) =~= line_starts(text));
    assert forall|a: int, b: int| 0 <= a < b < starts.len() implies starts[a] <= starts[b] by {
        assert(starts[a] as int == line_starts(text)[a]);
        assert(starts[b] as int == line_starts(text)[b]);
    }
}

/// The range of needle `needle` (which holds key `k`) in `text`, if it
/// occurs.
#[verifier::spinoff_prover]
#[verifier::rlimit(80)]
fn needle_range(cs: &Vec<char>, starts: &Vec<usize>, needle: &Vec<char>, k: &Vec<char>, text: Ghost<Seq<char>>) -> (r: Option<Range>)
    requires
        cs@ == text@,
        byte_len(text@) <= u32::MAX,
        starts@.len() == line_starts(text@).len(),
        forall|q: int| 0 <= q < starts@.len() ==> starts@[q] as int == #[trigger] line_starts(text@)[q],
        byte_len(k@) <= byte_len(needle@),
    ensures
        r is Some <==> occurs(text@, needle@),
        r matches Some(x) ==> x == key_range_at(text@, find_offset(text@, needle@), k@),
{
    match find_chars(cs.as_slice(), needle.as_slice()) {
        None => None,
        Some(i) => {
            proof {
                lemma_occurrence_fits(cs@, needle@, i as int);
                lemma_byte_len_take(cs@, i as int);
                lemma_starts_ok(starts@, text@);
            }
            let off = byte_len_of(cs.as_slice(), i);
            let start = offset_to_position(off, starts.as_slice());
            proof {
                lemma_position_col(text@, off as int);
                assert(k@.take(k@.len() as int) =~= k@);
            }
            let klen = byte_len_of(k.as_slice(), k.len());
            Some(Range { start, end: pos(start.line, start.character + klen as u32) })
        },
    }
}

/// The range of the last key of `dotted_path` in `text` (see [`key_range`]).
pub fn find_key_range_in_text(text: &str, dotted_path: &str) -> (r: Option<Range>)
    requires
        byte_len(text@) <= u32::MAX,
    ensures
        r == key_range(text@, dotted_path@),
{
    let dc = chars_of(dotted_path);
    let parts = split_chars(dc.as_slice(), '.');
    proof {
        lemma_split_on_nonempty(dotted_path@, '.');
    }
    let k: Vec<char> = parts[parts.len() - 1].clone();
    assert(k@ == last_key(dotted_path@));
    let cs = chars_of(text);
    let starts = line_start_offsets(text);
    let ghost ns = key_needles(k@);
    let mut n0 = k.clone();
    n0.push(' ');
    n0.push('=');
    let mut n1 = k.clone();
    n1.push('=');
    let mut n2: Vec<char> = Vec::new();
    n2.push('"');
    let mut kk = k.clone();
    n2.append(&mut kk);
    n2.push('"');
    n2.push(' ');
    n2.push('=');
    let mut n3: Vec<char> = Vec::new();
    n3.push('[');
    let mut kk3 = k.clone();
    n3.append(&mut kk3);
    n3.push(']');
    proof {
        reveal_strlit(" =");
        reveal_strlit("=");
        assert(" ="@ =~= seq![' ', '=']);
        assert("="@ =~= seq!['=']);
        assert(n0@ =~= ns[0]);
        assert(n1@ =~= ns[1]);
        assert(n2@ =~= ns[2]);
        assert(n3@ =~= ns[3]);
        crate::scan::lemma_byte_len_concat(k@, seq![' ', '=']);
        crate::scan::lemma_byte_len_concat(k@, seq!['=']);
        crate::scan::lemma_byte_len_concat(seq!['"'], k@);
        crate::scan::lemma_byte_len_concat(seq!['"'] + k@, seq!['"', ' ', '=']);
        assert(n2@ =~= (seq!['"'] + k@) + seq!['"', ' ', '=']);
        crate::scan::lemma_byte_len_concat(seq!['['], k@);
        crate::scan::lemma_byte_len_concat(seq!['['] + k@, seq![']']);
        assert(n3@ =~= (seq!['['] + k@) + seq![']']);
    }
    let ghost t = text@;
    match needle_range(&cs, &starts, &n0, &k, Ghost(t)) {
        Some(r) => return Some(r),
        None => {},
    }
    match needle_range(&cs, &starts, &n1, &k, Ghost(t)) {
        Some(r) => return Some(r),
        None => {},
    }
    match needle_range(&cs, &starts, &n2, &k, Ghost(t)) {
        Some(r) => return Some(r),
        None => {},
    }
    needle_range(&cs, &starts, &n3, &k, Ghost(t))
}

// ---------------------------------------------------------------------------
// Validation errors as diagnostics
// ---------------------------------------------------------------------------

/// The diagnostic severity of a validation severity.
pub open spec fn lsp_severity(s: Severity) -> DiagnosticSeverity {
    match s {
        Severity::Fatal | Severity::Error => DiagnosticSeverity::Error,
        Severity::Warning => DiagnosticSeverity::Warning,
        Severity::Advisory => DiagnosticSeverity::Information,
    }
}

/// The range of a validation error in `text`: the document start for an
/// empty or `<root>` location, otherwise the key's range when found.
pub open spec fn error_range(e: crate::validation::ErrorView, text: Seq<char>) -> Range {
    let p = loc_text(e.loc);
    if p.len() == 0 || p == "<root>"@ {
        start_range()
    } else {
        match key_range(text, p) {
            Some(r) => r,
            None => start_range(),
        }
    }
}

/// The message of a validation error: `[code] msg`, then ` — hint: h` when
/// its repair hint is not empty.
pub open spec fn error_message(e: crate::validation::ErrorView) -> Seq<char> {
    let h = hint_text(e.kind, e.msg);
    let base = "["@ + kind_code(e.kind) + "] "@ + e.msg;
    if h.len() == 0 {
        base
    } else {
        base + " — hint: "@ + h
    }
}

/// The diagnostic of a validation error in `text`.
pub fn from_validation_error(err: &ValidationError, text: &str) -> (r: Diagnostic)
    requires
        byte_len(text@) <= u32::MAX,
    ensures
        r@ == made(error_range(err@, text@), lsp_severity(err.severity), kind_code(err.kind@), error_message(err@)),
{
    let severity = match err.severity {
        Severity::Fatal | Severity::Error => DiagnosticSeverity::Error,
        Severity::Warning => DiagnosticSeverity::Warning,
        Severity::Advisory => DiagnosticSeverity::Information,
    };
    let loc_path = err.loc.to_string();
    let range = if loc_path.as_str().is_empty() || crate::text::str_eq(loc_path.as_str(), "<root>") {
        document_start()
    } else {
        match find_key_range_in_text(text, loc_path.as_str()) {
            Some(r) => r,
            None => document_start(),
        }
    };
    let hint = err.repair_hint();
    let mut message = owned("[");
    push_str(&mut message, err.code());
    push_str(&mut message, "] ");
    push_str(&mut message, err.msg.as_str());
    if !hint.as_str().is_empty() {
        push_str(&mut message, " — hint: ");
        push_str(&mut message, hint.as_str());
    }
    make(range, severity, err.code(), message)
}

// ---------------------------------------------------------------------------
// Path scans
// ---------------------------------------------------------------------------

/// The trimmed text after the first `=` of a line.
#[verifier::opaque]
pub open spec fn value_part(line: Seq<char>) -> Seq<char> {
    crate::scan::trim(line.skip(first_occurrence(line, seq!['=']) + 1))
}

/// A line whose value is a lone quote character, which the scan cannot
/// take apart.
#[verifier::opaque]
pub open spec fn lone_quote_line(line: Seq<char>) -> bool {
    occurs(line, seq!['=']) && value_part(line).len() == 1 && (value_part(line)[0] == '"' || value_part(line)[0] == '\'')
}

/// The quoted string value of a line: the trimmed text after its first `=`,
/// without its quotes, when it is quoted with `"` or `'` at both ends.
#[verifier::opaque]
pub open spec fn quoted_value(line: Seq<char>) -> Option<Seq<char>> {
    let v = value_part(line);
    if occurs(line, seq!['=']) && v.len() >= 2 && ((v[0] == '"' && v.last() == '"') || (v[0] == '\'' && v.last() == '\'')) {
        Some(v.subrange(1, v.len() - 1))
    } else {
        None
    }
}

/// A path with `..` as a segment, a `/..`, or a leading `..`, once
/// backslashes are read as slashes.
#[verifier::opaque]
pub open spec fn path_has_traversal(raw: Seq<char>) -> bool {
    let n = crate::scan::replace_char(raw, '\\', '/');
    split_on(n, '/').contains(seq!['.', '.']) || occurs(n, seq!['/', '.', '.']) || seq!['.', '.'].is_prefix_of(n)
}

/// A path that starts with `/` once backslashes are read as slashes.
#[verifier::opaque]
pub open spec fn path_is_absolute(raw: Seq<char>) -> bool {
    seq!['/'].is_prefix_of(crate::scan::replace_char(raw, '\\', '/'))
}

/// The range of `raw` on line `line_no` of line text `line`: from its first
/// occurrence (or after the `=`) for its length in bytes.
#[verifier::opaque]
pub open spec fn raw_range(line: Seq<char>, line_no: int, raw: Seq<char>) -> Range {
    let col: int = if occurs(line, raw) {
        byte_len(line.take(first_occurrence(line, raw))) as int
    } else {
        (byte_len(line.take(first_occurrence(line, seq!['=']))) + 1) as int
    };
    Range { start: position(line_no as u32, col as u32), end: position(line_no as u32, (col as u32 + byte_len(raw)) as u32) }
}

/// The diagnostic a line gives, if any: an error for a quoted path with a
/// traversal, otherwise a warning for an absolute one.
pub open spec fn line_path_diagnostic(line: Seq<char>, line_no: int) -> Option<DiagnosticView> {
    match quoted_value(line) {
        None => None,
        Some(raw) => if path_has_traversal(raw) {
            Some(made(raw_range(line, line_no, raw), DiagnosticSeverity::Error, PATH_TRAVERSAL@, traversal_message(raw)))
        } else if path_is_absolute(raw) {
            Some(
                made(
                    raw_range(line, line_no, raw),
                    DiagnosticSeverity::Warning,
                    RELATIVE_ONLY_ABSOLUTE@,
                    "absolute path `"@ + raw + "` may be forbidden if RelativeOnly policy is active"@,
                ),
            )
        } else {
            None
        },
    }
}

/// The path diagnostics of the first `n` lines, in order.
pub open spec fn path_diagnostics_upto(ls: Seq<Seq<char>>, n: nat) -> Seq<DiagnosticView>
    decreases n,
{
    if n == 0 || n > ls.len() {
        Seq::empty()
    } else {
        path_diagnostics_upto(ls, (n - 1) as nat) + match line_path_diagnostic(ls[n - 1], n - 1) {
            Some(d) => seq![d],
            None => Seq::empty(),
        }
    }
}

/// Every line of `text` fits the byte columns of a position.
pub open spec fn lines_fit(text: Seq<char>) -> bool {
    forall|k: int| 0 <= k < lines_of(text).len() ==> byte_len(#[trigger] lines_of(text)[k]) < u32::MAX
}

/// Whether `s` contains `needle`.
fn contains_chars(s: &Vec<char>, needle: &Vec<char>) -> (r: bool)
    ensures
        r == occurs(s@, needle@),
{
    find_chars(s.as_slice(), needle.as_slice()).is_some()
}

/// Whether `s` has `..` as a segment between slashes.
fn has_dotdot_segment(n: &Vec<char>) -> (r: bool)
    ensures
        r == split_on(n@, '/').contains(seq!['.', '.']),
{
    let parts = split_chars(n.as_slice(), '/');
    let mut i: usize = 0;
    while i < parts.len()
        invariant
            i <= parts@.len(),
            parts@.len() == split_on(n@, '/').len(),
            forall|k: int| 0 <= k < parts@.len() ==> (#[trigger] parts@[k])@ == split_on(n@, '/')[k],
            forall|k: int| 0 <= k < i ==> split_on(n@, '/')[k] != seq!['.', '.'],
        decreases parts@.len() - i,
    {
        let p = &parts[i];
        if p.len() == 2 && p[0] == '.' && p[1] == '.' {
            assert(p@ =~= seq!['.', '.']);
            assert(split_on(n@, '/')[i as int] == seq!['.', '.']);
            return true;
        }
        assert(p@ != seq!['.', '.']) by {
            if p@ == seq!['.', '.'] {
                assert(p@.len() == 2 && p@[0] == '.' && p@[1] == '.');
            }
        }
        i = i + 1;
    }
    false
}

/// The bounds of the value part of a line (see [`value_bounds`]).
pub fn value_bounds_of(line: &Vec<char>) -> (r: Option<(usize, usize)>)
    ensures
        r is Some <==> occurs(line@, seq!['=']),
        r matches Some((lo, hi)) ==> lo <= hi <= line@.len() && value_part(line@) == line@.subrange(lo as int, hi as int),
{
    value_bounds(line)
}

/// The bounds of the value part of a line that has an `=`: `value_part`
/// is `line[lo..hi]`.
#[verifier::spinoff_prover]
#[verifier::rlimit(100)]
fn value_bounds(line: &Vec<char>) -> (r: Option<(usize, usize)>)
    ensures
        r is Some <==> occurs(line@, seq!['=']),
        r matches Some((lo, hi)) ==> lo <= hi <= line@.len() && value_part(line@) == line@.subrange(lo as int, hi as int),
{
    proof {
        reveal(value_part);
    }
    let mut eqv: Vec<char> = Vec::new();
    eqv.push('=');
    assert(eqv@ =~= seq!['=']);
    let eq = match find_chars(line.as_slice(), eqv.as_slice()) {
        Some(e) => e,
        None => return None,
    };
    assert(occurs_at(line@, eqv@, eq as int));
    let n = line.len();
    let rest = crate::scan::slice_chars(line.as_slice(), eq + 1, n);
    assert(rest@ =~= line@.skip(eq as int + 1));
    let (a, b) = crate::scan::trim_bounds(rest.as_slice());
    assert(rest@.subrange(a as int, b as int) =~= line@.subrange(eq + 1 + a, eq + 1 + b));
    Some((eq + 1 + a, eq + 1 + b))
}

/// The quoted value of a line (see [`quoted_value`]), which occurs in it.
fn quoted_value_of(line: &Vec<char>) -> (r: Option<Vec<char>>)
    ensures
        match quoted_value(line@) {
            Some(v) => r matches Some(x) && x@ == v && occurs(line@, v),
            None => r is None,
        },
{
    proof {
        reveal(quoted_value);
    }
    let (lo, hi) = match value_bounds(line) {
        Some(bounds) => bounds,
        None => return None,
    };
    let ghost v = value_part(line@);
    if hi - lo < 2 {
        return None;
    }
    let first = line[lo];
    let last = line[hi - 1];
    assert(first == v[0] && last == v.last());
    if !((first == '"' && last == '"') || (first == '\'' && last == '\'')) {
        return None;
    }
    let raw = crate::scan::slice_chars(line.as_slice(), lo + 1, hi - 1);
    assert(raw@ =~= v.subrange(1, v.len() - 1));
    assert(line@.subrange(lo + 1, lo + 1 + raw@.len()) =~= raw@);
    assert(occurs_at(line@, raw@, lo + 1));
    proof {
        crate::scan::lemma_occurs_at_found(line@, raw@, lo + 1);
    }
    Some(raw)
}

/// Whether a raw path has a traversal, and whether it is absolute (see
/// [`path_has_traversal`], [`path_is_absolute`]).
fn path_flags(raw: &Vec<char>) -> (r: (bool, bool))
    ensures
        r.0 == path_has_traversal(raw@),
        r.1 == path_is_absolute(raw@),
{
    proof {
        reveal(path_has_traversal);
        reveal(path_is_absolute);
    }
    let normalised = crate::scan::replace_chars(raw.as_slice(), '\\', '/');
    let mut sdd: Vec<char> = Vec::new();
    sdd.push('/');
    sdd.push('.');
    sdd.push('.');
    assert(sdd@ =~= seq!['/', '.', '.']);
    let lead = normalised.len() >= 2 && normalised[0] == '.' && normalised[1] == '.';
    proof {
        let nn = normalised@;
        if nn.len() >= 2 && nn[0] == '.' && nn[1] == '.' {
            assert(nn.subrange(0, 2) =~= seq!['.', '.']);
        }
        if seq!['.', '.'].is_prefix_of(nn) {
            assert(nn.subrange(0, 2)[0] == '.' && nn.subrange(0, 2)[1] == '.');
        }
    }
    let traversal = has_dotdot_segment(&normalised) || contains_chars(&normalised, &sdd) || lead;
    let absolute = normalised.len() >= 1 && normalised[0] == '/';
    proof {
        let nn = normalised@;
        if seq!['/'].is_prefix_of(nn) {
            assert(nn.subrange(0, 1)[0] == '/');
        }
        if nn.len() >= 1 && nn[0] == '/' {
            assert(nn.subrange(0, 1) =~= seq!['/']);
        }
    }
    (traversal, absolute)
}

/// The range of `raw`, which occurs in `line` (see [`raw_range`]).
#[verifier::rlimit(80)]
fn raw_range_of(line: &Vec<char>, line_no: usize, raw: &Vec<char>) -> (r: Range)
    requires
        byte_len(line@) < u32::MAX,
        occurs(line@, raw@),
    ensures
        r == raw_range(line@, line_no as int, raw@),
{
    proof {
        reveal(raw_range);
    }
    let col_idx = match find_chars(line.as_slice(), raw.as_slice()) {
        Some(c) => c,
        None => 0,
    };
    proof {
        crate::scan::lemma_occurrence_fits_chars(line@, raw@, col_idx as int);
        lemma_byte_len_take(line@, col_idx as int);
    }
    let col_bytes = byte_len_of(line.as_slice(), col_idx);
    assert(raw@.take(raw@.len() as int) =~= raw@);
    let raw_bytes = byte_len_of(raw.as_slice(), raw.len());
    let col = col_bytes as u32;
    Range { start: pos(line_no as u32, col), end: pos(line_no as u32, col + raw_bytes as u32) }
}

/// The path diagnostic of line `line` (numbered `line_no`), if any (see
/// [`line_path_diagnostic`]).
fn line_path_diagnostic_of(line: &Vec<char>, line_no: usize) -> (r: Option<Diagnostic>)
    requires
        byte_len(line@) < u32::MAX,
        !lone_quote_line(line@),
    ensures
        match line_path_diagnostic(line@, line_no as int) {
            Some(d) => r matches Some(x) && x@ == d,
            None => r is None,
        },
{
    let raw = match quoted_value_of(line) {
        Some(v) => v,
        None => return None,
    };
    let (traversal, absolute) = path_flags(&raw);
    if !traversal && !absolute {
        return None;
    }
    let range = raw_range_of(line, line_no, &raw);
    let raw_text = string_of(&raw);
    if traversal {
        Some(path_traversal(range, raw_text.as_str()))
    } else {
        let mut m = owned("absolute path `");
        push_str(&mut m, raw_text.as_str());
        push_str(&mut m, "` may be forbidden if RelativeOnly policy is active");
        Some(make(range, DiagnosticSeverity::Warning, RELATIVE_ONLY_ABSOLUTE, m))
    }
}

/// The path diagnostics of `text`, line by line (see
/// [`line_path_diagnostic`]): an error for each quoted value with a
/// traversal, a warning for each absolute one.
pub fn find_path_traversal_diagnostics(text: &str) -> (r: Vec<Diagnostic>)
    requires
        lines_fit(text@),
        forall|k: int| 0 <= k < lines_of(text@).len() ==> !lone_quote_line(#[trigger] lines_of(text@)[k]),
    ensures
        crate::lsp::protocol::diagnostic_views(r@) == path_diagnostics_upto(lines_of(text@), lines_of(text@).len()),
{
    let cs = chars_of(text);
    let ls = lines(cs.as_slice());
    let ghost lv = lines_of(text@);
    let mut out: Vec<Diagnostic> = Vec::new();
    let mut i: usize = 0;
    while i < ls.len()
        invariant
            i <= ls@.len(),
            ls@.len() == lv.len(),
            lv == lines_of(text@),
            forall|k: int| 0 <= k < ls@.len() ==> (#[trigger] ls@[k])@ == lv[k],
            forall|k: int| 0 <= k < lv.len() ==> byte_len(#[trigger] lv[k]) < u32::MAX,
            forall|k: int| 0 <= k < lv.len() ==> !lone_quote_line(#[trigger] lv[k]),
            crate::lsp::protocol::diagnostic_views(out@) == path_diagnostics_upto(lv, i as nat),
        decreases ls@.len() - i,
    {
        assert(ls@[i as int]@ == lv[i as int]);
        let ghost before = crate::lsp::protocol::diagnostic_views(out@);
        match line_path_diagnostic_of(&ls[i], i) {
            Some(d) => {
                out.push(d);
                assert(crate::lsp::protocol::diagnostic_views(out@) =~= before.push(d@));
            },
            None => {},
        }
        i = i + 1;
    }
    out
}

/// The authority notes a line gives: lifecycle history mentioned with
/// standing or the quality score, then the quality score mentioned outside
/// a comment.
pub open spec fn line_authority_diagnostics(text: Seq<char>, line: Seq<char>, line_no: int) -> Seq<DiagnosticView> {
    let lo = crate::lexical::lower_seq(line);
    let range = Range { start: position(line_no as u32, 0), end: position(line_no as u32, line_byte_len(text, (line_no as u32) as int) as u32) };
    (if occurs(lo, "ocel"@) && (occurs(lo, "standing"@) || occurs(lo, "q_config"@)) {
        seq![made(range, DiagnosticSeverity::Information, OCEL_NOT_STANDING@, ocel_message())]
    } else {
        Seq::empty()
    }) + (if occurs(lo, "q_config"@) && !seq!['#'].is_prefix_of(lo) {
        seq![made(range, DiagnosticSeverity::Information, Q_CONFIG_AUTHORITY@, q_config_message())]
    } else {
        Seq::empty()
    })
}

/// The authority notes of the first `n` lines, in order.
pub open spec fn authority_diagnostics_upto(text: Seq<char>, n: nat) -> Seq<DiagnosticView>
    decreases n,
{
    if n == 0 || n > lines_of(text).len() {
        Seq::empty()
    } else {
        authority_diagnostics_upto(text, (n - 1) as nat) + line_authority_diagnostics(text, lines_of(text)[n - 1], n - 1)
    }
}

/// The authority notes of `text` (see [`line_authority_diagnostics`]).
pub fn find_authority_boundary_diagnostics(text: &str) -> (r: Vec<Diagnostic>)
    requires
        byte_len(text@) <= usize::MAX,
    ensures
        crate::lsp::protocol::diagnostic_views(r@) == authority_diagnostics_upto(text@, lines_of(text@).len()),
{
    let cs = chars_of(text);
    let ls = lines(cs.as_slice());
    let ghost lv = lines_of(text@);
    let ocel = chars_of("ocel");
    let standing = chars_of("standing");
    let qc = chars_of("q_config");
    let mut out: Vec<Diagnostic> = Vec::new();
    let mut i: usize = 0;
    while i < ls.len()
        invariant
            i <= ls@.len(),
            ls@.len() == lv.len(),
            lv == lines_of(text@),
            byte_len(text@) <= usize::MAX,
            ocel@ == "ocel"@,
            standing@ == "standing"@,
            qc@ == "q_config"@,
            forall|k: int| 0 <= k < ls@.len() ==> (#[trigger] ls@[k])@ == lv[k],
            crate::lsp::protocol::diagnostic_views(out@) == authority_diagnostics_upto(text@, i as nat),
        decreases ls@.len() - i,
    {
        let line = &ls[i];
        let mut lo: Vec<char> = Vec::new();
        let mut k: usize = 0;
        while k < line.len()
            invariant
                k <= line@.len(),
                lo@ == crate::lexical::lower_seq(line@).take(k as int),
            decreases line@.len() - k,
        {
            lo.push(crate::lexical::lower_char(line[k]));
            assert(lo@ =~= crate::lexical::lower_seq(line@).take(k as int + 1));
            k = k + 1;
        }
        assert(lo@ =~= crate::lexical::lower_seq(line@));
        let ghost before = crate::lsp::protocol::diagnostic_views(out@);
        let range = full_line_range(i as u32, text);
        if contains_chars(&lo, &ocel) && (contains_chars(&lo, &standing) || contains_chars(&lo, &qc)) {
            out.push(ocel_not_standing(range));
        }
        let ghost mid = crate::lsp::protocol::diagnostic_views(out@);
        let commented = lo.len() >= 1 && lo[0] == '#';
        proof {
            if seq!['#'].is_prefix_of(lo@) {
                assert(lo@.subrange(0, 1)[0] == '#');
            }
            if lo@.len() >= 1 && lo@[0] == '#' {
                assert(lo@.subrange(0, 1) =~= seq!['#']);
            }
        }
        if contains_chars(&lo, &qc) && !commented {
            out.push(q_config_authority_note(range));
        }
        assert(crate::lsp::protocol::diagnostic_views(out@) =~= before + line_authority_diagnostics(text@, lv[i as int], i as int));
        i = i + 1;
    }
    out
}

} // verus!
