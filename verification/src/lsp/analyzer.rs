//! The per-document analyzer: parse errors, duplicate keys, path and
//! authority scans, hover, completion and document symbols.
//!
//! It is advisory only: it never admits a configuration.

use vstd::prelude::*;
use crate::text::{owned, push_str, push_char, chars_of, string_of, views};
use crate::lexical::{split_on, split_chars, lemma_split_on_nonempty};
use crate::scan::{
    byte_len, byte_len_of, lemma_byte_len_take, lines_of, lines, first_occurrence, occurs, occurs_at,
    find_chars, trim, trim_bounds, char_width, slice_chars,
};
use crate::value::{TomlValue, TomlModel, value_wf, is_table, table_of};
use crate::lsp::protocol::{Position, Range, DiagnosticSeverity, Diagnostic, DiagnosticView, diagnostic_views};
use crate::lsp::diagnostics::{
    position, made, duplicate_key, DUPLICATE_KEY, INVALID_TOML, lines_fit, lone_quote_line, line_starts,
    offset_position, start_range, path_diagnostics_upto, authority_diagnostics_upto, invalid_toml,
    find_path_traversal_diagnostics, find_authority_boundary_diagnostics, line_start_offsets,
    offset_to_position, document_start, from_validation_error, error_range, lsp_severity, error_message,
};
use crate::toml_io::{parse_toml, toml_parsed, toml_error_span, show_toml, toml_shown};
use crate::order::{sort_texts, cviews, lex_le, lex_order, strictly_sorted};

verus! {

// ---------------------------------------------------------------------------
// Table headers
// ---------------------------------------------------------------------------

/// `s` without all its leading `c`.
pub open spec fn strip_leading(s: Seq<char>, c: char) -> Seq<char>
    decreases s.len(),
{
    if s.len() > 0 && s[0] == c {
        strip_leading(s.drop_first(), c)
    } else {
        s
    }
}

/// `s` without all its trailing `c`.
pub open spec fn strip_trailing_all(s: Seq<char>, c: char) -> Seq<char>
    decreases s.len(),
{
    if s.len() > 0 && s.last() == c {
        strip_trailing_all(s.drop_last(), c)
    } else {
        s
    }
}

/// The name inside a table header line (already trimmed): without its
/// brackets, trimmed.
pub open spec fn header_inner(t: Seq<char>) -> Seq<char> {
    trim(strip_trailing_all(strip_leading(t, '['), ']'))
}

/// The name inside a trimmed table header line (see [`header_inner`]).
fn header_inner_of(t: &Vec<char>) -> (r: Vec<char>)
    ensures
        r@ == header_inner(t@),
{
    let n = t.len();
    let mut i: usize = 0;
    assert(t@.skip(0) =~= t@);
    while i < n && t[i] == '['
        invariant
            i <= n == t@.len(),
            strip_leading(t@.skip(i as int), '[') == strip_leading(t@, '['),
        decreases n - i,
    {
        assert(t@.skip(i as int).drop_first() =~= t@.skip(i as int + 1));
        i = i + 1;
    }
    assert(strip_leading(t@.skip(i as int), '[') == t@.skip(i as int));
    let mut j: usize = n;
    while j > i && t[j - 1] == ']'
        invariant
            i <= j <= n == t@.len(),
            strip_trailing_all(t@.subrange(i as int, j as int), ']') == strip_trailing_all(t@.skip(i as int), ']'),
        decreases j,
    {
        assert(t@.subrange(i as int, j as int).drop_last() =~= t@.subrange(i as int, j as int - 1));
        j = j - 1;
    }
    assert(t@.skip(i as int) =~= t@.subrange(i as int, n as int));
    let inner = slice_chars(t.as_slice(), i, j);
    let (a, b) = trim_bounds(inner.as_slice());
    slice_chars(inner.as_slice(), a, b)
}

/// A trimmed line opening a table or an array of tables.
pub open spec fn is_header(t: Seq<char>) -> bool {
    t.len() > 0 && t[0] == '['
}

// ---------------------------------------------------------------------------
// Duplicate keys
// ---------------------------------------------------------------------------

/// The line on which a qualified key was first seen, searching in order.
pub open spec fn seen_line(seen: Seq<(Seq<char>, u32)>, q: Seq<char>) -> Option<u32>
    decreases seen.len(),
{
    if seen.len() == 0 {
        None
    } else {
        match seen_line(seen.drop_last(), q) {
            Some(x) => Some(x),
            None => if seen.last().0 == q {
                Some(seen.last().1)
            } else {
                None
            },
        }
    }
}

/// The state of the duplicate-key scan: the current table, the keys seen
/// in it with their lines, and the diagnostics so far.
pub struct DupState {
    pub table: Option<Seq<char>>,
    pub seen: Seq<(Seq<char>, u32)>,
    pub diags: Seq<DiagnosticView>,
}

/// The key of a key-value line (trimmed): the trimmed text before its first
/// `=`.
pub open spec fn line_key(t: Seq<char>) -> Seq<char> {
    trim(t.take(first_occurrence(t, seq!['='])))
}

/// The qualified name of `key` in table `table`.
pub open spec fn qualified(table: Option<Seq<char>>, key: Seq<char>) -> Seq<char> {
    match table {
        Some(tb) => tb + seq!['.'] + key,
        None => key,
    }
}

/// The range of `key` on line `line` (numbered `line_no`): from its first
/// occurrence in the line (or column 0) for its length in bytes.
#[verifier::opaque]
pub open spec fn key_col_range(line: Seq<char>, line_no: int, key: Seq<char>) -> Range {
    let col: u32 = if occurs(line, key) {
        byte_len(line.take(first_occurrence(line, key))) as u32
    } else {
        0
    };
    Range { start: position(line_no as u32, col), end: position(line_no as u32, (col + byte_len(key)) as u32) }
}

/// One line of the duplicate-key scan: a header opens a new table with no
/// keys seen; a comment or blank line is skipped; a key seen already in the
/// table gives a duplicate-key error naming its first line; a new key is
/// recorded with its line.
#[verifier::opaque]
pub open spec fn dup_step(st: DupState, line: Seq<char>, line_no: int) -> DupState {
    let t = trim(line);
    if is_header(t) {
        DupState { table: Some(header_inner(t)), seen: Seq::empty(), diags: st.diags }
    } else if (t.len() > 0 && t[0] == '#') || t.len() == 0 {
        st
    } else if occurs(t, seq!['=']) {
        let key = line_key(t);
        let q = qualified(st.table, key);
        match seen_line(st.seen, q) {
            Some(prev) => DupState {
                diags: st.diags.push(
                    made(
                        key_col_range(line, line_no, key),
                        DiagnosticSeverity::Error,
                        DUPLICATE_KEY@,
                        "duplicate key `"@ + key + "` (first defined on line "@ + crate::text::dec_text(prev as nat + 1) + ")"@,
                    ),
                ),
                ..st
            },
            None => DupState { seen: st.seen.push((q, line_no as u32)), ..st },
        }
    } else {
        st
    }
}

/// The duplicate-key scan over the first `n` lines.
pub open spec fn dup_scan(ls: Seq<Seq<char>>, n: nat) -> DupState
    decreases n,
{
    if n == 0 || n > ls.len() {
        DupState { table: None, seen: Seq::empty(), diags: Seq::empty() }
    } else {
        dup_step(dup_scan(ls, (n - 1) as nat), ls[n - 1], n - 1)
    }
}

/// A step of the scan clears the keys seen, keeps them, or records one more
/// key with the current line.
proof fn lemma_dup_step_seen(st: DupState, line: Seq<char>, line_no: int)
    ensures
        ({
            let s2 = dup_step(st, line, line_no).seen;
            ||| s2.len() == 0
            ||| s2 == st.seen
            ||| (s2.len() == st.seen.len() + 1 && s2.drop_last() == st.seen && s2.last().1 == line_no as u32)
        }),
{
    reveal(dup_step);
    let t = trim(line);
    if !is_header(t) && !((t.len() > 0 && t[0] == '#') || t.len() == 0) && occurs(t, seq!['=']) {
        let q = qualified(st.table, line_key(t));
        if seen_line(st.seen, q) is None {
            assert(st.seen.push((q, line_no as u32)).drop_last() =~= st.seen);
        }
    }
}

/// The lines recorded by the scan so far are all earlier lines.
proof fn lemma_seen_lines_earlier(ls: Seq<Seq<char>>, n: nat)
    requires
        n <= ls.len() <= u32::MAX,
    ensures
        forall|k: int| 0 <= k < dup_scan(ls, n).seen.len() ==> (#[trigger] dup_scan(ls, n).seen[k]).1 < n,
    decreases n,
{
    if n > 0 {
        lemma_seen_lines_earlier(ls, (n - 1) as nat);
        let st = dup_scan(ls, (n - 1) as nat);
        lemma_dup_step_seen(st, ls[n - 1], n - 1);
        let s2 = dup_scan(ls, n).seen;
        assert(s2 == dup_step(st, ls[n - 1], n - 1).seen);
        assert forall|k: int| 0 <= k < s2.len() implies (#[trigger] s2[k]).1 < n by {
            if s2.len() == st.seen.len() + 1 && s2.drop_last() == st.seen && k < st.seen.len() {
                assert(s2[k] == st.seen[k]);
            }
        }
    }
}

/// A line seen earlier is before the current one.
proof fn lemma_seen_line_is_recorded(seen: Seq<(Seq<char>, u32)>, q: Seq<char>)
    ensures
        seen_line(seen, q) matches Some(x) ==> exists|k: int| 0 <= k < seen.len() && #[trigger] seen[k].1 == x,
    decreases seen.len(),
{
    if seen.len() > 0 {
        lemma_seen_line_is_recorded(seen.drop_last(), q);
        if let Some(x) = seen_line(seen.drop_last(), q) {
            let k = choose|k: int| 0 <= k < seen.drop_last().len() && #[trigger] seen.drop_last()[k].1 == x;
            assert(seen[k].1 == x);
        } else if seen.last().0 == q {
            assert(seen[seen.len() - 1].1 == seen.last().1);
        }
    }
}

/// The first line on which `q` was seen (see [`seen_line`]).
fn find_seen(seen: &Vec<(Vec<char>, u32)>, q: &Vec<char>) -> (r: Option<u32>)
    ensures
        r == seen_line(Seq::new(seen@.len(), |i: int| (seen@[i].0@, seen@[i].1)), q@),
{
    let ghost sv = Seq::new(seen@.len(), |i: int| (seen@[i].0@, seen@[i].1));
    let mut i: usize = 0;
    while i < seen.len()
        invariant
            i <= seen@.len(),
            sv == Seq::new(seen@.len(), |i: int| (seen@[i].0@, seen@[i].1)),
            seen_line(sv.take(i as int), q@) is None,
        decreases seen@.len() - i,
    {
        assert(sv.take(i as int + 1).drop_last() =~= sv.take(i as int));
        if crate::lexical::chars_eq(seen[i].0.as_slice(), q.as_slice()) {
            assert(seen_line(sv.take(i as int + 1), q@) == Some(seen@[i as int].1));
            proof {
                lemma_seen_line_prefix(sv, q@, i as int + 1);
            }
            return Some(seen[i].1);
        }
        i = i + 1;
    }
    assert(sv.take(seen@.len() as int) =~= sv);
    None
}

/// A match in a prefix is the match of the whole.
proof fn lemma_seen_line_prefix(s: Seq<(Seq<char>, u32)>, q: Seq<char>, n: int)
    requires
        0 <= n <= s.len(),
        seen_line(s.take(n), q) is Some,
    ensures
        seen_line(s, q) == seen_line(s.take(n), q),
    decreases s.len(),
{
    if n < s.len() {
        assert(s.drop_last().take(n) =~= s.take(n));
        lemma_seen_line_prefix(s.drop_last(), q, n);
    } else {
        assert(s.take(n) =~= s);
    }
}

/// The range of `key`, a part of `line` (see [`key_col_range`]).
fn key_range_of(line: &Vec<char>, line_no: usize, key: &Vec<char>) -> (r: Range)
    requires
        byte_len(line@) < u32::MAX,
        byte_len(key@) <= byte_len(line@),
    ensures
        r == key_col_range(line@, line_no as int, key@),
{
    proof {
        reveal(key_col_range);
    }
    assert(key@.take(key@.len() as int) =~= key@);
    let klen = byte_len_of(key.as_slice(), key.len());
    let col: u32 = match find_chars(line.as_slice(), key.as_slice()) {
        Some(c) => {
            proof {
                crate::scan::lemma_occurrence_fits_chars(line@, key@, c as int);
                lemma_byte_len_take(line@, c as int);
            }
            byte_len_of(line.as_slice(), c) as u32
        },
        None => 0,
    };
    Range { start: crate::lsp::diagnostics::position_of(line_no as u32, col), end: crate::lsp::diagnostics::position_of(line_no as u32, col + klen as u32) }
}

/// The duplicate-key scan in progress.
struct DupScan {
    table: Option<Vec<char>>,
    seen: Vec<(Vec<char>, u32)>,
    diags: Vec<Diagnostic>,
}

impl DupScan {
    spec fn state(&self) -> DupState {
        DupState {
            table: match self.table {
                Some(t) => Some(t@),
                None => None,
            },
            seen: Seq::new(self.seen@.len(), |i: int| (self.seen@[i].0@, self.seen@[i].1)),
            diags: diagnostic_views(self.diags@),
        }
    }

    /// Scan one more line (see [`dup_step`]).
    #[verifier::rlimit(40)]
    fn step(&mut self, line: &Vec<char>, line_no: usize)
        requires
            byte_len(line@) < u32::MAX,
            forall|k: int| 0 <= k < old(self).state().seen.len() ==> (#[trigger] old(self).state().seen[k]).1 < u32::MAX,
        ensures
            final(self).state() == dup_step(old(self).state(), line@, line_no as int),
    {
        let ghost st0 = self.state();
        proof {
            reveal(dup_step);
        }
        let (ta, tb) = trim_bounds(line.as_slice());
        let t = slice_chars(line.as_slice(), ta, tb);
        assert(t@ == trim(line@));
        if t.len() > 0 && t[0] == '[' {
            self.table = Some(header_inner_of(&t));
            self.seen = Vec::new();
            assert(self.state().seen =~= Seq::<(Seq<char>, u32)>::empty());
            return;
        }
        if (t.len() > 0 && t[0] == '#') || t.len() == 0 {
            return;
        }
        let mut eqv: Vec<char> = Vec::new();
        eqv.push('=');
        assert(eqv@ =~= seq!['=']);
        let eq = match find_chars(t.as_slice(), eqv.as_slice()) {
            Some(e) => e,
            None => return,
        };
        assert(occurs_at(t@, eqv@, eq as int));
        let before = slice_chars(t.as_slice(), 0, eq);
        assert(before@ =~= t@.take(eq as int));
        let (ka, kb) = trim_bounds(before.as_slice());
        let key = slice_chars(before.as_slice(), ka, kb);
        assert(key@ == line_key(t@));
        proof {
            assert(key@ =~= line@.subrange(ta + ka, ta + kb));
            crate::scan::lemma_byte_len_subrange(line@, ta + ka, ta + kb);
        }
        let mut q: Vec<char> = Vec::new();
        match &self.table {
            Some(tb2) => {
                q = tb2.clone();
                q.push('.');
                let mut kc = key.clone();
                q.append(&mut kc);
            },
            None => {
                q = key.clone();
            },
        }
        assert(q@ =~= qualified(st0.table, key@));
        match find_seen(&self.seen, &q) {
            Some(prev) => {
                proof {
                    lemma_seen_line_is_recorded(st0.seen, q@);
                }
                let range = key_range_of(line, line_no, &key);
                let key_text = string_of(&key);
                let d = duplicate_key(range, key_text.as_str(), prev);
                let ghost dv0 = diagnostic_views(self.diags@);
                self.diags.push(d);
                assert(diagnostic_views(self.diags@) =~= dv0.push(d@));
            },
            None => {
                let ghost sv0 = self.state().seen;
                self.seen.push((q, line_no as u32));
                assert(self.state().seen =~= sv0.push((qualified(st0.table, key@), line_no as u32)));
            },
        }
    }
}

/// The duplicate-key diagnostics of `text` (see [`dup_scan`]).
pub fn detect_duplicate_keys(text: &str) -> (r: Vec<Diagnostic>)
    requires
        lines_fit(text@),
        lines_of(text@).len() <= u32::MAX,
    ensures
        diagnostic_views(r@) == dup_scan(lines_of(text@), lines_of(text@).len()).diags,
{
    let cs = chars_of(text);
    let ls = lines(cs.as_slice());
    let ghost lv = lines_of(text@);
    let mut scan = DupScan { table: None, seen: Vec::new(), diags: Vec::new() };
    assert(scan.state().seen =~= Seq::<(Seq<char>, u32)>::empty());
    assert(scan.state().diags =~= Seq::<DiagnosticView>::empty());
    let mut i: usize = 0;
    while i < ls.len()
        invariant
            i <= ls@.len(),
            ls@.len() == lv.len() <= u32::MAX,
            lv == lines_of(text@),
            forall|k: int| 0 <= k < ls@.len() ==> (#[trigger] ls@[k])@ == lv[k],
            forall|k: int| 0 <= k < lv.len() ==> byte_len(#[trigger] lv[k]) < u32::MAX,
            scan.state() == dup_scan(lv, i as nat),
        decreases ls@.len() - i,
    {
        proof {
            lemma_seen_lines_earlier(lv, i as nat);
            assert(ls@[i as int]@ == lv[i as int]);
        }
        scan.step(&ls[i], i);
        i = i + 1;
    }
    scan.diags
}

// ---------------------------------------------------------------------------
// The table around a line
// ---------------------------------------------------------------------------

/// A trimmed line opening a table (not an array of tables).
pub open spec fn is_table_header(t: Seq<char>) -> bool {
    t.len() > 0 && t[0] == '[' && !(t.len() > 1 && t[1] == '[')
}

/// The dotted path of the last table header among the first `n` lines, as
/// its segments; empty when there is none.
pub open spec fn table_path_before(ls: Seq<Seq<char>>, n: nat) -> Seq<Seq<char>>
    decreases n,
{
    if n == 0 || n > ls.len() {
        Seq::empty()
    } else if is_table_header(trim(ls[n - 1])) {
        split_on(header_inner(trim(ls[n - 1])), '.')
    } else {
        table_path_before(ls, (n - 1) as nat)
    }
}

/// The table path in force at `cursor_line`: that of the last table
/// header before it (see [`table_path_before`]).
pub open spec fn table_path_at(text: Seq<char>, cursor_line: u32) -> Seq<Seq<char>> {
    let ls = lines_of(text);
    table_path_before(ls, if (cursor_line as nat) < ls.len() { cursor_line as nat } else { ls.len() })
}

/// The table path in force at `cursor_line` (see [`table_path_at`]).
pub fn current_table_path(text: &str, cursor_line: u32) -> (r: Vec<String>)
    ensures
        views(r@) == table_path_at(text@, cursor_line),
{
    let cs = chars_of(text);
    let ls = lines(cs.as_slice());
    let ghost lv = lines_of(text@);
    let mut n: usize = if (cursor_line as usize) < ls.len() {
        cursor_line as usize
    } else {
        ls.len()
    };
    let ghost n0 = n;
    assert(table_path_at(text@, cursor_line) == table_path_before(lv, n0 as nat));
    while n > 0
        invariant
            n <= ls@.len() == lv.len(),
            lv == lines_of(text@),
            table_path_at(text@, cursor_line) == table_path_before(lv, n0 as nat),
            forall|k: int| 0 <= k < ls@.len() ==> (#[trigger] ls@[k])@ == lv[k],
            table_path_before(lv, n as nat) == table_path_before(lv, n0 as nat),
        decreases n,
    {
        let line = &ls[n - 1];
        assert(line@ == lv[n - 1]);
        let (a, b) = trim_bounds(line.as_slice());
        let t = slice_chars(line.as_slice(), a, b);
        assert(t@ == trim(lv[n - 1]));
        if t.len() > 0 && t[0] == '[' && !(t.len() > 1 && t[1] == '[') {
            let inner = header_inner_of(&t);
            assert(table_path_before(lv, n as nat) == split_on(inner@, '.'));
            assert(table_path_at(text@, cursor_line) == split_on(inner@, '.'));
            let parts = split_chars(inner.as_slice(), '.');
            let mut out: Vec<String> = Vec::new();
            let mut i: usize = 0;
            while i < parts.len()
                invariant
                    i <= parts@.len(),
                    table_path_at(text@, cursor_line) == split_on(inner@, '.'),
                    parts@.len() == split_on(inner@, '.').len(),
                    forall|k: int| 0 <= k < parts@.len() ==> (#[trigger] parts@[k])@ == split_on(inner@, '.')[k],
                    views(out@) == split_on(inner@, '.').take(i as int),
                decreases parts@.len() - i,
            {
                let ghost before = views(out@);
                let piece = string_of(&parts[i]);
                out.push(piece);
                assert(views(out@) =~= before.push(split_on(inner@, '.')[i as int]));
                assert(views(out@) =~= split_on(inner@, '.').take(i as int + 1));
                i = i + 1;
            }
            assert(split_on(inner@, '.').take(parts@.len() as int) =~= split_on(inner@, '.'));
            return out;
        }
        n = n - 1;
    }
    let out: Vec<String> = Vec::new();
    assert(views(out@) =~= Seq::<Seq<char>>::empty());
    out
}

/// The value at `path` below `m`, following tables.
pub open spec fn navigate(m: TomlModel, path: Seq<Seq<char>>) -> Option<TomlModel>
    decreases path.len(),
{
    if path.len() == 0 {
        Some(m)
    } else if is_table(m) && table_of(m).contains_key(path[0]) {
        navigate(table_of(m)[path[0]], path.drop_first())
    } else {
        None
    }
}

/// The value at `path` below `val`, following tables (see [`navigate`]).
pub fn navigate_to<'v>(val: &'v TomlValue, path: &Vec<String>) -> (r: Option<&'v TomlValue>)
    requires
        value_wf(*val),
    ensures
        match navigate(val@, views(path@)) {
            Some(m) => r matches Some(v) && v@ == m && value_wf(*v),
            None => r is None,
        },
{
    let mut cur: &TomlValue = val;
    let mut i: usize = 0;
    assert(views(path@).skip(0) =~= views(path@));
    while i < path.len()
        invariant
            i <= path@.len(),
            value_wf(*cur),
            navigate(val@, views(path@)) == navigate(cur@, views(path@).skip(i as int)),
        decreases path@.len() - i,
    {
        assert(views(path@).skip(i as int)[0] == path@[i as int]@);
        assert(views(path@).skip(i as int).drop_first() =~= views(path@).skip(i as int + 1));
        match cur.get(path[i].as_str()) {
            Some(v) => {
                cur = v;
            },
            None => {
                return None;
            },
        }
        i = i + 1;
    }
    assert(views(path@).skip(path@.len() as int) =~= Seq::<Seq<char>>::empty());
    Some(cur)
}

// ---------------------------------------------------------------------------
// The token under the cursor
// ---------------------------------------------------------------------------

/// Unicode alphanumeric characters (`char::is_alphanumeric`).
pub uninterp spec fn unicode_alphanumeric(c: char) -> bool;

/// Calls `char::is_alphanumeric` (alphabetic or numeric in Unicode): a
/// function of the character alone.
#[verifier::external_body]
fn is_alphanumeric(c: char) -> (r: bool)
    ensures
        r == unicode_alphanumeric(c),
{
    c.is_alphanumeric()
}

/// A character of an identifier: alphanumeric, `_` or `-`.
pub open spec fn is_ident(c: char) -> bool {
    unicode_alphanumeric(c) || c == '_' || c == '-'
}

/// The start of the identifier run ending at character index `k`.
pub open spec fn ident_start(l: Seq<char>, k: int) -> int
    decreases k,
{
    if k <= 0 {
        0
    } else if !is_ident(l[k - 1]) {
        k
    } else {
        ident_start(l, k - 1)
    }
}

/// The end of the identifier run starting at character index `k`.
pub open spec fn ident_end(l: Seq<char>, k: int) -> int
    decreases l.len() - k,
{
    if k >= l.len() {
        l.len() as int
    } else if !is_ident(l[k]) {
        k
    } else {
        ident_end(l, k + 1)
    }
}

/// The character index at byte column `col` of `l`, searching from `k`,
/// when `col` falls on a character boundary.
pub open spec fn char_at(l: Seq<char>, col: int, k: int) -> Option<int>
    decreases l.len() + 1 - k,
{
    if k < 0 || k > l.len() {
        None
    } else if byte_len(l.take(k)) == col {
        Some(k)
    } else if byte_len(l.take(k)) > col {
        None
    } else {
        char_at(l, col, k + 1)
    }
}

/// The cursor at `line`, `character` falls where a token can be read: past
/// the last line, or on a character boundary of its line such that the
/// character before the identifier run (if any) is one byte long.
pub open spec fn token_readable(text: Seq<char>, line: u32, character: u32) -> bool {
    let ls = lines_of(text);
    line as int >= ls.len() || match char_at(ls[line as int], character as int, 0) {
        Some(k) => {
            let s = ident_start(ls[line as int], k);
            s == 0 || char_width(ls[line as int][s - 1]) == 1
        },
        None => false,
    }
}

/// The identifier under the cursor at `line`, `character`, trimmed; none
/// past the last line or when it is empty.
pub open spec fn token_of(text: Seq<char>, line: u32, character: u32) -> Option<Seq<char>> {
    let ls = lines_of(text);
    if line as int >= ls.len() {
        None
    } else {
        let l = ls[line as int];
        match char_at(l, character as int, 0) {
            Some(k) => {
                let t = trim(l.subrange(ident_start(l, k), ident_end(l, k)));
                if t.len() == 0 {
                    None
                } else {
                    Some(t)
                }
            },
            None => None,
        }
    }
}

/// The character index of byte column `col` in `l`, if it is a boundary.
fn char_index_at(l: &Vec<char>, col: usize) -> (r: Option<usize>)
    ensures
        r is None <==> char_at(l@, col as int, 0) is None,
        r matches Some(k) ==> char_at(l@, col as int, 0) == Some(k as int) && k <= l@.len() && byte_len(l@.take(k as int)) == col,
{
    proof {
        lemma_char_at_bound(l@, col as int, 0);
    }
    let mut k: usize = 0;
    let mut bytes: usize = 0;
    assert(l@.take(0) =~= Seq::<char>::empty());
    while k <= l.len()
        invariant
            k <= l@.len() + 1,
            k <= l@.len() ==> bytes == byte_len(l@.take(k as int)),
            bytes <= col,
            char_at(l@, col as int, 0) == char_at(l@, col as int, k as int),
        decreases l@.len() + 1 - k,
    {
        if bytes == col {
            return Some(k);
        }
        if k == l.len() {
            assert(char_at(l@, col as int, k as int + 1) is None);
            return None;
        }
        proof {
            lemma_byte_len_take(l@, k as int);
        }
        let w = crate::scan::char_width_of(l[k]);
        if w > col - bytes {
            proof {
                assert(byte_len(l@.take(k as int + 1)) > col);
                assert(char_at(l@, col as int, k as int + 1) is None) by {
                    reveal_with_fuel(char_at, 2);
                }
            }
            return None;
        }
        bytes = bytes + w;
        k = k + 1;
    }
    None
}

/// The identifier under the cursor (see [`token_of`]).
pub fn token_at(text: &str, line: u32, character: u32) -> (r: Option<String>)
    requires
        token_readable(text@, line, character),
    ensures
        match token_of(text@, line, character) {
            Some(t) => r matches Some(s) && s@ == t,
            None => r is None,
        },
{
    let cs = chars_of(text);
    let ls = lines(cs.as_slice());
    if line as usize >= ls.len() {
        return None;
    }
    let l = &ls[line as usize];
    assert(l@ == lines_of(text@)[line as int]);
    let k = match char_index_at(l, character as usize) {
        Some(k) => k,
        None => return None,
    };
    let ghost lt = lines_of(text@);
    let mut s: usize = k;
    while s > 0 && (is_alphanumeric(l[s - 1]) || l[s - 1] == '_' || l[s - 1] == '-')
        invariant
            s <= k <= l@.len(),
            lt == lines_of(text@),
            (line as int) < lt.len(),
            l@ == lt[line as int],
            char_at(l@, character as int, 0) == Some(k as int),
            ident_start(l@, s as int) == ident_start(l@, k as int),
        decreases s,
    {
        s = s - 1;
    }
    let mut e: usize = k;
    while e < l.len() && (is_alphanumeric(l[e]) || l[e] == '_' || l[e] == '-')
        invariant
            k <= e <= l@.len(),
            s <= k,
            ident_start(l@, k as int) == s,
            ident_end(l@, e as int) == ident_end(l@, k as int),
        decreases l@.len() - e,
    {
        e = e + 1;
    }
    let run = slice_chars(l.as_slice(), s, e);
    let (a, b) = trim_bounds(run.as_slice());
    if a == b {
        return None;
    }
    let tok = slice_chars(run.as_slice(), a, b);
    Some(string_of(&tok))
}

/// The name of the kind of a value.
pub open spec fn kind_name(m: TomlModel) -> Seq<char> {
    match m {
        TomlModel::Str(_) => "string"@,
        TomlModel::Int(_) => "integer"@,
        TomlModel::Float(_) => "float"@,
        TomlModel::Bool(_) => "boolean"@,
        TomlModel::Datetime(_) => "datetime"@,
        TomlModel::Array(_) => "array"@,
        TomlModel::Table(_) => "table"@,
    }
}

/// The name of the kind of `val`.
pub fn toml_kind_str(val: &TomlValue) -> (r: &'static str)
    ensures
        r@ == kind_name(val@),
{
    match val {
        TomlValue::String(_) => "string",
        TomlValue::Integer(_) => "integer",
        TomlValue::Float(_) => "float",
        TomlValue::Boolean(_) => "boolean",
        TomlValue::Datetime(_) => "datetime",
        TomlValue::Array(_) => "array",
        TomlValue::Table(_) => "table",
    }
}

/// `s` cut to its first `max` bytes with `…` appended, when it is longer.
pub open spec fn truncated(s: Seq<char>, max: int) -> Seq<char> {
    if byte_len(s) <= max {
        s
    } else {
        match char_at(s, max, 0) {
            Some(k) => s.take(k) + seq!['…'],
            None => s,
        }
    }
}

/// `s` cut to `max` bytes with `…` appended when it is longer (`max` must
/// fall on a character boundary of a longer `s`).
pub fn truncate(s: &str, max: usize) -> (r: String)
    requires
        byte_len(s@) <= max || char_at(s@, max as int, 0) is Some,
    ensures
        r@ == truncated(s@, max as int),
{
    let cs = chars_of(s);
    let cut_at = char_index_at(&cs, max);
    proof {
        crate::scan::lemma_byte_len_utf8(s@);
    }
    match cut_at {
        Some(k) => {
            if k == cs.len() {
                assert(cs@.take(k as int) =~= cs@);
                return owned(s);
            }
            proof {
                lemma_char_at_before(cs@, max as int, k as int);
            }
            let mut out = string_of(&slice_chars(cs.as_slice(), 0, k));
            assert(cs@.subrange(0, k as int) =~= cs@.take(k as int));
            push_char(&mut out, '…');
            assert(out@ =~= cs@.take(k as int) + seq!['…']);
            out
        },
        None => owned(s),
    }
}

/// A boundary found is where the prefix has that many bytes.
proof fn lemma_char_at_bound(l: Seq<char>, col: int, k: int)
    ensures
        char_at(l, col, k) matches Some(j) ==> 0 <= j <= l.len() && byte_len(l.take(j)) == col,
    decreases l.len() + 1 - k,
{
    if 0 <= k <= l.len() && byte_len(l.take(k)) < col {
        lemma_char_at_bound(l, col, k + 1);
    }
}

/// Cutting before the end leaves fewer bytes than the whole.
proof fn lemma_char_at_before(l: Seq<char>, col: int, k: int)
    requires
        0 <= k < l.len(),
        byte_len(l.take(k)) == col,
    ensures
        col < byte_len(l),
{
    lemma_byte_len_take(l, k);
    lemma_byte_len_take(l, k + 1);
    if k + 1 < l.len() {
        lemma_byte_len_take(l, k + 1);
    }
    assert(l.take(l.len() as int) =~= l);
    crate::scan::lemma_byte_len_subrange(l, 0, k + 1);
    assert(l.subrange(0, k + 1) =~= l.take(k + 1));
}

// ---------------------------------------------------------------------------
// Hover and completion
// ---------------------------------------------------------------------------

/// Hover content, as Markdown.
#[derive(Debug, Clone)]
pub struct Hover {
    pub contents: String,
}

/// The kinds of completion items.
#[derive(Debug, Clone, Copy, PartialEq, Eq)]
pub enum CompletionItemKind {
    Field,
}

/// A completion item: a key of the current table.
#[derive(Debug, Clone)]
pub struct CompletionItem {
    pub label: String,
    pub kind: Option<CompletionItemKind>,
    pub detail: Option<String>,
}

/// Where a table path is: the document root, or `[a.b]`.
pub open spec fn scope_text(path: Seq<Seq<char>>) -> Seq<char> {
    if path.len() == 0 {
        "document root"@
    } else {
        "["@ + crate::text::join(path, "."@) + "]"@
    }
}

/// The hover text of key `key` of kind `kind` in `scope`, with the value's
/// preview.
pub open spec fn hover_markdown(key: Seq<char>, kind: Seq<char>, scope: Seq<char>, preview: Seq<char>) -> Seq<char> {
    "**`"@ + key + "`** — *"@ + kind + "* in `"@ + scope + "`\n\n```toml\n"@ + key + " = "@ + preview
        + "\n```\n\n> star-toml-lsp: diagnostics only — does not grant q_config standing."@
}

/// The value hovered at `line`, `character` of `text` parsed as `parsed`:
/// the key under the cursor in the table in force at that line.
pub open spec fn hovered(parsed: Option<TomlModel>, text: Seq<char>, line: u32, character: u32) -> Option<(Seq<char>, TomlModel)> {
    match parsed {
        None => None,
        Some(val) => match token_of(text, line, character) {
            None => None,
            Some(key) => match navigate(val, table_path_at(text, line)) {
                Some(tbl) => if is_table(tbl) && table_of(tbl).contains_key(key) {
                    Some((key, table_of(tbl)[key]))
                } else {
                    None
                },
                None => None,
            },
        },
    }
}

/// The hover at `line`, `character`: the key, its kind, its table and its
/// value shown as TOML, cut to 120 bytes.
pub open spec fn hover_of(parsed: Option<TomlModel>, text: Seq<char>, line: u32, character: u32) -> Option<Seq<char>> {
    match hovered(parsed, text, line, character) {
        None => None,
        Some((key, child)) => Some(
            hover_markdown(key, kind_name(child), scope_text(table_path_at(text, line)), truncated(toml_shown(child), 120)),
        ),
    }
}

/// The shown value at the cursor can be cut at 120 bytes.
pub open spec fn preview_cuttable(parsed: Option<TomlModel>, text: Seq<char>, line: u32, character: u32) -> bool {
    match hovered(parsed, text, line, character) {
        None => true,
        Some((key, child)) => byte_len(toml_shown(child)) <= 120 || char_at(toml_shown(child), 120, 0) is Some,
    }
}

/// The keys of a table, each once, in increasing order.
pub open spec fn completion_labels(labels: Seq<Seq<char>>, tbl: Map<Seq<char>, TomlModel>) -> bool {
    &&& strictly_sorted(labels)
    &&& forall|k: Seq<char>| labels.contains(k) <==> tbl.contains_key(k)
}

// ---------------------------------------------------------------------------
// The analyzer
// ---------------------------------------------------------------------------

/// The range of a parse failure of `text`: the span the parser reports, as
/// positions, or the document start.
pub open spec fn parse_error_range(text: Seq<char>) -> Range {
    match toml_error_span(text) {
        Some((a, b)) => Range {
            start: offset_position(line_starts(text), a as int),
            end: offset_position(line_starts(text), b as int),
        },
        None => start_range(),
    }
}

/// The scans of a parsed document do not overflow a position and can take
/// apart every line.
pub open spec fn scans_ok(text: Seq<char>) -> bool {
    &&& lines_fit(text)
    &&& lines_of(text).len() <= u32::MAX
    &&& byte_len(text) <= usize::MAX
    &&& forall|k: int| 0 <= k < lines_of(text).len() ==> !lone_quote_line(#[trigger] lines_of(text)[k])
}

/// The diagnostics of a document: the parse failure alone, or the
/// duplicate keys, then the path scan, then the authority notes.
pub open spec fn analysis(text: Seq<char>) -> Seq<DiagnosticView> {
    match toml_parsed(text) {
        Err(m) => seq![made(parse_error_range(text), DiagnosticSeverity::Error, INVALID_TOML@, "TOML parse error: "@ + m)],
        Ok(_) => dup_scan(lines_of(text), lines_of(text).len()).diags
            + path_diagnostics_upto(lines_of(text), lines_of(text).len())
            + authority_diagnostics_upto(text, lines_of(text).len()),
    }
}

/// A document that can be analyzed: one that parses passes the scans.
pub open spec fn analyzable(text: Seq<char>) -> bool {
    &&& byte_len(text) <= usize::MAX
    &&& toml_parsed(text) is Ok ==> scans_ok(text)
}

/// The analysis of one document.
#[derive(Debug)]
pub struct StarTomlDocumentAnalyzer {
    /// The document's URI.
    pub uri: String,
    /// The document's text.
    pub text: String,
    /// The parsed tree, when the text parses.
    pub parsed: Option<TomlValue>,
    /// The diagnostics of the last analysis.
    pub diagnostics: Vec<Diagnostic>,
}

/// The model of a parsed tree.
pub open spec fn parsed_model(p: Option<TomlValue>) -> Option<TomlModel> {
    match p {
        Some(v) => Some(v@),
        None => None,
    }
}

impl StarTomlDocumentAnalyzer {
    /// The diagnostics of the last analysis.
    pub open spec fn diagnostics_view(&self) -> Seq<DiagnosticView> {
        diagnostic_views(self.diagnostics@)
    }

    /// The parsed tree is well formed.
    pub open spec fn wf(&self) -> bool {
        self.parsed matches Some(v) ==> value_wf(v)
    }

    /// Analyze `text` (see [`analysis`]).
    fn analyze(text: &String) -> (r: (Option<TomlValue>, Vec<Diagnostic>))
        requires
            analyzable(text@),
        ensures
            match toml_parsed(text@) {
                Ok(v) => r.0 matches Some(x) && x@ == v && value_wf(x),
                Err(_) => r.0 is None,
            },
            diagnostic_views(r.1@) == analysis(text@),
    {
        match parse_toml(text.as_str()) {
            Ok(val) => {
                let d1 = detect_duplicate_keys(text.as_str());
                let d2 = find_path_traversal_diagnostics(text.as_str());
                let d3 = find_authority_boundary_diagnostics(text.as_str());
                let mut out = d1;
                let mut d2m = d2;
                let mut d3m = d3;
                let ghost v1 = diagnostic_views(out@);
                let ghost v2 = diagnostic_views(d2m@);
                let ghost v3 = diagnostic_views(d3m@);
                out.append(&mut d2m);
                out.append(&mut d3m);
                assert(diagnostic_views(out@) =~= v1 + v2 + v3);
                (Some(val), out)
            },
            Err(e) => {
                proof {
                    crate::lsp::diagnostics::lemma_line_starts_sorted(text@);
                }
                let range = match e.span {
                    Some((a, b)) => {
                        let starts = line_start_offsets_any(text.as_str());
                        proof {
                            crate::lsp::diagnostics::lemma_starts_ok(starts@, text@);
                        }
                        Range { start: offset_to_position(a, starts.as_slice()), end: offset_to_position(b, starts.as_slice()) }
                    },
                    None => document_start(),
                };
                let mut out: Vec<Diagnostic> = Vec::new();
                let d = invalid_toml(range, e.message.as_str());
                out.push(d);
                assert(diagnostic_views(out@) =~= seq![d@]);
                (None, out)
            },
        }
    }

    /// Analyze the document `text` at `uri`.
    pub fn new(uri: String, text: String) -> (r: StarTomlDocumentAnalyzer)
        requires
            analyzable(text@),
        ensures
            r.uri == uri,
            r.text == text,
            r.wf(),
            parsed_model(r.parsed) == match toml_parsed(text@) {
                Ok(v) => Some(v),
                Err(_) => None::<TomlModel>,
            },
            r.diagnostics_view() == analysis(text@),
    {
        let (parsed, diagnostics) = Self::analyze(&text);
        StarTomlDocumentAnalyzer { uri, text, parsed, diagnostics }
    }

    /// Replace the text and analyze it again.
    pub fn update(&mut self, text: String)
        requires
            analyzable(text@),
        ensures
            final(self).uri == old(self).uri,
            final(self).text == text,
            final(self).wf(),
            parsed_model(final(self).parsed) == match toml_parsed(text@) {
                Ok(v) => Some(v),
                Err(_) => None::<TomlModel>,
            },
            final(self).diagnostics_view() == analysis(text@),
    {
        let (parsed, diagnostics) = Self::analyze(&text);
        self.text = text;
        self.parsed = parsed;
        self.diagnostics = diagnostics;
    }

    /// The diagnostics of the last analysis.
    pub fn diagnostics(&self) -> (r: Vec<Diagnostic>)
        ensures
            diagnostic_views(r@) == self.diagnostics_view(),
    {
        let mut out: Vec<Diagnostic> = Vec::new();
        let mut i: usize = 0;
        while i < self.diagnostics.len()
            invariant
                i <= self.diagnostics@.len(),
                diagnostic_views(out@) == diagnostic_views(self.diagnostics@).take(i as int),
            decreases self.diagnostics@.len() - i,
        {
            let d = copy_diagnostic(&self.diagnostics[i]);
            let ghost before = diagnostic_views(out@);
            out.push(d);
            assert(diagnostic_views(out@) =~= before.push(d@));
            assert(diagnostic_views(out@) =~= diagnostic_views(self.diagnostics@).take(i as int + 1));
            i = i + 1;
        }
        assert(diagnostic_views(self.diagnostics@).take(self.diagnostics@.len() as int) =~= diagnostic_views(self.diagnostics@));
        out
    }

    /// Add the diagnostics of the errors of a validation report, in order.
    pub fn merge_validation_errors(&mut self, errors: &crate::validation::ValidationErrors)
        requires
            byte_len(old(self).text@) <= u32::MAX,
        ensures
            final(self).uri == old(self).uri,
            final(self).text == old(self).text,
            final(self).parsed == old(self).parsed,
            final(self).diagnostics_view() == old(self).diagnostics_view() + Seq::new(
                errors@.errors.len(),
                |i: int| made(error_range(errors@.errors[i], old(self).text@), lsp_severity(errors@.errors[i].severity), crate::validation::kind_code(errors@.errors[i].kind), error_message(errors@.errors[i])),
            ),
    {
        let errs = errors.errors();
        let ghost d0 = diagnostic_views(self.diagnostics@);
        let ghost ev = errors@.errors;
        let mut i: usize = 0;
        while i < errs.len()
            invariant
                i <= errs@.len(),
                crate::validation::error_views(errs@) == ev,
                self.uri == old(self).uri,
                self.text == old(self).text,
                self.parsed == old(self).parsed,
                byte_len(self.text@) <= u32::MAX,
                diagnostic_views(self.diagnostics@) == d0 + Seq::new(
                    i as nat,
                    |k: int| made(error_range(ev[k], self.text@), lsp_severity(ev[k].severity), crate::validation::kind_code(ev[k].kind), error_message(ev[k])),
                ),
            decreases errs@.len() - i,
        {
            let d = from_validation_error(&errs[i], self.text.as_str());
            assert(errs@[i as int]@ == ev[i as int]);
            let ghost before = diagnostic_views(self.diagnostics@);
            self.diagnostics.push(d);
            assert(diagnostic_views(self.diagnostics@) =~= before.push(d@));
            i = i + 1;
        }
    }
}

/// The line starts of `text`, whose length fits memory.
fn line_start_offsets_any(text: &str) -> (r: Vec<usize>)
    requires
        byte_len(text@) <= usize::MAX,
    ensures
        r@.len() == line_starts(text@).len(),
        forall|k: int| 0 <= k < r@.len() ==> r@[k] as int == #[trigger] line_starts(text@)[k],
{
    line_start_offsets(text)
}

/// A copy of a diagnostic.
pub(crate) fn copy_diagnostic(d: &Diagnostic) -> (r: Diagnostic)
    ensures
        r@ == d@,
{
    Diagnostic {
        range: d.range,
        severity: d.severity,
        code: match &d.code {
            Some(c) => Some(crate::validation::copy_string(c)),
            None => None,
        },
        source: match &d.source {
            Some(c) => Some(crate::validation::copy_string(c)),
            None => None,
        },
        message: crate::validation::copy_string(&d.message),
    }
}

/// Whether a line's value is a lone quote (see [`lone_quote_line`]).
fn lone_quote(line: &Vec<char>) -> (r: bool)
    ensures
        r == lone_quote_line(line@),
{
    proof {
        reveal(lone_quote_line);
    }
    match crate::lsp::diagnostics::value_bounds_of(line) {
        None => false,
        Some((lo, hi)) => hi - lo == 1 && (line[lo] == '"' || line[lo] == '\''),
    }
}

/// Whether the scans of a parsed `text` can run (see [`scans_ok`]).
pub fn scans_possible(text: &str) -> (r: bool)
    requires
        byte_len(text@) <= usize::MAX,
    ensures
        r == scans_ok(text@),
{
    let cs = chars_of(text);
    let ls = lines(cs.as_slice());
    let ghost lv = lines_of(text@);
    if ls.len() > 0xFFFF_FFFF {
        return false;
    }
    let mut i: usize = 0;
    while i < ls.len()
        invariant
            i <= ls@.len(),
            ls@.len() == lv.len() <= u32::MAX,
            lv == lines_of(text@),
            byte_len(text@) <= usize::MAX,
            forall|k: int| 0 <= k < ls@.len() ==> (#[trigger] ls@[k])@ == lv[k],
            forall|k: int| 0 <= k < i ==> byte_len(#[trigger] lv[k]) < u32::MAX && !lone_quote_line(lv[k]),
        decreases ls@.len() - i,
    {
        let l = &ls[i];
        assert(l@ == lv[i as int]);
        proof {
            crate::scan::lemma_line_fits(text@, i as int);
            assert(l@.take(l@.len() as int) =~= l@);
        }
        let n = byte_len_of(l.as_slice(), l.len());
        if n >= 0xFFFF_FFFF {
            return false;
        }
        if lone_quote(l) {
            return false;
        }
        i = i + 1;
    }
    true
}

impl StarTomlDocumentAnalyzer {
    /// Analyze the document `text` at `uri`, unless it parses and one of
    /// its lines cannot be scanned (see [`scans_ok`]).
    pub fn try_new(uri: String, text: String) -> (r: Option<StarTomlDocumentAnalyzer>)
        requires
            byte_len(text@) <= usize::MAX,
        ensures
            r is None <==> (toml_parsed(text@) is Ok && !scans_ok(text@)),
            r matches Some(a) ==> a.uri == uri && a.text == text && a.wf() && a.diagnostics_view() == analysis(text@)
                && parsed_model(a.parsed) == match toml_parsed(text@) {
                    Ok(v) => Some(v),
                    Err(_) => None::<TomlModel>,
                },
    {
        let parses = match parse_toml(text.as_str()) {
            Ok(_) => true,
            Err(_) => false,
        };
        if parses && !scans_possible(text.as_str()) {
            return None;
        }
        Some(Self::new(uri, text))
    }

    /// The hover at `line`, `character` (see [`hover_of`]).
    pub fn hover_at(&self, line: u32, character: u32) -> (r: Option<Hover>)
        requires
            self.wf(),
            token_readable(self.text@, line, character),
            preview_cuttable(parsed_model(self.parsed), self.text@, line, character),
        ensures
            match hover_of(parsed_model(self.parsed), self.text@, line, character) {
                Some(h) => r matches Some(x) && x.contents@ == h,
                None => r is None,
            },
    {
        let val = match &self.parsed {
            Some(v) => v,
            None => return None,
        };
        let key = match token_at(self.text.as_str(), line, character) {
            Some(k) => k,
            None => return None,
        };
        let table_path = current_table_path(self.text.as_str(), line);
        let table = match navigate_to(val, &table_path) {
            Some(t) => t,
            None => return None,
        };
        if !table.is_table() {
            return None;
        }
        let child = match table.get(key.as_str()) {
            Some(c) => c,
            None => return None,
        };
        let kind = toml_kind_str(child);
        let shown = show_toml(child);
        let preview = truncate(shown.as_str(), 120);
        let mut scope = String::new();
        if table_path.len() == 0 {
            push_str(&mut scope, "document root");
        } else {
            push_str(&mut scope, "[");
            let joined = crate::text::join_strings(&table_path, ".");
            push_str(&mut scope, joined.as_str());
            push_str(&mut scope, "]");
        }
        assert(scope@ =~= scope_text(views(table_path@)));
        let mut md = owned("**`");
        push_str(&mut md, key.as_str());
        push_str(&mut md, "`** — *");
        push_str(&mut md, kind);
        push_str(&mut md, "* in `");
        push_str(&mut md, scope.as_str());
        push_str(&mut md, "`\n\n```toml\n");
        push_str(&mut md, key.as_str());
        push_str(&mut md, " = ");
        push_str(&mut md, preview.as_str());
        push_str(&mut md, "\n```\n\n> star-toml-lsp: diagnostics only — does not grant q_config standing.");
        assert(md@ =~= hover_markdown(key@, kind@, scope@, preview@));
        Some(Hover { contents: md })
    }

    /// The hover at `line`, `character`, or none when its value cannot be
    /// cut to a preview (see [`preview_cuttable`]).
    pub fn hover_at_checked(&self, line: u32, character: u32) -> (r: Option<Hover>)
        requires
            self.wf(),
            token_readable(self.text@, line, character),
        ensures
            preview_cuttable(parsed_model(self.parsed), self.text@, line, character) ==> match hover_of(
                parsed_model(self.parsed),
                self.text@,
                line,
                character,
            ) {
                Some(h) => r matches Some(x) && x.contents@ == h,
                None => r is None,
            },
            !preview_cuttable(parsed_model(self.parsed), self.text@, line, character) ==> r is None,
    {
        let val = match &self.parsed {
            Some(v) => v,
            None => return None,
        };
        let key = match token_at(self.text.as_str(), line, character) {
            Some(k) => k,
            None => return None,
        };
        let table_path = current_table_path(self.text.as_str(), line);
        let table = match navigate_to(val, &table_path) {
            Some(t) => t,
            None => return None,
        };
        if !table.is_table() {
            return None;
        }
        let child = match table.get(key.as_str()) {
            Some(c) => c,
            None => return None,
        };
        let shown = show_toml(child);
        proof {
            crate::scan::lemma_byte_len_utf8(shown@);
        }
        let sc = chars_of(shown.as_str());
        let total = crate::digest::utf8_of_chars(sc.as_slice()).len();
        if total > 120 && char_index_at(&sc, 120).is_none() {
            return None;
        }
        self.hover_at(line, character)
    }

    /// The keys of the table in force at `line`, in increasing order, as
    /// completion items; none when the document did not parse or the path
    /// does not lead to a table.
    pub fn completion_at(&self, line: u32, character: u32) -> (r: Vec<CompletionItem>)
        requires
            self.wf(),
        ensures
            match self.parsed {
                None => r@.len() == 0,
                Some(v) => match navigate(v@, table_path_at(self.text@, line)) {
                    Some(t) => if is_table(t) {
                        &&& completion_labels(Seq::new(r@.len(), |i: int| r@[i].label@), table_of(t))
                        &&& forall|i: int| 0 <= i < r@.len() ==> (#[trigger] r@[i]).kind == Some(CompletionItemKind::Field)
                            && (r@[i].detail matches Some(d) && d@ == "key in ["@ + crate::text::join(table_path_at(self.text@, line), "."@) + "]"@)
                    } else {
                        r@.len() == 0
                    },
                    None => r@.len() == 0,
                },
            },
    {
        let val = match &self.parsed {
            Some(v) => v,
            None => return Vec::new(),
        };
        let table_path = current_table_path(self.text.as_str(), line);
        let table = match navigate_to(val, &table_path) {
            Some(t) => t,
            None => return Vec::new(),
        };
        let entries = match table {
            TomlValue::Table(e) => e,
            _ => return Vec::new(),
        };
        let keys = sorted_keys(entries);
        let mut detail_text = owned("key in [");
        let joined = crate::text::join_strings(&table_path, ".");
        push_str(&mut detail_text, joined.as_str());
        push_str(&mut detail_text, "]");
        let mut out: Vec<CompletionItem> = Vec::new();
        let mut i: usize = 0;
        while i < keys.len()
            invariant
                i <= keys@.len(),
                out@.len() == i,
                forall|k: int| 0 <= k < i ==> (#[trigger] out@[k]).label@ == keys@[k]@,
                forall|k: int| 0 <= k < i ==> (#[trigger] out@[k]).kind == Some(CompletionItemKind::Field)
                    && (out@[k].detail matches Some(d) && d@ == detail_text@),
            decreases keys@.len() - i,
        {
            out.push(CompletionItem {
                label: string_of(&keys[i]),
                kind: Some(CompletionItemKind::Field),
                detail: Some(crate::validation::copy_string(&detail_text)),
            });
            i = i + 1;
        }
        assert(Seq::new(out@.len(), |i: int| out@[i].label@) =~= cviews(keys@));
        out
    }
}

/// The keys of table entries with distinct keys, each once, in increasing
/// order.
fn sorted_keys(entries: &Vec<(String, TomlValue)>) -> (r: Vec<Vec<char>>)
    requires
        crate::value::keys_distinct(entries@),
    ensures
        completion_labels(cviews(r@), crate::value::entries_map(entries@)),
{
    let mut keys: Vec<Vec<char>> = Vec::new();
    let mut i: usize = 0;
    while i < entries.len()
        invariant
            i <= entries@.len(),
            cviews(keys@) == Seq::new(i as nat, |k: int| entries@[k].0@),
        decreases entries@.len() - i,
    {
        let ghost before = cviews(keys@);
        keys.push(chars_of(entries[i].0.as_str()));
        assert(cviews(keys@) =~= before.push(entries@[i as int].0@));
        assert(Seq::new(i as nat + 1, |k: int| entries@[k].0@) =~= Seq::new(i as nat, |k: int| entries@[k].0@).push(entries@[i as int].0@));
        i = i + 1;
    }
    let ghost ks = cviews(keys@);
    let sorted = sort_texts(keys);
    proof {
        let sv = cviews(sorted@);
        assert(ks.no_duplicates()) by {
            assert forall|a: int, b: int| 0 <= a < ks.len() && 0 <= b < ks.len() && a != b implies ks[a] != ks[b] by {
                assert(ks[a] == entries@[a].0@ && ks[b] == entries@[b].0@);
            }
        }
        lemma_sorted_distinct_strict(sv, ks);
        assert forall|k: Seq<char>| sv.contains(k) <==> crate::value::entries_map(entries@).contains_key(k) by {
            crate::value::lemma_entries_map_dom(entries@, k);
            if ks.contains(k) {
                let j = choose|j: int| 0 <= j < ks.len() && ks[j] == k;
                assert(entries@[j].0@ == k);
            }
            if crate::value::entries_map(entries@).contains_key(k) {
                let j = choose|j: int| 0 <= j < entries@.len() && #[trigger] entries@[j].0@ == k;
                assert(ks[j] == k);
            }
        }
    }
    sorted
}

/// A sorted sequence with the same elements as one without duplicates is
/// strictly sorted and holds the same elements.
proof fn lemma_sorted_distinct_strict(sv: Seq<Seq<char>>, ks: Seq<Seq<char>>)
    requires
        vstd::relations::sorted_by(sv, lex_order()),
        sv.to_multiset() == ks.to_multiset(),
        ks.no_duplicates(),
    ensures
        strictly_sorted(sv),
        forall|k: Seq<char>| sv.contains(k) <==> ks.contains(k),
{
    broadcast use vstd::seq_lib::group_to_multiset_ensures;
    ks.lemma_multiset_has_no_duplicates();
    assert forall|x: Seq<char>| sv.to_multiset().contains(x) implies sv.to_multiset().count(x) == 1 by {
        assert(ks.to_multiset().contains(x));
    }
    sv.lemma_multiset_has_no_duplicates_conv();
    assert forall|k: Seq<char>| sv.contains(k) <==> ks.contains(k) by {
        vstd::seq_lib::to_multiset_contains(sv, k);
        vstd::seq_lib::to_multiset_contains(ks, k);
    }
    assert forall|a: int, b: int| 0 <= a < b < sv.len() implies lex_le(sv[a], sv[b]) && sv[a] != sv[b] by {
        assert(lex_order()(sv[a], sv[b]));
    }
}

} // verus!
