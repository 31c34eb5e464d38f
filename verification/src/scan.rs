//! Scanning text as `str` does: byte lengths in UTF-8, lines, whitespace
//! trimming and substring search, each with its specification.

use vstd::prelude::*;
use crate::digest::{utf8, utf8_char};
use crate::lexical::{split_on, split_chars};

verus! {

// ---------------------------------------------------------------------------
// Byte lengths
// ---------------------------------------------------------------------------

/// The number of bytes of `c` in UTF-8.
pub open spec fn char_width(c: char) -> nat {
    let x = c as int;
    if x < 0x80 {
        1
    } else if x < 0x800 {
        2
    } else if x < 0x10000 {
        3
    } else {
        4
    }
}

/// The number of bytes of `s` in UTF-8 (`str::len`).
pub open spec fn byte_len(s: Seq<char>) -> nat
    decreases s.len(),
{
    if s.len() == 0 {
        0
    } else {
        byte_len(s.drop_last()) + char_width(s.last())
    }
}

/// The byte length is the length of the UTF-8 encoding.
pub proof fn lemma_byte_len_utf8(s: Seq<char>)
    ensures
        byte_len(s) == utf8(s).len(),
    decreases s.len(),
{
    if s.len() > 0 {
        lemma_byte_len_utf8(s.drop_last());
    }
}

/// Byte lengths add up over concatenation.
pub proof fn lemma_byte_len_concat(a: Seq<char>, b: Seq<char>)
    ensures
        byte_len(a + b) == byte_len(a) + byte_len(b),
    decreases b.len(),
{
    if b.len() == 0 {
        assert(a + b =~= a);
    } else {
        lemma_byte_len_concat(a, b.drop_last());
        assert((a + b).drop_last() =~= a + b.drop_last());
    }
}

/// A prefix is no longer in bytes than the whole.
pub proof fn lemma_byte_len_take(s: Seq<char>, n: int)
    requires
        0 <= n <= s.len(),
    ensures
        byte_len(s.take(n)) <= byte_len(s),
        n < s.len() ==> byte_len(s.take(n + 1)) == byte_len(s.take(n)) + char_width(s[n]),
    decreases s.len(),
{
    assert(s.take(n) + s.skip(n) =~= s);
    lemma_byte_len_concat(s.take(n), s.skip(n));
    if n < s.len() {
        assert(s.take(n + 1).drop_last() =~= s.take(n));
    }
}

/// The number of bytes of `c` in UTF-8.
pub fn char_width_of(c: char) -> (r: usize)
    ensures
        r == char_width(c),
{
    let x: u32 = c as u32;
    assert(x as int == c as int);
    if x < 0x80 {
        1
    } else if x < 0x800 {
        2
    } else if x < 0x10000 {
        3
    } else {
        4
    }
}

/// The byte length of the first `n` characters of `s`, when it fits.
pub fn byte_len_of(s: &[char], n: usize) -> (r: usize)
    requires
        n <= s@.len(),
        byte_len(s@.take(n as int)) <= usize::MAX,
    ensures
        r == byte_len(s@.take(n as int)),
{
    let mut total: usize = 0;
    let mut i: usize = 0;
    while i < n
        invariant
            i <= n <= s@.len(),
            byte_len(s@.take(n as int)) <= usize::MAX,
            total == byte_len(s@.take(i as int)),
        decreases n - i,
    {
        proof {
            lemma_byte_len_take(s@.take(n as int), i as int + 1);
            assert(s@.take(n as int).take(i as int + 1) =~= s@.take(i as int + 1));
            lemma_byte_len_take(s@, i as int);
        }
        total = total + char_width_of(s[i]);
        i = i + 1;
    }
    total
}

// ---------------------------------------------------------------------------
// Whitespace
// ---------------------------------------------------------------------------

/// Unicode white space (`char::is_whitespace`).
pub open spec fn is_ws(c: char) -> bool {
    let x = c as int;
    (0x09 <= x && x <= 0x0D) || x == 0x20 || x == 0x85 || x == 0xA0 || x == 0x1680
        || (0x2000 <= x && x <= 0x200A) || x == 0x2028 || x == 0x2029 || x == 0x202F || x == 0x205F
        || x == 0x3000
}

/// Whether `c` is Unicode white space.
pub fn ws_char(c: char) -> (r: bool)
    ensures
        r == is_ws(c),
{
    let x: u32 = c as u32;
    assert(x as int == c as int);
    (0x09 <= x && x <= 0x0D) || x == 0x20 || x == 0x85 || x == 0xA0 || x == 0x1680
        || (0x2000 <= x && x <= 0x200A) || x == 0x2028 || x == 0x2029 || x == 0x202F || x == 0x205F
        || x == 0x3000
}

/// `s` without its leading white space.
pub open spec fn trim_start(s: Seq<char>) -> Seq<char>
    decreases s.len(),
{
    if s.len() > 0 && is_ws(s[0]) {
        trim_start(s.drop_first())
    } else {
        s
    }
}

/// `s` without its trailing white space.
pub open spec fn trim_end(s: Seq<char>) -> Seq<char>
    decreases s.len(),
{
    if s.len() > 0 && is_ws(s.last()) {
        trim_end(s.drop_last())
    } else {
        s
    }
}

/// `s` without leading and trailing white space (`str::trim`).
pub open spec fn trim(s: Seq<char>) -> Seq<char> {
    trim_end(trim_start(s))
}

/// `trim_start(s)` is the suffix of `s` from its first non-space.
proof fn lemma_trim_start_skip(s: Seq<char>, i: int)
    requires
        0 <= i <= s.len(),
        forall|k: int| 0 <= k < i ==> is_ws(#[trigger] s[k]),
        i == s.len() || !is_ws(s[i]),
    ensures
        trim_start(s) == s.skip(i),
    decreases s.len(),
{
    if i == 0 {
        assert(s.skip(0) =~= s);
    } else {
        assert(is_ws(s[0]));
        assert forall|k: int| 0 <= k < i - 1 implies is_ws(#[trigger] s.drop_first()[k]) by {
            assert(s.drop_first()[k] == s[k + 1]);
        }
        lemma_trim_start_skip(s.drop_first(), i - 1);
        assert(s.drop_first().skip(i - 1) =~= s.skip(i));
    }
}

/// `trim_end(s)` is the prefix of `s` up to its last non-space.
proof fn lemma_trim_end_take(s: Seq<char>, j: int)
    requires
        0 <= j <= s.len(),
        forall|k: int| j <= k < s.len() ==> is_ws(#[trigger] s[k]),
        j == 0 || !is_ws(s[j - 1]),
    ensures
        trim_end(s) == s.take(j),
    decreases s.len(),
{
    if j == s.len() {
        assert(s.take(j) =~= s);
    } else {
        assert(is_ws(s.last()));
        assert forall|k: int| j <= k < s.drop_last().len() implies is_ws(#[trigger] s.drop_last()[k]) by {
            assert(s.drop_last()[k] == s[k]);
        }
        lemma_trim_end_take(s.drop_last(), j);
        assert(s.drop_last().take(j) =~= s.take(j));
    }
}

/// The bounds `(i, j)` of the trimmed part of `s`: `trim(s) == s[i..j]`.
pub fn trim_bounds(s: &[char]) -> (r: (usize, usize))
    ensures
        r.0 <= r.1 <= s@.len(),
        trim(s@) == s@.subrange(r.0 as int, r.1 as int),
{
    let n = s.len();
    let mut i: usize = 0;
    while i < n && ws_char(s[i])
        invariant
            i <= n == s@.len(),
            forall|k: int| 0 <= k < i ==> is_ws(#[trigger] s@[k]),
        decreases n - i,
    {
        i = i + 1;
    }
    proof {
        lemma_trim_start_skip(s@, i as int);
    }
    let ghost t = s@.skip(i as int);
    let mut j: usize = n;
    while j > i && ws_char(s[j - 1])
        invariant
            i <= j <= n == s@.len(),
            forall|k: int| j <= k < n ==> is_ws(#[trigger] s@[k]),
        decreases j,
    {
        j = j - 1;
    }
    proof {
        assert forall|k: int| (j - i) <= k < t.len() implies is_ws(#[trigger] t[k]) by {
            assert(t[k] == s@[k + i]);
        }
        if j > i {
            assert(t[j - i - 1] == s@[j - 1]);
        }
        lemma_trim_end_take(t, j - i);
        assert(t.take(j - i) =~= s@.subrange(i as int, j as int));
    }
    (i, j)
}

// ---------------------------------------------------------------------------
// Lines
// ---------------------------------------------------------------------------

/// A line ended by `\n`, without a `\r` before it.
pub open spec fn strip_cr(l: Seq<char>) -> Seq<char> {
    if l.len() > 0 && l.last() == '\r' {
        l.drop_last()
    } else {
        l
    }
}

/// The lines of `s` (`str::lines`): split at `\n`, each line ended by `\n`
/// without a `\r` before it, and the text after the last `\n` a line only
/// when it is not empty.
pub open spec fn lines_of(s: Seq<char>) -> Seq<Seq<char>> {
    let p = split_on(s, '\n');
    let ended = Seq::new((p.len() - 1) as nat, |i: int| strip_cr(p[i]));
    if p.last().len() > 0 {
        ended.push(p.last())
    } else {
        ended
    }
}

/// Every piece of a split is no longer in bytes than the text.
pub proof fn lemma_split_piece_fits(s: Seq<char>, d: char)
    ensures
        forall|k: int| 0 <= k < split_on(s, d).len() ==> byte_len(#[trigger] split_on(s, d)[k]) <= byte_len(s),
    decreases s.len(),
{
    if s.len() > 0 {
        lemma_split_piece_fits(s.drop_last(), d);
        crate::lexical::lemma_split_on_nonempty(s.drop_last(), d);
        let r = split_on(s.drop_last(), d);
        if s.last() == d {
            assert forall|k: int| 0 <= k < split_on(s, d).len() implies byte_len(#[trigger] split_on(s, d)[k]) <= byte_len(s) by {
                if k < r.len() {
                    assert(split_on(s, d)[k] == r[k]);
                } else {
                    assert(split_on(s, d)[k] =~= Seq::<char>::empty());
                }
            }
        } else {
            assert forall|k: int| 0 <= k < split_on(s, d).len() implies byte_len(#[trigger] split_on(s, d)[k]) <= byte_len(s) by {
                if k < r.len() - 1 {
                    assert(split_on(s, d)[k] == r[k]);
                } else {
                    let l = r.last().push(s.last());
                    assert(split_on(s, d)[k] == l);
                    assert(l.drop_last() =~= r.last());
                    assert(r[r.len() - 1] == r.last());
                }
            }
        }
    }
}

/// Every line of `text` is no longer in bytes than `text`.
pub proof fn lemma_line_fits(text: Seq<char>, k: int)
    requires
        0 <= k < lines_of(text).len(),
    ensures
        byte_len(lines_of(text)[k]) <= byte_len(text),
{
    lemma_split_piece_fits(text, '\n');
    crate::lexical::lemma_split_on_nonempty(text, '\n');
    let p = split_on(text, '\n');
    if k < p.len() - 1 {
        assert(byte_len(p[k]) <= byte_len(text));
        let l = p[k];
        if l.len() > 0 && l.last() == '\r' {
            assert(byte_len(l) == byte_len(l.drop_last()) + char_width(l.last()));
        }
    } else {
        assert(lines_of(text)[k] == p.last());
        assert(p[p.len() - 1] == p.last());
    }
}

/// The lines of `s` (see [`lines_of`]).
pub fn lines(s: &[char]) -> (r: Vec<Vec<char>>)
    ensures
        r@.len() == lines_of(s@).len(),
        forall|k: int| 0 <= k < r@.len() ==> (#[trigger] r@[k])@ == lines_of(s@)[k],
{
    let parts = split_chars(s, '\n');
    let ghost p = split_on(s@, '\n');
    proof {
        crate::lexical::lemma_split_on_nonempty(s@, '\n');
    }
    let n = parts.len();
    let mut out: Vec<Vec<char>> = Vec::new();
    let mut i: usize = 0;
    while i + 1 < n
        invariant
            n == parts@.len() == p.len(),
            n >= 1,
            i + 1 <= n,
            forall|k: int| 0 <= k < n ==> (#[trigger] parts@[k])@ == p[k],
            out@.len() == i,
            forall|k: int| 0 <= k < i ==> (#[trigger] out@[k])@ == strip_cr(p[k]),
        decreases n - i,
    {
        let piece = &parts[i];
        let m = piece.len();
        let mut line: Vec<char> = Vec::new();
        let keep = if m > 0 && piece[m - 1] == '\r' {
            m - 1
        } else {
            m
        };
        let mut k: usize = 0;
        while k < keep
            invariant
                k <= keep <= m == piece@.len(),
                line@ == piece@.take(k as int),
            decreases keep - k,
        {
            line.push(piece[k]);
            assert(line@ =~= piece@.take(k as int + 1));
            k = k + 1;
        }
        assert(line@ =~= strip_cr(p[i as int]));
        out.push(line);
        i = i + 1;
    }
    let last = &parts[n - 1];
    if last.len() > 0 {
        let mut line: Vec<char> = Vec::new();
        let mut k: usize = 0;
        while k < last.len()
            invariant
                k <= last@.len(),
                line@ == last@.take(k as int),
            decreases last@.len() - k,
        {
            line.push(last[k]);
            assert(line@ =~= last@.take(k as int + 1));
            k = k + 1;
        }
        assert(line@ =~= last@);
        out.push(line);
    }
    out
}

// ---------------------------------------------------------------------------
// Search
// ---------------------------------------------------------------------------

/// `needle` occurs in `hay` at character index `i`.
pub open spec fn occurs_at(hay: Seq<char>, needle: Seq<char>, i: int) -> bool {
    0 <= i && i + needle.len() <= hay.len() && hay.subrange(i, i + needle.len()) == needle
}

/// The first character index at or after `i` where `needle` occurs in
/// `hay`; `hay.len() + 1` when there is none.
pub open spec fn first_from(hay: Seq<char>, needle: Seq<char>, i: int) -> int
    decreases hay.len() + 1 - i,
{
    if i < 0 || i > hay.len() {
        hay.len() + 1int
    } else if occurs_at(hay, needle, i) {
        i
    } else {
        first_from(hay, needle, i + 1)
    }
}

/// The character index of the first occurrence of `needle` in `hay`
/// (`hay.len() + 1` when it does not occur).
pub open spec fn first_occurrence(hay: Seq<char>, needle: Seq<char>) -> int {
    first_from(hay, needle, 0)
}

/// `needle` occurs in `hay`.
pub open spec fn occurs(hay: Seq<char>, needle: Seq<char>) -> bool {
    first_occurrence(hay, needle) <= hay.len()
}

/// Past the last place a needle fits, it is not found.
proof fn lemma_first_from_past(hay: Seq<char>, needle: Seq<char>, i: int)
    requires
        0 <= i,
        i + needle.len() > hay.len(),
    ensures
        first_from(hay, needle, i) == hay.len() + 1,
    decreases hay.len() + 1 - i,
{
    if i <= hay.len() {
        lemma_first_from_past(hay, needle, i + 1);
    }
}

/// What the search from `i` finds is an occurrence at or after `i`.
pub proof fn lemma_first_from_found(hay: Seq<char>, needle: Seq<char>, i: int)
    requires
        0 <= i <= hay.len() + 1,
    ensures
        first_from(hay, needle, i) <= hay.len() ==> occurs_at(hay, needle, first_from(hay, needle, i)),
        first_from(hay, needle, i) >= i,
    decreases hay.len() + 1 - i,
{
    if i <= hay.len() && !occurs_at(hay, needle, i) {
        lemma_first_from_found(hay, needle, i + 1);
    }
}

/// An occurrence at `i` means the needle occurs, first at or before `i`.
pub proof fn lemma_occurs_at_found(hay: Seq<char>, needle: Seq<char>, i: int)
    requires
        occurs_at(hay, needle, i),
    ensures
        occurs(hay, needle),
        first_occurrence(hay, needle) <= i,
{
    lemma_first_from_upto(hay, needle, 0, i);
}

/// Searching from `j` at or before an occurrence at `i` finds one at or
/// before `i`.
proof fn lemma_first_from_upto(hay: Seq<char>, needle: Seq<char>, j: int, i: int)
    requires
        0 <= j <= i,
        occurs_at(hay, needle, i),
    ensures
        first_from(hay, needle, j) <= i,
    decreases i - j,
{
    if !occurs_at(hay, needle, j) {
        lemma_first_from_upto(hay, needle, j + 1, i);
    }
}

/// The first occurrence of `needle` in `hay` (`str::find`, by character
/// index).
pub fn find_chars(hay: &[char], needle: &[char]) -> (r: Option<usize>)
    ensures
        r is Some <==> occurs(hay@, needle@),
        r matches Some(i) ==> i == first_occurrence(hay@, needle@) && occurs_at(hay@, needle@, i as int),
{
    let n = hay.len();
    let m = needle.len();
    if m > n {
        proof {
            lemma_first_from_past(hay@, needle@, 0);
        }
        return None;
    }
    let mut i: usize = 0;
    while i <= n - m
        invariant
            m == needle@.len(),
            n == hay@.len(),
            m <= n,
            i <= n - m + 1,
            first_from(hay@, needle@, 0) == first_from(hay@, needle@, i as int),
        decreases n - i,
    {
        let mut k: usize = 0;
        let mut same = true;
        while k < m
            invariant
                k <= m,
                i + m <= n,
                m == needle@.len(),
                n == hay@.len(),
                same == forall|q: int| 0 <= q < k ==> hay@[i + q] == needle@[q],
            decreases m - k,
        {
            if hay[i + k] != needle[k] {
                same = false;
            }
            k = k + 1;
        }
        if same {
            assert(hay@.subrange(i as int, i + m) =~= needle@);
            assert(occurs_at(hay@, needle@, i as int));
            return Some(i);
        }
        assert(!occurs_at(hay@, needle@, i as int)) by {
            if occurs_at(hay@, needle@, i as int) {
                let q = choose|q: int| 0 <= q < m && hay@[i + q] != needle@[q];
                assert(hay@.subrange(i as int, i + m)[q] == hay@[i + q]);
            }
        }
        i = i + 1;
    }
    proof {
        lemma_first_from_past(hay@, needle@, i as int);
    }
    None
}

/// An occurrence ends within the text.
pub proof fn lemma_occurrence_fits_chars(text: Seq<char>, needle: Seq<char>, i: int)
    requires
        occurs_at(text, needle, i),
    ensures
        byte_len(text.take(i)) + byte_len(needle) <= byte_len(text),
{
    lemma_byte_len_take(text, i + needle.len());
    assert(text.take(i + needle.len()) =~= text.take(i) + needle) by {
        assert(text.subrange(i, i + needle.len()) == needle);
    }
    lemma_byte_len_concat(text.take(i), needle);
}

/// A part of a text is no longer in bytes than the text.
pub proof fn lemma_byte_len_subrange(s: Seq<char>, a: int, b: int)
    requires
        0 <= a <= b <= s.len(),
    ensures
        byte_len(s.subrange(a, b)) <= byte_len(s),
{
    lemma_byte_len_take(s, b);
    assert(s.take(b) =~= s.take(a) + s.subrange(a, b));
    lemma_byte_len_concat(s.take(a), s.subrange(a, b));
}

/// `s` with every `a` replaced by `b`.
pub open spec fn replace_char(s: Seq<char>, a: char, b: char) -> Seq<char> {
    Seq::new(s.len(), |i: int| if s[i] == a { b } else { s[i] })
}

/// `s` with every `a` replaced by `b`.
pub fn replace_chars(s: &[char], a: char, b: char) -> (r: Vec<char>)
    ensures
        r@ == replace_char(s@, a, b),
{
    let mut out: Vec<char> = Vec::new();
    let mut i: usize = 0;
    while i < s.len()
        invariant
            i <= s@.len(),
            out@ == replace_char(s@, a, b).take(i as int),
        decreases s@.len() - i,
    {
        out.push(if s[i] == a { b } else { s[i] });
        assert(out@ =~= replace_char(s@, a, b).take(i as int + 1));
        i = i + 1;
    }
    assert(replace_char(s@, a, b).take(s@.len() as int) =~= replace_char(s@, a, b));
    out
}

/// A copy of `s[from..to]`.
pub fn slice_chars(s: &[char], from: usize, to: usize) -> (r: Vec<char>)
    requires
        from <= to <= s@.len(),
    ensures
        r@ == s@.subrange(from as int, to as int),
{
    let mut out: Vec<char> = Vec::new();
    let mut i: usize = from;
    while i < to
        invariant
            from <= i <= to <= s@.len(),
            out@ == s@.subrange(from as int, i as int),
        decreases to - i,
    {
        out.push(s[i]);
        assert(out@ =~= s@.subrange(from as int, i as int + 1));
        i = i + 1;
    }
    out
}

} // verus!
