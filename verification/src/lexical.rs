//! Character classes and literal recognizers on character sequences.
//!
//! These describe, as specifications and as verified executable code, the
//! textual forms the library accepts: ASCII case folding, decimal digits,
//! the grammar of `i64` and `f64` literals accepted by Rust's `FromStr`, and
//! simple searches.

use vstd::prelude::*;

verus! {

/// An ASCII decimal digit.
pub open spec fn is_digit(c: char) -> bool {
    '0' <= c && c <= '9'
}

/// An ASCII letter or digit.
pub open spec fn is_ascii_alnum(c: char) -> bool {
    is_digit(c) || ('a' <= c && c <= 'z') || ('A' <= c && c <= 'Z')
}

/// ASCII lower-casing of one character (other characters are unchanged).
pub open spec fn ascii_lower(c: char) -> char {
    if 'A' <= c && c <= 'Z' {
        ((c as int) + 32) as char
    } else {
        c
    }
}

/// ASCII upper-casing of one character (other characters are unchanged).
pub open spec fn ascii_upper(c: char) -> char {
    if 'a' <= c && c <= 'z' {
        ((c as int) - 32) as char
    } else {
        c
    }
}

/// ASCII lower-casing of a sequence.
pub open spec fn lower_seq(s: Seq<char>) -> Seq<char> {
    Seq::new(s.len(), |i: int| ascii_lower(s[i]))
}

/// ASCII upper-casing of a sequence.
pub open spec fn upper_seq(s: Seq<char>) -> Seq<char> {
    Seq::new(s.len(), |i: int| ascii_upper(s[i]))
}

/// Equality up to ASCII case.
pub open spec fn eq_ignore_case(s: Seq<char>, t: Seq<char>) -> bool {
    s.len() == t.len() && forall|i: int| 0 <= i < s.len() ==> ascii_lower(#[trigger] s[i]) == ascii_lower(t[i])
}

/// Every character is an ASCII digit.
pub open spec fn all_digits(s: Seq<char>) -> bool {
    forall|i: int| 0 <= i < s.len() ==> is_digit(#[trigger] s[i])
}

/// The value of a run of ASCII digits.
pub open spec fn digits_value(s: Seq<char>) -> int
    decreases s.len(),
{
    if s.len() == 0 {
        0
    } else {
        digits_value(s.drop_last()) * 10 + ((s.last() as int) - ('0' as int))
    }
}

/// `s` without one leading `+` or `-`.
pub open spec fn unsigned_part(s: Seq<char>) -> Seq<char> {
    if s.len() > 0 && (s[0] == '+' || s[0] == '-') {
        s.drop_first()
    } else {
        s
    }
}

/// The value `i64::from_str` gives for `s`: an optional sign, then one or more
/// ASCII digits, with the value in the range of `i64`.
pub open spec fn i64_literal(s: Seq<char>) -> Option<int> {
    let body = unsigned_part(s);
    let neg = s.len() > 0 && s[0] == '-';
    if body.len() > 0 && all_digits(body) {
        let v = if neg {
            -digits_value(body)
        } else {
            digits_value(body)
        };
        if i64::MIN <= v && v <= i64::MAX {
            Some(v)
        } else {
            None
        }
    } else {
        None
    }
}

/// The value `u64::from_str` gives for `s`: an optional `+`, then one or more
/// ASCII digits, with the value in the range of `u64`.
pub open spec fn u64_literal(s: Seq<char>) -> Option<int> {
    let body = if s.len() > 0 && s[0] == '+' {
        s.drop_first()
    } else {
        s
    };
    if body.len() > 0 && all_digits(body) && digits_value(body) <= u64::MAX {
        Some(digits_value(body))
    } else {
        None
    }
}

/// The number of times `c` occurs in `s`.
pub open spec fn count_of(s: Seq<char>, c: char) -> nat
    decreases s.len(),
{
    if s.len() == 0 {
        0
    } else {
        count_of(s.drop_last(), c) + if s.last() == c {
            1nat
        } else {
            0nat
        }
    }
}

/// The index of the first `e` or `E` in `s` (the length of `s` when there is none).
pub open spec fn exp_pos(s: Seq<char>) -> int
    decreases s.len(),
{
    if s.len() == 0 {
        0
    } else if s[0] == 'e' || s[0] == 'E' {
        0
    } else {
        1 + exp_pos(s.drop_first())
    }
}

/// A mantissa: digits with at most one `.`, and at least one digit.
pub open spec fn is_mantissa(m: Seq<char>) -> bool {
    &&& forall|i: int| 0 <= i < m.len() ==> is_digit(#[trigger] m[i]) || m[i] == '.'
    &&& count_of(m, '.') <= 1
    &&& exists|i: int| 0 <= i < m.len() && is_digit(#[trigger] m[i])
}

/// An exponent body: an optional sign, then one or more digits.
pub open spec fn is_exponent(x: Seq<char>) -> bool {
    let y = unsigned_part(x);
    y.len() > 0 && all_digits(y)
}

/// A decimal number: a mantissa, optionally followed by `e`/`E` and an exponent.
pub open spec fn is_decimal(b: Seq<char>) -> bool {
    let p = exp_pos(b);
    is_mantissa(b.take(p)) && (p == b.len() || is_exponent(b.skip(p + 1)))
}

/// The grammar of `f64::from_str`: an optional sign, then `inf`, `infinity`,
/// `nan` (in any ASCII case), or a decimal number.
pub open spec fn is_float_literal(s: Seq<char>) -> bool {
    let b = unsigned_part(s);
    ||| eq_ignore_case(b, seq!['i', 'n', 'f'])
    ||| eq_ignore_case(b, seq!['i', 'n', 'f', 'i', 'n', 'i', 't', 'y'])
    ||| eq_ignore_case(b, seq!['n', 'a', 'n'])
    ||| is_decimal(b)
}

/// Whether `c` occurs in `s`.
pub open spec fn has_char(s: Seq<char>, c: char) -> bool {
    exists|i: int| 0 <= i < s.len() && s[i] == c
}

/// `s` split at every `d`, like `str::split` (the empty text splits into one empty piece).
pub open spec fn split_on(s: Seq<char>, d: char) -> Seq<Seq<char>>
    decreases s.len(),
{
    if s.len() == 0 {
        seq![Seq::<char>::empty()]
    } else if s.last() == d {
        split_on(s.drop_last(), d).push(Seq::<char>::empty())
    } else {
        let r = split_on(s.drop_last(), d);
        r.update(r.len() - 1, r.last().push(s.last()))
    }
}

/// Splitting yields at least one piece.
pub proof fn lemma_split_on_nonempty(s: Seq<char>, d: char)
    ensures
        split_on(s, d).len() >= 1,
    decreases s.len(),
{
    if s.len() > 0 {
        lemma_split_on_nonempty(s.drop_last(), d);
    }
}

/// `s` split at every `d`, like `str::split`.
pub fn split_chars(s: &[char], d: char) -> (r: Vec<Vec<char>>)
    ensures
        r@.len() == split_on(s@, d).len(),
        forall|k: int| 0 <= k < r@.len() ==> (#[trigger] r@[k])@ == split_on(s@, d)[k],
{
    let n = s.len();
    let mut out: Vec<Vec<char>> = Vec::new();
    let mut cur: Vec<char> = Vec::new();
    let mut i: usize = 0;
    proof {
        assert(s@.take(0) =~= Seq::<char>::empty());
    }
    while i < n
        invariant
            n == s@.len(),
            i <= n,
            split_on(s@.take(i as int), d).len() == out@.len() + 1,
            cur@ == split_on(s@.take(i as int), d).last(),
            forall|k: int| 0 <= k < out@.len() ==> (#[trigger] out@[k])@ == split_on(s@.take(i as int), d)[k],
        decreases n - i,
    {
        let c = s[i];
        let ghost pre = s@.take(i as int);
        let ghost post = s@.take(i as int + 1);
        proof {
            assert(post.drop_last() =~= pre);
            assert(post.last() == c);
        }
        if c == d {
            let mut fresh: Vec<char> = Vec::new();
            std::mem::swap(&mut fresh, &mut cur);
            out.push(fresh);
            proof {
                assert(split_on(post, d) == split_on(pre, d).push(Seq::<char>::empty()));
            }
        } else {
            cur.push(c);
            proof {
                let r = split_on(pre, d);
                assert(split_on(post, d) == r.update(r.len() - 1, r.last().push(c)));
            }
        }
        i = i + 1;
    }
    assert(s@.take(n as int) =~= s@);
    out.push(cur);
    out
}

// ---------------------------------------------------------------------------
// Executable recognizers
// ---------------------------------------------------------------------------

/// Whether `c` is an ASCII decimal digit.
pub fn digit_char(c: char) -> (r: bool)
    ensures
        r == is_digit(c),
{
    '0' <= c && c <= '9'
}

/// Whether `c` is an ASCII letter or digit.
pub fn alnum_char(c: char) -> (r: bool)
    ensures
        r == is_ascii_alnum(c),
{
    ('0' <= c && c <= '9') || ('a' <= c && c <= 'z') || ('A' <= c && c <= 'Z')
}

/// ASCII lower-casing of one character.
pub fn lower_char(c: char) -> (r: char)
    ensures
        r == ascii_lower(c),
{
    if 'A' <= c && c <= 'Z' {
        let b: u8 = c as u8;
        assert(b as int == c as int);
        ((b + 32) as char)
    } else {
        c
    }
}

/// ASCII upper-casing of one character.
pub fn upper_char(c: char) -> (r: char)
    ensures
        r == ascii_upper(c),
{
    if 'a' <= c && c <= 'z' {
        let b: u8 = c as u8;
        assert(b as int == c as int);
        ((b - 32) as char)
    } else {
        c
    }
}

/// Equality of two character sequences up to ASCII case.
pub fn chars_eq_ignore_case(s: &Vec<char>, t: &[char]) -> (r: bool)
    ensures
        r == eq_ignore_case(s@, t@),
{
    if s.len() != t.len() {
        return false;
    }
    let n = s.len();
    let mut i: usize = 0;
    while i < n
        invariant
            n == s@.len(),
            n == t@.len(),
            i <= n,
            forall|j: int| 0 <= j < i ==> ascii_lower(#[trigger] s@[j]) == ascii_lower(t@[j]),
        decreases n - i,
    {
        if lower_char(s[i]) != lower_char(t[i]) {
            return false;
        }
        i = i + 1;
    }
    true
}

/// Equality of two character sequences.
pub fn chars_eq(s: &[char], t: &[char]) -> (r: bool)
    ensures
        r == (s@ == t@),
{
    if s.len() != t.len() {
        return false;
    }
    let n = s.len();
    let mut i: usize = 0;
    while i < n
        invariant
            n == s@.len(),
            n == t@.len(),
            i <= n,
            forall|j: int| 0 <= j < i ==> #[trigger] s@[j] == t@[j],
        decreases n - i,
    {
        if s[i] != t[i] {
            return false;
        }
        i = i + 1;
    }
    assert(s@ =~= t@);
    true
}

/// Whether every character of `s[from..to]` is an ASCII digit.
pub fn all_digits_in(s: &[char], from: usize, to: usize) -> (r: bool)
    requires
        from <= to <= s@.len(),
    ensures
        r == all_digits(s@.subrange(from as int, to as int)),
{
    let mut i = from;
    while i < to
        invariant
            from <= i <= to,
            to <= s@.len(),
            forall|j: int| from <= j < i ==> is_digit(#[trigger] s@[j]),
        decreases to - i,
    {
        if !digit_char(s[i]) {
            assert(!is_digit(s@.subrange(from as int, to as int)[i - from]));
            return false;
        }
        i = i + 1;
    }
    assert forall|j: int| 0 <= j < to - from implies is_digit(#[trigger] s@.subrange(from as int, to as int)[j]) by {
        assert(s@.subrange(from as int, to as int)[j] == s@[from + j]);
    }
    true
}

/// The digit values grow with the prefix.
pub proof fn lemma_digits_value_prefix(s: Seq<char>, i: int)
    requires
        all_digits(s),
        0 <= i <= s.len(),
    ensures
        0 <= digits_value(s.take(i)) <= digits_value(s),
    decreases s.len(),
{
    if s.len() > 0 {
        if i == s.len() {
            assert(s.take(i) =~= s);
            lemma_digits_value_prefix(s.drop_last(), s.len() - 1);
            assert(s.drop_last().take(s.len() - 1) =~= s.drop_last());
        } else {
            assert(all_digits(s.drop_last()));
            lemma_digits_value_prefix(s.drop_last(), i);
            assert(s.drop_last().take(i) =~= s.take(i));
            lemma_digits_value_prefix(s.drop_last(), s.len() - 1);
            assert(s.drop_last().take(s.len() - 1) =~= s.drop_last());
        }
    } else {
        assert(s.take(i) =~= s);
    }
}

/// The value of the digits `s[from..to]`, when it is at most `cap`.
pub fn digits_value_capped(s: &[char], from: usize, to: usize, cap: u64) -> (r: Option<u64>)
    requires
        from <= to <= s@.len(),
        all_digits(s@.subrange(from as int, to as int)),
    ensures
        r matches Some(v) ==> v == digits_value(s@.subrange(from as int, to as int)),
        r is None <==> digits_value(s@.subrange(from as int, to as int)) > cap,
{
    let ghost d = s@.subrange(from as int, to as int);
    let mut acc: u64 = 0;
    let mut i = from;
    proof {
        assert(d.take(0) =~= Seq::<char>::empty());
    }
    while i < to
        invariant
            from <= i <= to,
            to <= s@.len(),
            d == s@.subrange(from as int, to as int),
            all_digits(d),
            acc == digits_value(d.take(i - from)),
            acc <= cap,
        decreases to - i,
    {
        let c = s[i];
        proof {
            assert(d[i - from] == c);
            assert(d.take(i - from + 1).drop_last() =~= d.take(i - from));
            assert(d.take(i - from + 1).last() == c);
            assert(is_digit(c));
        }
        let dv: u64 = (c as u64) - ('0' as u64);
        if dv > cap || acc > (cap - dv) / 10 {
            proof {
                if dv <= cap {
                    assert(acc * 10 + dv > cap) by (nonlinear_arith)
                        requires acc > (cap - dv) / 10, dv <= cap;
                }
                lemma_digits_value_prefix(d, i - from + 1);
            }
            return None;
        }
        proof {
            assert(acc * 10 + dv <= cap) by (nonlinear_arith)
                requires acc <= (cap - dv) / 10, dv <= cap;
        }
        acc = acc * 10 + dv;
        i = i + 1;
    }
    proof {
        assert(d.take(to - from) =~= d);
    }
    Some(acc)
}

/// The `i64` value of `s` as `i64::from_str` reads it, if any.
pub fn parse_i64(s: &[char]) -> (r: Option<i64>)
    ensures
        r matches Some(v) ==> i64_literal(s@) == Some(v as int),
        r is None <==> i64_literal(s@) is None,
{
    let n = s.len();
    let neg = n > 0 && s[0] == '-';
    let start: usize = if n > 0 && (s[0] == '+' || s[0] == '-') { 1 } else { 0 };
    proof {
        assert(unsigned_part(s@) =~= s@.subrange(start as int, n as int));
    }
    if start == n || !all_digits_in(s, start, n) {
        return None;
    }
    let cap: u64 = if neg { 9223372036854775808u64 } else { 9223372036854775807u64 };
    match digits_value_capped(s, start, n, cap) {
        None => None,
        Some(m) => {
            if neg {
                if m == 9223372036854775808u64 {
                    Some(i64::MIN)
                } else {
                    Some(-(m as i64))
                }
            } else {
                Some(m as i64)
            }
        },
    }
}

/// The `u64` value of `s` as `u64::from_str` reads it, if any.
pub fn parse_u64(s: &[char]) -> (r: Option<u64>)
    ensures
        r matches Some(v) ==> u64_literal(s@) == Some(v as int),
        r is None <==> u64_literal(s@) is None,
{
    let n = s.len();
    let start: usize = if n > 0 && s[0] == '+' { 1 } else { 0 };
    proof {
        let body = if s@.len() > 0 && s@[0] == '+' { s@.drop_first() } else { s@ };
        assert(body =~= s@.subrange(start as int, n as int));
    }
    if start == n || !all_digits_in(s, start, n) {
        return None;
    }
    digits_value_capped(s, start, n, u64::MAX)
}

proof fn lemma_exp_pos(x: Seq<char>, k: int)
    requires
        0 <= k <= x.len(),
        forall|j: int| 0 <= j < k ==> #[trigger] x[j] != 'e' && x[j] != 'E',
        k == x.len() || x[k] == 'e' || x[k] == 'E',
    ensures
        exp_pos(x) == k,
    decreases k,
{
    if k > 0 {
        assert(x[0] != 'e' && x[0] != 'E');
        let y = x.drop_first();
        assert forall|j: int| 0 <= j < k - 1 implies #[trigger] y[j] != 'e' && y[j] != 'E' by {
            assert(y[j] == x[j + 1]);
        }
        if k < x.len() {
            assert(y[k - 1] == x[k]);
        }
        lemma_exp_pos(y, k - 1);
    }
}

proof fn lemma_count_step(x: Seq<char>, i: int, c: char)
    requires
        0 <= i < x.len(),
    ensures
        count_of(x.take(i + 1), c) == count_of(x.take(i), c) + if x[i] == c { 1nat } else { 0nat },
{
    assert(x.take(i + 1).drop_last() =~= x.take(i));
}

/// Whether `s[from..to]` is a mantissa (see [`is_mantissa`]).
fn mantissa_in(s: &[char], from: usize, to: usize) -> (r: bool)
    requires
        from <= to <= s@.len(),
    ensures
        r == is_mantissa(s@.subrange(from as int, to as int)),
{
    let ghost m = s@.subrange(from as int, to as int);
    let mut dots: usize = 0;
    let mut seen_digit = false;
    let mut i = from;
    proof {
        assert(m.take(0) =~= Seq::<char>::empty());
    }
    while i < to
        invariant
            from <= i <= to,
            to <= s@.len(),
            m == s@.subrange(from as int, to as int),
            forall|j: int| 0 <= j < i - from ==> is_digit(#[trigger] m[j]) || m[j] == '.',
            dots == count_of(m.take(i - from), '.'),
            dots <= 1,
            seen_digit == exists|j: int| 0 <= j < i - from && is_digit(#[trigger] m[j]),
        decreases to - i,
    {
        let c = s[i];
        proof {
            assert(m[i - from] == c);
            lemma_count_step(m, i - from, '.');
        }
        if c == '.' {
            if dots == 1 {
                proof {
                    lemma_count_prefix_le(m, i - from + 1, '.');
                }
                return false;
            }
            dots = dots + 1;
        } else if digit_char(c) {
            seen_digit = true;
        } else {
            return false;
        }
        i = i + 1;
    }
    proof {
        assert(m.take(to - from) =~= m);
    }
    seen_digit
}

proof fn lemma_count_prefix_le(x: Seq<char>, i: int, c: char)
    requires
        0 <= i <= x.len(),
    ensures
        count_of(x.take(i), c) <= count_of(x, c),
    decreases x.len(),
{
    if i == x.len() {
        assert(x.take(i) =~= x);
    } else {
        lemma_count_prefix_le(x.drop_last(), i, c);
        assert(x.drop_last().take(i) =~= x.take(i));
    }
}

/// Whether `s[from..]` equals `t` up to ASCII case.
fn eq_ignore_case_from(s: &[char], from: usize, t: &[char]) -> (r: bool)
    requires
        from <= s@.len(),
    ensures
        r == eq_ignore_case(s@.skip(from as int), t@),
{
    let n = s.len();
    if n - from != t.len() {
        return false;
    }
    let mut i: usize = 0;
    while i < t.len()
        invariant
            n == s@.len(),
            from <= n,
            n - from == t@.len(),
            i <= t@.len(),
            forall|j: int| 0 <= j < i ==> ascii_lower(#[trigger] s@.skip(from as int)[j]) == ascii_lower(t@[j]),
        decreases t@.len() - i,
    {
        if lower_char(s[from + i]) != lower_char(t[i]) {
            assert(s@.skip(from as int)[i as int] == s@[from + i]);
            return false;
        }
        assert(s@.skip(from as int)[i as int] == s@[from + i]);
        i = i + 1;
    }
    true
}

/// Whether `s` is accepted by `f64::from_str` (see [`is_float_literal`]).
pub fn is_float_text(s: &[char]) -> (r: bool)
    ensures
        r == is_float_literal(s@),
{
    let n = s.len();
    let start: usize = if n > 0 && (s[0] == '+' || s[0] == '-') { 1 } else { 0 };
    let ghost b = unsigned_part(s@);
    proof {
        assert(b =~= s@.skip(start as int));
    }
    let inf = ['i', 'n', 'f'];
    let infinity = ['i', 'n', 'f', 'i', 'n', 'i', 't', 'y'];
    let nan = ['n', 'a', 'n'];
    proof {
        assert(inf@ =~= seq!['i', 'n', 'f']);
        assert(infinity@ =~= seq!['i', 'n', 'f', 'i', 'n', 'i', 't', 'y']);
        assert(nan@ =~= seq!['n', 'a', 'n']);
    }
    if eq_ignore_case_from(s, start, inf.as_slice()) || eq_ignore_case_from(s, start, infinity.as_slice())
        || eq_ignore_case_from(s, start, nan.as_slice()) {
        return true;
    }
    // the first `e` or `E`
    let mut q = start;
    while q < n && s[q] != 'e' && s[q] != 'E'
        invariant
            start <= q <= n,
            n == s@.len(),
            forall|j: int| start <= j < q ==> #[trigger] s@[j] != 'e' && s@[j] != 'E',
        decreases n - q,
    {
        q = q + 1;
    }
    proof {
        assert forall|j: int| 0 <= j < q - start implies #[trigger] b[j] != 'e' && b[j] != 'E' by {
            assert(b[j] == s@[start + j]);
        }
        if q < n {
            assert(b[q - start] == s@[q as int]);
        }
        lemma_exp_pos(b, q - start);
        assert(b.take(q - start) =~= s@.subrange(start as int, q as int));
    }
    if !mantissa_in(s, start, q) {
        return false;
    }
    if q == n {
        return true;
    }
    // exponent: optional sign, then digits
    let es: usize = if q + 1 < n && (s[q + 1] == '+' || s[q + 1] == '-') { q + 2 } else { q + 1 };
    proof {
        let x = b.skip(q - start + 1);
        assert(x =~= s@.skip(q as int + 1));
        assert(unsigned_part(x) =~= s@.subrange(es as int, n as int));
    }
    es < n && all_digits_in(s, es, n)
}

} // verus!
