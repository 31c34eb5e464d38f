//! Small string utilities shared by the library.

use vstd::prelude::*;

verus! {

/// The characters of `s`, in order, as a vector (calls `str::chars`).
#[verifier::external_body]
pub(crate) fn chars_of(s: &str) -> (r: Vec<char>)
    ensures
        r@ == s@,
{
    s.chars().collect()
}

/// Build a `String` holding exactly the characters of `v` (calls `String::from_iter`).
#[verifier::external_body]
pub(crate) fn string_of(v: &Vec<char>) -> (r: String)
    ensures
        r@ == v@,
{
    v.iter().collect()
}

/// Append one character to `s` (calls `String::push`).
#[verifier::external_body]
pub(crate) fn push_char(s: &mut String, c: char)
    ensures
        final(s)@ == old(s)@.push(c),
{
    s.push(c)
}

/// Append the text of `t` to `s` (calls `String::push_str`).
#[verifier::external_body]
pub(crate) fn push_str(s: &mut String, t: &str)
    ensures
        final(s)@ == old(s)@ + t@,
{
    s.push_str(t)
}

/// Whether two string slices hold the same characters (calls `str::eq`).
#[verifier::external_body]
pub(crate) fn str_eq(a: &str, b: &str) -> (r: bool)
    ensures
        r == (a@ == b@),
{
    a == b
}

/// An owned copy of `s` (calls `str::to_owned`).
pub fn owned(s: &str) -> (r: String)
    ensures
        r@ == s@,
{
    s.to_owned()
}

/// The ASCII digit for `d` (meaningful for `d < 10`).
pub open spec fn digit_of(d: nat) -> char {
    ((d + 48) as int) as char
}

/// The decimal text of a natural number, without leading zeros.
pub open spec fn dec_text(n: nat) -> Seq<char>
    decreases n,
{
    if n < 10 {
        seq![digit_of(n)]
    } else {
        dec_text(n / 10).push(digit_of(n % 10))
    }
}

/// The decimal text of an integer, with a leading `-` when negative.
pub open spec fn int_text(i: int) -> Seq<char> {
    if i < 0 {
        seq!['-'] + dec_text((-i) as nat)
    } else {
        dec_text(i as nat)
    }
}

/// Append the decimal text of `n` to `s`.
pub fn push_dec(s: &mut String, n: u64)
    ensures
        final(s)@ == old(s)@ + dec_text(n as nat),
    decreases n,
{
    if n >= 10 {
        push_dec(s, n / 10);
    }
    let d: u8 = (n % 10) as u8;
    let c: char = (d + 48) as char;
    push_char(s, c);
    proof {
        assert(c == digit_of((n % 10) as nat));
        if n >= 10 {
            assert(dec_text(n as nat) == dec_text((n / 10) as nat).push(digit_of((n % 10) as nat)));
        }
    }
    assert(final(s)@ =~= old(s)@ + dec_text(n as nat));
}

/// Append the decimal text of `i` to `s`.
pub fn push_int(s: &mut String, i: i64)
    ensures
        final(s)@ == old(s)@ + int_text(i as int),
{
    if i < 0 {
        push_char(s, '-');
        let m: u64 = if i == i64::MIN {
            9223372036854775808u64
        } else {
            (-i) as u64
        };
        push_dec(s, m);
        assert(final(s)@ =~= old(s)@ + int_text(i as int));
    } else {
        push_dec(s, i as u64);
    }
}

/// The decimal text of `n`.
pub fn usize_text(n: usize) -> (r: String)
    ensures
        r@ == dec_text(n as nat),
{
    let mut s = String::new();
    push_dec(&mut s, n as u64);
    assert(s@ =~= dec_text(n as nat));
    s
}

/// The decimal text of `i`.
pub fn i64_text(i: i64) -> (r: String)
    ensures
        r@ == int_text(i as int),
{
    let mut s = String::new();
    push_int(&mut s, i);
    assert(s@ =~= int_text(i as int));
    s
}

/// The views of a sequence of strings.
pub open spec fn views(v: Seq<String>) -> Seq<Seq<char>> {
    Seq::new(v.len(), |i: int| v[i]@)
}

/// The parts joined with `sep` between consecutive parts.
pub open spec fn join(parts: Seq<Seq<char>>, sep: Seq<char>) -> Seq<char>
    decreases parts.len(),
{
    if parts.len() == 0 {
        Seq::empty()
    } else if parts.len() == 1 {
        parts[0]
    } else {
        join(parts.drop_last(), sep) + sep + parts.last()
    }
}

/// Join the strings of `v` with `sep` between consecutive ones.
pub fn join_strings(v: &Vec<String>, sep: &str) -> (r: String)
    ensures
        r@ == join(views(v@), sep@),
{
    let mut out = String::new();
    let mut i: usize = 0;
    while i < v.len()
        invariant
            i <= v.len(),
            out@ == join(views(v@).take(i as int), sep@),
        decreases v.len() - i,
    {
        let ghost before = out@;
        if i > 0 {
            push_str(&mut out, sep);
        }
        push_str(&mut out, v[i].as_str());
        proof {
            let p = views(v@).take(i as int + 1);
            assert(p.drop_last() =~= views(v@).take(i as int));
            assert(p.last() == v@[i as int]@);
            if i == 0 {
                assert(p.len() == 1);
                assert(out@ =~= join(p, sep@));
            } else {
                assert(out@ =~= join(p, sep@));
            }
        }
        i = i + 1;
    }
    assert(views(v@).take(v.len() as int) =~= views(v@));
    out
}

/// Whether `s` begins with `p`.
pub fn has_prefix(s: &str, p: &str) -> (r: bool)
    ensures
        r == p@.is_prefix_of(s@),
{
    let sc = chars_of(s);
    let pc = chars_of(p);
    if pc.len() > sc.len() {
        return false;
    }
    let mut i: usize = 0;
    while i < pc.len()
        invariant
            i <= pc@.len(),
            pc@.len() <= sc@.len(),
            sc@ == s@,
            pc@ == p@,
            forall|k: int| 0 <= k < i ==> sc@[k] == pc@[k],
        decreases pc@.len() - i,
    {
        if sc[i] != pc[i] {
            assert(s@.subrange(0, p@.len() as int)[i as int] != p@[i as int]);
            return false;
        }
        i = i + 1;
    }
    assert(s@.subrange(0, p@.len() as int) =~= p@);
    true
}

} // verus!
