//! Byte encodings and digests: UTF-8 encoding of text, the FNV-1a hash used
//! for variant fingerprints, and BLAKE3 hex digests used for provenance.

use vstd::prelude::*;
use crate::text::chars_of;

verus! {

/// The UTF-8 encoding of one character.
pub open spec fn utf8_char(c: char) -> Seq<u8> {
    let x = c as int;
    if x < 0x80 {
        seq![x as u8]
    } else if x < 0x800 {
        seq![(0xC0 + x / 64) as u8, (0x80 + x % 64) as u8]
    } else if x < 0x10000 {
        seq![(0xE0 + x / 4096) as u8, (0x80 + (x / 64) % 64) as u8, (0x80 + x % 64) as u8]
    } else {
        seq![
            (0xF0 + x / 262144) as u8,
            (0x80 + (x / 4096) % 64) as u8,
            (0x80 + (x / 64) % 64) as u8,
            (0x80 + x % 64) as u8,
        ]
    }
}

/// The UTF-8 encoding of a text.
pub open spec fn utf8(s: Seq<char>) -> Seq<u8>
    decreases s.len(),
{
    if s.len() == 0 {
        Seq::empty()
    } else {
        utf8(s.drop_last()) + utf8_char(s.last())
    }
}

/// Append the UTF-8 encoding of `c` to `out`.
fn push_utf8(out: &mut Vec<u8>, c: char)
    ensures
        final(out)@ == old(out)@ + utf8_char(c),
{
    let x: u32 = c as u32;
    assert(x as int == c as int);
    assert(x <= 0x10FFFF);
    if x < 0x80 {
        out.push(x as u8);
    } else if x < 0x800 {
        out.push((0xC0 + x / 64) as u8);
        out.push((0x80 + x % 64) as u8);
    } else if x < 0x10000 {
        out.push((0xE0 + x / 4096) as u8);
        out.push((0x80 + (x / 64) % 64) as u8);
        out.push((0x80 + x % 64) as u8);
    } else {
        out.push((0xF0 + x / 262144) as u8);
        out.push((0x80 + (x / 4096) % 64) as u8);
        out.push((0x80 + (x / 64) % 64) as u8);
        out.push((0x80 + x % 64) as u8);
    }
    assert(final(out)@ =~= old(out)@ + utf8_char(c));
}

/// The UTF-8 encoding of `s` (the bytes of `str::as_bytes`).
pub fn utf8_bytes(s: &str) -> (r: Vec<u8>)
    ensures
        r@ == utf8(s@),
{
    let cs = chars_of(s);
    utf8_of_chars(cs.as_slice())
}

/// The UTF-8 encoding of the characters `cs`.
pub fn utf8_of_chars(cs: &[char]) -> (r: Vec<u8>)
    ensures
        r@ == utf8(cs@),
{
    let mut out: Vec<u8> = Vec::new();
    let mut i: usize = 0;
    while i < cs.len()
        invariant
            i <= cs.len(),
            out@ == utf8(cs@.take(i as int)),
        decreases cs.len() - i,
    {
        push_utf8(&mut out, cs[i]);
        proof {
            let p = cs@.take(i as int + 1);
            assert(p.drop_last() =~= cs@.take(i as int));
        }
        i = i + 1;
    }
    assert(cs@.take(cs.len() as int) =~= cs@);
    out
}

/// The FNV-1a offset basis.
pub open spec fn fnv_offset() -> u64 {
    0xcbf2_9ce4_8422_2325
}

/// The FNV-1a prime.
pub open spec fn fnv_prime() -> u64 {
    0x0000_0100_0000_01b3
}

/// The 64-bit FNV-1a hash of `s`.
pub open spec fn fnv1a_spec(s: Seq<u8>) -> u64
    decreases s.len(),
{
    if s.len() == 0 {
        fnv_offset()
    } else {
        vstd::wrapping::u64_specs::wrapping_mul(fnv1a_spec(s.drop_last()) ^ (s.last() as u64), fnv_prime())
    }
}

/// The 64-bit FNV-1a hash of `data`.
pub fn fnv1a(data: &[u8]) -> (r: u64)
    ensures
        r == fnv1a_spec(data@),
{
    let mut hash: u64 = 0xcbf2_9ce4_8422_2325;
    let mut i: usize = 0;
    while i < data.len()
        invariant
            i <= data.len(),
            hash == fnv1a_spec(data@.take(i as int)),
        decreases data.len() - i,
    {
        let b: u64 = data[i] as u64;
        hash = (hash ^ b).wrapping_mul(0x0000_0100_0000_01b3);
        proof {
            let p = data@.take(i as int + 1);
            assert(p.drop_last() =~= data@.take(i as int));
        }
        i = i + 1;
    }
    assert(data@.take(data.len() as int) =~= data@);
    hash
}

/// A lowercase hexadecimal digit.
pub open spec fn is_hex_lower(c: char) -> bool {
    ('0' <= c && c <= '9') || ('a' <= c && c <= 'f')
}

/// The lowercase hex text of the BLAKE3 hash of `data`.
pub uninterp spec fn blake3_hex_of(data: Seq<u8>) -> Seq<char>;

/// Calls `blake3::hash` and `Hash::to_hex`: the result is the 64-character
/// lowercase hex text of the 32-byte BLAKE3 hash of `data`, a function of
/// `data` alone.
#[verifier::external_body]
pub fn blake3_hex(data: &[u8]) -> (r: String)
    ensures
        r@ == blake3_hex_of(data@),
        r@.len() == 64,
        forall|i: int| 0 <= i < r@.len() ==> is_hex_lower(#[trigger] r@[i]),
{
    blake3::hash(data).to_hex().to_string()
}

/// The BLAKE3 hex digest of the UTF-8 bytes of `s`.
pub fn blake3_hex_str(s: &str) -> (r: String)
    ensures
        r@ == blake3_hex_of(utf8(s@)),
        r@.len() == 64,
        forall|i: int| 0 <= i < r@.len() ==> is_hex_lower(#[trigger] r@[i]),
{
    let b = utf8_bytes(s);
    blake3_hex(b.as_slice())
}

} // verus!
