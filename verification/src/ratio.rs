//! The text of a fitness ratio `passed / run` as the floating-point
//! division and six-decimal formatting give it: each count converted to the
//! nearest double, the quotient rounded to the nearest double, and that
//! binary value rounded to six decimals, ties to even.
//!
//! Everything is computed exactly in integers: a double is a significand
//! `m` and an exponent `x` standing for `m * 2^x`.

use vstd::prelude::*;
use crate::text::{push_char, dec_text, digit_of};

verus! {

// ---------------------------------------------------------------------------
// Arithmetic
// ---------------------------------------------------------------------------

/// `2^k`.
pub open spec fn pow2n(k: nat) -> nat
    decreases k,
{
    if k == 0 {
        1
    } else {
        2 * pow2n((k - 1) as nat)
    }
}

/// `10^k`.
pub open spec fn pow10(k: nat) -> nat
    decreases k,
{
    if k == 0 {
        1
    } else {
        10 * pow10((k - 1) as nat)
    }
}

/// `a / b` rounded to the nearest integer, ties to the even one.
pub open spec fn round_even(a: nat, b: nat) -> nat {
    let q = a / b;
    let rem = a % b;
    if 2 * rem > b || (2 * rem == b && q % 2 == 1) {
        q + 1
    } else {
        q
    }
}

/// The number of binary digits of `n` (0 for 0).
pub open spec fn bit_count(n: nat) -> nat
    decreases n,
{
    if n == 0 {
        0
    } else {
        1 + bit_count(n / 2)
    }
}

/// Whether `n / d >= 2^k`.
pub open spec fn ratio_reaches(n: nat, d: nat, k: int) -> bool {
    if k >= 0 {
        n >= d * pow2n(k as nat)
    } else {
        n * pow2n((-k) as nat) >= d
    }
}

/// The largest `k` with `2^k <= n / d`, for `n, d >= 1`: the difference of
/// their binary lengths, or one less.
pub open spec fn ratio_log2(n: nat, d: nat) -> int {
    let k = bit_count(n) - bit_count(d);
    if ratio_reaches(n, d, k) {
        k
    } else {
        k - 1
    }
}

/// The double nearest to `(n / d) * 2^e`, as a significand and an exponent
/// (`m * 2^x`): 53 significant bits, ties to an even significand. Zero is
/// `(0, 0)`.
pub open spec fn nearest_double(n: nat, d: nat, e: int) -> (nat, int) {
    if n == 0 {
        (0, 0)
    } else {
        let t = 52 - ratio_log2(n, d);
        let m = if t >= 0 {
            round_even(n * pow2n(t as nat), d)
        } else {
            round_even(n, d * pow2n((-t) as nat))
        };
        (m, e - t)
    }
}

/// `m * 2^x` in millionths, rounded to the nearest, ties to even.
pub open spec fn scaled_millionths(m: nat, x: int) -> nat {
    if x >= 0 {
        m * 1000000 * pow2n(x as nat)
    } else {
        round_even(m * 1000000, pow2n((-x) as nat))
    }
}

/// The ratio `p / r` in millionths as a floating-point division gives it
/// and six-decimal formatting rounds it: `p` and `r` each converted to the
/// nearest double, their quotient rounded to the nearest double, and that
/// value rounded to millionths, ties to even. `10^6` (the ratio 1) when
/// `r` is 0, the convention for no checks.
pub open spec fn fitness_millionths(p: nat, r: nat) -> nat {
    if r == 0 {
        1000000
    } else {
        let a = nearest_double(p, 1, 0);
        let b = nearest_double(r, 1, 0);
        let q = nearest_double(a.0, b.0, a.1 - b.1);
        scaled_millionths(q.0, q.1)
    }
}

/// `n` as exactly six decimal digits (with leading zeros), for `n < 10^6`.
pub open spec fn six_digits(n: nat) -> Seq<char> {
    Seq::new(6, |i: int| digit_of(((n / pow10((5 - i) as nat)) % 10) as nat))
}

/// The fitness `p / r` with six decimals, as `{:.6}` prints the
/// floating-point quotient (see [`fitness_millionths`]).
pub open spec fn fixed6(p: nat, r: nat) -> Seq<char> {
    let m = fitness_millionths(p, r);
    dec_text(m / 1000000) + seq!['.'] + six_digits(m % 1000000)
}

// ---------------------------------------------------------------------------
// Lemmas
// ---------------------------------------------------------------------------

/// The powers of two the computation needs.
proof fn lemma_pow2n_values()
    ensures
        pow2n(13) == 8192,
        pow2n(52) == 0x10_0000_0000_0000,
        pow2n(53) == 0x20_0000_0000_0000,
        pow2n(54) == 0x40_0000_0000_0000,
        pow2n(64) == 0x1_0000_0000_0000_0000,
        pow2n(120) == 0x100_0000_0000_0000_0000_0000_0000_0000,
{
    reveal_with_fuel(pow2n, 14);
    assert(pow2n(12) == 4096);
    assert(pow2n(13) == 8192);
    lemma_pow2n_add(13, 13);
    assert(pow2n(26) == 8192 * 8192);
    assert(pow2n(26) == 0x400_0000);
    lemma_pow2n_add(26, 26);
    assert(pow2n(52) == 0x400_0000 * 0x400_0000);
    lemma_pow2n_add(52, 12);
    lemma_pow2n_add(64, 52);
    lemma_pow2n_add(116, 4);
    assert(pow2n(4) == 16);
    assert(pow2n(53) == 2 * pow2n(52));
    assert(pow2n(54) == 2 * pow2n(53));
}

proof fn lemma_pow2n_pos(k: nat)
    ensures
        pow2n(k) >= 1,
    decreases k,
{
    if k > 0 {
        lemma_pow2n_pos((k - 1) as nat);
    }
}

proof fn lemma_pow2n_add(a: nat, b: nat)
    ensures
        pow2n(a + b) == pow2n(a) * pow2n(b),
    decreases a,
{
    if a > 0 {
        let a1 = (a - 1) as nat;
        lemma_pow2n_add(a1, b);
        assert(pow2n(a) == 2 * pow2n(a1));
        assert(pow2n(a + b) == 2 * pow2n(a1 + b));
        let x = pow2n(a1);
        let y = pow2n(b);
        assert(2 * (x * y) == (2 * x) * y) by (nonlinear_arith);
    } else {
        assert(pow2n(0) == 1);
        assert(pow2n(a + b) == pow2n(b));
    }
}

proof fn lemma_pow2n_mono(a: nat, b: nat)
    requires
        a <= b,
    ensures
        pow2n(a) <= pow2n(b),
    decreases b,
{
    if b > a {
        lemma_pow2n_mono(a, (b - 1) as nat);
        lemma_pow2n_pos((b - 1) as nat);
    }
}

proof fn lemma_bit_count_bounds(n: nat)
    requires
        n >= 1,
    ensures
        bit_count(n) >= 1,
        pow2n((bit_count(n) - 1) as nat) <= n,
        n < pow2n(bit_count(n)),
    decreases n,
{
    if n >= 2 {
        lemma_bit_count_bounds(n / 2);
    } else {
        assert(bit_count(0) == 0);
        assert(bit_count(1) == 1);
        assert(pow2n(0) == 1);
        assert(pow2n(1) == 2);
    }
}

proof fn lemma_bit_count_le(n: nat, k: nat)
    requires
        n < pow2n(k),
    ensures
        bit_count(n) <= k,
    decreases k,
{
    if n > 0 {
        if k == 0 {
            assert(pow2n(0) == 1);
        } else {
            lemma_bit_count_le(n / 2, (k - 1) as nat);
        }
    }
}

proof fn lemma_bit_count_ge(n: nat, k: nat)
    requires
        pow2n(k) <= n,
    ensures
        bit_count(n) >= k + 1,
    decreases k,
{
    lemma_pow2n_pos(k);
    if k > 0 {
        lemma_bit_count_ge(n / 2, (k - 1) as nat);
    }
}

/// `n * 2^a` against `d * 2^b`, the same after scaling both by `2^c`.
proof fn lemma_scale_both(n: nat, d: nat, a: nat, b: nat, c: nat)
    ensures
        (n * pow2n(a) >= d * pow2n(b)) <==> (n * pow2n(a + c) >= d * pow2n(b + c)),
{
    lemma_pow2n_add(a, c);
    lemma_pow2n_add(b, c);
    lemma_pow2n_pos(c);
    let x = n * pow2n(a);
    let y = d * pow2n(b);
    let z = pow2n(c);
    assert(n * pow2n(a + c) == x * z) by (nonlinear_arith)
        requires
            pow2n(a + c) == pow2n(a) * z,
            x == n * pow2n(a),
    ;
    assert(d * pow2n(b + c) == y * z) by (nonlinear_arith)
        requires
            pow2n(b + c) == pow2n(b) * z,
            y == d * pow2n(b),
    ;
    assert((x >= y) <==> (x * z >= y * z)) by (nonlinear_arith)
        requires
            z >= 1,
    ;
}

/// `ratio_reaches` as one comparison `n * 2^a >= d * 2^b`, for any split
/// `k = b - a` with `a, b >= 0`.
proof fn lemma_reaches_as(n: nat, d: nat, k: int, a: nat, b: nat)
    requires
        k == b - a,
    ensures
        ratio_reaches(n, d, k) <==> (n * pow2n(a) >= d * pow2n(b)),
{
    if k >= 0 {
        lemma_scale_both(n, d, 0, k as nat, a);
        assert(pow2n(0) == 1);
        assert(n * 1 == n);
    } else {
        lemma_scale_both(n, d, (-k) as nat, 0, b);
        assert(pow2n(0) == 1);
        assert(d * 1 == d);
    }
}

/// `2^k <= n / d < 2^(k + 1)` for `k = ratio_log2(n, d)`.
proof fn lemma_ratio_log2(n: nat, d: nat)
    requires
        n >= 1,
        d >= 1,
    ensures
        ratio_reaches(n, d, ratio_log2(n, d)),
        !ratio_reaches(n, d, ratio_log2(n, d) + 1),
        bit_count(n) - bit_count(d) - 1 <= ratio_log2(n, d) <= bit_count(n) - bit_count(d),
{
    lemma_bit_count_bounds(n);
    lemma_bit_count_bounds(d);
    let bn = bit_count(n);
    let bd = bit_count(d);
    let k0 = bn - bd;
    // n / d < 2^(k0 + 1), as n * 2^(bd - 1) < d * 2^bn
    assert(!ratio_reaches(n, d, k0 + 1)) by {
        lemma_reaches_as(n, d, k0 + 1, (bd - 1) as nat, bn);
        lemma_pow2n_add((bd - 1) as nat, bn);
        let pa = pow2n((bd - 1) as nat);
        let pb = pow2n(bn);
        assert(n * pa < d * pb) by (nonlinear_arith)
            requires
                n < pb,
                pa <= d,
                pa >= 1,
        {
            assert(n * pa < pb * pa);
            assert(pb * pa <= pb * d);
        }
    }
    // n / d >= 2^(k0 - 1), as n * 2^bd >= d * 2^(bn - 1)
    assert(ratio_reaches(n, d, k0 - 1)) by {
        lemma_reaches_as(n, d, k0 - 1, bd, (bn - 1) as nat);
        lemma_pow2n_pos((bn - 1) as nat);
        let pa = pow2n(bd);
        let pb = pow2n((bn - 1) as nat);
        assert(n * pa >= d * pb) by (nonlinear_arith)
            requires
                pb <= n,
                d < pa,
                pb >= 1,
        {
            assert(n * pa >= pb * pa);
            assert(pb * pa >= pb * d);
        }
    }
}

/// The window of a rounding: with `t = 52 - ratio_log2(n, d)`, the scaled
/// numerator and denominator satisfy `den * 2^52 <= num < den * 2^53`.
proof fn lemma_window(n: nat, d: nat)
    requires
        n >= 1,
        d >= 1,
    ensures
        ({
            let t = 52 - ratio_log2(n, d);
            let num = if t >= 0 { n * pow2n(t as nat) } else { n };
            let den = if t >= 0 { d } else { d * pow2n((-t) as nat) };
            den * pow2n(52) <= num && num < den * pow2n(53) && den >= 1
        }),
{
    lemma_ratio_log2(n, d);
    let k = ratio_log2(n, d);
    let t = 52 - k;
    if t >= 0 {
        // reaches(k): n * 2^t >= d * 2^52, split k = 52 - t
        lemma_reaches_as(n, d, k, t as nat, 52);
        // not reaches(k + 1): n * 2^t < d * 2^53, split k + 1 = 53 - t
        lemma_reaches_as(n, d, k + 1, t as nat, 53);
    } else {
        let s = (-t) as nat;
        lemma_reaches_as(n, d, k, 0, s + 52);
        lemma_reaches_as(n, d, k + 1, 0, s + 53);
        lemma_pow2n_add(s, 52);
        lemma_pow2n_add(s, 53);
        assert(pow2n(0) == 1);
        assert(d * pow2n(s + 52) == (d * pow2n(s)) * pow2n(52)) by (nonlinear_arith)
            requires
                pow2n(s + 52) == pow2n(s) * pow2n(52),
        ;
        assert(d * pow2n(s + 53) == (d * pow2n(s)) * pow2n(53)) by (nonlinear_arith)
            requires
                pow2n(s + 53) == pow2n(s) * pow2n(53),
        ;
        lemma_pow2n_pos(s);
        assert(d * pow2n(s) >= 1) by (nonlinear_arith)
            requires
                d >= 1,
                pow2n(s) >= 1,
        ;
    }
}

proof fn lemma_round_even_window(num: nat, den: nat, lo: nat)
    requires
        den >= 1,
        den * lo <= num,
        num < den * (2 * lo),
    ensures
        lo <= round_even(num, den) <= 2 * lo,
{
    let q = num / den;
    assert(lo <= q && q < 2 * lo) by (nonlinear_arith)
        requires
            den >= 1,
            den * lo <= num,
            num < den * (2 * lo),
            q == num / den,
    {
        assert(num == den * q + num % den);
        assert(num % den < den);
        if q < lo {
            assert(den * q + den <= den * lo);
        }
        if q >= 2 * lo {
            assert(den * q >= den * (2 * lo));
        }
    }
}

// ---------------------------------------------------------------------------
// Computation
// ---------------------------------------------------------------------------

/// `2^k`, for `k <= 120`.
fn pow2_exec(k: u32) -> (r: u128)
    requires
        k <= 120,
    ensures
        r == pow2n(k as nat),
{
    proof {
        lemma_pow2n_mono(k as nat, 120);
        lemma_pow2n_values();
    }
    let mut r: u128 = 1;
    let mut i: u32 = 0;
    while i < k
        invariant
            i <= k,
            k <= 120,
            r == pow2n(i as nat),
            pow2n(k as nat) <= 0x100_0000_0000_0000_0000_0000_0000_0000,
        decreases k - i,
    {
        proof {
            lemma_pow2n_mono((i + 1) as nat, k as nat);
        }
        r = r * 2;
        i = i + 1;
    }
    r
}

/// The number of binary digits of `x`.
fn bit_count_exec(x: u64) -> (b: u32)
    ensures
        b == bit_count(x as nat),
        b <= 64,
{
    proof {
        lemma_pow2n_values();
        lemma_bit_count_le(x as nat, 64);
    }
    let mut y: u64 = x;
    let mut b: u32 = 0;
    while y > 0
        invariant
            b + bit_count(y as nat) == bit_count(x as nat),
            bit_count(x as nat) <= 64,
        decreases y,
    {
        y = y / 2;
        b = b + 1;
    }
    b
}

/// `a / b` rounded to the nearest, ties to even.
fn round_even_exec(a: u128, b: u128) -> (r: u128)
    requires
        b >= 1,
        b < 0x8000_0000_0000_0000_0000_0000_0000_0000,
    ensures
        r == round_even(a as nat, b as nat),
{
    let q = a / b;
    let rem = a % b;
    if 2 * rem > b || (2 * rem == b && q % 2 == 1) {
        assert(q + 1 <= a) by (nonlinear_arith)
            requires
                q == a / b,
                rem == a % b,
                b >= 1,
                2 * rem >= b,
        {
            assert(q * b + rem == a);
            assert(rem >= 1);
            assert(q * b >= q);
        }
        q + 1
    } else {
        q
    }
}

/// The double nearest to `(n / d) * 2^e` (see [`nearest_double`]), with
/// its significand in `[2^52, 2^53]`.
fn nearest_double_exec(n: u64, d: u64, e: i64) -> (r: (u64, i64))
    requires
        n >= 1,
        d >= 1,
        -1000 <= e <= 1000,
    ensures
        r.0 as nat == nearest_double(n as nat, d as nat, e as int).0,
        r.1 as int == nearest_double(n as nat, d as nat, e as int).1,
        pow2n(52) <= r.0 <= pow2n(53),
        r.1 == e - 52 + ratio_log2(n as nat, d as nat),
        bit_count(n as nat) - bit_count(d as nat) - 1 <= ratio_log2(n as nat, d as nat) <= bit_count(n as nat) - bit_count(d as nat),
{
    proof {
        lemma_ratio_log2(n as nat, d as nat);
        lemma_window(n as nat, d as nat);
        lemma_pow2n_values();
    }
    let bn = bit_count_exec(n);
    let bd = bit_count_exec(d);
    let k0: i64 = bn as i64 - bd as i64;
    let reaches: bool = if k0 >= 0 {
        let pw = pow2_exec(k0 as u32);
        proof {
            lemma_pow2n_mono(k0 as nat, 64);
        }
        assert((d as u128) * pw < 0x1_0000_0000_0000_0000_0000_0000_0000_0000) by (nonlinear_arith)
            requires
                d < 0x1_0000_0000_0000_0000,
                pw <= 0x1_0000_0000_0000_0000,
        ;
        (n as u128) >= (d as u128) * pw
    } else {
        let pw = pow2_exec((-k0) as u32);
        proof {
            lemma_pow2n_mono((-k0) as nat, 64);
        }
        assert((n as u128) * pw < 0x1_0000_0000_0000_0000_0000_0000_0000_0000) by (nonlinear_arith)
            requires
                n < 0x1_0000_0000_0000_0000,
                pw <= 0x1_0000_0000_0000_0000,
        ;
        (n as u128) * pw >= (d as u128)
    };
    let k: i64 = if reaches {
        k0
    } else {
        k0 - 1
    };
    assert(k == ratio_log2(n as nat, d as nat));
    let t: i64 = 52 - k;
    let num: u128;
    let den: u128;
    if t >= 0 {
        let pw = pow2_exec(t as u32);
        assert((n as nat) * pw < (d as nat) * pow2n(53));
        assert((d as nat) * pow2n(53) < 0x1_0000_0000_0000_0000_0000_0000_0000_0000) by (nonlinear_arith)
            requires
                d < 0x1_0000_0000_0000_0000,
                pow2n(53) == 0x20_0000_0000_0000,
        ;
        num = (n as u128) * pw;
        den = d as u128;
    } else {
        let pw = pow2_exec((-t) as u32);
        assert((d as nat) * pw <= n as nat) by (nonlinear_arith)
            requires
                (d as nat) * pw * pow2n(52) <= n,
                pow2n(52) >= 1,
        ;
        num = n as u128;
        den = (d as u128) * pw;
    }
    assert(den * pow2n(52) <= num && num < den * pow2n(53));
    assert(den < 0x1_0000_0000_0000_0000_0000) by (nonlinear_arith)
        requires
            den * pow2n(52) <= num,
            num < 0x1_0000_0000_0000_0000_0000_0000_0000_0000,
            pow2n(52) == 0x10_0000_0000_0000,
    ;
    let m = round_even_exec(num, den);
    proof {
        lemma_round_even_window(num as nat, den as nat, pow2n(52));
    }
    assert(m <= 0x20_0000_0000_0000);
    (m as u64, e - t)
}

/// `m * 2^x` in millionths (see [`scaled_millionths`]).
fn scaled_millionths_exec(m: u64, x: i64) -> (r: u128)
    requires
        m <= pow2n(53),
        -120 <= x <= 13,
    ensures
        r == scaled_millionths(m as nat, x as int),
{
    proof {
        lemma_pow2n_values();
    }
    let mm: u128 = (m as u128) * 1000000;
    if x >= 0 {
        let pw = pow2_exec(x as u32);
        proof {
            lemma_pow2n_mono(x as nat, 13);
        lemma_pow2n_values();
        }
        assert(mm * pw <= 0x20_0000_0000_0000 * 1000000 * 8192) by (nonlinear_arith)
            requires
                mm <= 0x20_0000_0000_0000 * 1000000,
                pw <= 8192,
        ;
        mm * pw
    } else {
        let pw = pow2_exec((-x) as u32);
        proof {
            lemma_pow2n_mono((-x) as nat, 120);
            lemma_pow2n_pos((-x) as nat);
        lemma_pow2n_values();
        }
        round_even_exec(mm, pw)
    }
}

/// The fitness `p / r` in millionths (see [`fitness_millionths`]).
pub fn fitness_millionths_exec(p: u64, r: u64) -> (m: u128)
    ensures
        m == fitness_millionths(p as nat, r as nat),
{
    if r == 0 {
        return 1000000;
    }
    let (mb, eb) = nearest_double_exec(r, 1, 0);
    if p == 0 {
        proof {
            let b = nearest_double(r as nat, 1, 0);
            assert(nearest_double(0, 1, 0) == (0nat, 0int));
            assert(nearest_double(0, b.0, 0 - b.1) == (0nat, 0int));
            let z: nat = 0;
            assert(pow2n(0) == 1);
            assert(z * 1000000 * pow2n(0) == 0);
            assert(scaled_millionths(z, 0) == 0);
        }
        return 0;
    }
    let (ma, ea) = nearest_double_exec(p, 1, 0);
    proof {
        lemma_pow2n_values();
        assert(bit_count(1) == 1) by {
            assert(bit_count(0) == 0);
        }
        lemma_bit_count_le(p as nat, 64);
        lemma_bit_count_le(r as nat, 64);
        lemma_pow2n_values();
        lemma_bit_count_bounds(p as nat);
        lemma_bit_count_bounds(r as nat);
        lemma_bit_count_ge(ma as nat, 52);
        lemma_bit_count_ge(mb as nat, 52);
        lemma_pow2n_mono(53, 54);
        lemma_pow2n_values();
        lemma_bit_count_le(ma as nat, 54);
        lemma_bit_count_le(mb as nat, 54);
    }
    let (mq, eq) = nearest_double_exec(ma, mb, ea - eb);
    scaled_millionths_exec(mq, eq)
}

fn push_digit(out: &mut String, d: u128)
    requires
        d < 10,
    ensures
        final(out)@ == old(out)@.push(digit_of(d as nat)),
{
    let c: char = ((d as u8) + 48) as char;
    push_char(out, c);
}

fn push_dec_wide(s: &mut String, n: u128)
    ensures
        final(s)@ == old(s)@ + dec_text(n as nat),
    decreases n,
{
    if n >= 10 {
        push_dec_wide(s, n / 10);
    }
    push_digit(s, n % 10);
    proof {
        if n >= 10 {
            assert(dec_text(n as nat) == dec_text((n / 10) as nat).push(digit_of((n % 10) as nat)));
        }
    }
    assert(final(s)@ =~= old(s)@ + dec_text(n as nat));
}

/// The fitness `p / r` with six decimals (see [`fixed6`]).
pub fn fixed6_text(p: usize, r: usize) -> (res: String)
    ensures
        res@ == fixed6(p as nat, r as nat),
{
    let m = fitness_millionths_exec(p as u64, r as u64);
    let whole: u128 = m / 1000000;
    let frac: u128 = m % 1000000;
    let mut out = String::new();
    push_dec_wide(&mut out, whole);
    push_char(&mut out, '.');
    let ghost base = out@;
    push_digit(&mut out, (frac / 100000) % 10);
    push_digit(&mut out, (frac / 10000) % 10);
    push_digit(&mut out, (frac / 1000) % 10);
    push_digit(&mut out, (frac / 100) % 10);
    push_digit(&mut out, (frac / 10) % 10);
    push_digit(&mut out, frac % 10);
    proof {
        reveal_with_fuel(pow10, 7);
        let sd = six_digits(frac as nat);
        assert(sd =~= seq![
            digit_of(((frac / 100000) % 10) as nat),
            digit_of(((frac / 10000) % 10) as nat),
            digit_of(((frac / 1000) % 10) as nat),
            digit_of(((frac / 100) % 10) as nat),
            digit_of(((frac / 10) % 10) as nat),
            digit_of(((frac / 1) % 10) as nat),
        ]);
    }
    assert(out@ =~= fixed6(p as nat, r as nat));
    out
}

} // verus!
