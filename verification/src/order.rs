//! Lexicographic order on texts, a verified sort, and the uniqueness of
//! sorted arrangements.
//!
//! Texts are compared character by character by code point, which is the
//! order of `str`'s `Ord` (UTF-8 byte order agrees with code point order).

use vstd::prelude::*;
use vstd::relations::{sorted_by, total_ordering};
use vstd::seq_lib::group_to_multiset_ensures;

verus! {

/// `a` comes before or equals `b` in lexicographic order by code point.
pub open spec fn lex_le(a: Seq<char>, b: Seq<char>) -> bool
    decreases a.len(),
{
    if a.len() == 0 {
        true
    } else if b.len() == 0 {
        false
    } else if a[0] != b[0] {
        a[0] < b[0]
    } else {
        lex_le(a.drop_first(), b.drop_first())
    }
}

/// The lexicographic order as a relation.
pub open spec fn lex_order() -> spec_fn(Seq<char>, Seq<char>) -> bool {
    |a: Seq<char>, b: Seq<char>| lex_le(a, b)
}

/// The views of a sequence of character vectors.
pub open spec fn cviews(v: Seq<Vec<char>>) -> Seq<Seq<char>> {
    Seq::new(v.len(), |i: int| v[i]@)
}

/// Lexicographic order is reflexive.
pub proof fn lemma_lex_refl(a: Seq<char>)
    ensures
        lex_le(a, a),
    decreases a.len(),
{
    if a.len() > 0 {
        lemma_lex_refl(a.drop_first());
    }
}

/// Lexicographic order is antisymmetric.
pub proof fn lemma_lex_antisym(a: Seq<char>, b: Seq<char>)
    requires
        lex_le(a, b),
        lex_le(b, a),
    ensures
        a == b,
    decreases a.len(),
{
    if a.len() > 0 && b.len() > 0 {
        lemma_lex_antisym(a.drop_first(), b.drop_first());
        assert(a =~= seq![a[0]] + a.drop_first());
        assert(b =~= seq![b[0]] + b.drop_first());
    } else {
        assert(a.len() == 0 && b.len() == 0);
        assert(a =~= b);
    }
}

/// Lexicographic order is transitive.
pub proof fn lemma_lex_trans(a: Seq<char>, b: Seq<char>, c: Seq<char>)
    requires
        lex_le(a, b),
        lex_le(b, c),
    ensures
        lex_le(a, c),
    decreases a.len(),
{
    if a.len() > 0 && b.len() > 0 && c.len() > 0 {
        if a[0] == b[0] && b[0] == c[0] {
            lemma_lex_trans(a.drop_first(), b.drop_first(), c.drop_first());
        }
    }
}

/// Lexicographic order is total.
pub proof fn lemma_lex_total(a: Seq<char>, b: Seq<char>)
    ensures
        lex_le(a, b) || lex_le(b, a),
    decreases a.len(),
{
    if a.len() > 0 && b.len() > 0 && a[0] == b[0] {
        lemma_lex_total(a.drop_first(), b.drop_first());
    }
}

/// The lexicographic order is a total order.
pub proof fn lemma_lex_total_ordering()
    ensures
        total_ordering(lex_order()),
{
    assert forall|x: Seq<char>| #[trigger] lex_order()(x, x) by {
        lemma_lex_refl(x);
    }
    assert forall|x: Seq<char>, y: Seq<char>|
        #[trigger] lex_order()(x, y) && #[trigger] lex_order()(y, x) implies x == y by {
        lemma_lex_antisym(x, y);
    }
    assert forall|x: Seq<char>, y: Seq<char>, z: Seq<char>|
        #[trigger] lex_order()(x, y) && #[trigger] lex_order()(y, z) implies lex_order()(x, z) by {
        lemma_lex_trans(x, y, z);
    }
    assert forall|x: Seq<char>, y: Seq<char>|
        #[trigger] lex_order()(x, y) || #[trigger] lex_order()(y, x) by {
        lemma_lex_total(x, y);
    }
}

/// Whether `a` comes before or equals `b` lexicographically.
pub fn lex_le_chars(a: &[char], b: &[char]) -> (r: bool)
    ensures
        r == lex_le(a@, b@),
{
    let mut i: usize = 0;
    assert(a@.skip(0) =~= a@);
    assert(b@.skip(0) =~= b@);
    while i < a.len() && i < b.len() && a[i] == b[i]
        invariant
            i <= a.len(),
            i <= b.len(),
            a@.take(i as int) == b@.take(i as int),
            lex_le(a@, b@) == lex_le(a@.skip(i as int), b@.skip(i as int)),
        decreases a.len() - i,
    {
        proof {
            let sa = a@.skip(i as int);
            let sb = b@.skip(i as int);
            assert(sa[0] == b@[i as int]);
            assert(sa.drop_first() =~= a@.skip(i as int + 1));
            assert(sb.drop_first() =~= b@.skip(i as int + 1));
            assert(a@.take(i as int + 1) =~= a@.take(i as int).push(a@[i as int]));
            assert(b@.take(i as int + 1) =~= b@.take(i as int).push(b@[i as int]));
        }
        i = i + 1;
    }
    if i == a.len() {
        assert(a@.skip(i as int).len() == 0);
        true
    } else if i == b.len() {
        assert(b@.skip(i as int).len() == 0);
        false
    } else {
        assert(a@.skip(i as int)[0] == a@[i as int]);
        assert(b@.skip(i as int)[0] == b@[i as int]);
        a[i] < b[i]
    }
}

proof fn lemma_insert_multiset(s: Seq<Seq<char>>, p: int, x: Seq<char>)
    requires
        0 <= p <= s.len(),
    ensures
        s.insert(p, x).to_multiset() =~= s.to_multiset().insert(x),
{
    broadcast use group_to_multiset_ensures;
    let t = s.insert(p, x);
    assert(t.remove(p) =~= s);
    assert(t[p] == x);
    assert(t.to_multiset().remove(x) =~= s.to_multiset());
    assert(t.contains(x));
    assert(t.to_multiset().count(x) > 0);
}

/// A sorted arrangement of the texts of `v` (insertion sort).
pub fn sort_texts(v: Vec<Vec<char>>) -> (r: Vec<Vec<char>>)
    ensures
        sorted_by(cviews(r@), lex_order()),
        cviews(r@).to_multiset() == cviews(v@).to_multiset(),
{
    proof {
        lemma_lex_total_ordering();
    }
    let mut out: Vec<Vec<char>> = Vec::new();
    let mut i: usize = 0;
    let n = v.len();
    let ghost vv = cviews(v@);
    let mut rest = v;
    assert(cviews(out@) =~= Seq::<Seq<char>>::empty());
    assert(vv.take(0) =~= Seq::<Seq<char>>::empty());
    while i < n
        invariant
            n == vv.len(),
            i <= n,
            rest@.len() == n,
            forall|k: int| i <= k < n ==> (#[trigger] rest@[k])@ == vv[k],
            sorted_by(cviews(out@), lex_order()),
            cviews(out@).to_multiset() == vv.take(i as int).to_multiset(),
            total_ordering(lex_order()),
        decreases n - i,
    {
        let mut x: Vec<char> = Vec::new();
        std::mem::swap(&mut x, &mut rest[i]);
        assert(x@ == vv[i as int]);
        let mut p: usize = 0;
        while p < out.len() && lex_le_chars(out[p].as_slice(), x.as_slice())
            invariant
                p <= out.len(),
                forall|k: int| 0 <= k < p ==> lex_le((#[trigger] out@[k])@, x@),
            decreases out.len() - p,
        {
            p = p + 1;
        }
        let ghost old_out = cviews(out@);
        out.insert(p, x);
        proof {
            let xs = vv[i as int];
            assert(cviews(out@) =~= old_out.insert(p as int, xs));
            lemma_insert_multiset(old_out, p as int, xs);
            assert(vv.take(i as int + 1) =~= vv.take(i as int).push(xs));
            broadcast use group_to_multiset_ensures;
            let nw = cviews(out@);
            assert forall|a: int, b: int| 0 <= a < b < nw.len() implies #[trigger] lex_order()(
                nw[a],
                nw[b],
            ) by {
                if p < old_out.len() {
                    assert(!lex_le(old_out[p as int], xs));
                    lemma_lex_total(xs, old_out[p as int]);
                }
                if a < p && b == p {
                    assert(nw[a] == old_out[a]);
                    assert(lex_le(old_out[a], xs));
                } else if a == p && b > p {
                    assert(nw[b] == old_out[b - 1]);
                    if b - 1 > p {
                        assert(lex_order()(old_out[p as int], old_out[b - 1]));
                        lemma_lex_trans(xs, old_out[p as int], old_out[b - 1]);
                    }
                } else if b < p {
                    assert(nw[a] == old_out[a] && nw[b] == old_out[b]);
                    assert(lex_order()(old_out[a], old_out[b]));
                } else if a < p && b > p {
                    assert(nw[a] == old_out[a] && nw[b] == old_out[b - 1]);
                    assert(lex_order()(old_out[a], old_out[b - 1]));
                } else {
                    assert(nw[a] == old_out[a - 1] && nw[b] == old_out[b - 1]);
                    assert(lex_order()(old_out[a - 1], old_out[b - 1]));
                }
            }
        }
        i = i + 1;
    }
    assert(vv.take(n as int) =~= vv);
    out
}

/// Two arrangements of the same texts that are both sorted are equal.
pub proof fn lemma_sorted_unique(s1: Seq<Seq<char>>, s2: Seq<Seq<char>>)
    requires
        sorted_by(s1, lex_order()),
        sorted_by(s2, lex_order()),
        s1.to_multiset() == s2.to_multiset(),
    ensures
        s1 == s2,
    decreases s1.len(),
{
    broadcast use group_to_multiset_ensures;
    lemma_lex_total_ordering();
    assert(s1.len() == s1.to_multiset().len());
    assert(s2.len() == s2.to_multiset().len());
    if s1.len() == 0 {
        assert(s2.len() == 0);
        assert(s1 =~= s2);
    } else {
        assert(s2.len() == s1.len());
        let a = s1[0];
        let b = s2[0];
        assert(s1.contains(a));
        assert(s1.to_multiset().count(a) > 0);
        assert(s2.to_multiset().count(a) > 0);
        assert(s2.contains(a));
        assert(s2.contains(b));
        assert(s2.to_multiset().count(b) > 0);
        assert(s1.to_multiset().count(b) > 0);
        assert(s1.contains(b));
        let ja = choose|j: int| 0 <= j < s2.len() && s2[j] == a;
        let jb = choose|j: int| 0 <= j < s1.len() && s1[j] == b;
        if ja > 0 {
            assert(lex_order()(s2[0], s2[ja]));
        } else {
            lemma_lex_refl(b);
        }
        if jb > 0 {
            assert(lex_order()(s1[0], s1[jb]));
        } else {
            lemma_lex_refl(a);
        }
        lemma_lex_antisym(a, b);
        assert(s1.remove(0) =~= s1.drop_first());
        assert(s2.remove(0) =~= s2.drop_first());
        assert(s1.drop_first().to_multiset() =~= s2.drop_first().to_multiset());
        assert(sorted_by(s1.drop_first(), lex_order())) by {
            assert forall|x: int, y: int| 0 <= x < y < s1.drop_first().len() implies #[trigger] lex_order()(
                s1.drop_first()[x],
                s1.drop_first()[y],
            ) by {
                assert(lex_order()(s1[x + 1], s1[y + 1]));
            }
        }
        assert(sorted_by(s2.drop_first(), lex_order())) by {
            assert forall|x: int, y: int| 0 <= x < y < s2.drop_first().len() implies #[trigger] lex_order()(
                s2.drop_first()[x],
                s2.drop_first()[y],
            ) by {
                assert(lex_order()(s2[x + 1], s2[y + 1]));
            }
        }
        lemma_sorted_unique(s1.drop_first(), s2.drop_first());
        assert(s1 =~= seq![a] + s1.drop_first());
        assert(s2 =~= seq![b] + s2.drop_first());
    }
}

/// The texts are in strictly increasing lexicographic order.
pub open spec fn strictly_sorted(s: Seq<Seq<char>>) -> bool {
    forall|a: int, b: int| 0 <= a < b < s.len() ==> lex_le(s[a], s[b]) && s[a] != s[b]
}

/// Inserting `k` before the first text that is not below it keeps a strictly
/// sorted sequence strictly sorted, when `k` is not already there.
#[verifier::spinoff_prover]
#[verifier::rlimit(40)]
pub proof fn lemma_insert_strictly_sorted(s: Seq<Seq<char>>, p: int, k: Seq<char>)
    requires
        strictly_sorted(s),
        0 <= p <= s.len(),
        forall|q: int| 0 <= q < p ==> lex_le(#[trigger] s[q], k) && s[q] != k,
        p < s.len() ==> !lex_le(s[p], k) || s[p] == k,
        p < s.len() ==> s[p] != k,
    ensures
        strictly_sorted(s.insert(p, k)),
        forall|j: int| 0 <= j < s.len() ==> #[trigger] s[j] != k,
{
    if p < s.len() {
        lemma_lex_total(s[p], k);
    }
    assert forall|j: int| 0 <= j < s.len() implies #[trigger] s[j] != k by {
        if j > p {
            if s[j] == k {
                lemma_lex_antisym(s[p], k);
            }
        }
    }
    let t = s.insert(p, k);
    s.insert_ensures(p, k);
    if p < s.len() {
        assert(!lex_le(s[p], k));
        assert(lex_le(k, s[p]));
    }
    assert forall|a: int, b: int| 0 <= a < b < t.len() implies lex_le(t[a], t[b]) && t[a] != t[b] by {
        if a < p && b == p {
            assert(t[a] == s[a] && t[b] == k);
            assert(lex_le(s[a], k) && s[a] != k);
        } else if a == p && b > p {
            assert(t[a] == k);
            assert(t[b] == s[b - 1]);
            assert(s[b - 1] != k);
            if b - 1 > p {
                assert(lex_le(s[p], s[b - 1]));
                lemma_lex_trans(k, s[p], s[b - 1]);
            }
        } else if b < p {
            assert(t[a] == s[a] && t[b] == s[b]);
        } else if a < p && b > p {
            assert(t[a] == s[a] && t[b] == s[b - 1]);
            assert(lex_le(s[a], s[b - 1]) && s[a] != s[b - 1]);
        } else {
            assert(a > p);
            assert(t[a] == s[a - 1] && t[b] == s[b - 1]);
            assert(lex_le(s[a - 1], s[b - 1]) && s[a - 1] != s[b - 1]);
        }
    }
}

/// The texts of `parts` joined with `sep` between consecutive ones.
pub fn join_chars(parts: &Vec<Vec<char>>, sep: char) -> (r: Vec<char>)
    ensures
        r@ == crate::text::join(cviews(parts@), seq![sep]),
{
    let mut out: Vec<char> = Vec::new();
    let mut i: usize = 0;
    while i < parts.len()
        invariant
            i <= parts.len(),
            out@ == crate::text::join(cviews(parts@).take(i as int), seq![sep]),
        decreases parts.len() - i,
    {
        if i > 0 {
            out.push(sep);
        }
        let mut k: usize = 0;
        let ghost before = out@;
        while k < parts[i].len()
            invariant
                i < parts.len(),
                k <= parts@[i as int]@.len(),
                out@ == before + parts@[i as int]@.take(k as int),
            decreases parts@[i as int]@.len() - k,
        {
            out.push(parts[i][k]);
            assert(out@ =~= before + parts@[i as int]@.take(k as int + 1));
            k = k + 1;
        }
        proof {
            assert(parts@[i as int]@.take(k as int) =~= parts@[i as int]@);
            let p = cviews(parts@).take(i as int + 1);
            assert(p.drop_last() =~= cviews(parts@).take(i as int));
            assert(p.last() == parts@[i as int]@);
            assert(out@ =~= crate::text::join(p, seq![sep]));
        }
        i = i + 1;
    }
    assert(cviews(parts@).take(parts.len() as int) =~= cviews(parts@));
    out
}

} // verus!
