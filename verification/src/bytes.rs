//! Byte strings as keys: the lexicographic order, prefixes and subsequences.

use vstd::prelude::*;

verus! {

/// `a` comes strictly before `b` in byte-lexicographic order.
pub open spec fn lex_lt(a: Seq<u8>, b: Seq<u8>) -> bool
    decreases a.len(),
{
    if b.len() == 0 {
        false
    } else if a.len() == 0 {
        true
    } else if a[0] != b[0] {
        a[0] < b[0]
    } else {
        lex_lt(a.skip(1), b.skip(1))
    }
}

/// `a` comes before `b` in byte-lexicographic order, or equals it.
pub open spec fn lex_le(a: Seq<u8>, b: Seq<u8>) -> bool {
    a == b || lex_lt(a, b)
}

/// `p` is an initial segment of `k`.
pub open spec fn is_prefix(p: Seq<u8>, k: Seq<u8>) -> bool {
    p.len() <= k.len() && k.take(p.len() as int) == p
}

/// The bytes of `s` occur in `k` in the same order, not necessarily next to
/// each other.
pub open spec fn is_subsequence(s: Seq<u8>, k: Seq<u8>) -> bool
    decreases k.len(),
{
    if s.len() == 0 {
        true
    } else if k.len() == 0 {
        false
    } else {
        (s[0] == k[0] && is_subsequence(s.skip(1), k.skip(1))) || is_subsequence(s, k.skip(1))
    }
}

/// The least byte string that comes strictly after `k`.
pub open spec fn successor(k: Seq<u8>) -> Seq<u8> {
    k.push(0u8)
}

pub proof fn lemma_lex_irreflexive(a: Seq<u8>)
    ensures
        !lex_lt(a, a),
    decreases a.len(),
{
    if a.len() > 0 {
        lemma_lex_irreflexive(a.skip(1));
    }
}

pub proof fn lemma_lex_transitive(a: Seq<u8>, b: Seq<u8>, c: Seq<u8>)
    requires
        lex_lt(a, b),
        lex_lt(b, c),
    ensures
        lex_lt(a, c),
    decreases a.len(),
{
    if a.len() > 0 && a[0] == b[0] && b[0] == c[0] {
        lemma_lex_transitive(a.skip(1), b.skip(1), c.skip(1));
    }
}

pub proof fn lemma_lex_total(a: Seq<u8>, b: Seq<u8>)
    ensures
        lex_lt(a, b) || a == b || lex_lt(b, a),
    decreases a.len(),
{
    if a.len() > 0 && b.len() > 0 && a[0] == b[0] {
        lemma_lex_total(a.skip(1), b.skip(1));
        if a.skip(1) == b.skip(1) {
            assert(a =~= seq![a[0]] + a.skip(1));
            assert(b =~= seq![b[0]] + b.skip(1));
        }
    } else if a.len() == 0 && b.len() == 0 {
        assert(a =~= b);
    }
}

pub proof fn lemma_lex_asymmetric(a: Seq<u8>, b: Seq<u8>)
    requires
        lex_lt(a, b),
    ensures
        !lex_lt(b, a),
        a != b,
{
    lemma_lex_irreflexive(a);
    if lex_lt(b, a) {
        lemma_lex_transitive(a, b, a);
    }
}

/// Of two keys exactly one comes first, unless they are the same key.
pub proof fn lemma_lex_trichotomy(a: Seq<u8>, b: Seq<u8>)
    ensures
        lex_lt(a, b) <==> !lex_le(b, a),
        lex_le(a, b) <==> !lex_lt(b, a),
{
    lemma_lex_total(a, b);
    lemma_lex_irreflexive(a);
    if lex_lt(a, b) {
        lemma_lex_asymmetric(a, b);
    }
    if lex_lt(b, a) {
        lemma_lex_asymmetric(b, a);
    }
}

/// The empty key comes first.
pub proof fn lemma_empty_first(k: Seq<u8>)
    ensures
        lex_le(Seq::<u8>::empty(), k),
{
    if k.len() == 0 {
        assert(k =~= Seq::<u8>::empty());
    }
}

/// A key comes before the successor of another exactly when it comes no
/// later than that other.
pub proof fn lemma_before_successor(x: Seq<u8>, k: Seq<u8>)
    ensures
        lex_lt(x, successor(k)) <==> lex_le(x, k),
{
    lemma_successor(k, x);
    lemma_lex_trichotomy(x, successor(k));
    lemma_lex_trichotomy(x, k);
}

/// `lex_le` is transitive.
pub proof fn lemma_lex_le_transitive(a: Seq<u8>, b: Seq<u8>, c: Seq<u8>)
    requires
        lex_le(a, b),
        lex_le(b, c),
    ensures
        lex_le(a, c),
{
    if a != b && b != c {
        lemma_lex_transitive(a, b, c);
    }
}

/// `lex_le` chains with `lex_lt` on either side.
pub proof fn lemma_lex_le_lt(a: Seq<u8>, b: Seq<u8>, c: Seq<u8>)
    requires
        lex_le(a, b),
        lex_lt(b, c),
    ensures
        lex_lt(a, c),
{
    if a != b {
        lemma_lex_transitive(a, b, c);
    }
}

pub proof fn lemma_lex_lt_le(a: Seq<u8>, b: Seq<u8>, c: Seq<u8>)
    requires
        lex_lt(a, b),
        lex_le(b, c),
    ensures
        lex_lt(a, c),
{
    if b != c {
        lemma_lex_transitive(a, b, c);
    }
}

/// Nothing lies strictly between a key and its successor.
pub proof fn lemma_successor(k: Seq<u8>, x: Seq<u8>)
    ensures
        lex_lt(k, x) <==> lex_le(successor(k), x),
    decreases k.len(),
{
    let s = successor(k);
    if k.len() == 0 {
        assert(s.len() == 1 && s[0] == 0u8);
        if x.len() > 0 {
            if x[0] == 0u8 {
                assert(s.skip(1) =~= Seq::<u8>::empty());
                if x.skip(1).len() == 0 {
                    assert(s =~= x);
                } else {
                    assert(lex_lt(s.skip(1), x.skip(1)));
                }
            }
        }
    } else if x.len() == 0 {
    } else {
        assert(s[0] == k[0]);
        assert(s.skip(1) =~= successor(k.skip(1)));
        if k[0] == x[0] {
            lemma_successor(k.skip(1), x.skip(1));
            if s.skip(1) == x.skip(1) {
                assert(s =~= seq![s[0]] + s.skip(1));
                assert(x =~= seq![x[0]] + x.skip(1));
            }
            if s == x {
            }
        }
    }
}

/// A key comes no later than anything it is a prefix of.
pub proof fn lemma_prefix_le(p: Seq<u8>, k: Seq<u8>)
    requires
        is_prefix(p, k),
    ensures
        lex_le(p, k),
    decreases p.len(),
{
    if p.len() == 0 {
        if k.len() == 0 {
            assert(p =~= k);
        }
    } else {
        assert(k.take(p.len() as int)[0] == p[0]);
        assert(k.skip(1).take(p.len() - 1) =~= k.take(p.len() as int).skip(1));
        lemma_prefix_le(p.skip(1), k.skip(1));
        if p.skip(1) == k.skip(1) {
            assert(p =~= seq![p[0]] + p.skip(1));
            assert(k =~= seq![k[0]] + k.skip(1));
        }
    }
}

/// Whether `a` and `b` hold the same bytes.
pub fn bytes_eq(a: &[u8], b: &[u8]) -> (r: bool)
    ensures
        r == (a@ == b@),
{
    if a.len() != b.len() {
        return false;
    }
    let mut i: usize = 0;
    while i < a.len()
        invariant
            i <= a.len(),
            a.len() == b.len(),
            forall|j: int| 0 <= j < i ==> a@[j] == b@[j],
        decreases a.len() - i,
    {
        if a[i] != b[i] {
            return false;
        }
        i += 1;
    }
    assert(a@ =~= b@);
    true
}

/// Whether `a` comes strictly before `b` in byte-lexicographic order.
pub fn bytes_lt(a: &[u8], b: &[u8]) -> (r: bool)
    ensures
        r == lex_lt(a@, b@),
{
    let mut i: usize = 0;
    assert(a@.skip(0) =~= a@ && b@.skip(0) =~= b@);
    while i < a.len() && i < b.len()
        invariant
            i <= a.len(),
            i <= b.len(),
            lex_lt(a@, b@) == lex_lt(a@.skip(i as int), b@.skip(i as int)),
        decreases a.len() - i,
    {
        proof {
            let x = a@.skip(i as int);
            let y = b@.skip(i as int);
            assert(x[0] == a@[i as int] && y[0] == b@[i as int]);
            assert(x.skip(1) =~= a@.skip(i + 1));
            assert(y.skip(1) =~= b@.skip(i + 1));
        }
        if a[i] != b[i] {
            return a[i] < b[i];
        }
        i += 1;
    }
    i < b.len()
}

/// Whether `a` comes before `b` in byte-lexicographic order, or equals it.
pub fn bytes_le(a: &[u8], b: &[u8]) -> (r: bool)
    ensures
        r == lex_le(a@, b@),
{
    proof {
        lemma_lex_total(a@, b@);
        if lex_lt(b@, a@) {
            lemma_lex_asymmetric(b@, a@);
        }
        if lex_le(a@, b@) && lex_lt(b@, a@) {
            lemma_lex_irreflexive(a@);
            lemma_lex_le_lt(a@, b@, a@);
        }
    }
    !bytes_lt(b, a)
}

/// Copies a byte slice into a vector of its own.
pub fn to_vec(a: &[u8]) -> (r: Vec<u8>)
    ensures
        r@ == a@,
{
    let mut v: Vec<u8> = Vec::with_capacity(a.len());
    let mut i: usize = 0;
    while i < a.len()
        invariant
            i <= a.len(),
            v@ == a@.take(i as int),
        decreases a.len() - i,
    {
        v.push(a[i]);
        proof {
            assert(a@.take(i + 1) =~= a@.take(i as int).push(a@[i as int]));
        }
        i += 1;
    }
    assert(a@.take(a.len() as int) =~= a@);
    v
}

/// The least byte string that comes strictly after `k`.
pub fn successor_of(k: &[u8]) -> (r: Vec<u8>)
    ensures
        r@ == successor(k@),
{
    let mut v = to_vec(k);
    v.push(0u8);
    v
}

} // verus!
