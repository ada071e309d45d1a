//! The byte-lexicographic order on byte strings, by which dictionary keys
//! are arranged.

use vstd::prelude::*;

verus! {

/// `a` comes strictly before `b`: at the first position where they differ
/// `a` has the smaller byte, or `a` is a proper prefix of `b`.
pub open spec fn lex_lt(a: Seq<u8>, b: Seq<u8>) -> bool
    decreases a.len(),
{
    if b.len() == 0 {
        false
    } else if a.len() == 0 {
        true
    } else if a[0] != b[0] {
        a[0] < b[0]
    } else {
        lex_lt(a.drop_first(), b.drop_first())
    }
}

/// No byte string comes before itself.
pub proof fn lemma_lex_irreflexive(a: Seq<u8>)
    ensures
        !lex_lt(a, a),
    decreases a.len(),
{
    if a.len() > 0 {
        lemma_lex_irreflexive(a.drop_first());
    }
}

/// Of two different byte strings one comes before the other.
pub proof fn lemma_lex_total(a: Seq<u8>, b: Seq<u8>)
    ensures
        a == b || lex_lt(a, b) || lex_lt(b, a),
    decreases a.len(),
{
    if a.len() == 0 || b.len() == 0 {
        if a.len() == 0 && b.len() == 0 {
            assert(a =~= b);
        }
    } else if a[0] == b[0] {
        lemma_lex_total(a.drop_first(), b.drop_first());
        if a.drop_first() == b.drop_first() {
            assert(a =~= seq![a[0]] + a.drop_first());
            assert(b =~= seq![b[0]] + b.drop_first());
        }
    }
}

/// The order never holds in both directions.
pub proof fn lemma_lex_asymmetric(a: Seq<u8>, b: Seq<u8>)
    ensures
        !(lex_lt(a, b) && lex_lt(b, a)),
    decreases a.len(),
{
    if a.len() > 0 && b.len() > 0 && a[0] == b[0] {
        lemma_lex_asymmetric(a.drop_first(), b.drop_first());
    }
}

/// The order is transitive.
pub proof fn lemma_lex_transitive(a: Seq<u8>, b: Seq<u8>, c: Seq<u8>)
    requires
        lex_lt(a, b),
        lex_lt(b, c),
    ensures
        lex_lt(a, c),
    decreases a.len(),
{
    if a.len() > 0 && a[0] == b[0] && b[0] == c[0] {
        lemma_lex_transitive(a.drop_first(), b.drop_first(), c.drop_first());
    }
}

/// The first position where two byte strings differ decides their order.
pub proof fn lemma_lex_first_difference(a: Seq<u8>, b: Seq<u8>, i: int)
    requires
        0 <= i < a.len(),
        i < b.len(),
        a.take(i) == b.take(i),
        a[i] < b[i],
    ensures
        lex_lt(a, b),
    decreases i,
{
    if i > 0 {
        assert(a[0] == a.take(i)[0] && b[0] == b.take(i)[0]);
        assert(a.drop_first().take(i - 1) =~= a.take(i).drop_first());
        assert(b.drop_first().take(i - 1) =~= b.take(i).drop_first());
        lemma_lex_first_difference(a.drop_first(), b.drop_first(), i - 1);
    }
}

/// Whether `a` comes strictly before `b` in byte-lexicographic order.
pub fn bytes_less(a: &[u8], b: &[u8]) -> (r: bool)
    ensures
        r == lex_lt(a@, b@),
{
    let mut i: usize = 0;
    assert(a@.skip(0) =~= a@ && b@.skip(0) =~= b@);
    while i < a.len() && i < b.len()
        invariant
            i <= a.len(),
            i <= b.len(),
            lex_lt(a@, b@) == lex_lt(a@.skip(i as int), b@.skip(i as int)),
        decreases a.len() - i,
    {
        proof {
            let x = a@.skip(i as int);
            let y = b@.skip(i as int);
            assert(x[0] == a@[i as int] && y[0] == b@[i as int]);
            assert(x.drop_first() =~= a@.skip(i + 1));
            assert(y.drop_first() =~= b@.skip(i + 1));
        }
        if a[i] != b[i] {
            return a[i] < b[i];
        }
        i += 1;
    }
    i < b.len()
}

/// Whether two byte strings hold the same bytes.
pub fn bytes_equal(a: &[u8], b: &[u8]) -> (r: bool)
    ensures
        r == (a@ == b@),
{
    if a.len() != b.len() {
        return false;
    }
    let mut i: usize = 0;
    while i < a.len()
        invariant
            i <= a.len(),
            a.len() == b.len(),
            a@.take(i as int) == b@.take(i as int),
        decreases a.len() - i,
    {
        if a[i] != b[i] {
            return false;
        }
        assert(a@.take(i + 1) =~= a@.take(i as int).push(a@[i as int]));
        assert(b@.take(i + 1) =~= b@.take(i as int).push(b@[i as int]));
        i += 1;
    }
    assert(a@ =~= a@.take(a.len() as int));
    assert(b@ =~= b@.take(b.len() as int));
    true
}

} // verus!
