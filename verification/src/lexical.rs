//! Byte-wise lexicographic order, the order in which Rust compares strings.

use vstd::prelude::*;

verus! {

/// `a` sorts at or before `b` when compared byte by byte; a proper prefix sorts first.
pub open spec fn bytes_le(a: Seq<u8>, b: Seq<u8>) -> bool
    decreases a.len(),
{
    if a.len() == 0 {
        true
    } else if b.len() == 0 {
        false
    } else if a[0] != b[0] {
        a[0] < b[0]
    } else {
        bytes_le(a.drop_first(), b.drop_first())
    }
}

/// Every byte string sorts at or before itself.
pub proof fn lemma_bytes_le_reflexive(a: Seq<u8>)
    ensures
        bytes_le(a, a),
    decreases a.len(),
{
    if a.len() > 0 {
        lemma_bytes_le_reflexive(a.drop_first());
    }
}

/// Any two byte strings are ordered one way or the other.
pub proof fn lemma_bytes_le_total(a: Seq<u8>, b: Seq<u8>)
    ensures
        bytes_le(a, b) || bytes_le(b, a),
    decreases a.len(),
{
    if a.len() > 0 && b.len() > 0 && a[0] == b[0] {
        lemma_bytes_le_total(a.drop_first(), b.drop_first());
    }
}

/// The order is transitive.
pub proof fn lemma_bytes_le_transitive(a: Seq<u8>, b: Seq<u8>, c: Seq<u8>)
    requires
        bytes_le(a, b),
        bytes_le(b, c),
    ensures
        bytes_le(a, c),
    decreases a.len(),
{
    if a.len() > 0 && b.len() > 0 && c.len() > 0 && a[0] == b[0] && b[0] == c[0] {
        lemma_bytes_le_transitive(a.drop_first(), b.drop_first(), c.drop_first());
    }
}

/// Compares two byte strings in lexicographic order.
pub fn bytes_le_exec(a: &[u8], b: &[u8]) -> (r: bool)
    ensures
        r == bytes_le(a@, b@),
{
    let mut k: usize = 0;
    assert(a@.skip(0) =~= a@);
    assert(b@.skip(0) =~= b@);
    while k < a.len() && k < b.len()
        invariant
            k <= a@.len(),
            k <= b@.len(),
            bytes_le(a@, b@) == bytes_le(a@.skip(k as int), b@.skip(k as int)),
        decreases a@.len() - k,
    {
        if a[k] != b[k] {
            assert(a@.skip(k as int)[0] == a@[k as int]);
            assert(b@.skip(k as int)[0] == b@[k as int]);
            return a[k] < b[k];
        }
        assert(a@.skip(k as int).drop_first() =~= a@.skip(k + 1));
        assert(b@.skip(k as int).drop_first() =~= b@.skip(k + 1));
        k = k + 1;
    }
    assert(k == a@.len() ==> a@.skip(k as int).len() == 0);
    assert(k == b@.len() ==> b@.skip(k as int).len() == 0);
    k == a.len()
}

/// The empty string sorts first, and nothing non-empty sorts at or before it.
pub proof fn lemma_bytes_le_empty(a: Seq<u8>)
    ensures
        bytes_le(Seq::<u8>::empty(), a),
        a.len() > 0 ==> !bytes_le(a, Seq::<u8>::empty()),
{
}

/// A common prefix does not decide the order: it is decided by what follows.
pub proof fn lemma_bytes_le_common_prefix(p: Seq<u8>, a: Seq<u8>, b: Seq<u8>)
    ensures
        bytes_le(p + a, p + b) == bytes_le(a, b),
    decreases p.len(),
{
    if p.len() > 0 {
        assert((p + a).drop_first() =~= p.drop_first() + a);
        assert((p + b).drop_first() =~= p.drop_first() + b);
        assert((p + a)[0] == p[0]);
        assert((p + b)[0] == p[0]);
        lemma_bytes_le_common_prefix(p.drop_first(), a, b);
    } else {
        assert(p + a =~= a);
        assert(p + b =~= b);
    }
}

/// At the first differing byte, the smaller byte sorts first, whatever follows.
pub proof fn lemma_bytes_le_first_difference(x: u8, y: u8, a: Seq<u8>, b: Seq<u8>)
    requires
        x != y,
    ensures
        bytes_le(seq![x] + a, seq![y] + b) == (x < y),
{
    assert((seq![x] + a)[0] == x);
    assert((seq![y] + b)[0] == y);
}

} // verus!
