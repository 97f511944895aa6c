//! The order of the keyspace.
//!
//! Raw keys are byte strings and the store keeps them in lexicographic
//! order: the first byte in which two keys differ decides, and a key that is
//! a proper prefix of another comes before it.
use vstd::prelude::*;

verus! {

/// `a` and `b` hold the same bytes in their first `n` places.
pub open spec fn agree_upto(a: Seq<u8>, b: Seq<u8>, n: int) -> bool {
    &&& 0 <= n <= a.len()
    &&& n <= b.len()
    &&& forall|i: int| 0 <= i < n ==> a[i] == b[i]
}

/// After `n` equal bytes, `a` either ends while `b` goes on, or holds the smaller byte.
pub open spec fn splits_below(a: Seq<u8>, b: Seq<u8>, n: int) -> bool {
    &&& agree_upto(a, b, n)
    &&& n < b.len()
    &&& n == a.len() || a[n] < b[n]
}

/// `a` comes strictly before `b` in lexicographic order.
pub open spec fn precedes(a: Seq<u8>, b: Seq<u8>) -> bool {
    exists|n: int| #[trigger] splits_below(a, b, n)
}

/// The first place at or after `i` in which `a` and `b` differ, or where one of them ends.
pub open spec fn first_split(a: Seq<u8>, b: Seq<u8>, i: int) -> int
    decreases a.len() - i,
{
    if 0 <= i < a.len() && i < b.len() && a[i] == b[i] {
        first_split(a, b, i + 1)
    } else {
        i
    }
}

/// Up to the first split the two keys agree, and at it they do not.
pub proof fn lemma_first_split(a: Seq<u8>, b: Seq<u8>, i: int)
    requires
        agree_upto(a, b, i),
    ensures
        agree_upto(a, b, first_split(a, b, i)),
        i <= first_split(a, b, i),
        ({
            let n = first_split(a, b, i);
            n == a.len() || n == b.len() || a[n] != b[n]
        }),
    decreases a.len() - i,
{
    if i < a.len() && i < b.len() && a[i] == b[i] {
        lemma_first_split(a, b, i + 1);
    }
}

/// No key comes before itself.
pub proof fn lemma_precedes_irreflexive(a: Seq<u8>)
    ensures
        !precedes(a, a),
{
    assert forall|n: int| !#[trigger] splits_below(a, a, n) by {}
}

/// Of two keys at most one comes before the other.
pub proof fn lemma_precedes_asymmetric(a: Seq<u8>, b: Seq<u8>)
    requires
        precedes(a, b),
    ensures
        !precedes(b, a),
        a != b,
{
    let n = choose|n: int| #[trigger] splits_below(a, b, n);
    assert forall|m: int| !#[trigger] splits_below(b, a, m) by {
        if splits_below(b, a, m) {
            if m < n {
                assert(a[m] == b[m]);
            } else if n < m {
                assert(b[n] == a[n]);
            }
        }
    }
    lemma_precedes_irreflexive(a);
}

/// The order is transitive.
pub proof fn lemma_precedes_transitive(a: Seq<u8>, b: Seq<u8>, c: Seq<u8>)
    requires
        precedes(a, b),
        precedes(b, c),
    ensures
        precedes(a, c),
{
    let n = choose|n: int| #[trigger] splits_below(a, b, n);
    let m = choose|m: int| #[trigger] splits_below(b, c, m);
    let k = if n <= m { n } else { m };
    assert(agree_upto(a, c, k)) by {
        assert forall|i: int| 0 <= i < k implies a[i] == c[i] by {
            assert(a[i] == b[i]);
            assert(b[i] == c[i]);
        }
    }
    if n < m {
        assert(n == a.len() || b[n] == c[n]);
    } else if m < n {
        assert(a[m] == b[m]);
    }
    assert(splits_below(a, c, k));
}

/// Any two keys are equal or one comes before the other.
pub proof fn lemma_precedes_total(a: Seq<u8>, b: Seq<u8>)
    ensures
        a == b || precedes(a, b) || precedes(b, a),
{
    lemma_first_split(a, b, 0);
    let n = first_split(a, b, 0);
    if n == a.len() && n == b.len() {
        assert(a =~= b);
    } else if n == a.len() {
        assert(splits_below(a, b, n));
    } else if n == b.len() {
        assert(agree_upto(b, a, n));
        assert(splits_below(b, a, n));
    } else if a[n] < b[n] {
        assert(splits_below(a, b, n));
    } else {
        assert(agree_upto(b, a, n));
        assert(splits_below(b, a, n));
    }
}

/// A key that does not come before another is equal to it or comes after it.
pub proof fn lemma_not_precedes(a: Seq<u8>, b: Seq<u8>)
    ensures
        !precedes(a, b) <==> (a == b || precedes(b, a)),
{
    lemma_precedes_total(a, b);
    if precedes(a, b) {
        lemma_precedes_asymmetric(a, b);
    }
}

/// Tells whether `a` comes strictly before `b`.
pub fn bytes_precede(a: &[u8], b: &[u8]) -> (r: bool)
    ensures
        r == precedes(a@, b@),
{
    let mut i: usize = 0;
    while i < a.len() && i < b.len()
        invariant
            agree_upto(a@, b@, i as int),
        decreases a.len() - i,
    {
        if a[i] != b[i] {
            let below = a[i] < b[i];
            proof {
                if below {
                    assert(splits_below(a@, b@, i as int));
                } else {
                    assert(agree_upto(b@, a@, i as int));
                    assert(splits_below(b@, a@, i as int));
                    lemma_precedes_asymmetric(b@, a@);
                }
            }
            return below;
        }
        i = i + 1;
    }
    proof {
        if a.len() < b.len() {
            assert(splits_below(a@, b@, i as int));
        } else {
            assert(agree_upto(b@, a@, i as int));
            if b.len() < a.len() {
                assert(splits_below(b@, a@, i as int));
                lemma_precedes_asymmetric(b@, a@);
            } else {
                assert(a@ =~= b@);
                lemma_precedes_irreflexive(a@);
            }
        }
    }
    a.len() < b.len()
}

/// Tells whether `a` and `b` hold the same bytes.
pub fn bytes_equal(a: &[u8], b: &[u8]) -> (r: bool)
    ensures
        r == (a@ == b@),
{
    if a.len() != b.len() {
        return false;
    }
    let mut i: usize = 0;
    while i < a.len()
        invariant
            a.len() == b.len(),
            agree_upto(a@, b@, i as int),
        decreases a.len() - i,
    {
        if a[i] != b[i] {
            return false;
        }
        i = i + 1;
    }
    assert(a@ =~= b@);
    true
}

} // verus!
