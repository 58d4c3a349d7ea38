//! Station names are raw byte strings. They are told apart and ordered
//! byte by byte, with no regard to any text encoding.

use vstd::prelude::*;

verus! {

/// `a` and `b` carry the same bytes in their first `k` positions.
pub open spec fn agree_upto(a: Seq<u8>, b: Seq<u8>, k: int) -> bool {
    &&& 0 <= k <= a.len()
    &&& k <= b.len()
    &&& forall|i: int| 0 <= i < k ==> a[i] == b[i]
}

/// The strict byte-wise order on names: after a common prefix, either `a`
/// ends while `b` goes on, or `a` holds the smaller byte.
pub open spec fn precedes(a: Seq<u8>, b: Seq<u8>) -> bool {
    exists|k: int|
        #[trigger] agree_upto(a, b, k) && ((k == a.len() && k < b.len()) || (k < a.len() && k
            < b.len() && a[k] < b[k]))
}

/// How one name stands to another in the byte-wise order.
#[derive(Clone, Copy, Debug, PartialEq, Eq, Structural)]
pub enum Rank {
    Before,
    Same,
    After,
}

/// No name precedes a name that precedes it, and none precedes itself.
pub proof fn lemma_precedes_asymmetric(a: Seq<u8>, b: Seq<u8>)
    requires
        precedes(a, b),
    ensures
        !precedes(b, a),
        a != b,
{
    let k = choose|k: int|
        #[trigger] agree_upto(a, b, k) && ((k == a.len() && k < b.len()) || (k < a.len() && k
            < b.len() && a[k] < b[k]));
    if precedes(b, a) {
        let j = choose|j: int|
            #[trigger] agree_upto(b, a, j) && ((j == b.len() && j < a.len()) || (j < b.len() && j
                < a.len() && b[j] < a[j]));
        if j < k {
            assert(a[j] == b[j]);
        } else if k < j {
            assert(b[k] == a[k]);
        }
    }
}

/// The byte-wise order is transitive.
pub proof fn lemma_precedes_transitive(a: Seq<u8>, b: Seq<u8>, c: Seq<u8>)
    requires
        precedes(a, b),
        precedes(b, c),
    ensures
        precedes(a, c),
{
    let k = choose|k: int|
        #[trigger] agree_upto(a, b, k) && ((k == a.len() && k < b.len()) || (k < a.len() && k
            < b.len() && a[k] < b[k]));
    let j = choose|j: int|
        #[trigger] agree_upto(b, c, j) && ((j == b.len() && j < c.len()) || (j < b.len() && j
            < c.len() && b[j] < c[j]));
    let m = if k <= j { k } else { j };
    assert(agree_upto(a, c, m)) by {
        assert forall|i: int| 0 <= i < m implies a[i] == c[i] by {
            assert(a[i] == b[i]);
            assert(b[i] == c[i]);
        }
    }
    if k < j {
        assert(b[k] == c[k]);
    } else if j < k {
        assert(a[j] == b[j]);
    }
}

/// Two different names are ordered one way or the other.
pub proof fn lemma_precedes_total(a: Seq<u8>, b: Seq<u8>)
    ensures
        a == b || precedes(a, b) || precedes(b, a),
{
    if a != b {
        if exists|i: int| 0 <= i < a.len() && i < b.len() && a[i] != b[i] {
            let k = first_difference(a, b, 0);
            assert(agree_upto(a, b, k));
            assert(agree_upto(b, a, k));
        } else {
            let m = if a.len() <= b.len() { a.len() as int } else { b.len() as int };
            assert(agree_upto(a, b, m));
            assert(agree_upto(b, a, m));
            if a.len() == b.len() {
                assert(a =~= b);
            }
        }
    }
}

/// The least position from `from` on at which both names have a byte and
/// the bytes differ.
proof fn first_difference(a: Seq<u8>, b: Seq<u8>, from: int) -> (k: int)
    requires
        0 <= from,
        forall|i: int| 0 <= i < from && i < a.len() && i < b.len() ==> a[i] == b[i],
        exists|i: int| 0 <= i < a.len() && i < b.len() && a[i] != b[i],
    ensures
        0 <= k < a.len(),
        k < b.len(),
        a[k] != b[k],
        forall|i: int| 0 <= i < k ==> a[i] == b[i],
    decreases a.len() - from,
{
    let w = choose|i: int| 0 <= i < a.len() && i < b.len() && a[i] != b[i];
    assert(from <= w);
    if a[from] != b[from] {
        from
    } else {
        first_difference(a, b, from + 1)
    }
}

/// Ranks `a` against `b` byte by byte.
pub fn rank(a: &[u8], b: &[u8]) -> (r: Rank)
    ensures
        r == Rank::Before <==> precedes(a@, b@),
        r == Rank::Same <==> a@ == b@,
        r == Rank::After <==> precedes(b@, a@),
{
    let mut i: usize = 0;
    while i < a.len() && i < b.len()
        invariant
            agree_upto(a@, b@, i as int),
        decreases a.len() - i,
    {
        if a[i] < b[i] {
            proof {
                lemma_precedes_asymmetric(a@, b@);
            }
            return Rank::Before;
        }
        if a[i] > b[i] {
            proof {
                assert(agree_upto(b@, a@, i as int));
                lemma_precedes_asymmetric(b@, a@);
            }
            return Rank::After;
        }
        i += 1;
    }
    if i < b.len() {
        proof {
            lemma_precedes_asymmetric(a@, b@);
        }
        Rank::Before
    } else if i < a.len() {
        proof {
            assert(agree_upto(b@, a@, i as int));
            lemma_precedes_asymmetric(b@, a@);
        }
        Rank::After
    } else {
        proof {
            assert(a@ =~= b@);
            if precedes(a@, b@) {
                lemma_precedes_asymmetric(a@, b@);
            }
        }
        Rank::Same
    }
}

} // verus!
