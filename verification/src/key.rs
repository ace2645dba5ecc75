//! Keys are raw byte strings, ordered byte by byte.

use vstd::prelude::*;

verus! {

/// Whether `a` and `b` agree on their first `k` bytes and `a` comes first
/// from there: either `a` ends at `k` and `b` goes on, or the byte of `a` at
/// `k` is the smaller one.
pub open spec fn precedes_at(a: Seq<u8>, b: Seq<u8>, k: int) -> bool {
    &&& 0 <= k <= a.len()
    &&& k < b.len()
    &&& forall|j: int| 0 <= j < k ==> a[j] == b[j]
    &&& (k == a.len() || a[k] < b[k])
}

/// The order of keys: `a` comes strictly before `b` when it is a proper
/// prefix of `b`, or holds the smaller byte where the two first differ.
pub open spec fn key_less(a: Seq<u8>, b: Seq<u8>) -> bool {
    exists|k: int| precedes_at(a, b, k)
}

/// No key comes before itself.
pub proof fn lemma_key_less_irreflexive(a: Seq<u8>)
    ensures
        !key_less(a, a),
{
}

/// The order of keys is transitive.
pub proof fn lemma_key_less_transitive(a: Seq<u8>, b: Seq<u8>, c: Seq<u8>)
    requires
        key_less(a, b),
        key_less(b, c),
    ensures
        key_less(a, c),
{
    let k1 = choose|k: int| precedes_at(a, b, k);
    let k2 = choose|k: int| precedes_at(b, c, k);
    let k = if k1 <= k2 {
        k1
    } else {
        k2
    };
    assert(precedes_at(a, c, k));
}

/// Of two keys at most one comes before the other.
pub proof fn lemma_key_less_asymmetric(a: Seq<u8>, b: Seq<u8>)
    requires
        key_less(a, b),
    ensures
        !key_less(b, a),
{
    if key_less(b, a) {
        lemma_key_less_transitive(a, b, a);
        lemma_key_less_irreflexive(a);
    }
}

/// Two keys that agree on their first `from` bytes are equal, or one of them
/// comes before the other.
proof fn lemma_key_order_total_from(a: Seq<u8>, b: Seq<u8>, from: int)
    requires
        0 <= from <= a.len(),
        from <= b.len(),
        forall|j: int| 0 <= j < from ==> a[j] == b[j],
    ensures
        a == b || key_less(a, b) || key_less(b, a),
    decreases a.len() - from,
{
    if from == a.len() && from == b.len() {
        assert(a =~= b);
    } else if from == a.len() {
        assert(precedes_at(a, b, from));
    } else if from == b.len() {
        assert(precedes_at(b, a, from));
    } else if a[from] < b[from] {
        assert(precedes_at(a, b, from));
    } else if b[from] < a[from] {
        assert(precedes_at(b, a, from));
    } else {
        lemma_key_order_total_from(a, b, from + 1);
    }
}

/// The order of keys is total: two different keys are always comparable.
pub proof fn lemma_key_order_total(a: Seq<u8>, b: Seq<u8>)
    ensures
        a == b || key_less(a, b) || key_less(b, a),
{
    lemma_key_order_total_from(a, b, 0);
}

/// Decides the order of two keys.
pub fn bytes_less(a: &[u8], b: &[u8]) -> (less: bool)
    ensures
        less == key_less(a@, b@),
{
    let mut i: usize = 0;
    while i < a.len() && i < b.len()
        invariant
            i <= a.len(),
            i <= b.len(),
            forall|j: int| 0 <= j < i ==> a@[j] == b@[j],
        decreases a.len() - i,
    {
        if a[i] != b[i] {
            if a[i] < b[i] {
                assert(precedes_at(a@, b@, i as int));
                return true;
            } else {
                assert forall|k: int| !precedes_at(a@, b@, k) by {
                    if precedes_at(a@, b@, k) {
                        if k > i {
                            assert(a@[i as int] == b@[i as int]);
                        }
                    }
                }
                return false;
            }
        }
        i = i + 1;
    }
    if i < b.len() {
        assert(precedes_at(a@, b@, i as int));
        true
    } else {
        assert forall|k: int| !precedes_at(a@, b@, k) by {
            if precedes_at(a@, b@, k) {
                assert(k < i);
                assert(a@[k] == b@[k]);
            }
        }
        false
    }
}

} // verus!
