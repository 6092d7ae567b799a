//! Total orders and the lexicographic order of byte strings.
use std::cmp::Ordering;
use vstd::prelude::*;
use vstd::std_specs::cmp::PartialOrdSpec;

verus! {

/// `a` stands before `b` in the order of `T`.
pub open spec fn precedes<T: PartialOrd>(a: T, b: T) -> bool {
    a.partial_cmp_spec(&b) == Some(Ordering::Less)
}

/// `a` and `b` stand at the same place in the order of `T`.
pub open spec fn equivalent<T: PartialOrd>(a: T, b: T) -> bool {
    a.partial_cmp_spec(&b) == Some(Ordering::Equal)
}

/// The comparison of `T` is a total order, as a sorted collection needs it.
pub open spec fn total_order<T: PartialOrd>() -> bool {
    &&& T::obeys_partial_cmp_spec()
    &&& forall|a: T| #[trigger] equivalent(a, a)
    &&& forall|a: T, b: T| #[trigger]
        precedes(a, b) || precedes(b, a) || equivalent(a, b)
    &&& forall|a: T, b: T| #[trigger] precedes(a, b) ==> !precedes(b, a) && !equivalent(a, b)
    &&& forall|a: T, b: T| #[trigger] equivalent(a, b) ==> equivalent(b, a)
    &&& forall|a: T, b: T, c: T|
        #![trigger precedes(a, b), precedes(b, c)]
        precedes(a, b) && precedes(b, c) ==> precedes(a, c)
    &&& forall|a: T, b: T, c: T|
        #![trigger equivalent(a, b), precedes(b, c)]
        equivalent(a, b) && precedes(b, c) ==> precedes(a, c)
    &&& forall|a: T, b: T, c: T|
        #![trigger precedes(a, b), equivalent(b, c)]
        precedes(a, b) && equivalent(b, c) ==> precedes(a, c)
    &&& forall|a: T, b: T, c: T|
        #![trigger equivalent(a, b), equivalent(b, c)]
        equivalent(a, b) && equivalent(b, c) ==> equivalent(a, c)
}

/// `a` stands before `b` in the lexicographic order of bytes: at the first place where the two
/// differ `a` has the smaller byte, or `a` is a proper prefix of `b`.
pub open spec fn bytes_less(a: Seq<u8>, b: Seq<u8>) -> bool {
    exists|k: int| #[trigger] bytes_differ_at(a, b, k) && (k == a.len() || (k < b.len() && a[k] < b[k]))
}

/// The first `k` bytes of `a` and `b` agree, and after them at least one of the two goes on, with
/// a byte that the other does not have there.
pub open spec fn bytes_differ_at(a: Seq<u8>, b: Seq<u8>, k: int) -> bool {
    &&& 0 <= k <= a.len()
    &&& k <= b.len()
    &&& forall|i: int| 0 <= i < k ==> a[i] == b[i]
    &&& k < a.len() || k < b.len()
    &&& k < a.len() && k < b.len() ==> a[k] != b[k]
}

/// Compares two byte strings: whether they are equal, and whether the first stands before the
/// second.
pub fn compare_bytes(a: &[u8], b: &[u8]) -> (order: (bool, bool))
    ensures
        order.0 == (a@ == b@),
        order.1 == bytes_less(a@, b@),
{
    let mut i: usize = 0;
    while i < a.len() && i < b.len() && a[i] == b[i]
        invariant
            i <= a@.len(),
            i <= b@.len(),
            forall|j: int| 0 <= j < i ==> a@[j] == b@[j],
        decreases a@.len() - i,
    {
        i += 1;
    }
    if i == a.len() && i == b.len() {
        proof {
            assert(a@ =~= b@);
            lemma_bytes_less_is_irreflexive(a@);
        }
        return (true, false);
    }
    let less: bool = i == a.len() || (i < b.len() && a[i] < b[i]);
    proof {
        let k = i as int;
        assert(bytes_differ_at(a@, b@, k));
        assert forall|j: int| bytes_differ_at(a@, b@, j) implies j == k by {
            lemma_bytes_differ_at_one_place(a@, b@, j, k);
        }
    }
    (false, less)
}

/// Two byte strings first differ at one place only.
pub proof fn lemma_bytes_differ_at_one_place(a: Seq<u8>, b: Seq<u8>, j: int, k: int)
    requires
        bytes_differ_at(a, b, j),
        bytes_differ_at(a, b, k),
    ensures
        j == k,
{
    if j < k {
        assert(a[j] == b[j]);
    } else if k < j {
        assert(a[k] == b[k]);
    }
}

/// No byte string stands before itself.
pub proof fn lemma_bytes_less_is_irreflexive(a: Seq<u8>)
    ensures
        !bytes_less(a, a),
{
}

/// Of two byte strings at most one stands before the other.
pub proof fn lemma_bytes_less_is_asymmetric(a: Seq<u8>, b: Seq<u8>)
    requires
        bytes_less(a, b),
    ensures
        !bytes_less(b, a),
{
    let k = choose|k: int| #[trigger] bytes_differ_at(a, b, k) && (k == a.len() || (k < b.len() && a[k] < b[k]));
    assert forall|j: int| bytes_differ_at(b, a, j) implies j == k by {
        assert(bytes_differ_at(a, b, j));
        lemma_bytes_differ_at_one_place(a, b, j, k);
    }
}

/// Of two different byte strings one stands before the other.
pub proof fn lemma_bytes_are_connected(a: Seq<u8>, b: Seq<u8>)
    ensures
        a == b || bytes_less(a, b) || bytes_less(b, a),
    decreases a.len(),
{
    if a.len() == 0 {
        if b.len() == 0 {
            assert(a =~= b);
        } else {
            assert(bytes_differ_at(a, b, 0));
        }
    } else if b.len() == 0 {
        assert(bytes_differ_at(b, a, 0));
    } else if a[0] != b[0] {
        assert(bytes_differ_at(a, b, 0));
        assert(bytes_differ_at(b, a, 0));
    } else {
        let (x, y) = (a.skip(1), b.skip(1));
        lemma_bytes_are_connected(x, y);
        if x == y {
            assert(a =~= seq![a[0]] + x);
            assert(b =~= seq![b[0]] + y);
        } else if bytes_less(x, y) {
            let k = choose|k: int| #[trigger] bytes_differ_at(x, y, k) && (k == x.len() || (k < y.len() && x[k] < y[k]));
            assert forall|i: int| 0 <= i < k + 1 implies a[i] == b[i] by {
                if i > 0 {
                    assert(x[i - 1] == y[i - 1]);
                }
            }
            assert(bytes_differ_at(a, b, k + 1));
        } else {
            let k = choose|k: int| #[trigger] bytes_differ_at(y, x, k) && (k == y.len() || (k < x.len() && y[k] < x[k]));
            assert forall|i: int| 0 <= i < k + 1 implies a[i] == b[i] by {
                if i > 0 {
                    assert(x[i - 1] == y[i - 1]);
                }
            }
            assert(bytes_differ_at(b, a, k + 1));
        }
    }
}

/// What stands before a byte string stands before everything after that string.
pub proof fn lemma_bytes_less_is_transitive(a: Seq<u8>, b: Seq<u8>, c: Seq<u8>)
    requires
        bytes_less(a, b),
        bytes_less(b, c),
    ensures
        bytes_less(a, c),
{
    let j = choose|k: int| #[trigger] bytes_differ_at(a, b, k) && (k == a.len() || (k < b.len() && a[k] < b[k]));
    let k = choose|k: int| #[trigger] bytes_differ_at(b, c, k) && (k == b.len() || (k < c.len() && b[k] < c[k]));
    let m = if j <= k {
        j
    } else {
        k
    };
    assert forall|i: int| 0 <= i < m implies a[i] == c[i] by {
        assert(a[i] == b[i]);
        assert(b[i] == c[i]);
    }
    if m < k {
        assert(b[m] == c[m]);
    }
    if m < j {
        assert(a[m] == b[m]);
    }
    assert(bytes_differ_at(a, c, m));
}

} // verus!
