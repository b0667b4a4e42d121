//! Orders of a list: its places, each of them once.

use vstd::prelude::*;

verus! {

/// The numbers below `n` in order.
pub open spec fn identity(n: nat) -> Seq<usize> {
    Seq::new(n, |i: int| i as usize)
}

/// Whether `p` holds each number below `n` once.
pub open spec fn is_order(p: Seq<usize>, n: nat) -> bool {
    p.to_multiset() == identity(n).to_multiset()
}

pub proof fn lemma_order(p: Seq<usize>, n: nat)
    requires
        is_order(p, n),
        n <= usize::MAX,
    ensures
        p.len() == n,
        forall|i: int| 0 <= i < n ==> #[trigger] p[i] < n,
{
    p.to_multiset_ensures();
    identity(n).to_multiset_ensures();
    assert forall|i: int| 0 <= i < n implies #[trigger] p[i] < n by {
        assert(p.to_multiset().count(p[i]) > 0);
        assert(identity(n).to_multiset().count(p[i]) > 0);
        assert(identity(n).contains(p[i]));
    }
}

/// An order holds every place, and none of them twice.
pub proof fn law_every_place_once(p: Seq<usize>, n: nat)
    requires
        is_order(p, n),
        n <= usize::MAX,
    ensures
        forall|i: int, j: int| 0 <= i < j < p.len() ==> #[trigger] p[i] != #[trigger] p[j],
        forall|k: usize| k < n ==> #[trigger] p.contains(k),
{
    p.to_multiset_ensures();
    identity(n).to_multiset_ensures();
    assert(identity(n).no_duplicates());
    identity(n).lemma_multiset_has_no_duplicates();
    p.lemma_multiset_has_no_duplicates_conv();
    assert forall|k: usize| k < n implies #[trigger] p.contains(k) by {
        assert(identity(n)[k as int] == k);
        assert(identity(n).to_multiset().count(k) > 0);
        assert(p.to_multiset().count(k) > 0);
    }
}

} // verus!
