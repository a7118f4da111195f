//! Sequences seen as maps from position to element, which is how the
//! containers that are addressed by position present their elements.

use vstd::prelude::*;

verus! {

/// The positions below `n`.
pub open spec fn positions(n: nat) -> Set<usize> {
    Set::new(|i: usize| i < n)
}

/// The elements of a sequence, keyed by position.
pub open spec fn indexed<T>(s: Seq<T>) -> Map<usize, T> {
    Map::new(|i: usize| i < s.len(), |i: usize| s[i as int])
}

/// The positions below `n` are finitely many: `n` in number as long as each of
/// them is a machine integer, and all machine integers beyond that.
pub proof fn lemma_positions(n: nat)
    ensures
        positions(n).finite(),
        n <= usize::MAX + 1 ==> positions(n).len() == n,
        n > usize::MAX + 1 ==> positions(n).len() == usize::MAX + 1,
    decreases n,
{
    if n == 0 {
        assert(positions(0) =~= Set::<usize>::empty());
    } else if n <= usize::MAX + 1 {
        let m = (n - 1) as nat;
        lemma_positions(m);
        assert(positions(n) =~= positions(m).insert(m as usize));
    } else {
        let m = (n - 1) as nat;
        lemma_positions(m);
        assert(positions(n) =~= positions(m));
    }
}

/// A sequence read by position has its positions as keys.
pub proof fn lemma_indexed<T>(s: Seq<T>)
    ensures
        indexed(s).dom() == positions(s.len()),
        indexed(s).dom().finite(),
        s.len() <= usize::MAX + 1 ==> indexed(s).len() == s.len(),
        s.len() > usize::MAX + 1 ==> indexed(s).len() == usize::MAX + 1,
{
    assert(indexed(s).dom() =~= positions(s.len()));
    lemma_positions(s.len());
}

/// The positions below `n`, in ascending order.
pub fn positions_below(n: usize) -> (order: Vec<usize>)
    ensures
        order@.len() == n,
        forall|i: int| 0 <= i < n ==> order@[i] == i,
{
    let mut order: Vec<usize> = Vec::new();
    let mut i: usize = 0;
    while i < n
        invariant
            i <= n,
            order@.len() == i,
            forall|j: int| 0 <= j < i ==> order@[j] == j,
        decreases n - i,
    {
        order.push(i);
        i += 1;
    }
    order
}

} // verus!
