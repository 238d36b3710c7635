//! Picking numbers out of a range, in rising order.

use vstd::prelude::*;

verus! {

/// The numbers below `n` that are wanted, in rising order.
pub open spec fn picked(n: int, wanted: spec_fn(usize) -> bool) -> Seq<usize>
    decreases n,
{
    if n <= 0 {
        Seq::empty()
    } else if wanted((n - 1) as usize) {
        picked(n - 1, wanted).push((n - 1) as usize)
    } else {
        picked(n - 1, wanted)
    }
}

/// `picked` holds exactly the wanted numbers below `n`, each once, rising.
pub proof fn lemma_picked(n: int, wanted: spec_fn(usize) -> bool)
    requires
        n <= usize::MAX + 1,
    ensures
        picked(n, wanted).len() <= if n > 0 {
            n
        } else {
            0
        },
        forall|a: usize| #[trigger] picked(n, wanted).contains(a) <==> a < n && wanted(a),
        forall|i: int, j: int|
            0 <= i < j < picked(n, wanted).len() ==> picked(n, wanted)[i] < picked(n, wanted)[j],
        picked(n, wanted).no_duplicates(),
    decreases n,
{
    if n > 0 {
        lemma_picked(n - 1, wanted);
        let head = picked(n - 1, wanted);
        let all = picked(n, wanted);
        let last = (n - 1) as usize;
        assert forall|a: usize| #[trigger] all.contains(a) <==> a < n && wanted(a) by {
            if head.contains(a) {
                let i = head.index_of(a);
                assert(all[i] == a);
            }
            if a == last && wanted(a) {
                assert(all[all.len() - 1] == a);
            }
            if all.contains(a) {
                let i = all.index_of(a);
                if i < head.len() {
                    assert(head[i] == a);
                }
            }
        }
        assert forall|i: int, j: int| 0 <= i < j < all.len() implies all[i] < all[j] by {
            if j == head.len() {
                assert(head.contains(head[i]));
            }
        }
    }
}

/// Two ways of saying what is wanted that agree below `n` pick the same.
pub proof fn lemma_picked_agree(n: int, one: spec_fn(usize) -> bool, other: spec_fn(usize) -> bool)
    requires
        n <= usize::MAX + 1,
        forall|a: usize| a < n ==> #[trigger] one(a) == other(a),
    ensures
        picked(n, one) == picked(n, other),
    decreases n,
{
    if n > 0 {
        lemma_picked_agree(n - 1, one, other);
    }
}

} // verus!
