//! Choosing some of a list of items.

use itertools::Itertools;
use vstd::prelude::*;

verus! {

/// The ways to choose `k` of the items, each way in the order of the items,
/// the ways in the order of the positions chosen: all that choose the first
/// item before all that do not.
pub open spec fn choices(items: Seq<usize>, k: nat) -> Seq<Seq<usize>>
    decreases items.len(),
{
    if k == 0 {
        seq![Seq::empty()]
    } else if items.len() < k {
        Seq::empty()
    } else {
        choices(items.skip(1), (k - 1) as nat).map_values(|c: Seq<usize>| seq![items[0]] + c)
            + choices(items.skip(1), k)
    }
}

/// The contents of a list of vectors.
pub open spec fn lists(all: Seq<Vec<usize>>) -> Seq<Seq<usize>> {
    all.map_values(|c: Vec<usize>| c@)
}

/// All ways to choose `k` of the items, as `Itertools::combinations` of the
/// crate `itertools` yields them, collected into a vector. The contract
/// states what the crate documents and its source shows: every combination of
/// `k` positions, the items of each in the order of their positions, the
/// combinations in the lexicographic order of their positions. `k` must not
/// exceed the number of items: the crate allocates `k` indices before it
/// looks at the items.
#[verifier::external_body]
pub(crate) fn combinations(items: &Vec<usize>, k: usize) -> (all: Vec<Vec<usize>>)
    requires
        k <= items@.len(),
    ensures
        lists(all@) == choices(items@, k as nat),
{
    items.iter().copied().combinations(k).collect()
}

/// Every choice has `k` items, and each of them is one of the items chosen
/// from.
pub proof fn lemma_choices(items: Seq<usize>, k: nat)
    ensures
        forall|j: int|
            0 <= j < choices(items, k).len() ==> {
                &&& (#[trigger] choices(items, k)[j]).len() == k
                &&& forall|i: int|
                    0 <= i < k ==> items.contains(#[trigger] choices(items, k)[j][i])
            },
    decreases items.len(),
{
    if k == 0 {
    } else if items.len() < k {
    } else {
        let rest = items.skip(1);
        lemma_choices(rest, (k - 1) as nat);
        lemma_choices(rest, k);
        let with = choices(rest, (k - 1) as nat).map_values(|c: Seq<usize>| seq![items[0]] + c);
        let without = choices(rest, k);
        let all = choices(items, k);
        assert forall|j: int| 0 <= j < all.len() implies {
            &&& (#[trigger] all[j]).len() == k
            &&& forall|i: int| 0 <= i < k ==> items.contains(#[trigger] all[j][i])
        } by {
            if j < with.len() {
                let c = choices(rest, (k - 1) as nat)[j];
                assert(all[j] == seq![items[0]] + c);
                assert forall|i: int| 0 <= i < k implies items.contains(#[trigger] all[j][i]) by {
                    if i == 0 {
                        assert(items[0] == all[j][0]);
                    } else {
                        assert(all[j][i] == c[i - 1]);
                        assert(rest.contains(c[i - 1]));
                        let p = choose|p: int| 0 <= p < rest.len() && rest[p] == c[i - 1];
                        assert(items[p + 1] == c[i - 1]);
                    }
                }
            } else {
                let c = without[j - with.len()];
                assert(all[j] == c);
                assert forall|i: int| 0 <= i < k implies items.contains(#[trigger] all[j][i]) by {
                    assert(rest.contains(c[i]));
                    let p = choose|p: int| 0 <= p < rest.len() && rest[p] == c[i];
                    assert(items[p + 1] == c[i]);
                }
            }
        }
    }
}

} // verus!
