//! What selecting the best of numbered items yields.

use vstd::prelude::*;

use crate::sorting::{indexed, lemma_stable_sort_positions, stable_sort, top_k};
use crate::spaces::payloads;

verus! {

/// Item `i` carries the number `i`.
pub open spec fn numbered<P>(all: Seq<(u64, P)>, id: spec_fn(P) -> int) -> bool {
    all.len() <= usize::MAX && forall|i: int| 0 <= i < all.len() ==> id((#[trigger] all[i]).1) == i
}

/// `n` is the number of one of the items.
pub open spec fn listed<P>(found: Seq<P>, id: spec_fn(P) -> int, n: int) -> bool {
    exists|i: int| 0 <= i < found.len() && id(#[trigger] found[i]) == n
}

/// The best of numbered items are as many as were asked for, or all; each is listed
/// once and as it was; they come by ascending key, and of equal keys the smaller number
/// comes first; and no item that is left out has a smaller key.
pub open spec fn best_of<P>(
    found: Seq<P>,
    all: Seq<(u64, P)>,
    id: spec_fn(P) -> int,
    k: nat,
) -> bool {
    &&& found.len() == if k <= all.len() {
        k
    } else {
        all.len()
    }
    &&& forall|i: int|
        0 <= i < found.len() ==> 0 <= id(#[trigger] found[i]) < all.len() && all[id(found[i])].1
            == found[i]
    &&& forall|i: int, j: int|
        0 <= i < j < found.len() ==> {
            let (a, b) = (id(#[trigger] found[i]), id(#[trigger] found[j]));
            all[a].0 < all[b].0 || (all[a].0 == all[b].0 && a < b)
        }
    &&& forall|i: int, n: int|
        0 <= i < found.len() && 0 <= n < all.len() && !listed(found, id, n) ==> all[id(
            #[trigger] found[i],
        )].0 <= (#[trigger] all[n]).0
}

/// Selecting yields the best items.
pub proof fn lemma_best_of<P>(all: Seq<(u64, P)>, id: spec_fn(P) -> int, k: nat)
    requires
        numbered(all, id),
    ensures
        best_of(payloads(top_k(all, k)), all, id, k),
{
    let top = top_k(all, k);
    let found = payloads(top);
    let sorted = stable_sort(all);
    let order = stable_sort(indexed(all));
    lemma_stable_sort_positions(all);
    crate::sorting::lemma_stable_sort(all);
    assert forall|i: int| 0 <= i < found.len() implies 0 <= id(#[trigger] found[i]) < all.len()
        && all[id(found[i])].1 == found[i] && id(found[i]) == order[i].1 by {
        assert(top[i] == sorted[i]);
        assert(sorted[i] == all[order[i].1 as int]);
    }
    assert forall|i: int, n: int|
        0 <= i < found.len() && 0 <= n < all.len() && !listed(found, id, n) implies all[id(
        #[trigger] found[i],
    )].0 <= (#[trigger] all[n]).0 by {
        assert(all.contains(all[n]));
        crate::sorting::lemma_stable_sort_contains(all, all[n]);
        let c = choose|c: int| 0 <= c < sorted.len() && sorted[c] == all[n];
        assert(id(sorted[c].1) == n);
        if c < found.len() {
            assert(id(found[c]) == n);
            assert(listed(found, id, n));
        }
        assert(order[i].0 <= order[c].0);
        assert(sorted[i] == all[order[i].1 as int] && sorted[c] == all[order[c].1 as int]);
    }
    assert forall|i: int, j: int| 0 <= i < j < found.len() implies {
        let (a, b) = (id(#[trigger] found[i]), id(#[trigger] found[j]));
        all[a].0 < all[b].0 || (all[a].0 == all[b].0 && a < b)
    } by {
        assert(sorted[i] == all[order[i].1 as int] && sorted[j] == all[order[j].1 as int]);
    }
}

/// `ids` are those of the numbers below `n` with the `k` least keys, or all numbers
/// where there are fewer: they come by ascending key, of equal keys the smaller number
/// comes first, and no number that is left out has a smaller key.
pub open spec fn least_keys(ids: Seq<int>, keys: spec_fn(int) -> u64, n: nat, k: nat) -> bool {
    &&& ids.len() == if k <= n {
        k
    } else {
        n
    }
    &&& forall|i: int| 0 <= i < ids.len() ==> 0 <= #[trigger] ids[i] < n
    &&& forall|i: int, j: int|
        0 <= i < j < ids.len() ==> {
            let (a, b) = (#[trigger] ids[i], #[trigger] ids[j]);
            keys(a) < keys(b) || (keys(a) == keys(b) && a < b)
        }
    &&& forall|i: int, x: int|
        0 <= i < ids.len() && 0 <= x < n && !ids.contains(x) ==> keys(#[trigger] ids[i])
            <= #[trigger] keys(x)
}

/// The numbers of the best items.
pub proof fn lemma_least_keys<P>(
    all: Seq<(u64, P)>,
    id: spec_fn(P) -> int,
    keys: spec_fn(int) -> u64,
    k: nat,
)
    requires
        numbered(all, id),
        forall|i: int| 0 <= i < all.len() ==> (#[trigger] all[i]).0 == keys(i),
    ensures
        ({
            let found = payloads(top_k(all, k));
            &&& least_keys(Seq::new(found.len(), |i: int| id(found[i])), keys, all.len(), k)
            &&& forall|i: int|
                0 <= i < found.len() ==> 0 <= id(#[trigger] found[i]) < all.len() && found[i]
                    == all[id(found[i])].1
        }),
{
    let found = payloads(top_k(all, k));
    let ids = Seq::new(found.len(), |i: int| id(found[i]));
    lemma_best_of(all, id, k);
    assert forall|i: int| 0 <= i < ids.len() implies 0 <= #[trigger] ids[i] < all.len()
        && all[ids[i]].0 == keys(ids[i]) by {
        assert(id(found[i]) == ids[i]);
    }
    assert forall|i: int, j: int| 0 <= i < j < ids.len() implies {
        let (a, b) = (#[trigger] ids[i], #[trigger] ids[j]);
        keys(a) < keys(b) || (keys(a) == keys(b) && a < b)
    } by {
        let (a, b) = (id(found[i]), id(found[j]));
        assert(all[a].0 == keys(a) && all[b].0 == keys(b));
    }
    assert forall|i: int, x: int| 0 <= i < ids.len() && 0 <= x < all.len() && !ids.contains(
        x,
    ) implies keys(#[trigger] ids[i]) <= #[trigger] keys(x) by {
        if listed(found, id, x) {
            let j = choose|j: int| 0 <= j < found.len() && id(#[trigger] found[j]) == x;
            assert(ids[j] == x);
        }
        assert(all[x].0 == keys(x));
        assert(all[id(found[i])].0 <= all[x].0);
    }
}

} // verus!
