//! The nodes of a graph whose node `i` stands for vector `i`.

use vstd::prelude::*;

use crate::beam::{listed_below, Nodes, Space};
use crate::metric::Distance;
use crate::sorting::{lemma_stable_sort, lemma_top_k, select_top_k, stable_sort, top_k};
use crate::table::{holds, rows};

verus! {

/// The nodes by distance from `q`; those that are not `excluded` may be
/// results.
pub open spec fn excluding<T, D: Distance<T>>(
    metric: D,
    q: Seq<T>,
    vectors: Seq<Seq<T>>,
    excluded: Seq<u32>,
) -> Nodes {
    Nodes {
        count: vectors.len(),
        ranks: |id: u32| metric.spec_key(q, vectors[id as int]),
        allowed: |id: u32| !excluded.contains(id),
    }
}

/// The nodes by distance from `q`; those whose key lies between `lo` and `hi`
/// may be results.
pub open spec fn in_window<T, D: Distance<T>>(
    metric: D,
    q: Seq<T>,
    vectors: Seq<Seq<T>>,
    keys: Seq<u64>,
    lo: u64,
    hi: u64,
) -> Nodes {
    Nodes {
        count: vectors.len(),
        ranks: |id: u32| metric.spec_key(q, vectors[id as int]),
        allowed: |id: u32| id < keys.len() && lo <= keys[id as int] <= hi,
    }
}

/// Computes what `excluding` states.
pub struct Excluding<'a, T, D> {
    pub metric: &'a D,
    pub q: &'a [T],
    pub vectors: &'a Vec<Vec<T>>,
    pub excluded: &'a [u32],
}

impl<'a, T, D: Distance<T>> Space for Excluding<'a, T, D> {
    open spec fn nodes(&self) -> Nodes {
        excluding(*self.metric, self.q@, rows(self.vectors@), self.excluded@)
    }

    fn rank(&self, id: u32) -> (r: u64) {
        assert(rows(self.vectors@)[id as int] == self.vectors@[id as int]@);
        self.metric.key(self.q, self.vectors[id as usize].as_slice())
    }

    fn allow(&self, id: u32) -> (b: bool) {
        !holds(self.excluded, id)
    }
}

/// Computes what `in_window` states.
pub struct InWindow<'a, T, D> {
    pub metric: &'a D,
    pub q: &'a [T],
    pub vectors: &'a Vec<Vec<T>>,
    pub keys: &'a Vec<u64>,
    pub lo: u64,
    pub hi: u64,
}

impl<'a, T, D: Distance<T>> Space for InWindow<'a, T, D> {
    open spec fn nodes(&self) -> Nodes {
        in_window(*self.metric, self.q@, rows(self.vectors@), self.keys@, self.lo, self.hi)
    }

    fn rank(&self, id: u32) -> (r: u64) {
        assert(rows(self.vectors@)[id as int] == self.vectors@[id as int]@);
        self.metric.key(self.q, self.vectors[id as usize].as_slice())
    }

    fn allow(&self, id: u32) -> (b: bool) {
        if (id as usize) < self.keys.len() {
            let k: u64 = self.keys[id as usize];
            self.lo <= k && k <= self.hi
        } else {
            false
        }
    }
}

/// The nodes of a list with their ranks.
pub open spec fn ranked(nodes: Nodes, list: Seq<u32>) -> Seq<(u64, u32)> {
    Seq::new(list.len(), |i: int| (nodes.rank_of(list[i]), list[i]))
}

/// The payloads of keyed items.
pub open spec fn payloads<P>(s: Seq<(u64, P)>) -> Seq<P> {
    Seq::new(s.len(), |i: int| s[i].1)
}

/// The `k` nodes of a list with the best ranks, the best one first.
pub open spec fn nearest(nodes: Nodes, list: Seq<u32>, k: nat) -> Seq<u32> {
    payloads(top_k(ranked(nodes, list), k))
}

/// Takes the payloads of keyed items.
pub fn take_payloads<P: Copy>(s: &[(u64, P)]) -> (r: Vec<P>)
    ensures
        r@ == payloads(s@),
{
    let n: usize = s.len();
    let mut r: Vec<P> = Vec::new();
    let mut i: usize = 0;
    while i < n
        invariant
            i <= n,
            n == s@.len(),
            r@ =~= payloads(s@).take(i as int),
        decreases n - i,
    {
        r.push(s[i].1);
        i += 1;
    }
    assert(payloads(s@).take(n as int) =~= payloads(s@));
    r
}

/// Selects the `k` nodes of a list with the best ranks.
pub fn select_nearest<S: Space>(space: &S, list: &[u32], k: usize) -> (r: Vec<u32>)
    requires
        listed_below(list@, space.nodes().size()),
    ensures
        r@ == nearest(space.nodes(), list@, k as nat),
{
    let n: usize = list.len();
    let mut all: Vec<(u64, u32)> = Vec::new();
    let mut i: usize = 0;
    while i < n
        invariant
            i <= n,
            n == list@.len(),
            listed_below(list@, space.nodes().size()),
            all@ =~= ranked(space.nodes(), list@).take(i as int),
        decreases n - i,
    {
        let id: u32 = list[i];
        all.push((space.rank(id), id));
        i += 1;
    }
    assert(ranked(space.nodes(), list@).take(n as int) =~= ranked(space.nodes(), list@));
    let top = select_top_k(all.as_slice(), k);
    take_payloads(top.as_slice())
}

/// The nearest nodes of a list come from it, and are as many as asked for or
/// all. If no node is listed twice, none is selected twice.
pub proof fn lemma_nearest(nodes: Nodes, list: Seq<u32>, k: nat)
    ensures
        nearest(nodes, list, k).len() == if k <= list.len() {
            k
        } else {
            list.len()
        },
        forall|i: int|
            0 <= i < nearest(nodes, list, k).len() ==> list.contains(
                #[trigger] nearest(nodes, list, k)[i],
            ),
        list.no_duplicates() ==> nearest(nodes, list, k).no_duplicates(),
{
    let all = ranked(nodes, list);
    let top = top_k(all, k);
    lemma_top_k(all, k);
    assert forall|i: int| 0 <= i < nearest(nodes, list, k).len() implies list.contains(
        #[trigger] nearest(nodes, list, k)[i],
    ) by {
        assert(all.contains(top[i]));
        let j = choose|j: int| 0 <= j < all.len() && all[j] == top[i];
        assert(list[j] == nearest(nodes, list, k)[i]);
    }
    if list.no_duplicates() {
        let sorted = stable_sort(all);
        lemma_stable_sort(all);
        assert(all.no_duplicates()) by {
            assert forall|i: int, j: int|
                0 <= i < all.len() && 0 <= j < all.len() && i != j implies all[i] != all[j] by {
                assert(list[i] != list[j]);
            }
        }
        all.lemma_multiset_has_no_duplicates();
        sorted.lemma_multiset_has_no_duplicates_conv();
        assert forall|i: int, j: int|
            0 <= i < nearest(nodes, list, k).len() && 0 <= j < nearest(nodes, list, k).len() && i
                != j implies nearest(nodes, list, k)[i] != nearest(nodes, list, k)[j] by {
            assert(all.contains(top[i]) && all.contains(top[j]));
            assert(sorted[i] != sorted[j]);
        }
    }
}

} // verus!
