//! Lists of node numbers.

use vstd::prelude::*;

use crate::sorting::{lemma_stable_sort, lemma_stable_sort_contains, sort_by_key, stable_sort};
use crate::overlap::distinct;
use crate::spaces::{payloads, take_payloads};
use crate::table::holds;

verus! {

/// Numbers with themselves as keys.
pub open spec fn by_value(list: Seq<u32>) -> Seq<(u64, u32)> {
    Seq::new(list.len(), |i: int| (list[i] as u64, list[i]))
}

/// Without the numbers that repeat the one before.
pub open spec fn without_repeats(list: Seq<u32>) -> Seq<u32>
    decreases list.len(),
{
    if list.len() == 0 {
        list
    } else {
        let d = without_repeats(list.drop_last());
        if d.len() > 0 && d.last() == list.last() {
            d
        } else {
            d.push(list.last())
        }
    }
}

/// The numbers of a list in ascending order, each once.
pub open spec fn sorted_set(list: Seq<u32>) -> Seq<u32> {
    without_repeats(payloads(stable_sort(by_value(list))))
}

/// Each number is less than the next.
pub open spec fn strictly_ascending(list: Seq<u32>) -> bool {
    forall|i: int, j: int| 0 <= i < j < list.len() ==> list[i] < list[j]
}

proof fn lemma_without_repeats(list: Seq<u32>)
    requires
        forall|i: int, j: int| 0 <= i <= j < list.len() ==> list[i] <= list[j],
    ensures
        strictly_ascending(without_repeats(list)),
        without_repeats(list).len() <= list.len(),
        forall|x: u32| #[trigger] without_repeats(list).contains(x) <==> list.contains(x),
        list.len() > 0 ==> without_repeats(list).len() > 0 && without_repeats(list).last()
            == list.last(),
    decreases list.len(),
{
    if list.len() > 0 {
        let t = list.drop_last();
        assert forall|i: int, j: int| 0 <= i <= j < t.len() implies t[i] <= t[j] by {
            assert(list[i] <= list[j]);
        }
        lemma_without_repeats(t);
        let d = without_repeats(t);
        let e = without_repeats(list);
        if t.len() > 0 {
            assert(list[t.len() - 1] <= list[list.len() - 1]);
            assert(d.last() == t.last());
        }
        assert forall|i: int, j: int| 0 <= i < j < e.len() implies e[i] < e[j] by {
            if j < d.len() {
                assert(d[i] < d[j]);
            } else {
                assert(i <= d.len() - 1);
                if i < d.len() - 1 {
                    assert(d[i] < d[d.len() - 1]);
                }
                assert(d.last() < list.last());
            }
        }
        assert forall|x: u32| #[trigger] e.contains(x) <==> list.contains(x) by {
            if e.contains(x) {
                let i = choose|i: int| 0 <= i < e.len() && e[i] == x;
                if i < d.len() {
                    assert(d[i] == x);
                    assert(d.contains(x));
                    let j = choose|j: int| 0 <= j < t.len() && t[j] == x;
                    assert(list[j] == x);
                } else {
                    assert(list[list.len() - 1] == x);
                }
            }
            if list.contains(x) {
                let j = choose|j: int| 0 <= j < list.len() && list[j] == x;
                if j < t.len() {
                    assert(t[j] == x);
                    assert(t.contains(x));
                    assert(d.contains(x));
                    let i = choose|i: int| 0 <= i < d.len() && d[i] == x;
                    assert(e[i] == x);
                } else {
                    assert(e[e.len() - 1] == x);
                }
            }
        }
    }
}

/// Sorting into a set keeps the numbers, and each only once.
pub proof fn lemma_sorted_set(list: Seq<u32>)
    ensures
        strictly_ascending(sorted_set(list)),
        sorted_set(list).no_duplicates(),
        sorted_set(list).len() <= list.len(),
        forall|x: u32| #[trigger] sorted_set(list).contains(x) <==> list.contains(x),
{
    let keyed = by_value(list);
    let order = stable_sort(keyed);
    let sorted = payloads(order);
    lemma_stable_sort(keyed);
    assert forall|i: int| 0 <= i < order.len() implies (#[trigger] order[i]).0 == order[i].1
        && list.contains(order[i].1) by {
        assert(order.contains(order[i]));
        lemma_stable_sort_contains(keyed, order[i]);
        let j = choose|j: int| 0 <= j < keyed.len() && keyed[j] == order[i];
        assert(list[j] == order[i].1);
    }
    assert forall|i: int, j: int| 0 <= i <= j < sorted.len() implies sorted[i] <= sorted[j] by {
        assert(order[i].0 <= order[j].0);
    }
    lemma_without_repeats(sorted);
    assert forall|x: u32| #[trigger] sorted_set(list).contains(x) <==> list.contains(x) by {
        if sorted.contains(x) {
            let i = choose|i: int| 0 <= i < sorted.len() && sorted[i] == x;
            assert(list.contains(order[i].1));
        }
        if list.contains(x) {
            let j = choose|j: int| 0 <= j < list.len() && list[j] == x;
            assert(keyed[j] == (x as u64, x));
            assert(keyed.contains((x as u64, x)));
            lemma_stable_sort_contains(keyed, (x as u64, x));
            let i = choose|i: int| 0 <= i < order.len() && order[i] == (x as u64, x);
            assert(sorted[i] == x);
            assert(sorted.contains(x));
        }
    }
    let e = sorted_set(list);
    assert forall|i: int, j: int| 0 <= i < e.len() && 0 <= j < e.len() && i != j implies e[i]
        != e[j] by {
        if i < j {
            assert(e[i] < e[j]);
        } else {
            assert(e[j] < e[i]);
        }
    }
}

/// Sorts the numbers of a list and drops repetitions.
pub fn sort_dedup(list: &[u32]) -> (r: Vec<u32>)
    ensures
        r@ == sorted_set(list@),
{
    let n: usize = list.len();
    let mut keyed: Vec<(u64, u32)> = Vec::new();
    let mut i: usize = 0;
    while i < n
        invariant
            i <= n,
            n == list@.len(),
            keyed@ =~= by_value(list@).take(i as int),
        decreases n - i,
    {
        keyed.push((list[i] as u64, list[i]));
        i += 1;
    }
    assert(by_value(list@).take(n as int) =~= by_value(list@));
    let order = sort_by_key(keyed.as_slice());
    let sorted = take_payloads(order.as_slice());
    let mut r: Vec<u32> = Vec::new();
    let mut j: usize = 0;
    assert(sorted@.take(0) =~= Seq::empty());
    while j < n
        invariant
            j <= n,
            n == sorted@.len(),
            r@ == without_repeats(sorted@.take(j as int)),
        decreases n - j,
    {
        proof {
            assert(sorted@.take(j + 1).drop_last() =~= sorted@.take(j as int));
        }
        let len: usize = r.len();
        if !(len > 0 && r[len - 1] == sorted[j]) {
            r.push(sorted[j]);
        }
        j += 1;
    }
    assert(sorted@.take(n as int) =~= sorted@);
    r
}

/// How often `x` is among the first `n` entries.
pub open spec fn times_upto(list: Seq<u32>, x: u32, n: nat) -> nat
    decreases n,
{
    if n == 0 {
        0
    } else {
        times_upto(list, x, (n - 1) as nat) + if list[n - 1] == x {
            1nat
        } else {
            0
        }
    }
}

/// Counts how often `x` is in a list.
pub fn count_of(list: &[u32], x: u32) -> (r: usize)
    ensures
        r == times_upto(list@, x, list@.len()),
        r <= list@.len(),
{
    let n: usize = list.len();
    let mut r: usize = 0;
    let mut i: usize = 0;
    while i < n
        invariant
            i <= n,
            n == list@.len(),
            r == times_upto(list@, x, i as nat),
            r <= i,
        decreases n - i,
    {
        if list[i] == x {
            r += 1;
        }
        i += 1;
    }
    r
}

/// Drops the repetitions from a list.
pub fn keep_distinct_ids(list: &[u32]) -> (r: Vec<u32>)
    ensures
        r@ == distinct(list@),
{
    let n: usize = list.len();
    let mut r: Vec<u32> = Vec::new();
    let mut i: usize = 0;
    assert(list@.take(0) =~= Seq::empty());
    while i < n
        invariant
            i <= n,
            n == list@.len(),
            r@ == distinct(list@.take(i as int)),
        decreases n - i,
    {
        proof {
            assert(list@.take(i + 1).drop_last() =~= list@.take(i as int));
        }
        if !holds(r.as_slice(), list[i]) {
            r.push(list[i]);
        }
        i += 1;
    }
    assert(list@.take(n as int) =~= list@);
    r
}

/// Counting finds every occurrence of an entry.
pub proof fn lemma_count_of(list: Seq<u32>, x: u32, n: nat)
    requires
        n <= list.len(),
    ensures
        times_upto(list, x, n) == list.take(n as int).to_multiset().count(x),
    decreases n,
{
    broadcast use vstd::multiset::group_multiset_axioms;

    let now = list.take(n as int);
    if n == 0 {
        assert(now =~= Seq::empty());
        now.to_multiset_ensures();
    } else {
        lemma_count_of(list, x, (n - 1) as nat);
        let rest = list.take(n - 1);
        rest.to_multiset_ensures();
        assert(now =~= rest.push(list[n - 1]));
    }
}

} // verus!
