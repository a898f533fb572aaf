//! Stable sorting and top-k selection of keyed items.
//!
//! An item is a pair of a key and a payload. Only the key is compared.

use vstd::multiset::Multiset;
use vstd::prelude::*;

use crate::heap::{MinHeap, Ranked};

verus! {

/// The number of items that stay in front of a new item with key `k`: all up
/// to the last one whose key is not greater.
pub open spec fn slot<P>(s: Seq<(u64, P)>, k: u64) -> nat
    decreases s.len(),
{
    if s.len() == 0 {
        0
    } else if s.last().0 <= k {
        s.len()
    } else {
        slot(s.drop_last(), k)
    }
}

/// `s` with `x` put behind the last item whose key is not greater.
pub open spec fn place<P>(s: Seq<(u64, P)>, x: (u64, P)) -> Seq<(u64, P)> {
    s.insert(slot(s, x.0) as int, x)
}

/// The items of `s` by ascending key; items with equal keys keep their order.
pub open spec fn stable_sort<P>(s: Seq<(u64, P)>) -> Seq<(u64, P)>
    decreases s.len(),
{
    if s.len() == 0 {
        s
    } else {
        place(stable_sort(s.drop_last()), s.last())
    }
}

/// The first `k` items of a sequence, or all where it is shorter.
pub open spec fn first_n<A>(s: Seq<A>, k: nat) -> Seq<A> {
    if k <= s.len() {
        s.take(k as int)
    } else {
        s
    }
}

/// The `k` items of `s` with the smallest keys, by ascending key; of items
/// with equal keys the earlier one wins.
pub open spec fn top_k<P>(s: Seq<(u64, P)>, k: nat) -> Seq<(u64, P)> {
    first_n(stable_sort(s), k)
}

/// The keys do not decrease.
pub open spec fn ascending<P>(s: Seq<(u64, P)>) -> bool {
    forall|i: int, j: int| 0 <= i <= j < s.len() ==> (#[trigger] s[i]).0 <= (#[trigger] s[j]).0
}

/// Two sequences by ascending key that hold the same items, each once, have the
/// same keys in every place.
pub proof fn lemma_same_keys<P>(a: Seq<(u64, P)>, b: Seq<(u64, P)>)
    requires
        ascending(a),
        ascending(b),
        a.no_duplicates(),
        b.no_duplicates(),
        forall|x: (u64, P)| #[trigger] a.contains(x) <==> b.contains(x),
    ensures
        a.len() == b.len(),
        forall|i: int| 0 <= i < a.len() ==> (#[trigger] a[i]).0 == b[i].0,
    decreases a.len(),
{
    if a.len() == 0 {
        if b.len() > 0 {
            assert(b.contains(b[0]));
            assert(a.contains(b[0]));
        }
    } else {
        let x = a.last();
        let short = a.drop_last();
        assert(a.contains(x));
        assert(b.contains(x));
        let j = choose|j: int| 0 <= j < b.len() && b[j] == x;
        let rest = b.remove(j);
        assert(b.contains(b.last()));
        assert(a.contains(b.last()));
        assert forall|y: (u64, P)| #[trigger] short.contains(y) <==> rest.contains(y) by {
            if short.contains(y) {
                let i = choose|i: int| 0 <= i < short.len() && short[i] == y;
                assert(a[i] == y && y != x);
                assert(a.contains(y));
                assert(b.contains(y));
                let u = choose|u: int| 0 <= u < b.len() && b[u] == y;
                assert(rest[if u < j {
                    u
                } else {
                    u - 1
                }] == y);
            }
            if rest.contains(y) {
                let u = choose|u: int| 0 <= u < rest.len() && rest[u] == y;
                assert(b[if u < j {
                    u
                } else {
                    u + 1
                }] == y && y != x);
                assert(b.contains(y));
                assert(a.contains(y));
                let i = choose|i: int| 0 <= i < a.len() && a[i] == y;
                assert(short[i] == y);
            }
        }
        lemma_same_keys(short, rest);
        assert forall|i: int| 0 <= i < a.len() implies (#[trigger] a[i]).0 == b[i].0 by {
            assert(b.last().0 == x.0);
            if i < short.len() {
                assert(short[i].0 == rest[i].0);
            }
            if i >= j {
                assert(b[j].0 <= b[i].0 <= b[b.len() - 1].0);
            }
        }
    }
}

/// `s`, and behind it those items of `more` that it does not hold.
pub open spec fn extended<A>(s: Seq<A>, more: Seq<A>) -> Seq<A>
    decreases more.len(),
{
    if more.len() == 0 {
        s
    } else {
        let rest = extended(s, more.drop_last());
        if s.contains(more.last()) {
            rest
        } else {
            rest.push(more.last())
        }
    }
}

/// The first `k` keys are complete, and none of them is greater than `key`.
pub open spec fn crowded<P>(s: Seq<(u64, P)>, k: nat, key: u64) -> bool {
    k == 0 || (top_k(s, k).len() == k && top_k(s, k)[k - 1].0 <= key)
}

proof fn lemma_extended<P>(s: Seq<(u64, P)>, more: Seq<(u64, P)>, k: nat)
    requires
        s.no_duplicates(),
        more.no_duplicates(),
        forall|x: (u64, P)| #[trigger] more.contains(x) && !s.contains(x) ==> crowded(s, k, x.0),
    ensures
        extended(s, more).no_duplicates(),
        forall|x: (u64, P)| #[trigger]
            extended(s, more).contains(x) <==> s.contains(x) || more.contains(x),
        top_k(extended(s, more), k) == top_k(s, k),
    decreases more.len(),
{
    if more.len() > 0 {
        let t = more.drop_last();
        let x = more.last();
        let rest = extended(s, t);
        let all = extended(s, more);
        assert(more.contains(x));
        assert forall|y: (u64, P)| #[trigger] t.contains(y) implies more.contains(y) by {
            let i = choose|i: int| 0 <= i < t.len() && t[i] == y;
            assert(more[i] == y);
        }
        lemma_extended(s, t, k);
        assert(!t.contains(x)) by {
            if t.contains(x) {
                let i = choose|i: int| 0 <= i < t.len() && t[i] == x;
                assert(more[i] == more[more.len() - 1]);
            }
        }
        assert forall|y: (u64, P)| #[trigger] all.contains(y) <==> s.contains(y) || more.contains(
            y,
        ) by {
            if all.contains(y) {
                let i = choose|i: int| 0 <= i < all.len() && all[i] == y;
                if i < rest.len() {
                    assert(rest[i] == y);
                    assert(rest.contains(y));
                }
            }
            if s.contains(y) || more.contains(y) {
                if y != x && more.contains(y) {
                    let i = choose|i: int| 0 <= i < more.len() && more[i] == y;
                    assert(t[i] == y);
                    assert(t.contains(y));
                }
                if s.contains(y) || t.contains(y) {
                    assert(rest.contains(y));
                    let i = choose|i: int| 0 <= i < rest.len() && rest[i] == y;
                    assert(all[i] == y);
                } else {
                    assert(all[rest.len() as int] == y);
                }
            }
        }
        if !s.contains(x) {
            assert(!rest.contains(x));
            assert forall|i: int, j: int| 0 <= i < all.len() && 0 <= j < all.len() && i != j implies
                all[i] != all[j] by {
                if i == rest.len() {
                    assert(rest.contains(rest[j]));
                } else if j == rest.len() {
                    assert(rest.contains(rest[i]));
                }
            }
            lemma_top_k_push(rest, x, k);
            assert(crowded(s, k, x.0));
            let top = top_k(s, k);
            if k == 0 {
                assert(first_n(place(top, x), k) =~= top_k(s, k));
            } else {
                assert(top.last().0 <= x.0);
                assert(slot(top, x.0) == top.len());
                assert(first_n(place(top, x), k) =~= top);
            }
        }
    }
}

/// Leaving items out keeps the first `k` keys where each of them is no less than
/// these.
pub proof fn lemma_top_k_covers<P>(s: Seq<(u64, P)>, all: Seq<(u64, P)>, k: nat)
    requires
        s.no_duplicates(),
        all.no_duplicates(),
        forall|x: (u64, P)| #[trigger] s.contains(x) ==> all.contains(x),
        forall|x: (u64, P)| #[trigger] all.contains(x) && !s.contains(x) ==> crowded(s, k, x.0),
    ensures
        top_k(s, k).len() == top_k(all, k).len(),
        forall|i: int| 0 <= i < top_k(s, k).len() ==> (#[trigger] top_k(s, k)[i]).0 == top_k(all, k)[i].0,
{
    let longer = extended(s, all);
    lemma_extended(s, all, k);
    let a = stable_sort(longer);
    let b = stable_sort(all);
    lemma_stable_sort(longer);
    lemma_stable_sort(all);
    longer.lemma_multiset_has_no_duplicates();
    all.lemma_multiset_has_no_duplicates();
    a.lemma_multiset_has_no_duplicates_conv();
    b.lemma_multiset_has_no_duplicates_conv();
    assert forall|x: (u64, P)| #[trigger] a.contains(x) <==> b.contains(x) by {
        lemma_stable_sort_contains(longer, x);
        lemma_stable_sort_contains(all, x);
        assert(longer.contains(x) <==> s.contains(x) || all.contains(x));
    }
    lemma_same_keys(a, b);
    assert forall|i: int| 0 <= i < top_k(s, k).len() implies (#[trigger] top_k(s, k)[i]).0 == top_k(
        all,
        k,
    )[i].0 by {
        assert(top_k(s, k)[i] == a[i]);
        assert(a[i].0 == b[i].0);
    }
}

/// Items of which `k` have no greater keys than `key` are crowded for it.
pub proof fn lemma_crowded<P>(s: Seq<(u64, P)>, some: Seq<(u64, P)>, k: nat, key: u64)
    requires
        some.no_duplicates(),
        some.len() >= k,
        forall|i: int| 0 <= i < some.len() ==> s.contains(#[trigger] some[i]) && some[i].0 <= key,
        s.no_duplicates(),
    ensures
        crowded(s, k, key),
{
    if k > 0 {
        let top = top_k(s, k);
        lemma_top_k(s, k);
        some.unique_seq_to_set();
        s.unique_seq_to_set();
        assert forall|x: (u64, P)| some.to_set().contains(x) implies s.to_set().contains(x) by {
            let i = choose|i: int| 0 <= i < some.len() && some[i] == x;
            assert(s.contains(some[i]));
        }
        vstd::seq_lib::seq_to_set_is_finite(s);
        vstd::set_lib::lemma_len_subset(some.to_set(), s.to_set());
        assert(top.len() == k);
        if top[k - 1].0 > key {
            let low = top.take(k - 1);
            assert forall|x: (u64, P)| some.to_set().contains(x) implies low.to_set().contains(x) by {
                let i = choose|i: int| 0 <= i < some.len() && some[i] == x;
                assert(s.contains(some[i]));
                if !top.contains(x) {
                    lemma_top_k_smallest(s, k, k - 1, x);
                }
                let j = choose|j: int| 0 <= j < top.len() && top[j] == x;
                assert(low[j] == x);
                assert(low.contains(x));
            }
            vstd::seq_lib::seq_to_set_is_finite(low);
            vstd::set_lib::lemma_len_subset(some.to_set(), low.to_set());
            low.lemma_cardinality_of_set();
        }
    }
}

/// Each item with its position as payload.
pub open spec fn indexed<P>(s: Seq<(u64, P)>) -> Seq<Ranked> {
    Seq::new(s.len(), |i: int| (s[i].0, i as usize))
}

/// What `slot` separates.
pub proof fn lemma_slot<P>(s: Seq<(u64, P)>, k: u64)
    ensures
        slot(s, k) <= s.len(),
        forall|i: int| slot(s, k) <= i < s.len() ==> (#[trigger] s[i]).0 > k,
        slot(s, k) > 0 ==> s[slot(s, k) - 1].0 <= k,
        ascending(s) ==> forall|i: int| 0 <= i < slot(s, k) ==> (#[trigger] s[i]).0 <= k,
    decreases s.len(),
{
    if s.len() > 0 && s.last().0 > k {
        let t = s.drop_last();
        lemma_slot(t, k);
        assert forall|i: int| slot(s, k) <= i < s.len() implies (#[trigger] s[i]).0 > k by {
            if i < t.len() {
                assert(t[i] == s[i]);
            }
        }
        if slot(s, k) > 0 {
            assert(t[slot(s, k) - 1] == s[slot(s, k) - 1]);
        }
    }
    if ascending(s) && slot(s, k) > 0 {
        assert forall|i: int| 0 <= i < slot(s, k) implies (#[trigger] s[i]).0 <= k by {
            assert(s[i].0 <= s[slot(s, k) - 1].0);
        }
    }
}

/// The slot is the only position that separates smaller from greater keys.
pub proof fn lemma_slot_unique<P>(s: Seq<(u64, P)>, k: u64, p: nat)
    requires
        p <= s.len(),
        forall|i: int| p <= i < s.len() ==> (#[trigger] s[i]).0 > k,
        p > 0 ==> s[p - 1].0 <= k,
    ensures
        slot(s, k) == p,
{
    lemma_slot(s, k);
    let q = slot(s, k);
    if q < p {
        assert(s[p - 1].0 > k);
    } else if p < q {
        assert(s[q - 1].0 > k);
    }
}

/// Inserting adds exactly one occurrence.
pub proof fn lemma_insert_multiset<A>(s: Seq<A>, i: int, x: A)
    requires
        0 <= i <= s.len(),
    ensures
        s.insert(i, x).to_multiset() =~= s.to_multiset().insert(x),
{
    broadcast use vstd::multiset::group_multiset_axioms;

    let t = s.insert(i, x);
    s.insert_ensures(i, x);
    assert(t.remove(i) =~= s);
    t.to_multiset_ensures();
    assert(t[i] == x);
    assert(t.contains(x));
}

/// Placing an item keeps an ascending sequence ascending.
pub proof fn lemma_place<P>(s: Seq<(u64, P)>, x: (u64, P))
    ensures
        place(s, x).len() == s.len() + 1,
        place(s, x).to_multiset() =~= s.to_multiset().insert(x),
        ascending(s) ==> ascending(place(s, x)),
{
    lemma_slot(s, x.0);
    let p = slot(s, x.0) as int;
    s.insert_ensures(p, x);
    lemma_insert_multiset(s, p, x);
    let t = place(s, x);
    if ascending(s) {
        assert forall|i: int, j: int| 0 <= i <= j < t.len() implies (#[trigger] t[i]).0 <= (
        #[trigger] t[j]).0 by {
            let a = if i < p {
                s[i]
            } else if i == p {
                x
            } else {
                s[i - 1]
            };
            let b = if j < p {
                s[j]
            } else if j == p {
                x
            } else {
                s[j - 1]
            };
            assert(t[i] == a && t[j] == b);
        }
    }
}

/// Sorting keeps every item, and the keys of the result do not decrease.
pub proof fn lemma_stable_sort<P>(s: Seq<(u64, P)>)
    ensures
        stable_sort(s).len() == s.len(),
        stable_sort(s).to_multiset() == s.to_multiset(),
        ascending(stable_sort(s)),
    decreases s.len(),
{
    if s.len() > 0 {
        let t = s.drop_last();
        lemma_stable_sort(t);
        lemma_place(stable_sort(t), s.last());
        t.to_multiset_ensures();
        assert(s =~= t.push(s.last()));
    }
}

/// An item is in the result of sorting exactly if it was there before.
pub proof fn lemma_stable_sort_contains<P>(s: Seq<(u64, P)>, x: (u64, P))
    ensures
        stable_sort(s).contains(x) <==> s.contains(x),
{
    lemma_stable_sort(s);
    s.to_multiset_ensures();
    stable_sort(s).to_multiset_ensures();
    assert(s.contains(x) <==> s.to_multiset().count(x) > 0);
    assert(stable_sort(s).contains(x) <==> stable_sort(s).to_multiset().count(x) > 0);
}

/// Sorting depends on the payload only in that it carries it along: item `i`
/// of the result is the item whose position the sorted positions give.
/// Positions come out in the order of (key, position).
pub proof fn lemma_stable_sort_positions<P>(s: Seq<(u64, P)>)
    requires
        s.len() <= usize::MAX,
    ensures
        stable_sort(indexed(s)).len() == s.len(),
        forall|i: int|
            #![trigger stable_sort(s)[i]]
            #![trigger stable_sort(indexed(s))[i]]
            0 <= i < s.len() ==> {
                let p = stable_sort(indexed(s))[i];
                p.1 < s.len() && stable_sort(s)[i] == s[p.1 as int] && p.0 == s[p.1 as int].0
            },
        forall|i: int, j: int|
            0 <= i < j < s.len() ==> {
                let a = #[trigger] stable_sort(indexed(s))[i];
                let b = #[trigger] stable_sort(indexed(s))[j];
                a.0 < b.0 || (a.0 == b.0 && a.1 < b.1)
            },
    decreases s.len(),
{
    lemma_stable_sort(s);
    lemma_stable_sort(indexed(s));
    if s.len() > 0 {
        let t = s.drop_last();
        let n = t.len();
        lemma_stable_sort_positions(t);
        lemma_stable_sort(t);
        assert(indexed(s).drop_last() =~= indexed(t));
        assert(indexed(s).last() == (s.last().0, n as usize));
        let a = stable_sort(t);
        let b = stable_sort(indexed(t));
        let k = s.last().0;
        lemma_stable_sort(indexed(t));
        lemma_slot(a, k);
        let p = slot(a, k);
        assert forall|i: int| p <= i < b.len() implies (#[trigger] b[i]).0 > k by {
            assert(a[i].0 > k);
        }
        if p > 0 {
            assert(a[p - 1].0 <= k);
            assert(b[p - 1].0 <= k);
        }
        lemma_slot_unique(b, k, p);
        let x = s.last();
        let y: Ranked = (k, n as usize);
        a.insert_ensures(p as int, x);
        b.insert_ensures(p as int, y);
        let sa = stable_sort(s);
        let sb = stable_sort(indexed(s));
        assert(sa == a.insert(p as int, x));
        assert(sb == b.insert(p as int, y));
        assert forall|i: int| 0 <= i < s.len() implies {
            let q = #[trigger] sb[i];
            q.1 < s.len() && sa[i] == s[q.1 as int] && q.0 == s[q.1 as int].0
        } by {
            if i < p {
                assert(sb[i] == b[i]);
                assert(sa[i] == a[i]);
            } else if i > p {
                assert(sb[i] == b[i - 1]);
                assert(sa[i] == a[i - 1]);
            }
        }
        lemma_slot(b, k);
        assert forall|i: int, j: int| 0 <= i < j < s.len() implies {
            let u = #[trigger] sb[i];
            let v = #[trigger] sb[j];
            u.0 < v.0 || (u.0 == v.0 && u.1 < v.1)
        } by {
            let u = if i < p {
                b[i]
            } else if i == p {
                y
            } else {
                b[i - 1]
            };
            let v = if j < p {
                b[j]
            } else if j == p {
                y
            } else {
                b[j - 1]
            };
            assert(sb[i] == u && sb[j] == v);
            if i != p && j != p {
                let i2 = if i < p {
                    i
                } else {
                    i - 1
                };
                let j2 = if j < p {
                    j
                } else {
                    j - 1
                };
                assert(b[i2].0 < b[j2].0 || (b[i2].0 == b[j2].0 && b[i2].1 < b[j2].1));
            } else if j == p {
                assert(b[i].1 < n);
            }
        }
    }
}

/// Top-k selection can be done one item at a time.
pub proof fn lemma_top_k_push<P>(s: Seq<(u64, P)>, x: (u64, P), k: nat)
    ensures
        top_k(s.push(x), k) == first_n(place(top_k(s, k), x), k),
{
    lemma_stable_sort(s);
    assert(s.push(x).drop_last() =~= s);
    let t = stable_sort(s);
    let u = top_k(s, k);
    lemma_slot(t, x.0);
    let p = slot(t, x.0);
    t.insert_ensures(p as int, x);
    let m = u.len();
    let q = if p <= m {
        p
    } else {
        m
    };
    assert forall|i: int| q <= i < u.len() implies (#[trigger] u[i]).0 > x.0 by {
        assert(u[i] == t[i]);
    }
    if q > 0 {
        assert(u[q - 1] == t[q - 1]);
    }
    lemma_slot_unique(u, x.0, q);
    u.insert_ensures(q as int, x);
    let l = top_k(s.push(x), k);
    let r = first_n(place(u, x), k);
    assert(l.len() == r.len());
    assert forall|i: int| 0 <= i < l.len() implies l[i] == r[i] by {
        assert(l[i] == t.insert(p as int, x)[i]);
        assert(r[i] == u.insert(q as int, x)[i]);
        if i > q {
            assert(u[i - 1] == t[i - 1]);
            assert(u.insert(q as int, x)[i] == u[i - 1]);
            assert(t.insert(p as int, x)[i] == t[i - 1]);
        } else if i < q {
            assert(u[i] == t[i]);
        }
    }
    assert(l =~= r);
}

/// Placing an item and then filtering is filtering and then placing it, where
/// the filter keeps it.
proof fn lemma_place_filter<P>(s: Seq<(u64, P)>, x: (u64, P), keep: spec_fn((u64, P)) -> bool)
    requires
        ascending(s),
    ensures
        place(s, x).filter(keep) == if keep(x) {
            place(s.filter(keep), x)
        } else {
            s.filter(keep)
        },
{
    lemma_slot(s, x.0);
    let p = slot(s, x.0) as int;
    let a = s.take(p);
    let b = s.skip(p);
    let one = seq![x];
    assert(place(s, x) =~= (a + one) + b);
    assert(s =~= a + b);
    Seq::filter_distributes_over_add(a, b, keep);
    Seq::filter_distributes_over_add(a + one, b, keep);
    Seq::filter_distributes_over_add(a, one, keep);
    assert(one.filter(keep) =~= if keep(x) {
        one
    } else {
        Seq::empty()
    }) by {
        reveal(Seq::filter);
        assert(one.drop_last() =~= Seq::empty());
        assert(Seq::<(u64, P)>::empty().filter(keep) =~= Seq::empty());
    }
    if keep(x) {
        let fa = a.filter(keep);
        let fb = b.filter(keep);
        let f = s.filter(keep);
        assert(f == fa + fb);
        assert forall|i: int| fa.len() <= i < f.len() implies (#[trigger] f[i]).0 > x.0 by {
            assert(f[i] == fb[i - fa.len()]);
            assert(fb.contains(f[i]));
            b.lemma_filter_contains_rev(keep, f[i]);
            assert(b.contains(f[i]));
            let j = choose|j: int| 0 <= j < b.len() && b[j] == f[i];
            assert(s[p + j] == f[i]);
        }
        if fa.len() > 0 {
            let i = fa.len() - 1;
            assert(fa.contains(fa[i]));
            a.lemma_filter_contains_rev(keep, fa[i]);
            let j = choose|j: int| 0 <= j < a.len() && a[j] == fa[i];
            assert(s[j] == f[i]);
        }
        lemma_slot_unique(f, x.0, fa.len());
        assert(place(f, x) =~= (fa + one) + fb);
    } else {
        assert((a + one).filter(keep) =~= a.filter(keep));
    }
}

/// Sorting what a filter keeps is filtering what was sorted.
pub proof fn lemma_stable_sort_filter<P>(s: Seq<(u64, P)>, keep: spec_fn((u64, P)) -> bool)
    ensures
        stable_sort(s.filter(keep)) == stable_sort(s).filter(keep),
    decreases s.len(),
{
    reveal(Seq::filter);
    if s.len() == 0 {
        assert(s.filter(keep) =~= s);
    } else {
        let t = s.drop_last();
        lemma_stable_sort_filter(t, keep);
        lemma_stable_sort(t);
        lemma_place_filter(stable_sort(t), s.last(), keep);
        if keep(s.last()) {
            assert(s.filter(keep) == t.filter(keep).push(s.last()));
            assert(s.filter(keep).drop_last() =~= t.filter(keep));
        }
    }
}

/// What a filter keeps of the items selected from all is selected from those
/// that it keeps.
pub proof fn lemma_top_k_filter<P>(
    s: Seq<(u64, P)>,
    keep: spec_fn((u64, P)) -> bool,
    k: nat,
    x: (u64, P),
)
    requires
        top_k(s, k).contains(x),
        keep(x),
    ensures
        top_k(s.filter(keep), k).contains(x),
{
    let t = stable_sort(s);
    lemma_stable_sort_filter(s, keep);
    lemma_stable_sort(s);
    let i = choose|i: int| 0 <= i < top_k(s, k).len() && top_k(s, k)[i] == x;
    let a = t.take(i + 1);
    let b = t.skip(i + 1);
    assert(t =~= a + b);
    Seq::filter_distributes_over_add(a, b, keep);
    a.lemma_filter_len(keep);
    assert(a[i] == x);
    a.lemma_filter_contains(keep, i);
    let j = choose|j: int| 0 <= j < a.filter(keep).len() && a.filter(keep)[j] == x;
    assert(t.filter(keep)[j] == x);
    assert(top_k(s.filter(keep), k)[j] == x);
}

/// Nothing that was left out has a smaller key than what was selected.
pub proof fn lemma_top_k_smallest<P>(s: Seq<(u64, P)>, k: nat, kept: int, x: (u64, P))
    requires
        0 <= kept < top_k(s, k).len(),
        s.contains(x),
        !top_k(s, k).contains(x),
    ensures
        top_k(s, k)[kept].0 <= x.0,
{
    lemma_stable_sort(s);
    lemma_stable_sort_contains(s, x);
    let t = stable_sort(s);
    let i = choose|i: int| 0 <= i < t.len() && t[i] == x;
    if i < top_k(s, k).len() {
        assert(top_k(s, k)[i] == x);
    }
    assert(t[kept].0 <= t[i].0);
}

/// Selected items come from the input, and their keys do not decrease.
pub proof fn lemma_top_k<P>(s: Seq<(u64, P)>, k: nat)
    ensures
        top_k(s, k).len() == if k <= s.len() {
            k
        } else {
            s.len()
        },
        ascending(top_k(s, k)),
        forall|i: int| 0 <= i < top_k(s, k).len() ==> s.contains(#[trigger] top_k(s, k)[i]),
{
    lemma_stable_sort(s);
    let t = stable_sort(s);
    assert forall|i: int| 0 <= i < top_k(s, k).len() implies s.contains(
        #[trigger] top_k(s, k)[i],
    ) by {
        assert(t.contains(t[i]));
        lemma_stable_sort_contains(s, t[i]);
    }
}

/// Sorts keyed items; items with equal keys keep their order.
pub fn sort_by_key<P: Copy>(v: &[(u64, P)]) -> (r: Vec<(u64, P)>)
    ensures
        r@ == stable_sort(v@),
        r@.len() == v@.len(),
{
    let mut heap = MinHeap::new();
    let n: usize = v.len();
    let mut i: usize = 0;
    proof {
        assert(indexed(v@).take(0) =~= Seq::<Ranked>::empty());
        Seq::<Ranked>::empty().to_multiset_ensures();
        assert(Seq::<Ranked>::empty().to_multiset() =~= Multiset::empty());
    }
    while i < n
        invariant
            n == v@.len(),
            0 <= i <= n,
            heap@ == indexed(v@).take(i as int).to_multiset(),
        decreases n - i,
    {
        proof {
            let t = indexed(v@).take(i as int);
            t.to_multiset_ensures();
            assert(indexed(v@).take(i + 1) =~= t.push((v@[i as int].0, i)));
        }
        heap.push((v[i].0, i));
        i += 1;
    }
    let order: Vec<Ranked> = heap.into_sorted();
    proof {
        lemma_stable_sort_positions(v@);
        lemma_stable_sort(v@);
        lemma_stable_sort(indexed(v@));
        assert(indexed(v@).take(n as int) =~= indexed(v@));
        let sorted = stable_sort(indexed(v@));
        assert forall|a: int, b: int| 0 <= a <= b < sorted.len() implies crate::heap::before(
            #[trigger] sorted[a],
            #[trigger] sorted[b],
        ) by {}
        crate::heap::lemma_in_order_unique(sorted);
    }
    let mut out: Vec<(u64, P)> = Vec::new();
    let mut j: usize = 0;
    while j < n
        invariant
            n == v@.len(),
            0 <= j <= n,
            order@ == stable_sort(indexed(v@)),
            order@.len() == n,
            stable_sort(v@).len() == n,
            forall|i: int|
                #![trigger stable_sort(v@)[i]]
                #![trigger stable_sort(indexed(v@))[i]]
                0 <= i < v@.len() ==> {
                    let p = stable_sort(indexed(v@))[i];
                    p.1 < v@.len() && stable_sort(v@)[i] == v@[p.1 as int]
                },
            out@ =~= stable_sort(v@).take(j as int),
        decreases n - j,
    {
        let at: usize = order[j].1;
        out.push(v[at]);
        j += 1;
    }
    proof {
        assert(stable_sort(v@).take(n as int) =~= stable_sort(v@));
    }
    out
}

/// Items with their keys.
pub open spec fn keyed_by<A>(keys: Seq<u64>, items: Seq<A>) -> Seq<(u64, A)> {
    Seq::new(items.len(), |i: int| (keys[i], items[i]))
}

/// `order` lists positions in the order of their keys, positions with equal
/// keys in ascending order.
pub open spec fn is_sort_order(keys: Seq<u64>, order: Seq<usize>) -> bool {
    order == Seq::new(
        keys.len(),
        |i: int| stable_sort(indexed(keyed_by(keys, keys)))[i].1,
    )
}

/// Taking items in the order of their keys sorts them.
pub proof fn lemma_sort_order<A>(keys: Seq<u64>, order: Seq<usize>, items: Seq<A>)
    requires
        is_sort_order(keys, order),
        keys.len() == items.len(),
        keys.len() <= usize::MAX,
    ensures
        stable_sort(keyed_by(keys, items)).len() == items.len(),
        forall|i: int|
            #![trigger order[i]]
            #![trigger stable_sort(keyed_by(keys, items))[i]]
            0 <= i < items.len() ==> {
                &&& order[i] < items.len()
                &&& stable_sort(keyed_by(keys, items))[i] == (
                    keys[order[i] as int],
                    items[order[i] as int],
                )
            },
{
    let s = keyed_by(keys, items);
    lemma_stable_sort(s);
    lemma_stable_sort_positions(s);
    assert(indexed(s) =~= indexed(keyed_by(keys, keys)));
    assert forall|i: int| 0 <= i < items.len() implies {
        &&& (#[trigger] order[i]) < items.len()
        &&& stable_sort(s)[i] == (keys[order[i] as int], items[order[i] as int])
    } by {
        assert(stable_sort(indexed(s))[i].1 == order[i]);
    }
}

/// Computes the positions in the order of their keys.
pub fn sort_order(keys: &[u64]) -> (order: Vec<usize>)
    ensures
        is_sort_order(keys@, order@),
{
    let n: usize = keys.len();
    let ghost s = indexed(keyed_by(keys@, keys@));
    let mut pairs: Vec<Ranked> = Vec::new();
    let mut i: usize = 0;
    while i < n
        invariant
            i <= n,
            n == keys@.len(),
            s == indexed(keyed_by(keys@, keys@)),
            pairs@ =~= s.take(i as int),
        decreases n - i,
    {
        pairs.push((keys[i], i));
        i += 1;
    }
    assert(s.take(n as int) =~= s);
    let sorted = sort_by_key(pairs.as_slice());
    let mut order: Vec<usize> = Vec::new();
    let mut j: usize = 0;
    while j < n
        invariant
            j <= n,
            n == keys@.len(),
            n == sorted@.len(),
            sorted@ == stable_sort(indexed(keyed_by(keys@, keys@))),
            order@.len() == j,
            forall|x: int| 0 <= x < j ==> #[trigger] order@[x] == sorted@[x].1,
        decreases n - j,
    {
        order.push(sorted[j].1);
        j += 1;
    }
    assert(order@ =~= Seq::new(
        keys@.len(),
        |i: int| stable_sort(indexed(keyed_by(keys@, keys@)))[i].1,
    ));
    order
}

/// Selects the `k` items with the smallest keys, by ascending key.
pub fn select_top_k<P: Copy>(v: &[(u64, P)], k: usize) -> (r: Vec<(u64, P)>)
    ensures
        r@ == top_k(v@, k as nat),
{
    let mut r = sort_by_key(v);
    r.truncate(k);
    r
}

/// Inserts an item behind the last one whose key is not greater, and drops the
/// last item where there are then more than `k`.
pub fn insert_top<P>(top: &mut Vec<(u64, P)>, x: (u64, P), k: usize)
    requires
        ascending(old(top)@),
        old(top)@.len() <= k,
    ensures
        final(top)@ == first_n(place(old(top)@, x), k as nat),
        ascending(final(top)@),
        final(top)@.len() <= k,
{
    let n: usize = top.len();
    let mut pos: usize = 0;
    while pos < n && !(x.0 < top[pos].0)
        invariant
            n == top@.len(),
            top@ == old(top)@,
            0 <= pos <= n,
            forall|i: int| 0 <= i < pos ==> (#[trigger] top@[i]).0 <= x.0,
        decreases n - pos,
    {
        pos += 1;
    }
    proof {
        if pos < n {
            assert forall|i: int| pos <= i < n implies (#[trigger] top@[i]).0 > x.0 by {
                assert(top@[pos as int].0 <= top@[i].0);
            }
        }
        lemma_slot_unique(top@, x.0, pos as nat);
        lemma_place(top@, x);
    }
    let ghost before_insert = top@;
    top.insert(pos, x);
    if top.len() > k {
        let _ = top.pop();
    }
    proof {
        assert(top@ =~= first_n(place(before_insert, x), k as nat));
    }
}

} // verus!
