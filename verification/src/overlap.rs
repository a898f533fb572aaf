//! Comparing lists of results.

use vstd::prelude::*;

verus! {

/// The number of the first `n` entries of `got` that are in `gold`.
pub open spec fn hits_upto<A>(got: Seq<A>, gold: Seq<A>, n: nat) -> nat
    decreases n,
{
    if n == 0 {
        0
    } else {
        hits_upto(got, gold, (n - 1) as nat) + if gold.contains(got[n - 1]) {
            1nat
        } else {
            0
        }
    }
}

/// The number of entries of `got` that are in `gold`.
pub open spec fn hits<A>(got: Seq<A>, gold: Seq<A>) -> nat {
    hits_upto(got, gold, got.len())
}

/// The entries of `list` without those that are a repetition of an earlier one.
pub open spec fn distinct<A>(list: Seq<A>) -> Seq<A>
    decreases list.len(),
{
    if list.len() == 0 {
        list
    } else {
        let rest = distinct(list.drop_last());
        if rest.contains(list.last()) {
            rest
        } else {
            rest.push(list.last())
        }
    }
}

/// There are no more hits than entries.
pub proof fn lemma_hits_bound<A>(got: Seq<A>, gold: Seq<A>, n: nat)
    ensures
        hits_upto(got, gold, n) <= n,
    decreases n,
{
    if n > 0 {
        lemma_hits_bound(got, gold, (n - 1) as nat);
    }
}

/// Every entry of a list is a hit in the list itself.
pub proof fn lemma_hits_all<A>(got: Seq<A>, gold: Seq<A>, n: nat)
    requires
        n <= got.len(),
        forall|i: int| 0 <= i < n ==> gold.contains(#[trigger] got[i]),
    ensures
        hits_upto(got, gold, n) == n,
    decreases n,
{
    if n > 0 {
        lemma_hits_all(got, gold, (n - 1) as nat);
        assert(gold.contains(got[n - 1]));
    }
}

/// The hits of a list without repetitions, as a set.
pub proof fn lemma_hits_set<A>(got: Seq<A>, gold: Seq<A>, n: nat)
    requires
        n <= got.len(),
        got.no_duplicates(),
    ensures
        got.take(n as int).to_set().intersect(gold.to_set()).finite(),
        got.take(n as int).to_set().intersect(gold.to_set()).len() == hits_upto(got, gold, n),
    decreases n,
{
    let now = got.take(n as int).to_set().intersect(gold.to_set());
    if n == 0 {
        assert(now =~= Set::empty());
    } else {
        let m = (n - 1) as nat;
        lemma_hits_set(got, gold, m);
        let before = got.take(m as int).to_set().intersect(gold.to_set());
        let x = got[m as int];
        assert(got.take(n as int) =~= got.take(m as int).push(x));
        assert forall|y: A| now.contains(y) <==> before.contains(y) || (y == x && gold.contains(
            x,
        )) by {
            if got.take(n as int).contains(y) {
                let i = choose|i: int| 0 <= i < n && got.take(n as int)[i] == y;
                if i < m {
                    assert(got.take(m as int)[i] == y);
                }
            }
            if got.take(m as int).contains(y) {
                let i = choose|i: int| 0 <= i < m && got.take(m as int)[i] == y;
                assert(got.take(n as int)[i] == y);
            }
            assert(got.take(n as int)[m as int] == x);
        }
        assert(!got.take(m as int).contains(x)) by {
            if got.take(m as int).contains(x) {
                let i = choose|i: int| 0 <= i < m && got.take(m as int)[i] == x;
                assert(got[i] == got[m as int]);
            }
        }
        if gold.contains(x) {
            assert(now =~= before.insert(x));
        } else {
            assert(now =~= before);
        }
    }
}

/// A list without repetitions has no more hits than there are entries to hit.
pub proof fn lemma_hits_within<A>(got: Seq<A>, gold: Seq<A>)
    requires
        got.no_duplicates(),
        gold.no_duplicates(),
    ensures
        hits(got, gold) <= gold.len(),
{
    lemma_hits_set(got, gold, got.len());
    assert(got.take(got.len() as int) =~= got);
    let both = got.to_set().intersect(gold.to_set());
    gold.unique_seq_to_set();
    assert(gold.to_set().finite()) by {
        vstd::seq_lib::seq_to_set_is_finite(gold);
    }
    assert(both.subset_of(gold.to_set()));
    vstd::set_lib::lemma_len_subset(both, gold.to_set());
}

/// A list that holds every hit of another one has no fewer hits.
pub proof fn lemma_hits_monotone<A>(fewer: Seq<A>, more: Seq<A>, gold: Seq<A>)
    requires
        fewer.no_duplicates(),
        more.no_duplicates(),
        forall|i: int|
            0 <= i < fewer.len() && gold.contains(#[trigger] fewer[i]) ==> more.contains(fewer[i]),
    ensures
        hits(fewer, gold) <= hits(more, gold),
{
    lemma_hits_set(fewer, gold, fewer.len());
    lemma_hits_set(more, gold, more.len());
    assert(fewer.take(fewer.len() as int) =~= fewer);
    assert(more.take(more.len() as int) =~= more);
    let a = fewer.to_set().intersect(gold.to_set());
    let b = more.to_set().intersect(gold.to_set());
    assert(a.subset_of(b)) by {
        assert forall|x: A| a.contains(x) implies b.contains(x) by {
            let i = choose|i: int| 0 <= i < fewer.len() && fewer[i] == x;
            assert(gold.contains(fewer[i]));
        }
    }
    vstd::set_lib::lemma_len_subset(a, b);
}

/// `distinct` keeps every value once.
pub proof fn lemma_distinct<A>(list: Seq<A>)
    ensures
        distinct(list).no_duplicates(),
        distinct(list).len() <= list.len(),
        forall|x: A| distinct(list).contains(x) <==> list.contains(x),
        list.len() > 0 ==> distinct(list).len() > 0,
        list.no_duplicates() ==> distinct(list) == list,
    decreases list.len(),
{
    if list.len() > 0 {
        let t = list.drop_last();
        lemma_distinct(t);
        let d = distinct(t);
        let e = distinct(list);
        assert forall|x: A| e.contains(x) <==> list.contains(x) by {
            if list.contains(x) {
                let i = choose|i: int| 0 <= i < list.len() && list[i] == x;
                if i < t.len() {
                    assert(t[i] == x);
                    assert(t.contains(x));
                    assert(d.contains(x));
                    let j = choose|j: int| 0 <= j < d.len() && d[j] == x;
                    assert(e[j] == x);
                } else if !d.contains(list.last()) {
                    assert(e[e.len() - 1] == x);
                }
            }
            if e.contains(x) {
                let j = choose|j: int| 0 <= j < e.len() && e[j] == x;
                if j < d.len() {
                    assert(d[j] == x);
                    assert(t.contains(x));
                    let i = choose|i: int| 0 <= i < t.len() && t[i] == x;
                    assert(list[i] == x);
                } else {
                    assert(list[list.len() - 1] == x);
                }
            }
        }
        if list.no_duplicates() {
            assert(t.no_duplicates());
            assert(!t.contains(list.last())) by {
                if t.contains(list.last()) {
                    let i = choose|i: int| 0 <= i < t.len() && t[i] == list.last();
                    assert(list[i] == list[list.len() - 1]);
                }
            }
            assert(e =~= list);
        }
    }
}

/// Whether a list holds a number.
pub fn holds_id(list: &[usize], x: usize) -> (b: bool)
    ensures
        b == list@.contains(x),
{
    let n: usize = list.len();
    let mut i: usize = 0;
    while i < n
        invariant
            i <= n,
            n == list@.len(),
            forall|j: int| 0 <= j < i ==> list@[j] != x,
        decreases n - i,
    {
        if list[i] == x {
            return true;
        }
        i += 1;
    }
    false
}

/// Counts the entries of `got` that are in `gold`.
pub fn count_hits(got: &[usize], gold: &[usize]) -> (r: usize)
    ensures
        r == hits(got@, gold@),
        r <= got@.len(),
{
    let n: usize = got.len();
    let mut r: usize = 0;
    let mut i: usize = 0;
    while i < n
        invariant
            i <= n,
            n == got@.len(),
            r == hits_upto(got@, gold@, i as nat),
            r <= i,
        decreases n - i,
    {
        if holds_id(gold, got[i]) {
            r += 1;
        }
        i += 1;
    }
    r
}

/// Drops the repetitions from a list.
pub fn keep_distinct(list: &[usize]) -> (r: Vec<usize>)
    ensures
        r@ == distinct(list@),
{
    let n: usize = list.len();
    let mut r: Vec<usize> = Vec::new();
    let mut i: usize = 0;
    assert(list@.take(0) =~= Seq::empty());
    while i < n
        invariant
            i <= n,
            n == list@.len(),
            r@ == distinct(list@.take(i as int)),
        decreases n - i,
    {
        proof {
            assert(list@.take(i + 1).drop_last() =~= list@.take(i as int));
        }
        if !holds_id(r.as_slice(), list[i]) {
            r.push(list[i]);
        }
        i += 1;
    }
    assert(list@.take(n as int) =~= list@);
    r
}

/// The positions in a result.
pub open spec fn found_ids<R>(found: Seq<(usize, R)>) -> Seq<usize> {
    Seq::new(found.len(), |i: int| found[i].0)
}

/// Collects the positions in a result.
pub fn collect_ids<R>(found: &[(usize, R)]) -> (r: Vec<usize>)
    ensures
        r@ == found_ids(found@),
{
    let n: usize = found.len();
    let mut r: Vec<usize> = Vec::new();
    let mut i: usize = 0;
    while i < n
        invariant
            i <= n,
            n == found@.len(),
            r@ =~= found_ids(found@).take(i as int),
        decreases n - i,
    {
        r.push(found[i].0);
        i += 1;
    }
    assert(found_ids(found@).take(n as int) =~= found_ids(found@));
    r
}

} // verus!
