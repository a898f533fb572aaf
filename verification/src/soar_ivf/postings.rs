//! Filling posting lists.

use vstd::prelude::*;

use crate::bytes::cells;
use crate::scalar::Scalar;
use crate::soar_ivf::ivf_common::{lemma_cells_push, postings_below, PostingLists};
use crate::table::rows;

verus! {

/// Posting lists and the distances of the postings.
pub ghost struct Filled<R> {
    pub lists: Seq<Seq<usize>>,
    pub norms: Seq<Seq<R>>,
}

/// Empty lists for `n` centroids.
pub open spec fn unfilled<R>(n: nat) -> Filled<R> {
    Filled {
        lists: Seq::new(n, |i: int| Seq::empty()),
        norms: Seq::new(n, |i: int| Seq::empty()),
    }
}

/// The lists after vector `id` was posted to centroid `c`.
pub open spec fn posted<R>(f: Filled<R>, c: usize, id: usize, norm: R) -> Filled<R> {
    Filled {
        lists: f.lists.update(c as int, f.lists[c as int].push(id)),
        norms: f.norms.update(c as int, f.norms[c as int].push(norm)),
    }
}

/// The lists after vector `id` was posted to the centroids of a sequence.
pub open spec fn posted_all<R>(f: Filled<R>, id: usize, to: Seq<(usize, R)>) -> Filled<R>
    decreases to.len(),
{
    if to.len() == 0 {
        f
    } else {
        let rest = posted_all(f, id, to.drop_last());
        posted(rest, to.last().0, id, to.last().1)
    }
}

/// The lists after the first `n` vectors were posted.
pub open spec fn filled<R>(n_centroids: nat, to: Seq<Seq<(usize, R)>>, n: nat) -> Filled<R>
    decreases n,
{
    if n == 0 {
        unfilled(n_centroids)
    } else {
        posted_all(filled(n_centroids, to, (n - 1) as nat), (n - 1) as usize, to[n - 1])
    }
}

/// The number of postings of the first `n` vectors.
pub open spec fn posting_count<R>(to: Seq<Seq<(usize, R)>>, n: nat) -> nat
    decreases n,
{
    if n == 0 {
        0
    } else {
        posting_count(to, (n - 1) as nat) + to[n - 1].len()
    }
}

/// Every centroid exists.
pub open spec fn targets_below<R>(to: Seq<(usize, R)>, n: nat) -> bool {
    forall|i: int| 0 <= i < to.len() ==> (#[trigger] to[i]).0 < n
}

proof fn lemma_posted_all<R>(f: Filled<R>, id: usize, to: Seq<(usize, R)>, bound: nat)
    requires
        f.lists.len() == f.norms.len(),
        targets_below(to, f.lists.len()),
        postings_below(f.lists, bound),
        id < bound,
    ensures
        posted_all(f, id, to).lists.len() == f.lists.len(),
        posted_all(f, id, to).norms.len() == f.norms.len(),
        cells(posted_all(f, id, to).lists) == cells(f.lists) + to.len(),
        postings_below(posted_all(f, id, to).lists, bound),
    decreases to.len(),
{
    if to.len() > 0 {
        let t = to.drop_last();
        assert forall|i: int| 0 <= i < t.len() implies (#[trigger] t[i]).0 < f.lists.len() by {
            assert(t[i] == to[i]);
        }
        lemma_posted_all(f, id, t, bound);
        let g = posted_all(f, id, t);
        let c = to[to.len() - 1].0 as int;
        assert(to[to.len() - 1].0 < f.lists.len());
        lemma_cells_push(g.lists, c, id);
        let h = posted_all(f, id, to);
        assert forall|x: int, i: int|
            0 <= x < h.lists.len() && 0 <= i < h.lists[x].len() implies (#[trigger] h.lists[x][i])
            < bound by {
            if x == c {
                if i < g.lists[c].len() {
                    assert(h.lists[x][i] == g.lists[c][i]);
                }
            } else {
                assert(h.lists[x][i] == g.lists[x][i]);
            }
        }
    }
}

/// Posting lists hold as many entries as there are postings, and each of them is
/// the number of a vector.
pub proof fn lemma_filled<R>(n_centroids: nat, to: Seq<Seq<(usize, R)>>, n: nat)
    requires
        n <= to.len() <= usize::MAX,
        forall|i: int| 0 <= i < to.len() ==> targets_below(#[trigger] to[i], n_centroids),
    ensures
        filled(n_centroids, to, n).lists.len() == n_centroids,
        filled(n_centroids, to, n).norms.len() == n_centroids,
        cells(filled(n_centroids, to, n).lists) == posting_count(to, n),
        postings_below(filled(n_centroids, to, n).lists, to.len()),
    decreases n,
{
    if n == 0 {
        lemma_unfilled(n_centroids);
    } else {
        lemma_filled(n_centroids, to, (n - 1) as nat);
        assert(targets_below(to[n - 1], n_centroids));
        lemma_posted_all(
            filled(n_centroids, to, (n - 1) as nat),
            (n - 1) as usize,
            to[n - 1],
            to.len(),
        );
    }
}

proof fn lemma_unfilled(n: nat)
    ensures
        cells(Seq::new(n, |i: int| Seq::<usize>::empty())) == 0,
    decreases n,
{
    if n > 0 {
        lemma_unfilled((n - 1) as nat);
        let t = Seq::new(n, |i: int| Seq::<usize>::empty());
        assert(t.drop_last() =~= Seq::new((n - 1) as nat, |i: int| Seq::<usize>::empty()));
    }
}

impl<R: Scalar> PostingLists<R> {
    /// The lists and distances.
    pub open spec fn contents(&self) -> Filled<R> {
        Filled { lists: rows(self.lists@), norms: rows(self.residual_norms@) }
    }

    /// Posts vector `id` to centroids.
    pub(crate) fn post(&mut self, id: usize, to: &[(usize, R)])
        requires
            old(self).wf(),
            targets_below(to@, old(self).lists@.len()),
            old(self).total_entries + to@.len() <= usize::MAX,
        ensures
            final(self).wf(),
            final(self).lists@.len() == old(self).lists@.len(),
            final(self).contents() == posted_all(old(self).contents(), id, to@),
            final(self).total_entries == old(self).total_entries + to@.len(),
            final(self).dup_count == old(self).dup_count,
    {
        let n: usize = to.len();
        let mut i: usize = 0;
        assert(to@.take(0) =~= Seq::empty());
        while i < n
            invariant
                i <= n,
                n == to@.len(),
                self.wf(),
                self.lists@.len() == old(self).lists@.len(),
                targets_below(to@, old(self).lists@.len()),
                old(self).total_entries + n <= usize::MAX,
                self.contents() == posted_all(old(self).contents(), id, to@.take(i as int)),
                self.total_entries == old(self).total_entries + i,
                self.dup_count == old(self).dup_count,
            decreases n - i,
        {
            proof {
                assert(to@.take(i + 1).drop_last() =~= to@.take(i as int));
                assert(to@.take(i + 1).last() == to@[i as int]);
                assert(to@[i as int].0 < self.lists@.len());
            }
            let (c, norm) = to[i];
            self.push_with_norm(c, id, norm);
            assert(rows(self.lists@).len() == self.lists@.len());
            i += 1;
        }
        assert(to@.take(n as int) =~= to@);
    }
}

} // verus!
