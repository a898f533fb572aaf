//! Inverted file whose further lists complement the first one.
//!
//! The first list of a vector is that of its nearest centroid. Each further list
//! is that of the centroid with the least cost: its squared distance, and for
//! every list picked before the squared component of its residual along the
//! residual of that list, times `lambda`.

use vstd::prelude::*;

use crate::cluster::{lemma_nearest_centre, nearest_centre, nearest_upto};
use crate::flat::rectangular;
use crate::linalg::{difference, dot, dot_of, sq_l2, sq_l2_of, subtract, tiny};
use crate::overlap::holds_id;
use crate::scalar::{greater, greater_of, is_less, less, Fixed, Scalar, Widen};
use crate::soar_ivf::dataset::lcg_seeded;
use crate::soar_ivf::ivf_common::{
    centroid_bytes, lemma_ranking, nearest_centroid_idx, posting_bytes, postings_below,
    probe_and_scan, probe_and_scan_approx, ranking, scanned, trained, Centroids, IvfVariant,
    PostingLists,
};
use crate::soar_ivf::ivf_spill_topk::{lesser, spill_targets, spread, targets, IvfSpillTopK};
use crate::soar_ivf::metrics::Hit;
use crate::soar_ivf::postings::{filled, lemma_filled, targets_below, unfilled};
use crate::sorting::first_n;
use crate::table::rows;

verus! {

/// The squared component of one residual along another, times `lambda`.
pub open spec fn penalty<R: Scalar>(lambda: R, residual: Seq<R>, prev: Seq<R>, prev_sq: R) -> R {
    let dp = dot_of(residual, prev);
    lambda.times_of(dp.times_of(dp)).over_of(prev_sq)
}

/// The squared norm of a residual, but not less than a tiny number.
pub open spec fn norm_sq<R: Scalar>(x: Seq<R>, centroid: Seq<R>) -> R {
    greater_of(sq_l2_of(x, centroid), tiny())
}

/// The cost of centroid `c`, given the first `n` of the centroids that were
/// picked before.
pub open spec fn cost_upto<R: Scalar>(
    x: Seq<R>,
    centroids: Seq<Seq<R>>,
    lambda: R,
    chosen: Seq<usize>,
    c: int,
    n: nat,
) -> R
    decreases n,
{
    if n == 0 {
        sq_l2_of(x, centroids[c])
    } else {
        let prev = centroids[chosen[n - 1] as int];
        cost_upto(x, centroids, lambda, chosen, c, (n - 1) as nat).plus_of(
            penalty(lambda, difference(x, centroids[c]), difference(x, prev), norm_sq(x, prev)),
        )
    }
}

/// The cost of centroid `c`.
pub open spec fn cost<R: Scalar>(
    x: Seq<R>,
    centroids: Seq<Seq<R>>,
    lambda: R,
    chosen: Seq<usize>,
    c: int,
) -> R {
    cost_upto(x, centroids, lambda, chosen, c, chosen.len())
}

/// The centroid with the least cost among the first `n` that were not picked
/// before; of several the first one.
pub open spec fn cheapest<R: Scalar>(
    x: Seq<R>,
    centroids: Seq<Seq<R>>,
    lambda: R,
    chosen: Seq<usize>,
    n: nat,
) -> Option<usize>
    decreases n,
{
    if n == 0 {
        None
    } else {
        let best = cheapest(x, centroids, lambda, chosen, (n - 1) as nat);
        let better = match best {
            None => true,
            Some(b) => less(
                cost(x, centroids, lambda, chosen, n - 1),
                cost(x, centroids, lambda, chosen, b as int),
            ),
        };
        if !chosen.contains((n - 1) as usize) && better {
            Some((n - 1) as usize)
        } else {
            best
        }
    }
}

/// The first `spill` centroids that are picked for a vector, or all.
pub open spec fn soar_picks<R: Scalar>(
    x: Seq<R>,
    centroids: Seq<Seq<R>>,
    lambda: R,
    spill: nat,
) -> Seq<usize>
    decreases spill,
{
    if spill <= 1 {
        seq![nearest_centre(x, centroids) as usize]
    } else {
        let chosen = soar_picks(x, centroids, lambda, (spill - 1) as nat);
        match cheapest(x, centroids, lambda, chosen, centroids.len()) {
            None => chosen,
            Some(c) => chosen.push(c),
        }
    }
}

/// Each vector goes to the centroids that are picked for it.
pub open spec fn soar_targets<R: Scalar>(
    vectors: Seq<Seq<R>>,
    centroids: Seq<Seq<R>>,
    lambda: R,
    spill: nat,
) -> Seq<Seq<(usize, R)>> {
    Seq::new(
        vectors.len(),
        |i: int|
            targets(vectors[i], centroids, soar_picks(vectors[i], centroids, lambda, spill)),
    )
}

/// The cheapest centroid was not picked before, and no other one of these costs less.
pub proof fn lemma_cheapest<R: Scalar>(
    x: Seq<R>,
    centroids: Seq<Seq<R>>,
    lambda: R,
    chosen: Seq<usize>,
    n: nat,
)
    requires
        n <= centroids.len() <= usize::MAX,
    ensures
        match cheapest(x, centroids, lambda, chosen, n) {
            None => forall|c: int| 0 <= c < n ==> chosen.contains(#[trigger] (c as usize)),
            Some(b) => {
                &&& b < n
                &&& !chosen.contains(b)
                &&& forall|c: int|
                    0 <= c < n && !chosen.contains(c as usize) ==> {
                        let cc = (#[trigger] cost(x, centroids, lambda, chosen, c)).key_of();
                        let cb = cost(x, centroids, lambda, chosen, b as int).key_of();
                        cb < cc || (cb == cc && b <= c)
                    }
            },
        },
    decreases n,
{
    if n > 0 {
        lemma_cheapest(x, centroids, lambda, chosen, (n - 1) as nat);
        match cheapest(x, centroids, lambda, chosen, n) {
            None => {
                assert forall|c: int| 0 <= c < n implies chosen.contains(
                    #[trigger] (c as usize),
                ) by {
                    if c < n - 1 {
                        assert(cheapest(x, centroids, lambda, chosen, (n - 1) as nat) is None);
                    }
                }
            },
            Some(b) => {},
        }
    }
}

/// The centroids that are picked for a vector exist and are different, and they
/// are `spill`, or as many as there are.
pub proof fn lemma_soar_picks<R: Scalar>(
    x: Seq<R>,
    centroids: Seq<Seq<R>>,
    lambda: R,
    spill: nat,
)
    requires
        0 < centroids.len() <= usize::MAX,
        spill >= 1,
    ensures
        soar_picks(x, centroids, lambda, spill).len() == lesser(spill, centroids.len()),
        soar_picks(x, centroids, lambda, spill).no_duplicates(),
        forall|i: int|
            0 <= i < soar_picks(x, centroids, lambda, spill).len() ==> (#[trigger] soar_picks(
                x,
                centroids,
                lambda,
                spill,
            )[i]) < centroids.len(),
    decreases spill,
{
    let n = centroids.len();
    if spill == 1 {
        lemma_nearest_centre(x, centroids, n);
    } else {
        lemma_soar_picks(x, centroids, lambda, (spill - 1) as nat);
        let chosen = soar_picks(x, centroids, lambda, (spill - 1) as nat);
        lemma_cheapest(x, centroids, lambda, chosen, n);
        let now = soar_picks(x, centroids, lambda, spill);
        match cheapest(x, centroids, lambda, chosen, n) {
            None => {
                lemma_covers_all(chosen, n);
            },
            Some(c) => {
                assert forall|i: int, j: int|
                    0 <= i < now.len() && 0 <= j < now.len() && i != j implies now[i] != now[j] by {
                    if i < chosen.len() && j < chosen.len() {
                        assert(chosen[i] != chosen[j]);
                    } else if i < chosen.len() {
                        assert(chosen.contains(chosen[i]));
                    } else {
                        assert(chosen.contains(chosen[j]));
                    }
                }
                lemma_short(now, n);
            },
        }
    }
}

/// Different numbers below `n` are no more than `n`.
proof fn lemma_short(list: Seq<usize>, n: nat)
    requires
        list.no_duplicates(),
        forall|i: int| 0 <= i < list.len() ==> (#[trigger] list[i]) < n,
    ensures
        list.len() <= n,
{
    list.unique_seq_to_set();
    let s = list.to_set().map(|x: usize| x as int);
    assert(s.subset_of(vstd::set_lib::set_int_range(0, n as int))) by {
        assert forall|y: int| s.contains(y) implies vstd::set_lib::set_int_range(
            0,
            n as int,
        ).contains(y) by {
            let x = choose|x: usize| list.to_set().contains(x) && y == x as int;
            let i = choose|i: int| 0 <= i < list.len() && list[i] == x;
            assert(list[i] < n);
        }
    }
    vstd::set_lib::lemma_int_range(0, n as int);
    vstd::set_lib::lemma_len_subset(s, vstd::set_lib::set_int_range(0, n as int));
    lemma_map_len(list.to_set());
}

proof fn lemma_map_len(s: Set<usize>)
    requires
        s.finite(),
    ensures
        s.map(|x: usize| x as int).finite(),
        s.map(|x: usize| x as int).len() == s.len(),
{
    vstd::set_lib::lemma_map_size(
        s,
        s.map(|x: usize| x as int),
        |x: usize| x as int,
    );
}

/// A list that holds all numbers below `n` is at least as long.
proof fn lemma_covers_all(list: Seq<usize>, n: nat)
    requires
        n <= usize::MAX,
        forall|c: int| 0 <= c < n ==> list.contains(#[trigger] (c as usize)),
        list.no_duplicates(),
    ensures
        list.len() >= n,
{
    list.unique_seq_to_set();
    let s = list.to_set().map(|x: usize| x as int);
    let all = vstd::set_lib::set_int_range(0, n as int);
    assert(all.subset_of(s)) by {
        assert forall|y: int| all.contains(y) implies s.contains(y) by {
            assert(list.contains(y as usize));
            assert(list.to_set().contains(y as usize));
        }
    }
    vstd::set_lib::lemma_int_range(0, n as int);
    lemma_map_len(list.to_set());
    vstd::set_lib::lemma_len_subset(all, s);
}

/// Penalties with `lambda` add nothing to any distance between a vector and a
/// centroid.
pub open spec fn silent_at<R: Scalar>(x: Seq<R>, centroids: Seq<Seq<R>>, lambda: R) -> bool {
    forall|c: int, p: int|
        0 <= c < centroids.len() && 0 <= p < centroids.len() ==> sq_l2_of(x, centroids[c]).plus_of(
            #[trigger] penalty(
                lambda,
                difference(x, centroids[c]),
                difference(x, centroids[p]),
                norm_sq(x, centroids[p]),
            ),
        ) == sq_l2_of(x, centroids[c])
}

/// Every distance between a vector and a centroid is less than infinity.
pub open spec fn finite_at<R: Scalar>(x: Seq<R>, centroids: Seq<Seq<R>>) -> bool {
    forall|c: int|
        0 <= c < centroids.len() ==> less(#[trigger] sq_l2_of(x, centroids[c]), R::infinity_of())
}

/// Penalties with `lambda` add nothing for any of the vectors, and every distance
/// is less than infinity.
pub open spec fn silent<R: Scalar>(
    vectors: Seq<Seq<R>>,
    centroids: Seq<Seq<R>>,
    lambda: R,
) -> bool {
    forall|i: int|
        0 <= i < vectors.len() ==> silent_at(#[trigger] vectors[i], centroids, lambda)
            && finite_at(vectors[i], centroids)
}

proof fn lemma_silent_cost<R: Scalar>(
    x: Seq<R>,
    centroids: Seq<Seq<R>>,
    lambda: R,
    chosen: Seq<usize>,
    c: int,
    n: nat,
)
    requires
        silent_at(x, centroids, lambda),
        0 <= c < centroids.len(),
        n <= chosen.len(),
        forall|i: int| 0 <= i < chosen.len() ==> (#[trigger] chosen[i]) < centroids.len(),
    ensures
        cost_upto(x, centroids, lambda, chosen, c, n) == sq_l2_of(x, centroids[c]),
    decreases n,
{
    if n > 0 {
        lemma_silent_cost(x, centroids, lambda, chosen, c, (n - 1) as nat);
        assert(chosen[n - 1] < centroids.len());
    }
}

/// The nearest centroid comes first in the ranking.
proof fn lemma_nearest_first<R: Scalar>(x: Seq<R>, centroids: Seq<Seq<R>>)
    requires
        0 < centroids.len() <= usize::MAX,
        forall|c: int|
            0 <= c < centroids.len() ==> less(
                #[trigger] sq_l2_of(x, centroids[c]),
                R::infinity_of(),
            ),
    ensures
        nearest_centre(x, centroids) as usize == ranking(x, centroids)[0],
{
    let n = centroids.len();
    lemma_ranking(x, centroids);
    lemma_nearest_centre(x, centroids, n);
    let best = nearest_upto(x, centroids, n);
    let first = ranking(x, centroids)[0];
    assert(less(sq_l2_of(x, centroids[first as int]), R::infinity_of()));
    assert(!less(sq_l2_of(x, centroids[first as int]), best.1));
    assert(less(best.1, R::infinity_of())) by {
        assert(best.1 == R::infinity_of() || best.1 == sq_l2_of(x, centroids[best.0 as int]));
        assert(less(sq_l2_of(x, centroids[best.0 as int]), R::infinity_of()));
        if best.1 == R::infinity_of() {
            assert(!less(sq_l2_of(x, centroids[first as int]), R::infinity_of()));
        }
    }
    let b = best.0 as usize;
    assert(ranking(x, centroids).contains(b));
    let p = choose|p: int| 0 <= p < n && ranking(x, centroids)[p] == b;
    if p > 0 {
        assert(ranking(x, centroids)[0] == first && ranking(x, centroids)[p] == b);
        if first < b {
            assert(less(best.1, sq_l2_of(x, centroids[first as int])));
        }
    }
}

/// Without penalties the lists of a vector are those of its nearest centroids,
/// in the order of their distances.
pub proof fn lemma_silent_picks<R: Scalar>(
    x: Seq<R>,
    centroids: Seq<Seq<R>>,
    lambda: R,
    spill: nat,
)
    requires
        silent_at(x, centroids, lambda),
        finite_at(x, centroids),
        spill >= 1,
        0 < centroids.len() <= usize::MAX,
    ensures
        soar_picks(x, centroids, lambda, spill) == first_n(ranking(x, centroids), spill),
    decreases spill,
{
    let n = centroids.len();
    let order = ranking(x, centroids);
    lemma_ranking(x, centroids);
    if spill == 1 {
        lemma_nearest_first(x, centroids);
        assert(soar_picks(x, centroids, lambda, spill) =~= first_n(order, 1));
    } else {
        let j = (spill - 1) as nat;
        lemma_silent_picks(x, centroids, lambda, j);
        let chosen = soar_picks(x, centroids, lambda, j);
        lemma_cheapest(x, centroids, lambda, chosen, n);
        lemma_soar_picks(x, centroids, lambda, j);
        assert forall|c: int| 0 <= c < n implies #[trigger] cost(x, centroids, lambda, chosen, c)
            == sq_l2_of(x, centroids[c]) by {
            lemma_silent_cost(x, centroids, lambda, chosen, c, chosen.len());
        }
        match cheapest(x, centroids, lambda, chosen, n) {
            None => {
                lemma_covers_all(chosen, n);
                assert(first_n(order, spill) =~= order);
                assert(chosen =~= order);
            },
            Some(b) => {
                lemma_soar_picks(x, centroids, lambda, spill);
                assert(chosen.len() < n);
                assert(chosen == order.take(j as int));
                let r = order[j as int];
                assert(!chosen.contains(r)) by {
                    if chosen.contains(r) {
                        let i = choose|i: int| 0 <= i < chosen.len() && chosen[i] == r;
                        assert(order[i] == order[j as int]);
                    }
                }
                assert(order.contains(b));
                let p = choose|p: int| 0 <= p < n && order[p] == b;
                assert(p >= j) by {
                    if p < j {
                        assert(chosen[p] == b);
                    }
                }
                assert(cost(x, centroids, lambda, chosen, r as int) == sq_l2_of(
                    x,
                    centroids[r as int],
                ));
                assert(cost(x, centroids, lambda, chosen, b as int) == sq_l2_of(
                    x,
                    centroids[b as int],
                ));
                assert(b == r);
                assert(soar_picks(x, centroids, lambda, spill) =~= first_n(order, spill));
            },
        }
    }
}

/// Without penalties the lists are those of plain spilling, whatever the number
/// of copies.
pub proof fn lemma_silent_targets<R: Scalar>(
    vectors: Seq<Seq<R>>,
    centroids: Seq<Seq<R>>,
    lambda: R,
    spill: nat,
)
    requires
        silent(vectors, centroids, lambda),
        spill >= 1,
        0 < centroids.len() <= usize::MAX,
    ensures
        soar_targets(vectors, centroids, lambda, spill) == spill_targets(
            vectors,
            centroids,
            spill,
        ),
{
    assert forall|i: int| 0 <= i < vectors.len() implies #[trigger] soar_targets(
        vectors,
        centroids,
        lambda,
        spill,
    )[i] == spill_targets(vectors, centroids, spill)[i] by {
        lemma_silent_picks(vectors[i], centroids, lambda, spill);
    }
    assert(soar_targets(vectors, centroids, lambda, spill) =~= spill_targets(
        vectors,
        centroids,
        spill,
    ));
}

/// In fixed-point arithmetic, penalties with `lambda` zero add nothing.
pub proof fn lemma_zero_is_silent(x: Seq<Fixed>, centroids: Seq<Seq<Fixed>>)
    ensures
        silent_at(x, centroids, Fixed { raw: 0 }),
{
    let lambda = Fixed { raw: 0 };
    assert forall|c: int, p: int|
        0 <= c < centroids.len() && 0 <= p < centroids.len() implies sq_l2_of(
        x,
        centroids[c],
    ).plus_of(
        #[trigger] penalty(
            lambda,
            difference(x, centroids[c]),
            difference(x, centroids[p]),
            norm_sq(x, centroids[p]),
        ),
    ) == sq_l2_of(x, centroids[c]) by {
        let s = sq_l2_of(x, centroids[c]);
        let prev_sq = norm_sq(x, centroids[p]);
        let dp = dot_of(difference(x, centroids[c]), difference(x, centroids[p]));
        let square = dp.times_of(dp);
        assert(lambda.raw * square.raw == 0);
        assert(lambda.times_of(square) == lambda);
        assert(lambda.raw * crate::scalar::ONE == 0);
        assert(lambda.over_of(prev_sq) == lambda);
        assert(s.plus_of(lambda) == s);
    }
}

/// Two inverted files over the same vectors and centroids, one that complements
/// the lists with `lambda` zero and one that copies to the nearest centroids, hold
/// the same postings and so return the same hits, where penalties with `lambda`
/// zero add nothing.
pub proof fn lemma_soar_is_spilling<'v, R: Scalar>(
    soar: IvfSoar<'v, R>,
    plain: IvfSpillTopK<'v, R>,
    query: Seq<R>,
    k: nat,
    n_probe: nat,
)
    requires
        soar.lambda == R::zero_of(),
        soar.spill == plain.spill,
        soar.spill >= 1,
        soar.vectors@ == plain.vectors@,
        soar.centroids.all() == plain.centroids.all(),
        0 < soar.centroids.all().len() <= usize::MAX,
        silent(rows(soar.vectors@), soar.centroids.all(), R::zero_of()),
        soar.lists.contents() == filled(
            soar.centroids.all().len(),
            soar_targets(
                rows(soar.vectors@),
                soar.centroids.all(),
                soar.lambda,
                soar.spill as nat,
            ),
            soar.vectors@.len(),
        ),
        plain.lists.contents() == filled(
            plain.centroids.all().len(),
            spill_targets(rows(plain.vectors@), plain.centroids.all(), plain.spill as nat),
            plain.vectors@.len(),
        ),
    ensures
        soar.lists.contents() == plain.lists.contents(),
        scanned(
            query,
            k,
            n_probe,
            soar.centres().all(),
            rows(soar.postings().lists@),
            soar.corpus(),
        ) == scanned(
            query,
            k,
            n_probe,
            plain.centres().all(),
            rows(plain.postings().lists@),
            plain.corpus(),
        ),
{
    lemma_silent_targets(
        rows(soar.vectors@),
        soar.centroids.all(),
        soar.lambda,
        soar.spill as nat,
    );
}

/// Computes the squared component of one residual along another, times `lambda`.
pub fn parallel_penalty<R: Scalar>(lambda: R, residual: &[R], prev: &[R], prev_sq: R) -> (r: R)
    ensures
        r == penalty(lambda, residual@, prev@, prev_sq),
{
    let dp = dot(residual, prev);
    lambda.times(dp.times(dp)).over(prev_sq)
}

/// Picks the centroids for a vector.
fn pick_centroids<R: Scalar>(x: &[R], centroids: &[Vec<R>], lambda: R, spill: usize) -> (r: Vec<
    usize,
>)
    requires
        centroids@.len() > 0,
        spill >= 1,
    ensures
        r@ == soar_picks(x@, rows(centroids@), lambda, spill as nat),
{
    let n: usize = centroids.len();
    let ghost cents = rows(centroids@);
    let p: usize = nearest_centroid_idx(x, centroids);
    let mut chosen: Vec<usize> = Vec::new();
    chosen.push(p);
    assert(chosen@ =~= soar_picks(x@, cents, lambda, 1));
    let mut residuals: Vec<Vec<R>> = Vec::new();
    let mut squares: Vec<R> = Vec::new();
    residuals.push(subtract(x, centroids[p].as_slice()));
    squares.push(greater(sq_l2(x, centroids[p].as_slice()), R::ratio(1, 1_000_000_000_000)));
    assert(cents[p as int] == centroids@[p as int]@);
    let mut picked: usize = 1;
    let mut more: bool = true;
    while more && picked < spill
        invariant
            1 <= picked <= spill,
            n == centroids@.len(),
            n > 0,
            cents == rows(centroids@),
            chosen@ == soar_picks(x@, cents, lambda, picked as nat),
            !more ==> chosen@ == soar_picks(x@, cents, lambda, spill as nat),
            residuals@.len() == chosen@.len(),
            squares@.len() == chosen@.len(),
            forall|i: int| 0 <= i < chosen@.len() ==> (#[trigger] chosen@[i]) < n,
            forall|i: int|
                0 <= i < chosen@.len() ==> (#[trigger] residuals@[i])@ == difference(
                    x@,
                    cents[chosen@[i] as int],
                ),
            forall|i: int|
                0 <= i < chosen@.len() ==> #[trigger] squares@[i] == norm_sq(
                    x@,
                    cents[chosen@[i] as int],
                ),
        decreases spill - picked + if more {
            1int
        } else {
            0
        },
    {
        let mut best: Option<usize> = None;
        let mut best_cost = R::zero();
        let mut c: usize = 0;
        while c < n
            invariant
                c <= n,
                n == centroids@.len(),
                cents == rows(centroids@),
                residuals@.len() == chosen@.len(),
                squares@.len() == chosen@.len(),
                forall|i: int|
                    0 <= i < chosen@.len() ==> (#[trigger] residuals@[i])@ == difference(
                        x@,
                        cents[chosen@[i] as int],
                    ),
                forall|i: int|
                    0 <= i < chosen@.len() ==> #[trigger] squares@[i] == norm_sq(
                        x@,
                        cents[chosen@[i] as int],
                    ),
                best == cheapest(x@, cents, lambda, chosen@, c as nat),
                match best {
                    None => true,
                    Some(b) => best_cost == cost(x@, cents, lambda, chosen@, b as int),
                },
            decreases n - c,
        {
            if !holds_id(chosen.as_slice(), c) {
                let residual = subtract(x, centroids[c].as_slice());
                assert(cents[c as int] == centroids@[c as int]@);
                let mut total = sq_l2(x, centroids[c].as_slice());
                let count: usize = residuals.len();
                let mut i: usize = 0;
                while i < count
                    invariant
                        i <= count,
                        count == chosen@.len(),
                        residuals@.len() == count,
                        squares@.len() == count,
                        residual@ == difference(x@, cents[c as int]),
                        forall|i: int|
                            0 <= i < chosen@.len() ==> (#[trigger] residuals@[i])@ == difference(
                                x@,
                                cents[chosen@[i] as int],
                            ),
                        forall|i: int|
                            0 <= i < chosen@.len() ==> #[trigger] squares@[i] == norm_sq(
                                x@,
                                cents[chosen@[i] as int],
                            ),
                        total == cost_upto(x@, cents, lambda, chosen@, c as int, i as nat),
                    decreases count - i,
                {
                    total = total.plus(
                        parallel_penalty(
                            lambda,
                            residual.as_slice(),
                            residuals[i].as_slice(),
                            squares[i],
                        ),
                    );
                    i += 1;
                }
                let better: bool = match best {
                    None => true,
                    Some(_) => is_less(total, best_cost),
                };
                if better {
                    best = Some(c);
                    best_cost = total;
                }
            }
            c += 1;
        }
        proof {
            lemma_cheapest(x@, cents, lambda, chosen@, n as nat);
        }
        match best {
            None => {
                more = false;
                proof {
                    lemma_stuck(x@, cents, lambda, (picked + 1) as nat, spill as nat);
                }
            },
            Some(b) => {
                residuals.push(subtract(x, centroids[b].as_slice()));
                squares.push(
                    greater(
                        sq_l2(x, centroids[b].as_slice()),
                        R::ratio(1, 1_000_000_000_000),
                    ),
                );
                assert(cents[b as int] == centroids@[b as int]@);
                chosen.push(b);
            },
        }
        picked += 1;
    }
    chosen
}

/// Once all centroids are picked, nothing changes.
proof fn lemma_stuck<R: Scalar>(x: Seq<R>, centroids: Seq<Seq<R>>, lambda: R, from: nat, to: nat)
    requires
        2 <= from <= to,
        cheapest(
            x,
            centroids,
            lambda,
            soar_picks(x, centroids, lambda, (from - 1) as nat),
            centroids.len(),
        ) is None,
    ensures
        soar_picks(x, centroids, lambda, to) == soar_picks(x, centroids, lambda, (from - 1) as nat),
    decreases to,
{
    if from < to {
        lemma_stuck(x, centroids, lambda, from, (to - 1) as nat);
    }
}

/// Inverted file that picks the lists of a vector so that they complement each
/// other.
pub struct IvfSoar<'v, R> {
    pub centroids: Centroids<R>,
    pub lists: PostingLists<R>,
    pub vectors: &'v [Vec<R>],
    pub spill: usize,
    pub lambda: R,
    pub duplicates: usize,
}

impl<'v, R: Scalar> IvfSoar<'v, R> {
    /// Trains the centroids and fills the lists. Each vector is copied into
    /// `spill` lists; `lambda` weighs the penalty for parallel residuals.
    pub fn build<W: Scalar>(
        vectors: &'v [Vec<R>],
        n_centroids: usize,
        spill: usize,
        lambda: R,
        iters: usize,
        seed: u64,
    ) -> (r: Self) where R: Widen<W>
        requires
            vectors@.len() > 0,
            n_centroids >= 1,
            spill >= 1,
            !less(lambda, R::zero_of()),
            rectangular(rows(vectors@), vectors@[0]@.len()),
            vectors@.len() * lesser(spill as nat, n_centroids as nat) <= usize::MAX,
        ensures
            r.ready(),
            r.vectors@ == vectors@,
            r.spill == spill,
            r.lambda == lambda,
            r.centroids.dims == vectors@[0]@.len(),
            r.centroids.all() == trained::<R, W>(
                rows(vectors@),
                r.centroids.dims as nat,
                n_centroids as nat,
                iters as nat,
                lcg_seeded(seed),
            ).0,
            r.lists.contents() == filled(
                n_centroids as nat,
                soar_targets(rows(vectors@), r.centroids.all(), lambda, spill as nat),
                vectors@.len(),
            ),
            silent(rows(vectors@), r.centroids.all(), lambda) ==> r.lists.contents() == filled(
                n_centroids as nat,
                spill_targets(rows(vectors@), r.centroids.all(), spill as nat),
                vectors@.len(),
            ),
            r.lists.total_entries == vectors@.len() * lesser(spill as nat, n_centroids as nat),
            r.duplicates == r.lists.total_entries - vectors@.len(),
            r.lists.dup_count == spread(spill as nat, n_centroids as nat, vectors@.len()),
    {
        let centroids = Centroids::train::<W>(vectors, n_centroids, iters, seed);
        let mut lists: PostingLists<R> = PostingLists::new(centroids.len());
        let n: usize = vectors.len();
        let ghost table = rows(vectors@);
        let ghost cents = centroids.all();
        let ghost to = soar_targets(table, cents, lambda, spill as nat);
        let ghost each = lesser(spill as nat, n_centroids as nat);
        let mut dup: usize = 0;
        let mut repeated: usize = 0;
        let mut id: usize = 0;
        proof {
            assert(rows(lists.lists@).len() == lists.lists@.len());
            assert(lists.contents() == unfilled::<R>(n_centroids as nat));
            assert(0 * each == 0);
        }
        while id < n
            invariant
                id <= n,
                n == vectors@.len(),
                table == rows(vectors@),
                cents == centroids.all(),
                cents.len() == n_centroids,
                n_centroids >= 1,
                spill >= 1,
                to == soar_targets(table, cents, lambda, spill as nat),
                each == lesser(spill as nat, n_centroids as nat),
                n * each <= usize::MAX,
                lists.wf(),
                lists.lists@.len() == n_centroids,
                lists.total_entries == id * each,
                lists.dup_count == 0,
                dup == id * each - id,
                repeated == spread(spill as nat, n_centroids as nat, id as nat),
                lists.contents() == filled(n_centroids as nat, to, id as nat),
            decreases n - id,
        {
            let x: &Vec<R> = &vectors[id];
            assert(table[id as int] == x@);
            let chosen = pick_centroids(
                x.as_slice(),
                centroids.vecs.as_slice(),
                lambda,
                spill,
            );
            proof {
                lemma_soar_picks(x@, cents, lambda, spill as nat);
            }
            let count: usize = chosen.len();
            let mut target: Vec<(usize, R)> = Vec::new();
            let mut i: usize = 0;
            while i < count
                invariant
                    i <= count,
                    count == chosen@.len(),
                    cents == centroids.all(),
                    forall|i: int| 0 <= i < count ==> (#[trigger] chosen@[i]) < cents.len(),
                    to[id as int] == targets(x@, cents, chosen@),
                    target@ =~= to[id as int].take(i as int),
                decreases count - i,
            {
                let c: usize = chosen[i];
                assert(chosen@[i as int] < cents.len());
                assert(cents[c as int] == centroids.vecs@[c as int]@);
                target.push((c, sq_l2(x.as_slice(), centroids.vecs[c].as_slice()).sqrt()));
                i += 1;
            }
            proof {
                assert(to[id as int].take(count as int) =~= to[id as int]);
                assert(target@ == to[id as int]);
                assert(id * each + each <= n * each) by (nonlinear_arith)
                    requires
                        id + 1 <= n,
                ;
                assert((id + 1) * each == id * each + each) by (nonlinear_arith);
            }
            lists.post(id, target.as_slice());
            dup += count - 1;
            if count >= 2 {
                repeated += 1;
            }
            id += 1;
        }
        proof {
            assert forall|i: int| 0 <= i < to.len() implies targets_below(
                #[trigger] to[i],
                n_centroids as nat,
            ) by {
                lemma_soar_picks(table[i], cents, lambda, spill as nat);
            }
            lemma_filled(n_centroids as nat, to, n as nat);
            if silent(table, cents, lambda) {
                lemma_silent_targets(table, cents, lambda, spill as nat);
            }
        }
        lists.dup_count = repeated;
        IvfSoar { centroids, lists, vectors, spill, lambda, duplicates: dup }
    }
}

impl<'v, R: Scalar> IvfVariant<R> for IvfSoar<'v, R> {
    open spec fn ready(&self) -> bool {
        &&& self.lists.wf()
        &&& self.centroids.all().len() <= self.lists.lists@.len()
        &&& postings_below(rows(self.lists.lists@), self.vectors@.len())
    }

    open spec fn centres(&self) -> Centroids<R> {
        self.centroids
    }

    open spec fn postings(&self) -> PostingLists<R> {
        self.lists
    }

    open spec fn corpus(&self) -> Seq<Seq<R>> {
        rows(self.vectors@)
    }

    open spec fn spilled(&self) -> nat {
        self.duplicates as nat
    }

    open spec fn label(&self) -> Seq<char> {
        "IVF-SOAR"@
    }

    fn name(&self) -> (r: &str) {
        "IVF-SOAR"
    }

    fn search(&self, query: &[R], k: usize, n_probe: usize) -> (r: Vec<Hit<R>>) {
        probe_and_scan(query, k, n_probe, &self.centroids, &self.lists, self.vectors)
    }

    fn search_approx(&self, query: &[R], k: usize, n_probe: usize) -> (r: Vec<Hit<R>>) {
        probe_and_scan_approx(query, k, n_probe, &self.centroids, &self.lists)
    }

    fn memory_bytes(&self) -> (r: usize) {
        centroid_bytes(&self.centroids) + posting_bytes(&self.lists)
    }

    fn spill_overhead(&self) -> (r: usize) {
        self.duplicates
    }
}

} // verus!
