//! Lloyd's k-means with k-means++ seeding.

use vstd::prelude::*;

use crate::cluster::{
    assign_rows, assigned, centre_of, lemma_member_sum, member_sum, members, scale_down,
    sum_members,
};
use crate::flat::{flatten, lemma_split_rectangular, rectangular, split, Flat, Rows};
use crate::linalg::sq_l2_of;
use crate::rpq::rng::{rng_output, rng_step, Rng};
use crate::scalar::{is_less, less, Scalar, Widen};
use crate::table::{copy_row, rows};

pub use crate::linalg::sq_l2;

verus! {

/// The row that the draw of generator state `s` selects.
pub open spec fn drawn_row(s: u64, n: nat) -> int {
    (rng_output(s) as usize) as int % n as int
}

/// The numerator over 2^24 of the fraction that the draw of generator state `s`
/// stands for.
pub open spec fn drawn_fraction(s: u64) -> u64 {
    rng_output(s) >> 40
}

/// The sum of the first `n` weights.
pub open spec fn weight_upto<R: Scalar + Widen<W>, W: Scalar>(weights: Seq<R>, n: nat) -> W
    decreases n,
{
    if n == 0 {
        W::zero_of()
    } else {
        weight_upto::<R, W>(weights, (n - 1) as nat).plus_of(weights[n - 1].widened())
    }
}

/// The first position from `from` on where the sum of the weights reaches
/// `target`, or the last one where it does not.
pub open spec fn reaching<R: Scalar + Widen<W>, W: Scalar>(
    weights: Seq<R>,
    target: W,
    from: nat,
) -> int
    decreases weights.len() - from,
{
    if from >= weights.len() {
        weights.len() - 1
    } else if !less(weight_upto::<R, W>(weights, from + 1), target) {
        from as int
    } else {
        reaching::<R, W>(weights, target, from + 1)
    }
}

/// The row that is picked as the next centre: by weight, or evenly where the
/// weights are zero.
pub open spec fn picked<R: Scalar + Widen<W>, W: Scalar>(weights: Seq<R>, s: u64) -> int {
    let total = weight_upto::<R, W>(weights, weights.len());
    if less(W::zero_of(), total) {
        reaching::<R, W>(
            weights,
            W::ratio_of(drawn_fraction(s), 0x100_0000).times_of(total),
            0,
        )
    } else {
        drawn_row(s, weights.len())
    }
}

/// The squared distance of each row to the nearest centre, after `centre` was
/// added.
pub open spec fn closer<R: Scalar>(table: Seq<Seq<R>>, weights: Seq<R>, centre: Seq<R>) -> Seq<R> {
    Seq::new(
        weights.len(),
        |i: int|
            if less(sq_l2_of(table[i], centre), weights[i]) {
                sq_l2_of(table[i], centre)
            } else {
                weights[i]
            },
    )
}

/// Seeding in progress: the centres, the squared distance of each row to the
/// nearest of all but the last one, and the state of the generator.
pub ghost struct Seeds<R> {
    pub centres: Seq<Seq<R>>,
    pub weights: Seq<R>,
    pub state: u64,
}

/// The first `c` seeds.
pub open spec fn seeded<R: Scalar + Widen<W>, W: Scalar>(
    table: Seq<Seq<R>>,
    c: nat,
    s: u64,
) -> Seeds<R>
    decreases c,
{
    if c <= 1 {
        Seeds {
            centres: seq![table[drawn_row(rng_step(s), table.len())]],
            weights: Seq::new(table.len(), |i: int| R::infinity_of()),
            state: rng_step(s),
        }
    } else {
        let before = seeded::<R, W>(table, (c - 1) as nat, s);
        let weights = closer(table, before.weights, before.centres.last());
        let state = rng_step(before.state);
        Seeds {
            centres: before.centres.push(table[picked::<R, W>(weights, state)]),
            weights,
            state,
        }
    }
}

/// The first `c` new centres of an iteration, and the state of the generator. A
/// centre without rows moves to a row drawn at random.
pub open spec fn refreshed<R: Scalar>(
    table: Seq<Seq<R>>,
    assign: Seq<usize>,
    dim: nat,
    c: nat,
    s: u64,
) -> (Seq<Seq<R>>, u64)
    decreases c,
{
    if c == 0 {
        (Seq::empty(), s)
    } else {
        let before = refreshed(table, assign, dim, (c - 1) as nat, s);
        if members(assign, (c - 1) as usize, table.len()) == 0 {
            let state = rng_step(before.1);
            (before.0.push(table[drawn_row(state, table.len())]), state)
        } else {
            (before.0.push(centre_of(table, assign, (c - 1) as usize, dim)), before.1)
        }
    }
}

/// The centres after `iters` iterations, and the state of the generator.
pub open spec fn trained<R: Scalar + Widen<W>, W: Scalar>(
    table: Seq<Seq<R>>,
    dim: nat,
    k: nat,
    iters: nat,
    s: u64,
) -> (Seq<Seq<R>>, u64)
    decreases iters,
{
    if iters == 0 {
        let seeds = seeded::<R, W>(table, k, s);
        (seeds.centres, seeds.state)
    } else {
        let before = trained::<R, W>(table, dim, k, (iters - 1) as nat, s);
        refreshed(table, assigned(table, before.0), dim, k, before.1)
    }
}

proof fn lemma_reaching<R: Scalar + Widen<W>, W: Scalar>(weights: Seq<R>, target: W, from: nat)
    requires
        weights.len() > 0,
        from <= weights.len(),
    ensures
        0 <= reaching::<R, W>(weights, target, from) < weights.len(),
    decreases weights.len() - from,
{
    if from < weights.len() {
        lemma_reaching::<R, W>(weights, target, from + 1);
    }
}

/// A picked row exists.
proof fn lemma_picked<R: Scalar + Widen<W>, W: Scalar>(weights: Seq<R>, s: u64)
    requires
        weights.len() > 0,
    ensures
        0 <= picked::<R, W>(weights, s) < weights.len(),
{
    let total = weight_upto::<R, W>(weights, weights.len());
    lemma_reaching::<R, W>(
        weights,
        W::ratio_of(drawn_fraction(s), 0x100_0000).times_of(total),
        0,
    );
}

/// Seeds are rows of the table.
pub proof fn lemma_seeded<R: Scalar + Widen<W>, W: Scalar>(table: Seq<Seq<R>>, c: nat, s: u64)
    requires
        table.len() > 0,
        c >= 1,
    ensures
        seeded::<R, W>(table, c, s).centres.len() == c,
        seeded::<R, W>(table, c, s).weights.len() == table.len(),
        forall|i: int|
            0 <= i < c ==> table.contains(#[trigger] seeded::<R, W>(table, c, s).centres[i]),
    decreases c,
{
    if c == 1 {
        let p = drawn_row(rng_step(s), table.len());
        assert(0 <= p < table.len());
        assert(table.contains(table[p]));
    } else {
        lemma_seeded::<R, W>(table, (c - 1) as nat, s);
        let before = seeded::<R, W>(table, (c - 1) as nat, s);
        let now = seeded::<R, W>(table, c, s);
        lemma_picked::<R, W>(now.weights, now.state);
        let p = picked::<R, W>(now.weights, now.state);
        assert(table.contains(table[p]));
        assert forall|i: int| 0 <= i < c implies table.contains(#[trigger] now.centres[i]) by {
            if i < c - 1 {
                assert(now.centres[i] == before.centres[i]);
            }
        }
    }
}

proof fn lemma_refreshed<R: Scalar>(
    table: Seq<Seq<R>>,
    assign: Seq<usize>,
    dim: nat,
    c: nat,
    s: u64,
)
    requires
        table.len() > 0,
        rectangular(table, dim),
    ensures
        refreshed(table, assign, dim, c, s).0.len() == c,
        rectangular(refreshed(table, assign, dim, c, s).0, dim),
    decreases c,
{
    if c > 0 {
        lemma_refreshed(table, assign, dim, (c - 1) as nat, s);
        lemma_member_sum(table, assign, (c - 1) as usize, dim, table.len());
        let before = refreshed(table, assign, dim, (c - 1) as nat, s);
        let p = drawn_row(rng_step(before.1), table.len());
        assert(0 <= p < table.len());
        assert(table[p].len() == dim);
    }
}

/// Training yields `k` centres with as many components as the rows.
pub proof fn lemma_trained<R: Scalar + Widen<W>, W: Scalar>(
    table: Seq<Seq<R>>,
    dim: nat,
    k: nat,
    iters: nat,
    s: u64,
)
    requires
        table.len() > 0,
        rectangular(table, dim),
        k >= 1,
    ensures
        trained::<R, W>(table, dim, k, iters, s).0.len() == k,
        rectangular(trained::<R, W>(table, dim, k, iters, s).0, dim),
    decreases iters,
{
    if iters == 0 {
        lemma_seeded::<R, W>(table, k, s);
        let seeds = seeded::<R, W>(table, k, s).centres;
        assert forall|i: int| 0 <= i < k implies (#[trigger] seeds[i]).len() == dim by {
            assert(table.contains(seeds[i]));
            let j = choose|j: int| 0 <= j < table.len() && table[j] == seeds[i];
            assert(table[j].len() == dim);
        }
    } else {
        lemma_trained::<R, W>(table, dim, k, (iters - 1) as nat, s);
        let before = trained::<R, W>(table, dim, k, (iters - 1) as nat, s);
        lemma_refreshed(table, assigned(table, before.0), dim, k, before.1);
    }
}

/// Draws a row evenly.
fn draw_row(rng: &mut Rng, n: usize) -> (r: usize)
    requires
        n > 0,
    ensures
        final(rng)@ == rng_step(old(rng)@),
        r == drawn_row(final(rng)@, n as nat),
        r < n,
{
    (rng.next_u64() as usize) % n
}

/// Draws a row by weight, or evenly where the weights are zero.
fn pick_row<R: Scalar + Widen<W>, W: Scalar>(weights: &[R], rng: &mut Rng) -> (r: usize)
    requires
        weights@.len() > 0,
    ensures
        final(rng)@ == rng_step(old(rng)@),
        r == picked::<R, W>(weights@, final(rng)@),
        r < weights@.len(),
{
    let n: usize = weights.len();
    let mut total = W::zero();
    let mut i: usize = 0;
    while i < n
        invariant
            i <= n,
            n == weights@.len(),
            total == weight_upto::<R, W>(weights@, i as nat),
        decreases n - i,
    {
        total = total.plus(weights[i].widen());
        i += 1;
    }
    if !is_less(W::zero(), total) {
        return draw_row(rng, n);
    }
    let target = W::ratio(rng.next_u64() >> 40, 0x100_0000).times(total);
    proof {
        lemma_picked::<R, W>(weights@, rng@);
    }
    let mut acc = W::zero();
    let mut j: usize = 0;
    while j < n
        invariant
            j <= n,
            n == weights@.len(),
            n > 0,
            acc == weight_upto::<R, W>(weights@, j as nat),
            target == W::ratio_of(drawn_fraction(rng@), 0x100_0000).times_of(total),
            total == weight_upto::<R, W>(weights@, n as nat),
            less(W::zero_of(), total),
            reaching::<R, W>(weights@, target, 0) == reaching::<R, W>(weights@, target, j as nat),
            rng@ == rng_step(old(rng)@),
        decreases n - j,
    {
        acc = acc.plus(weights[j].widen());
        if !is_less(acc, target) {
            return j;
        }
        j += 1;
    }
    n - 1
}

/// Trains `k` centres on the rows of `data` with `iters` iterations. Returns
/// them one behind the other.
pub fn kmeans<R: Scalar + Widen<W>, W: Scalar>(
    data: &[R],
    dim: usize,
    k: usize,
    iters: usize,
    rng: &mut Rng,
) -> (r: Vec<R>)
    requires
        dim > 0,
        0 < k <= data@.len() / dim as nat,
    ensures
        r@.len() == k * dim,
        ({
            let out = trained::<R, W>(
                split(data@, dim as nat),
                dim as nat,
                k as nat,
                iters as nat,
                old(rng)@,
            );
            split(r@, dim as nat) == out.0 && final(rng)@ == out.1
        }),
{
    let table = Flat::new(data, dim);
    let n: usize = table.count();
    let ghost all = table.all();
    let ghost d = dim as nat;
    let ghost s = rng@;
    proof {
        lemma_split_rectangular(data@, d);
    }
    let first: usize = draw_row(rng, n);
    let mut centres: Vec<Vec<R>> = Vec::new();
    let mut weights: Vec<R> = Vec::new();
    let mut i: usize = 0;
    while i < n
        invariant
            i <= n,
            weights@.len() == i,
            forall|j: int| 0 <= j < i ==> #[trigger] weights@[j] == R::infinity_of(),
        decreases n - i,
    {
        weights.push(R::infinity());
        i += 1;
    }
    let row = copy_row(table.row(first));
    centres.push(row);
    proof {
        assert(rows(centres@) =~= seeded::<R, W>(all, 1, s).centres);
        assert(weights@ =~= seeded::<R, W>(all, 1, s).weights);
    }
    let mut c: usize = 1;
    while c < k
        invariant
            1 <= c <= k,
            n == all.len(),
            n > 0,
            all == table.all(),
            centres@.len() == c,
            weights@.len() == n,
            rows(centres@) == seeded::<R, W>(all, c as nat, s).centres,
            weights@ == seeded::<R, W>(all, c as nat, s).weights,
            rng@ == seeded::<R, W>(all, c as nat, s).state,
        decreases k - c,
    {
        let ghost before = seeded::<R, W>(all, c as nat, s);
        let ghost prev = centres@[c - 1]@;
        assert(rows(centres@).last() == prev);
        let mut j: usize = 0;
        while j < n
            invariant
                j <= n,
                n == all.len(),
                all == table.all(),
                1 <= c,
                centres@.len() == c,
                prev == centres@[c - 1]@,
                weights@.len() == n,
                before.weights.len() == n,
                forall|x: int|
                    0 <= x < j ==> #[trigger] weights@[x] == closer(all, before.weights, prev)[x],
                forall|x: int| j <= x < n ==> #[trigger] weights@[x] == before.weights[x],
            decreases n - j,
        {
            let dist = sq_l2(table.row(j), centres[c - 1].as_slice());
            if is_less(dist, weights[j]) {
                weights.set(j, dist);
            }
            j += 1;
        }
        assert(weights@ =~= closer(all, before.weights, prev));
        let pick: usize = pick_row::<R, W>(weights.as_slice(), rng);
        let chosen = copy_row(table.row(pick));
        let ghost done = rows(centres@);
        centres.push(chosen);
        proof {
            assert(rows(centres@) =~= done.push(chosen@));
        }
        c += 1;
    }
    let mut t: usize = 0;
    proof {
        lemma_trained::<R, W>(all, d, k as nat, 0, s);
    }
    while t < iters
        invariant
            t <= iters,
            n == all.len(),
            n > 0,
            k > 0,
            d == dim,
            all == table.all(),
            rectangular(all, d),
            centres@.len() == k,
            rows(centres@) == trained::<R, W>(all, d, k as nat, t as nat, s).0,
            rng@ == trained::<R, W>(all, d, k as nat, t as nat, s).1,
        decreases iters - t,
    {
        let assign = assign_rows(&table, centres.as_slice());
        let (sums, counts) = sum_members(&table, assign.as_slice(), k, dim);
        let ghost st = rng@;
        let mut fresh: Vec<Vec<R>> = Vec::new();
        let mut c: usize = 0;
        assert(rows(fresh@) =~= Seq::<Seq<R>>::empty());
        while c < k
            invariant
                c <= k,
                n == all.len(),
                n > 0,
                all == table.all(),
                d == dim,
                sums@.len() == k,
                counts@.len() == k,
                forall|c: int|
                    0 <= c < k ==> (#[trigger] sums@[c])@ == member_sum(
                        all,
                        assign@,
                        c as usize,
                        d,
                        n as nat,
                    ),
                forall|c: int|
                    0 <= c < k ==> #[trigger] counts@[c] == members(assign@, c as usize, n as nat),
                rows(fresh@) == refreshed(all, assign@, d, c as nat, st).0,
                rng@ == refreshed(all, assign@, d, c as nat, st).1,
                fresh@.len() == c,
            decreases k - c,
        {
            let ghost done = rows(fresh@);
            if counts[c] == 0 {
                let at: usize = draw_row(rng, n);
                let row = copy_row(table.row(at));
                fresh.push(row);
                assert(rows(fresh@) =~= done.push(row@));
            } else {
                let mean = scale_down(sums[c].as_slice(), counts[c]);
                fresh.push(mean);
                assert(rows(fresh@) =~= done.push(mean@));
            }
            c += 1;
        }
        centres = fresh;
        t += 1;
    }
    proof {
        lemma_trained::<R, W>(all, d, k as nat, iters as nat, s);
    }
    flatten(centres.as_slice(), dim)
}

} // verus!
