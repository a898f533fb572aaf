//! Lloyd's k-means with k-means++ seeding, from the standard generator.

use vstd::prelude::*;

use crate::cluster::{
    assign_rows, assigned, centre_of, lemma_member_sum, member_sum, members, scale_down,
    sum_members,
};
use crate::flat::{cut, lay_out, lemma_cut_rectangular, rectangular, Cut, Rows};
use crate::linalg::{sq_l2, sq_l2_of};
use crate::random::{draw_below, draw_word, seed_stream, std_below, std_word, Stream};
use crate::scalar::{is_less, less, Scalar};
use crate::table::{copy_row, rows};

verus! {

/// What chance decides for one seed: a row, and a word for a draw by weight.
pub type Choice = (usize, u32);

/// The sum of the first `n` weights.
pub open spec fn weight_upto<R: Scalar>(weights: Seq<R>, n: nat) -> R
    decreases n,
{
    if n == 0 {
        R::zero_of()
    } else {
        weight_upto(weights, (n - 1) as nat).plus_of(weights[n - 1])
    }
}

/// The first position from `from` on where the sum of the weights reaches
/// `target`, or the last one where it does not.
pub open spec fn reaching<R: Scalar>(weights: Seq<R>, target: R, from: nat) -> int
    decreases weights.len() - from,
{
    if from >= weights.len() {
        weights.len() - 1
    } else if !less(weight_upto(weights, from + 1), target) {
        from as int
    } else {
        reaching(weights, target, from + 1)
    }
}

/// The weights are not all zero.
pub open spec fn weighty<R: Scalar>(weights: Seq<R>) -> bool {
    less(R::zero_of(), weight_upto(weights, weights.len()))
}

/// The row that a word selects by weight.
pub open spec fn weighed<R: Scalar>(weights: Seq<R>, word: u32) -> int {
    reaching(
        weights,
        R::ratio_of((word >> 9) as u64, 0x80_0000).times_of(
            weight_upto(weights, weights.len()),
        ),
        0,
    )
}

/// The squared distance of each row to `centre`.
pub open spec fn distances_to<R: Scalar>(table: Seq<Seq<R>>, centre: Seq<R>) -> Seq<R> {
    Seq::new(table.len(), |i: int| sq_l2_of(table[i], centre))
}

/// The squared distance of each row to the nearest centre, after `centre` was
/// added.
pub open spec fn closer<R: Scalar>(table: Seq<Seq<R>>, weights: Seq<R>, centre: Seq<R>) -> Seq<R> {
    Seq::new(
        weights.len(),
        |i: int|
            if less(sq_l2_of(table[i], centre), weights[i]) {
                sq_l2_of(table[i], centre)
            } else {
                weights[i]
            },
    )
}

/// The first `c` seeds, and the squared distance of each row to the nearest of
/// them.
pub open spec fn seeds<R: Scalar>(table: Seq<Seq<R>>, c: nat, choices: Seq<Choice>) -> (
    Seq<Seq<R>>,
    Seq<R>,
)
    decreases c,
{
    if c <= 1 {
        let first = table[choices[0].0 as int];
        (seq![first], distances_to(table, first))
    } else {
        let before = seeds(table, (c - 1) as nat, choices);
        if weighty(before.1) {
            let next = table[weighed(before.1, choices[c - 1].1)];
            (before.0.push(next), closer(table, before.1, next))
        } else {
            (before.0.push(table[choices[c - 1].0 as int]), before.1)
        }
    }
}

/// The new centres of an iteration. A centre without rows moves to the row that
/// `fill` names for it.
pub open spec fn refreshed<R: Scalar>(
    table: Seq<Seq<R>>,
    assign: Seq<usize>,
    dim: nat,
    fill: Seq<usize>,
) -> Seq<Seq<R>> {
    Seq::new(
        fill.len(),
        |c: int|
            if members(assign, c as usize, table.len()) == 0 {
                table[fill[c] as int]
            } else {
                centre_of(table, assign, c as usize, dim)
            },
    )
}

/// The centres after `iters` iterations.
pub open spec fn trained<R: Scalar>(
    table: Seq<Seq<R>>,
    dim: nat,
    k: nat,
    iters: nat,
    choices: Seq<Choice>,
    fills: Seq<Seq<usize>>,
) -> Seq<Seq<R>>
    decreases iters,
{
    if iters == 0 {
        seeds(table, k, choices).0
    } else {
        let before = trained(table, dim, k, (iters - 1) as nat, choices, fills);
        refreshed(table, assigned(table, before), dim, fills[iters - 1])
    }
}

/// Every choice names a row.
pub open spec fn choices_below(choices: Seq<Choice>, n: nat) -> bool {
    forall|i: int| 0 <= i < choices.len() ==> (#[trigger] choices[i]).0 < n
}

/// Every list names a row for each of `k` centres.
pub open spec fn fills_below(fills: Seq<Seq<usize>>, k: nat, n: nat) -> bool {
    forall|t: int|
        0 <= t < fills.len() ==> (#[trigger] fills[t]).len() == k && fill_below(fills[t], n)
}

/// Every entry names a row.
pub open spec fn fill_below(fill: Seq<usize>, n: nat) -> bool {
    forall|c: int| 0 <= c < fill.len() ==> (#[trigger] fill[c]) < n
}

proof fn lemma_reaching<R: Scalar>(weights: Seq<R>, target: R, from: nat)
    requires
        weights.len() > 0,
        from <= weights.len(),
    ensures
        0 <= reaching(weights, target, from) < weights.len(),
    decreases weights.len() - from,
{
    if from < weights.len() {
        lemma_reaching(weights, target, from + 1);
    }
}

/// Seeds are rows of the table.
pub proof fn lemma_seeds<R: Scalar>(table: Seq<Seq<R>>, c: nat, choices: Seq<Choice>)
    requires
        table.len() > 0,
        1 <= c <= choices.len(),
        choices_below(choices, table.len()),
    ensures
        seeds(table, c, choices).0.len() == c,
        seeds(table, c, choices).1.len() == table.len(),
        forall|i: int| 0 <= i < c ==> table.contains(#[trigger] seeds(table, c, choices).0[i]),
    decreases c,
{
    if c == 1 {
        assert(choices[0].0 < table.len());
        assert(table.contains(table[choices[0].0 as int]));
    } else {
        lemma_seeds(table, (c - 1) as nat, choices);
        let before = seeds(table, (c - 1) as nat, choices);
        let now = seeds(table, c, choices);
        lemma_reaching(
            before.1,
            R::ratio_of((choices[c - 1].1 >> 9) as u64, 0x80_0000).times_of(
                weight_upto(before.1, before.1.len()),
            ),
            0,
        );
        let at = weighed(before.1, choices[c - 1].1);
        assert(table.contains(table[at]));
        assert(choices[c - 1].0 < table.len());
        assert(table.contains(table[choices[c - 1].0 as int]));
        assert forall|i: int| 0 <= i < c implies table.contains(#[trigger] now.0[i]) by {
            if i < c - 1 {
                assert(now.0[i] == before.0[i]);
            }
        }
    }
}

/// Training yields `k` centres with as many components as the rows.
pub proof fn lemma_trained<R: Scalar>(
    table: Seq<Seq<R>>,
    dim: nat,
    k: nat,
    iters: nat,
    choices: Seq<Choice>,
    fills: Seq<Seq<usize>>,
)
    requires
        table.len() > 0,
        rectangular(table, dim),
        1 <= k == choices.len(),
        choices_below(choices, table.len()),
        iters <= fills.len(),
        fills_below(fills, k, table.len()),
    ensures
        trained(table, dim, k, iters, choices, fills).len() == k,
        rectangular(trained(table, dim, k, iters, choices, fills), dim),
    decreases iters,
{
    let out = trained(table, dim, k, iters, choices, fills);
    if iters == 0 {
        lemma_seeds(table, k, choices);
        assert forall|i: int| 0 <= i < k implies (#[trigger] out[i]).len() == dim by {
            assert(table.contains(out[i]));
            let j = choose|j: int| 0 <= j < table.len() && table[j] == out[i];
            assert(table[j].len() == dim);
        }
    } else {
        lemma_trained(table, dim, k, (iters - 1) as nat, choices, fills);
        let before = trained(table, dim, k, (iters - 1) as nat, choices, fills);
        let fill = fills[iters - 1];
        assert(fill.len() == k && fill_below(fill, table.len()));
        lemma_refreshed(table, assigned(table, before), dim, fill);
    }
}

proof fn lemma_refreshed<R: Scalar>(
    table: Seq<Seq<R>>,
    assign: Seq<usize>,
    dim: nat,
    fill: Seq<usize>,
)
    requires
        rectangular(table, dim),
        fill_below(fill, table.len()),
    ensures
        rectangular(refreshed(table, assign, dim, fill), dim),
{
    let out = refreshed(table, assign, dim, fill);
    assert forall|c: int| 0 <= c < out.len() implies (#[trigger] out[c]).len() == dim by {
        lemma_member_sum(table, assign, c as usize, dim, table.len());
        assert(fill[c] < table.len());
        assert(table[fill[c] as int].len() == dim);
    }
}

/// Sums the weights up.
fn total_weight<R: Scalar>(weights: &[R]) -> (total: R)
    ensures
        total == weight_upto(weights@, weights@.len()),
{
    let n: usize = weights.len();
    let mut total = R::zero();
    let mut i: usize = 0;
    while i < n
        invariant
            i <= n,
            n == weights@.len(),
            total == weight_upto(weights@, i as nat),
        decreases n - i,
    {
        total = total.plus(weights[i]);
        i += 1;
    }
    total
}

/// Whether a row is drawn by weight, and not evenly.
fn is_weighty<R: Scalar>(weights: &[R]) -> (b: bool)
    ensures
        b == weighty(weights@),
{
    is_less(R::zero(), total_weight(weights))
}

/// Finds the row that a word selects by weight.
fn weigh<R: Scalar>(weights: &[R], word: u32) -> (r: usize)
    requires
        weights@.len() > 0,
    ensures
        r == weighed(weights@, word),
        r < weights@.len(),
{
    let n: usize = weights.len();
    let target = R::ratio((word >> 9) as u64, 0x80_0000).times(total_weight(weights));
    proof {
        lemma_reaching(weights@, target, 0);
    }
    let mut acc = R::zero();
    let mut j: usize = 0;
    while j < n
        invariant
            j <= n,
            n == weights@.len(),
            n > 0,
            acc == weight_upto(weights@, j as nat),
            reaching(weights@, target, 0) == reaching(weights@, target, j as nat),
            weighed(weights@, word) == reaching(weights@, target, 0),
        decreases n - j,
    {
        acc = acc.plus(weights[j]);
        if !is_less(acc, target) {
            return j;
        }
        j += 1;
    }
    n - 1
}

/// Adds a centre, and lowers the distances of the rows that are nearer to it.
fn add_centre<R: Scalar>(
    table: &Cut<'_, R>,
    centres: &mut Vec<Vec<R>>,
    weights: &mut Vec<R>,
    at: usize,
)
    requires
        at < table.all().len(),
        old(weights)@.len() == table.all().len(),
    ensures
        rows(final(centres)@) == rows(old(centres)@).push(table.all()[at as int]),
        final(weights)@ == closer(table.all(), old(weights)@, table.all()[at as int]),
{
    let n: usize = table.count();
    let ghost all = table.all();
    let centre = copy_row(table.row(at));
    let mut i: usize = 0;
    while i < n
        invariant
            i <= n,
            n == all.len(),
            all == table.all(),
            centre@ == all[at as int],
            weights@.len() == n,
            old(weights)@.len() == n,
            forall|x: int|
                0 <= x < i ==> #[trigger] weights@[x] == closer(all, old(weights)@, centre@)[x],
            forall|x: int| i <= x < n ==> #[trigger] weights@[x] == old(weights)@[x],
        decreases n - i,
    {
        let dist = sq_l2(table.row(i), centre.as_slice());
        if is_less(dist, weights[i]) {
            weights.set(i, dist);
        }
        i += 1;
    }
    assert(weights@ =~= closer(all, old(weights)@, centre@));
    centres.push(centre);
    assert(rows(centres@) =~= rows(old(centres)@).push(all[at as int]));
}

/// Starts the seeding with one row.
fn first_centre<R: Scalar>(table: &Cut<'_, R>, at: usize) -> (r: (Vec<Vec<R>>, Vec<R>))
    requires
        at < table.all().len(),
    ensures
        rows(r.0@) == seq![table.all()[at as int]],
        r.1@ == distances_to(table.all(), table.all()[at as int]),
{
    let n: usize = table.count();
    let ghost all = table.all();
    let centre = copy_row(table.row(at));
    let ghost wanted = distances_to(all, centre@);
    let mut weights: Vec<R> = Vec::new();
    let mut i: usize = 0;
    while i < n
        invariant
            i <= n,
            n == all.len(),
            all == table.all(),
            wanted == distances_to(all, centre@),
            weights@ =~= wanted.take(i as int),
        decreases n - i,
    {
        weights.push(sq_l2(table.row(i), centre.as_slice()));
        i += 1;
    }
    assert(wanted.take(n as int) =~= wanted);
    let mut centres: Vec<Vec<R>> = Vec::new();
    centres.push(centre);
    assert(rows(centres@) =~= seq![all[at as int]]);
    (centres, weights)
}

/// Moves every centre to the mean of its rows, or to the row that `fill` names.
fn refresh<R: Scalar>(
    table: &Cut<'_, R>,
    assign: &[usize],
    sums: &Vec<Vec<R>>,
    counts: &Vec<usize>,
    fill: &[usize],
    Ghost(dim): Ghost<nat>,
) -> (r: Vec<Vec<R>>)
    requires
        sums@.len() == fill@.len(),
        counts@.len() == fill@.len(),
        fill_below(fill@, table.all().len()),
        forall|c: int|
            0 <= c < fill@.len() ==> (#[trigger] sums@[c])@ == member_sum(
                table.all(),
                assign@,
                c as usize,
                dim,
                table.all().len(),
            ),
        forall|c: int|
            0 <= c < fill@.len() ==> #[trigger] counts@[c] == members(
                assign@,
                c as usize,
                table.all().len(),
            ),
    ensures
        rows(r@) == refreshed(table.all(), assign@, dim, fill@),
{
    let k: usize = fill.len();
    let ghost all = refreshed(table.all(), assign@, dim, fill@);
    let mut r: Vec<Vec<R>> = Vec::new();
    let mut c: usize = 0;
    while c < k
        invariant
            c <= k,
            k == fill@.len(),
            sums@.len() == k,
            counts@.len() == k,
            fill_below(fill@, table.all().len()),
            all == refreshed(table.all(), assign@, dim, fill@),
            forall|c: int|
                0 <= c < fill@.len() ==> (#[trigger] sums@[c])@ == member_sum(
                    table.all(),
                    assign@,
                    c as usize,
                    dim,
                    table.all().len(),
                ),
            forall|c: int|
                0 <= c < fill@.len() ==> #[trigger] counts@[c] == members(
                    assign@,
                    c as usize,
                    table.all().len(),
                ),
            rows(r@) =~= all.take(c as int),
        decreases k - c,
    {
        let ghost done = rows(r@);
        if counts[c] == 0 {
            let at: usize = fill[c];
            assert(fill@[c as int] < table.all().len());
            let row = copy_row(table.row(at));
            r.push(row);
            assert(rows(r@) =~= done.push(row@));
        } else {
            let mean = scale_down(sums[c].as_slice(), counts[c]);
            r.push(mean);
            assert(rows(r@) =~= done.push(mean@));
        }
        c += 1;
    }
    assert(all.take(k as int) =~= all);
    r
}

/// Trains `k` centres with what chance decides given as arguments: `choices` for
/// the seeds, and for each iteration a row for every centre that loses all its
/// rows.
pub fn kmeans_from<R: Scalar>(
    data: &[R],
    n: usize,
    d: usize,
    k: usize,
    choices: &[Choice],
    fills: &[Vec<usize>],
) -> (r: Vec<R>)
    requires
        data@.len() == n * d,
        1 <= k <= n,
        choices@.len() == k,
        choices_below(choices@, n as nat),
        fills_below(rows(fills@), k as nat, n as nat),
    ensures
        r@.len() == k * d,
        cut(r@, k as nat, d as nat) == trained(
            cut(data@, n as nat, d as nat),
            d as nat,
            k as nat,
            fills@.len(),
            choices@,
            rows(fills@),
        ),
{
    let table = Cut::new(data, n, d);
    let ghost all = table.all();
    let ghost dim = d as nat;
    proof {
        lemma_cut_rectangular(data@, n as nat, dim);
        assert(choices@[0].0 < n);
    }
    let (mut centres, mut weights) = first_centre(&table, choices[0].0);
    let mut c: usize = 1;
    while c < k
        invariant
            1 <= c <= k,
            k == choices@.len(),
            choices_below(choices@, n as nat),
            all == table.all(),
            all.len() == n,
            n > 0,
            weights@.len() == n,
            (rows(centres@), weights@) == seeds(all, c as nat, choices@),
        decreases k - c,
    {
        assert(choices@[c as int].0 < n);
        if is_weighty(weights.as_slice()) {
            let at: usize = weigh(weights.as_slice(), choices[c].1);
            add_centre(&table, &mut centres, &mut weights, at);
        } else {
            let ghost done = rows(centres@);
            let row = copy_row(table.row(choices[c].0));
            centres.push(row);
            assert(rows(centres@) =~= done.push(row@));
        }
        c += 1;
    }
    let iters: usize = fills.len();
    let ghost lists = rows(fills@);
    let mut t: usize = 0;
    while t < iters
        invariant
            t <= iters,
            iters == fills@.len(),
            lists == rows(fills@),
            fills_below(lists, k as nat, n as nat),
            all == table.all(),
            all.len() == n,
            n > 0,
            dim == d,
            rectangular(all, dim),
            1 <= k == choices@.len(),
            choices_below(choices@, n as nat),
            rows(centres@) == trained(all, dim, k as nat, t as nat, choices@, lists),
        decreases iters - t,
    {
        proof {
            lemma_trained(all, dim, k as nat, t as nat, choices@, lists);
            assert(rows(centres@).len() == centres@.len());
            assert(lists[t as int].len() == k && fill_below(lists[t as int], n as nat));
            assert(lists[t as int] == fills@[t as int]@);
        }
        let assign = assign_rows(&table, centres.as_slice());
        let (sums, counts) = sum_members(&table, assign.as_slice(), k, d);
        centres = refresh(
            &table,
            assign.as_slice(),
            &sums,
            &counts,
            fills[t].as_slice(),
            Ghost(dim),
        );
        t += 1;
    }
    proof {
        lemma_trained(all, dim, k as nat, iters as nat, choices@, lists);
        assert(rows(centres@).len() == centres@.len());
    }
    lay_out(centres.as_slice(), d)
}

/// The choices for the first `c` seeds that a generator seeded with `seed` makes,
/// and what was asked of it for them.
pub open spec fn drawn_choices<R: Scalar>(table: Seq<Seq<R>>, c: nat, seed: u64) -> (
    Seq<Choice>,
    Seq<usize>,
)
    decreases c,
{
    let n = table.len() as usize;
    if c <= 1 {
        (seq![(std_below(seed, Seq::empty(), n), 0u32)], seq![n])
    } else {
        let (choices, past) = drawn_choices(table, (c - 1) as nat, seed);
        if weighty(seeds(table, (c - 1) as nat, choices).1) {
            (choices.push((0usize, std_word(seed, past))), past.push(0))
        } else {
            (choices.push((std_below(seed, past, n), 0u32)), past.push(n))
        }
    }
}

/// The rows that a generator draws for those of the first `c` centres that have
/// lost all their rows, and what was asked of it in all.
pub open spec fn drawn_fill(assign: Seq<usize>, n: nat, c: nat, seed: u64, past: Seq<usize>) -> (
    Seq<usize>,
    Seq<usize>,
)
    decreases c,
{
    if c == 0 {
        (Seq::empty(), past)
    } else {
        let (fill, asked) = drawn_fill(assign, n, (c - 1) as nat, seed, past);
        if members(assign, (c - 1) as usize, n) == 0 {
            (fill.push(std_below(seed, asked, n as usize)), asked.push(n as usize))
        } else {
            (fill.push(0), asked)
        }
    }
}

/// The rows that a generator draws in each of the first `iters` iterations, and
/// what was asked of it in all.
pub open spec fn drawn_fills<R: Scalar>(
    table: Seq<Seq<R>>,
    dim: nat,
    k: nat,
    iters: nat,
    seed: u64,
) -> (Seq<Seq<usize>>, Seq<usize>)
    decreases iters,
{
    let (choices, asked) = drawn_choices(table, k, seed);
    if iters == 0 {
        (Seq::empty(), asked)
    } else {
        let (fills, past) = drawn_fills(table, dim, k, (iters - 1) as nat, seed);
        let before = trained(table, dim, k, (iters - 1) as nat, choices, fills);
        let (fill, now) = drawn_fill(assigned(table, before), table.len(), k, seed, past);
        (fills.push(fill), now)
    }
}

/// The centres that training with a generator seeded with `seed` gives.
pub open spec fn trained_with<R: Scalar>(
    table: Seq<Seq<R>>,
    dim: nat,
    k: nat,
    iters: nat,
    seed: u64,
) -> Seq<Seq<R>> {
    trained(
        table,
        dim,
        k,
        iters,
        drawn_choices(table, k, seed).0,
        drawn_fills(table, dim, k, iters, seed).0,
    )
}

/// What the first choices decide does not depend on later ones.
proof fn lemma_seeds_prefix<R: Scalar>(
    table: Seq<Seq<R>>,
    c: nat,
    a: Seq<Choice>,
    b: Seq<Choice>,
)
    requires
        1 <= c <= a.len(),
        c <= b.len(),
        a.take(c as int) == b.take(c as int),
    ensures
        seeds(table, c, a) == seeds(table, c, b),
    decreases c,
{
    assert(a.take(c as int)[c - 1] == b.take(c as int)[c - 1]);
    assert(a.take(c as int)[0] == b.take(c as int)[0]);
    if c > 1 {
        assert(a.take(c - 1) =~= a.take(c as int).take(c - 1));
        assert(b.take(c - 1) =~= b.take(c as int).take(c - 1));
        lemma_seeds_prefix(table, (c - 1) as nat, a, b);
    }
}

/// What the first iterations lead to does not depend on later ones.
proof fn lemma_trained_prefix<R: Scalar>(
    table: Seq<Seq<R>>,
    dim: nat,
    k: nat,
    iters: nat,
    choices: Seq<Choice>,
    a: Seq<Seq<usize>>,
    b: Seq<Seq<usize>>,
)
    requires
        iters <= a.len(),
        iters <= b.len(),
        a.take(iters as int) == b.take(iters as int),
    ensures
        trained(table, dim, k, iters, choices, a) == trained(table, dim, k, iters, choices, b),
    decreases iters,
{
    if iters > 0 {
        assert(a.take(iters as int)[iters - 1] == b.take(iters as int)[iters - 1]);
        assert(a.take(iters - 1) =~= a.take(iters as int).take(iters - 1));
        assert(b.take(iters - 1) =~= b.take(iters as int).take(iters - 1));
        lemma_trained_prefix(table, dim, k, (iters - 1) as nat, choices, a, b);
    }
}

/// Chooses seeds.
fn kmeanspp_seed<R: Scalar>(table: &Cut<'_, R>, k: usize, rng: &mut Stream) -> (r: Vec<Vec<R>>)
    requires
        table.all().len() > 0,
        k >= 1,
        old(rng)@.1 == Seq::<usize>::empty(),
    ensures
        ({
            let (choices, asked) = drawn_choices(table.all(), k as nat, old(rng)@.0);
            &&& choices.len() == k
            &&& choices_below(choices, table.all().len())
            &&& rows(r@) == seeds(table.all(), k as nat, choices).0
            &&& final(rng)@ == (old(rng)@.0, asked)
        }),
{
    let n: usize = table.count();
    let ghost all = table.all();
    let ghost seed = rng@.0;
    let first: usize = draw_below(rng, n);
    let (mut centres, mut weights) = first_centre(table, first);
    let ghost mut choices: Seq<Choice> = seq![(first, 0u32)];
    assert(Seq::<usize>::empty().push(n) =~= seq![n]);
    let mut c: usize = 1;
    while c < k
        invariant
            1 <= c <= k,
            n == all.len(),
            n > 0,
            all == table.all(),
            choices.len() == c,
            choices_below(choices, n as nat),
            weights@.len() == n,
            (rows(centres@), weights@) == seeds(all, c as nat, choices),
            choices == drawn_choices(all, c as nat, seed).0,
            rng@ == (seed, drawn_choices(all, c as nat, seed).1),
        decreases k - c,
    {
        let ghost before = choices;
        if is_weighty(weights.as_slice()) {
            let word: u32 = draw_word(rng);
            let at: usize = weigh(weights.as_slice(), word);
            proof {
                choices = choices.push((0usize, word));
                assert(before.take(c as int) =~= choices.take(c as int));
                lemma_seeds_prefix(all, c as nat, before, choices);
            }
            add_centre(table, &mut centres, &mut weights, at);
        } else {
            let at: usize = draw_below(rng, n);
            proof {
                choices = choices.push((at, 0u32));
                assert(before.take(c as int) =~= choices.take(c as int));
                lemma_seeds_prefix(all, c as nat, before, choices);
            }
            let ghost done = rows(centres@);
            let row = copy_row(table.row(at));
            centres.push(row);
            assert(rows(centres@) =~= done.push(row@));
        }
        c += 1;
    }
    centres
}

/// Trains `k` centres on the `n` rows of `data` with `iters` iterations. Returns
/// them one behind the other. The draws come from the standard generator seeded
/// with `seed`.
pub fn kmeans<R: Scalar>(data: &[R], n: usize, d: usize, k: usize, iters: usize, seed: u64) -> (r:
    Vec<R>)
    requires
        data@.len() == n * d,
        1 <= k <= n,
    ensures
        r@.len() == k * d,
        rectangular(cut(r@, k as nat, d as nat), d as nat),
        cut(r@, k as nat, d as nat) == trained_with(
            cut(data@, n as nat, d as nat),
            d as nat,
            k as nat,
            iters as nat,
            seed,
        ),
{
    let table = Cut::new(data, n, d);
    let ghost all = table.all();
    let ghost dim = d as nat;
    proof {
        lemma_cut_rectangular(data@, n as nat, dim);
    }
    let mut rng = seed_stream(seed);
    let mut centres = kmeanspp_seed(&table, k, &mut rng);
    let ghost choices = drawn_choices(all, k as nat, seed).0;
    let ghost mut fills: Seq<Seq<usize>> = Seq::empty();
    let mut t: usize = 0;
    while t < iters
        invariant
            t <= iters,
            n == all.len(),
            n > 0,
            all == table.all(),
            dim == d,
            rectangular(all, dim),
            1 <= k == choices.len(),
            choices_below(choices, n as nat),
            choices == drawn_choices(all, k as nat, seed).0,
            fills == drawn_fills(all, dim, k as nat, t as nat, seed).0,
            rng@ == (seed, drawn_fills(all, dim, k as nat, t as nat, seed).1),
            fills.len() == t,
            fills_below(fills, k as nat, n as nat),
            rows(centres@) == trained(all, dim, k as nat, t as nat, choices, fills),
        decreases iters - t,
    {
        proof {
            lemma_trained(all, dim, k as nat, t as nat, choices, fills);
            assert(rows(centres@).len() == centres@.len());
        }
        let ghost past = rng@.1;
        let assign = assign_rows(&table, centres.as_slice());
        let (sums, counts) = sum_members(&table, assign.as_slice(), k, d);
        let mut fill: Vec<usize> = Vec::new();
        let mut c: usize = 0;
        while c < k
            invariant
                c <= k,
                n > 0,
                counts@.len() == k,
                fill@.len() == c,
                fill_below(fill@, n as nat),
                forall|c: int|
                    0 <= c < k ==> #[trigger] counts@[c] == members(assign@, c as usize, n as nat),
                fill@ == drawn_fill(assign@, n as nat, c as nat, seed, past).0,
                rng@ == (seed, drawn_fill(assign@, n as nat, c as nat, seed, past).1),
            decreases k - c,
        {
            if counts[c] == 0 {
                fill.push(draw_below(&mut rng, n));
            } else {
                fill.push(0);
            }
            c += 1;
        }
        centres = refresh(&table, assign.as_slice(), &sums, &counts, fill.as_slice(), Ghost(dim));
        proof {
            let before = fills;
            fills = fills.push(fill@);
            assert(before.take(t as int) =~= fills.take(t as int));
            lemma_trained_prefix(all, dim, k as nat, t as nat, choices, before, fills);
        }
        t += 1;
    }
    proof {
        lemma_trained(all, dim, k as nat, iters as nat, choices, fills);
        assert(rows(centres@).len() == centres@.len());
    }
    lay_out(centres.as_slice(), d)
}

} // verus!
