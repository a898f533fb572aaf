//! Reverse-neighbour verified retrieval.
//!
//! A first search returns candidates for a query. The verifier keeps those
//! candidates whose own neighbourhood the query lies in.

pub mod acceptance_laws;
pub mod dataset;
pub mod evaluate;
pub mod verify;

use vstd::prelude::*;
use vstd::slice::slice_subrange;

use crate::linalg::sq_l2_of;
use crate::rknn_verified::verify::lemma_scan_distinct;
use crate::scalar::{less, toward_zero, whole, Fixed, Scalar};
use crate::sorting::{
    ascending, indexed, insert_top, lemma_stable_sort, lemma_stable_sort_positions, lemma_top_k,
    lemma_top_k_push, select_top_k, stable_sort, top_k,
};
use crate::spaces::{payloads, take_payloads};
use crate::table::rows;

pub use crate::linalg::sq_l2;
pub use crate::rknn_verified::verify::{RknnVerifier, VerifyMode};

verus! {

/// A hit: the number of a vector, and its distance.
pub type Found<R> = (usize, R);

/// Hits with the keys of their distances.
pub open spec fn keyed<R: Scalar>(found: Seq<Found<R>>) -> Seq<(u64, Found<R>)> {
    Seq::new(found.len(), |i: int| (found[i].1.key_of(), found[i]))
}

/// Every vector as a hit for `q`.
pub open spec fn scan<R: Scalar>(q: Seq<R>, points: Seq<Seq<R>>) -> Seq<Found<R>> {
    Seq::new(points.len(), |i: int| (i as usize, sq_l2_of(q, points[i])))
}

/// The `k` vectors nearest to `q`, the nearest one first; of vectors at one
/// distance the earlier one comes first.
pub open spec fn nearest_found<R: Scalar>(q: Seq<R>, points: Seq<Seq<R>>, k: nat) -> Seq<Found<R>> {
    payloads(top_k(keyed(scan(q, points)), k))
}

/// A search backend.
pub trait NnIndex<R: Scalar> {
    /// The index is well-formed.
    spec fn valid(&self) -> bool;

    /// The vectors.
    spec fn points(&self) -> Seq<Seq<R>>;

    /// The number of components of a vector.
    spec fn width(&self) -> nat;

    /// Whether the index can be asked for `k` hits.
    spec fn answers(&self, k: nat) -> bool;

    /// What a search for `k` hits returns.
    spec fn found(&self, q: Seq<R>, k: nat) -> Seq<Found<R>>;

    /// The number of components of a vector.
    fn dim(&self) -> (r: usize)
        ensures
            r == self.width(),
    ;

    /// The number of vectors.
    fn len(&self) -> (r: usize)
        requires
            self.valid(),
        ensures
            r == self.points().len(),
    ;

    /// A vector.
    fn vector(&self, id: usize) -> (r: &[R])
        requires
            self.valid(),
            id < self.points().len(),
        ensures
            r@ == self.points()[id as int],
    ;

    /// The top `k` hits by ascending distance to `q`.
    fn search(&self, q: &[R], k: usize) -> (r: Vec<Found<R>>)
        requires
            self.valid(),
            self.answers(k as nat),
        ensures
            r@ == self.found(q@, k as nat),
            forall|i: int| 0 <= i < r@.len() ==> (#[trigger] r@[i]).0 < self.points().len(),
    ;
}

/// Exact index that scans all vectors.
pub struct FlatL2Index<R> {
    dim: usize,
    /// The vectors, one behind the other.
    data: Vec<R>,
    n: usize,
}

impl<R: Scalar> FlatL2Index<R> {
    /// An empty index for vectors with `dim` components.
    pub fn new(dim: usize) -> (r: Self)
        ensures
            r.valid(),
            r.width() == dim,
            r.points() == Seq::<Seq<R>>::empty(),
    {
        let r = Self { dim, data: Vec::new(), n: 0 };
        assert(r.points() =~= Seq::empty());
        r
    }

    /// An index of the given vectors.
    pub fn from_rows(dim: usize, vectors: &[Vec<R>]) -> (r: Self)
        requires
            forall|i: int| 0 <= i < vectors@.len() ==> (#[trigger] vectors@[i])@.len() == dim,
        ensures
            r.valid(),
            r.width() == dim,
            r.points() == rows(vectors@),
    {
        let n: usize = vectors.len();
        let mut r = Self::new(dim);
        let mut i: usize = 0;
        while i < n
            invariant
                i <= n,
                n == vectors@.len(),
                forall|i: int| 0 <= i < vectors@.len() ==> (#[trigger] vectors@[i])@.len() == dim,
                r.valid(),
                r.width() == dim,
                r.points() =~= rows(vectors@).take(i as int),
            decreases n - i,
        {
            r.push(vectors[i].as_slice());
            i += 1;
        }
        assert(rows(vectors@).take(n as int) =~= rows(vectors@));
        r
    }

    /// Adds a vector.
    pub fn push(&mut self, v: &[R])
        requires
            old(self).valid(),
            v@.len() == old(self).width(),
            old(self).points().len() < usize::MAX,
        ensures
            final(self).valid(),
            final(self).width() == old(self).width(),
            final(self).points() == old(self).points().push(v@),
    {
        let ghost before = self.data@;
        let ghost n = self.n as nat;
        let ghost dim = self.dim as nat;
        let len: usize = v.len();
        let mut j: usize = 0;
        while j < len
            invariant
                j <= len,
                len == v@.len(),
                self.data@ =~= before + v@.take(j as int),
                self.dim == old(self).dim,
                self.n == old(self).n,
            decreases len - j,
        {
            self.data.push(v[j]);
            j += 1;
        }
        proof {
            assert(v@.take(len as int) =~= v@);
            assert((n + 1) * dim == n * dim + dim) by (nonlinear_arith);
            assert forall|i: int| 0 <= i < n implies #[trigger] row_at(self.data@, dim, i)
                == row_at(before, dim, i) by {
                lemma_row_within(n, dim, i as nat);
                assert(row_at(self.data@, dim, i) =~= row_at(before, dim, i));
            }
            assert(row_at(self.data@, dim, n as int) =~= v@);
        }
        self.n = self.n + 1;
        assert(self.points() =~= old(self).points().push(v@));
    }
}

/// Row `i` of a row-major table.
spec fn row_at<R>(data: Seq<R>, dim: nat, i: int) -> Seq<R> {
    data.subrange(i * dim, i * dim + dim)
}

/// A row that exists ends within the table.
proof fn lemma_row_within(n: nat, dim: nat, i: nat)
    requires
        i < n,
    ensures
        i * dim + dim <= n * dim,
        0 <= i * dim,
{
    assert(i * dim + dim <= n * dim && 0 <= i * dim) by (nonlinear_arith)
        requires
            i + 1 <= n,
    ;
}

impl<R: Scalar> NnIndex<R> for FlatL2Index<R> {
    closed spec fn valid(&self) -> bool {
        self.data@.len() == self.n * self.dim
    }

    closed spec fn points(&self) -> Seq<Seq<R>> {
        Seq::new(
            self.n as nat,
            |i: int| row_at(self.data@, self.dim as nat, i),
        )
    }

    closed spec fn width(&self) -> nat {
        self.dim as nat
    }

    open spec fn answers(&self, k: nat) -> bool {
        k > 0 || self.points().len() == 0
    }

    open spec fn found(&self, q: Seq<R>, k: nat) -> Seq<Found<R>> {
        nearest_found(q, self.points(), k)
    }

    fn dim(&self) -> (r: usize) {
        self.dim
    }

    fn len(&self) -> (r: usize) {
        self.n
    }

    fn vector(&self, id: usize) -> (r: &[R]) {
        proof {
            lemma_row_within(self.n as nat, self.dim as nat, id as nat);
        }
        let total: usize = self.data.len();
        assert(id * self.dim + self.dim <= total);
        let start: usize = id * self.dim;
        slice_subrange(self.data.as_slice(), start, start + self.dim)
    }

    fn search(&self, q: &[R], k: usize) -> (r: Vec<Found<R>>) {
        let ghost all = keyed(scan(q@, self.points()));
        let mut best: Vec<(u64, Found<R>)> = Vec::new();
        let mut id: usize = 0;
        assert(best@ =~= top_k(all.take(0), k as nat));
        while id < self.n
            invariant
                id <= self.n,
                self.valid(),
                all == keyed(scan(q@, self.points())),
                all.len() == self.n,
                best@ == top_k(all.take(id as int), k as nat),
                ascending(best@),
                best@.len() <= k,
            decreases self.n - id,
        {
            let d = sq_l2(q, self.vector(id));
            proof {
                assert(all.take(id + 1) =~= all.take(id as int).push(all[id as int]));
                lemma_top_k_push(all.take(id as int), all[id as int], k as nat);
            }
            insert_top(&mut best, (d.key(), (id, d)), k);
            id += 1;
        }
        assert(all.take(self.n as int) =~= all);
        proof {
            lemma_top_k(all, k as nat);
            assert forall|i: int| 0 <= i < best@.len() implies (#[trigger] best@[i]).1.0 < self.n by {
                assert(all.contains(best@[i]));
            }
        }
        take_payloads(best.as_slice())
    }
}

/// Mixes the bits of a seed and a number.
pub open spec fn scrambled(seed: u64, id: usize) -> u64 {
    let a = seed.wrapping_add((id as u64).wrapping_mul(0x9E37_79B9_7F4A_7C15));
    let b = (a ^ (a >> 33)).wrapping_mul(0xff51_afd7_ed55_8ccd);
    b ^ (b >> 33)
}

/// A distance, changed by up to about a sixth of it in a way that depends on the
/// seed and the number.
pub open spec fn jittered<R: Scalar>(seed: u64, hit: Found<R>) -> Found<R> {
    let share = whole::<R>(scrambled(seed, hit.0) & 0xFFFF).over_of(whole::<R>(65535)).minus_of(
        R::ratio_of(1, 2),
    );
    let jitter = share.times_of(R::ratio_of(35, 100)).times_of(
        hit.1.plus_of(R::ratio_of(1, 1000)),
    );
    (hit.0, hit.1.plus_of(jitter))
}

/// All hits with changed distances.
pub open spec fn jittered_all<R: Scalar>(seed: u64, found: Seq<Found<R>>) -> Seq<Found<R>> {
    Seq::new(found.len(), |i: int| jittered(seed, found[i]))
}

/// The number of exact hits that are ranked anew.
pub open spec fn superset(k: nat, mult: nat, n: nat) -> nat {
    if k * mult <= n {
        k * mult
    } else {
        n
    }
}

/// Changes a distance.
fn jitter<R: Scalar>(seed: u64, hit: Found<R>) -> (r: Found<R>)
    ensures
        r == jittered(seed, hit),
{
    let (id, d) = hit;
    let mut h: u64 = seed.wrapping_add((id as u64).wrapping_mul(0x9E37_79B9_7F4A_7C15));
    h ^= h >> 33;
    h = h.wrapping_mul(0xff51_afd7_ed55_8ccd);
    h ^= h >> 33;
    let share = R::ratio(h & 0xFFFF, 1).over(R::ratio(65535, 1)).minus(R::ratio(1, 2));
    let change = share.times(R::ratio(35, 100)).times(d.plus(R::ratio(1, 1000)));
    (id, d.plus(change))
}

/// An index that ranks the exact hits anew by changed distances. It stands for a
/// backend that sometimes ranks near ties wrongly.
pub struct NoisyAnn<'a, R> {
    inner: &'a FlatL2Index<R>,
    superset_mult: usize,
    seed: u64,
}

impl<'a, R: Scalar> NoisyAnn<'a, R> {
    /// The exact index.
    pub closed spec fn exact(&self) -> FlatL2Index<R> {
        *self.inner
    }

    /// How many times more exact hits are taken than are asked for.
    pub closed spec fn mult(&self) -> nat {
        self.superset_mult as nat
    }

    /// The seed.
    pub closed spec fn start(&self) -> u64 {
        self.seed
    }

    /// An index over the hits of `inner`.
    pub fn new(inner: &'a FlatL2Index<R>, superset_mult: usize, seed: u64) -> (r: Self)
        ensures
            r.exact() == *inner,
            r.mult() == superset_mult,
            r.start() == seed,
    {
        Self { inner, superset_mult, seed }
    }
}

impl<'a, R: Scalar> NnIndex<R> for NoisyAnn<'a, R> {
    open spec fn valid(&self) -> bool {
        self.exact().valid()
    }

    open spec fn points(&self) -> Seq<Seq<R>> {
        self.exact().points()
    }

    open spec fn width(&self) -> nat {
        self.exact().width()
    }

    open spec fn answers(&self, k: nat) -> bool {
        &&& k * self.mult() <= usize::MAX
        &&& self.exact().answers(superset(k, self.mult(), self.points().len()))
    }

    open spec fn found(&self, q: Seq<R>, k: nat) -> Seq<Found<R>> {
        payloads(
            top_k(
                keyed(
                    jittered_all(
                        self.start(),
                        self.exact().found(q, superset(k, self.mult(), self.points().len())),
                    ),
                ),
                k,
            ),
        )
    }

    fn dim(&self) -> (r: usize) {
        self.inner.dim()
    }

    fn len(&self) -> (r: usize) {
        self.inner.len()
    }

    fn vector(&self, id: usize) -> (r: &[R]) {
        self.inner.vector(id)
    }

    fn search(&self, q: &[R], k: usize) -> (r: Vec<Found<R>>) {
        let wanted: usize = k * self.superset_mult;
        let super_k: usize = if wanted <= self.inner.len() {
            wanted
        } else {
            self.inner.len()
        };
        let exact = self.inner.search(q, super_k);
        let n: usize = exact.len();
        let ghost changed = jittered_all(self.seed, exact@);
        let ghost all = keyed(changed);
        let mut pairs: Vec<(u64, Found<R>)> = Vec::new();
        let mut i: usize = 0;
        while i < n
            invariant
                i <= n,
                n == exact@.len(),
                changed == jittered_all(self.seed, exact@),
                all == keyed(changed),
                pairs@ =~= all.take(i as int),
            decreases n - i,
        {
            let hit = jitter(self.seed, exact[i]);
            pairs.push((hit.1.key(), hit));
            i += 1;
        }
        assert(all.take(n as int) =~= all);
        let top = select_top_k(pairs.as_slice(), k);
        proof {
            lemma_top_k(all, k as nat);
            assert forall|i: int| 0 <= i < top@.len() implies (#[trigger] top@[i]).1.0
                < self.points().len() by {
                assert(all.contains(top@[i]));
                let j = choose|j: int| 0 <= j < all.len() && all[j] == top@[i];
                assert(exact@[j].0 == top@[i].1.0);
            }
        }
        take_payloads(top.as_slice())
    }
}

/// Some hit has number `id`.
pub open spec fn holds_number<R>(found: Seq<Found<R>>, id: usize) -> bool {
    exists|j: int| 0 <= j < found.len() && (#[trigger] found[j]).0 == id
}

/// A noisy search returns no more than `k` hits, and each of them is among the
/// exact hits that it ranks anew.
pub proof fn lemma_noisy_within_superset<R: Scalar>(index: NoisyAnn<'_, R>, q: Seq<R>, k: nat)
    ensures
        index.found(q, k).len() <= k,
        forall|i: int|
            0 <= i < index.found(q, k).len() ==> holds_number(
                index.exact().found(q, superset(k, index.mult(), index.points().len())),
                (#[trigger] index.found(q, k)[i]).0,
            ),
{
    let exact = index.exact().found(q, superset(k, index.mult(), index.points().len()));
    let all = keyed(jittered_all(index.start(), exact));
    lemma_top_k(all, k);
    let top = top_k(all, k);
    assert forall|i: int| 0 <= i < index.found(q, k).len() implies holds_number(
        exact,
        (#[trigger] index.found(q, k)[i]).0,
    ) by {
        assert(all.contains(top[i]));
        let j = choose|j: int| 0 <= j < all.len() && all[j] == top[i];
        assert(exact[j].0 == index.found(q, k)[i].0);
    }
}

/// A noisy search returns `k` hits, or all vectors where there are fewer. Each
/// vector comes once, and the hits come by ascending changed distance.
pub proof fn lemma_noisy_hits<R: Scalar>(index: NoisyAnn<'_, R>, q: Seq<R>, k: nat)
    requires
        index.mult() >= 1,
        index.points().len() <= usize::MAX,
    ensures
        ({
            let r = index.found(q, k);
            let exact = index.exact().found(q, superset(k, index.mult(), index.points().len()));
            &&& r.len() == if k <= index.points().len() {
                k
            } else {
                index.points().len()
            }
            &&& forall|i: int, j: int|
                0 <= i < j < r.len() ==> (#[trigger] r[i]).0 != (#[trigger] r[j]).0
            &&& forall|i: int, j: int|
                0 <= i <= j < r.len() ==> (#[trigger] r[i]).1.key_of() <= (#[trigger] r[j]).1.key_of()
            &&& forall|i: int|
                0 <= i < r.len() ==> jittered_all(index.start(), exact).contains(#[trigger] r[i])
        }),
{
    let n = index.points().len();
    let wide = superset(k, index.mult(), n);
    let exact = index.exact().found(q, wide);
    let changed = jittered_all(index.start(), exact);
    let all = keyed(changed);
    let r = index.found(q, k);
    let top = top_k(all, k);
    lemma_scan_distinct(q, index.points(), wide);
    lemma_top_k(all, k);
    lemma_stable_sort(all);
    lemma_stable_sort_positions(all);
    let sorted = stable_sort(all);
    let pos = stable_sort(indexed(all));
    assert(k * index.mult() >= k) by (nonlinear_arith)
        requires
            index.mult() >= 1,
            k >= 0,
    ;
    assert forall|i: int, j: int| 0 <= i < j < r.len() implies (#[trigger] r[i]).0 != (
    #[trigger] r[j]).0 by {
        assert(sorted[i] == all[pos[i].1 as int]);
        assert(sorted[j] == all[pos[j].1 as int]);
        assert(pos[i].1 != pos[j].1);
        assert(exact[pos[i].1 as int].0 != exact[pos[j].1 as int].0);
    }
    assert forall|i: int| 0 <= i < r.len() implies changed.contains(#[trigger] r[i]) && top[i].0
        == r[i].1.key_of() by {
        assert(all.contains(top[i]));
        let j = choose|j: int| 0 <= j < all.len() && all[j] == top[i];
        assert(changed[j] == r[i]);
    }
    assert forall|i: int, j: int| 0 <= i <= j < r.len() implies (#[trigger] r[i]).1.key_of() <= (
    #[trigger] r[j]).1.key_of() by {
        assert(top[i].0 <= top[j].0);
    }
}

/// The share of a distance that a number up to 65535 stands for, between minus one
/// half and one half.
pub open spec fn share_of<R: Scalar>(x: R) -> R {
    x.over_of(whole::<R>(65535)).minus_of(R::ratio_of(1, 2))
}

/// A distance, changed by a share of 0.35 times the sum of it and a thousandth.
pub open spec fn moved<R: Scalar>(d: R, share: R) -> R {
    d.plus_of(share.times_of(R::ratio_of(35, 100)).times_of(d.plus_of(R::ratio_of(1, 1000))))
}

/// `f` keeps the order of the values from `lo` to `hi`.
pub open spec fn keeps_order<R: Scalar>(f: spec_fn(R) -> R, lo: R, hi: R) -> bool {
    forall|a: R, b: R|
        lo.key_of() <= a.key_of() <= b.key_of() <= hi.key_of() ==> #[trigger] f(a).key_of()
            <= #[trigger] f(b).key_of()
}

/// On the values that a change of `d` takes, the arithmetic keeps the order.
pub open spec fn steady<R: Scalar>(d: R) -> bool {
    &&& forall|h: u64|
        h <= 0xFFFF ==> whole::<R>(0).key_of() <= (#[trigger] whole::<R>(h)).key_of() <= whole::<R>(
            0xFFFF,
        ).key_of()
    &&& keeps_order(|x: R| share_of(x), whole::<R>(0), whole::<R>(0xFFFF))
    &&& keeps_order(
        |x: R| moved(d, x),
        share_of(whole::<R>(0)),
        share_of(whole::<R>(0xFFFF)),
    )
}

/// A distance changes no further than the shares of minus one half and of one half
/// take it, that is by 0.175 times the sum of it and a thousandth as the arithmetic
/// rounds it, where the arithmetic keeps the order.
pub proof fn lemma_jitter_between<R: Scalar>(seed: u64, hit: Found<R>)
    requires
        steady(hit.1),
    ensures
        !less(jittered(seed, hit).1, moved(hit.1, share_of(whole::<R>(0)))),
        !less(moved(hit.1, share_of(whole::<R>(0xFFFF))), jittered(seed, hit).1),
{
    let mixed = scrambled(seed, hit.0);
    let h = mixed & 0xFFFF;
    assert(mixed & 0xFFFF <= 0xFFFF) by (bit_vector);
    let d = hit.1;
    let share = |x: R| share_of(x);
    let change = |x: R| moved(d, x);
    let (low, at, high) = (whole::<R>(0), whole::<R>(h), whole::<R>(0xFFFF));
    assert(low.key_of() <= at.key_of() <= high.key_of());
    assert(share(low).key_of() <= share(at).key_of());
    assert(share(at).key_of() <= share(high).key_of());
    assert(change(share_of(low)).key_of() <= change(share_of(at)).key_of());
    assert(change(share_of(at)).key_of() <= change(share_of(high)).key_of());
    assert(jittered(seed, hit).1 == moved(d, share_of(at)));
}

proof fn lemma_toward_zero(a: int, b: int, c: int)
    requires
        a <= b,
        c > 0,
    ensures
        toward_zero(a, c) <= toward_zero(b, c),
{
    if 0 <= a {
        vstd::arithmetic::div_mod::lemma_div_is_ordered(a, b, c);
    } else if b < 0 {
        vstd::arithmetic::div_mod::lemma_div_is_ordered(-b, -a, c);
    } else {
        assert(b / c >= 0) by (nonlinear_arith)
            requires
                b >= 0,
                c > 0,
        ;
        assert((-a) / c >= 0) by (nonlinear_arith)
            requires
                a < 0,
                c > 0,
        ;
    }
}

/// Fixed-point arithmetic is steady on distances up to 2^46.
pub proof fn lemma_fixed_steady(d: Fixed)
    requires
        0 <= d.raw <= 0x4000_0000_0000_0000,
    ensures
        steady(d),
{
    let low = whole::<Fixed>(0);
    let high = whole::<Fixed>(0xFFFF);
    assert(low.raw == 0 && high.raw == 0xFFFF * 65536);
    assert forall|h: u64| h <= 0xFFFF implies low.key_of() <= (
    #[trigger] whole::<Fixed>(h)).key_of() <= high.key_of() by {
        assert(whole::<Fixed>(h).raw == h * 65536);
    }
    let share = |x: Fixed| share_of(x);
    assert forall|a: Fixed, b: Fixed|
        low.key_of() <= a.key_of() <= b.key_of() <= high.key_of() implies #[trigger] share(
        a,
    ).key_of() <= #[trigger] share(b).key_of() by {
        lemma_fixed_share(a, b);
    }
    assert(keeps_order(share, low, high));
    let change = |x: Fixed| moved(d, x);
    lemma_fixed_share(low, low);
    lemma_fixed_share(high, high);
    assert forall|a: Fixed, b: Fixed|
        share_of(low).key_of() <= a.key_of() <= b.key_of() <= share_of(
            high,
        ).key_of() implies #[trigger] change(a).key_of() <= #[trigger] change(b).key_of() by {
        lemma_fixed_moved(d, a, b);
    }
    assert(keeps_order(change, share_of(low), share_of(high)));
}

proof fn lemma_fixed_share(a: Fixed, b: Fixed)
    requires
        0 <= a.raw <= b.raw <= 0xFFFF * 65536,
    ensures
        -32768 <= share_of(a).raw <= share_of(b).raw <= 32768,
{
    let base = whole::<Fixed>(65535);
    assert(base.raw == 65535 * 65536);
    let x = a.raw * 65536;
    let y = b.raw * 65536;
    lemma_toward_zero(0, x, base.raw as int);
    lemma_toward_zero(x, y, base.raw as int);
    lemma_toward_zero(y, 65536 * base.raw, base.raw as int);
    assert(toward_zero(65536 * base.raw, base.raw as int) == 65536);
    assert(toward_zero(0, base.raw as int) == 0);
    assert(Fixed::ratio_of(1, 2).raw == 32768);
}

proof fn lemma_fixed_moved(d: Fixed, a: Fixed, b: Fixed)
    requires
        0 <= d.raw <= 0x4000_0000_0000_0000,
        -32768 <= a.raw <= b.raw <= 32768,
    ensures
        moved(d, a).raw <= moved(d, b).raw,
{
    let part = Fixed::ratio_of(35, 100);
    assert(part.raw == 22937);
    let (p, q) = (a.times_of(part), b.times_of(part));
    lemma_toward_zero(a.raw * 22937, b.raw * 22937, 65536);
    assert(-11468 <= p.raw <= q.raw <= 11468);
    let wide = d.plus_of(Fixed::ratio_of(1, 1000));
    assert(Fixed::ratio_of(1, 1000).raw == 65);
    assert(wide.raw == d.raw + 65);
    let (x, y) = (p.raw * wide.raw, q.raw * wide.raw);
    assert(-11468 * wide.raw <= x <= y <= 11468 * wide.raw) by (nonlinear_arith)
        requires
            x == p.raw * wide.raw,
            y == q.raw * wide.raw,
            -11468 <= p.raw <= q.raw <= 11468,
            wide.raw >= 0,
    ;
    lemma_toward_zero(x, y, 65536);
    let (u, v) = (p.times_of(wide), q.times_of(wide));
    assert(u.raw == toward_zero(x, 65536) && v.raw == toward_zero(y, 65536));
    assert(-wide.raw <= u.raw <= v.raw <= wide.raw);
    assert(moved(d, a).raw == d.raw + u.raw);
    assert(moved(d, b).raw == d.raw + v.raw);
}

/// In fixed-point arithmetic a distance changes by no more than 0.175 times the
/// sum of it and a thousandth.
pub proof fn lemma_jitter_bound(seed: u64, hit: Found<Fixed>)
    requires
        0 <= hit.1.raw <= 0x4000_0000_0000_0000,
    ensures
        ({
            let change = jittered(seed, hit).1.raw - hit.1.raw;
            let limit = 175 * (hit.1.raw + Fixed::ratio_of(1, 1000).raw);
            -limit <= 1000 * change <= limit
        }),
{
    let h = scrambled(seed, hit.0) & 0xFFFF;
    let mixed = scrambled(seed, hit.0);
    assert(mixed & 0xFFFF <= 0xFFFF) by (bit_vector);
    let one = 65536int;
    let top = whole::<Fixed>(h);
    let base = whole::<Fixed>(65535);
    assert(top.raw == h * one);
    assert(base.raw == 65535 * one);
    let quotient = top.over_of(base);
    assert(0 <= h * one * one / (65535 * one) <= one) by (nonlinear_arith)
        requires
            0 <= h <= 65535,
            one == 65536,
    ;
    assert(0 <= quotient.raw <= one);
    let half = Fixed::ratio_of(1, 2);
    assert(half.raw == 32768);
    let share = quotient.minus_of(half);
    assert(-32768 <= share.raw <= 32768);
    let part = Fixed::ratio_of(35, 100);
    assert(part.raw == 22937);
    let small = share.times_of(part);
    assert(-11468 <= small.raw <= 11468);
    let tick = Fixed::ratio_of(1, 1000);
    assert(tick.raw == 65);
    let wide = hit.1.plus_of(tick);
    assert(wide.raw == hit.1.raw + 65);
    let change = small.times_of(wide);
    let product = small.raw * wide.raw;
    assert(-11468 * wide.raw <= product <= 11468 * wide.raw) by (nonlinear_arith)
        requires
            product == small.raw * wide.raw,
            -11468 <= small.raw <= 11468,
            wide.raw >= 0,
    ;
    assert(-11468 * wide.raw <= change.raw * one <= 11468 * wide.raw);
}

} // verus!
