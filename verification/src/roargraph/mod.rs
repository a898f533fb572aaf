//! Graph search for queries from another distribution than the base vectors.
//!
//! `FlatIndex` scans all entries. `KnnGraphIndex` walks a graph of nearest
//! neighbours. `RoarGraphIndex` walks the same graph with edges added between
//! entries that are near one query of a workload sample.

pub mod augmented;
pub mod augmented_laws;
pub mod baseline;
pub mod construct;
pub mod dataset;
pub mod distance;
pub mod error;
pub mod graph;
pub mod knn;
pub mod samples;

use vstd::layout::size_of;
use vstd::prelude::*;

use crate::beam::{node_of, slot_of};
use crate::bytes::{cells, lemma_cells_take};
use crate::heap::{in_order, lemma_in_order, lemma_in_order_contains, MinHeap, Ranked};
use crate::metric::Distance;
use crate::noise::{top24, upper24, Noise};
use crate::overlap::{count_hits, distinct, hits, keep_distinct};
use crate::scalar::{whole, Scalar};
use crate::sorting::first_n;
use crate::table::copy_row;

pub use crate::linalg::cosine;
pub use crate::roargraph::augmented::RoarGraphIndex;
pub use crate::roargraph::knn::KnnGraphIndex;

verus! {

/// The state that follows `s` in the xorshift64* generator of this module.
pub open spec fn xorshift_step(s: u64) -> u64 {
    let a = s ^ (s << 13);
    let b = a ^ (a >> 7);
    b ^ (b << 17)
}

/// The state after `n` draws.
pub open spec fn xorshift_after(s: u64, n: nat) -> u64
    decreases n,
{
    if n == 0 {
        s
    } else {
        xorshift_step(xorshift_after(s, (n - 1) as nat))
    }
}

/// The draw that belongs to state `s`.
pub open spec fn xorshift_output(s: u64) -> u64 {
    s.wrapping_mul(0x2545_F491_4F6C_DD1D)
}

/// Draw number `i`, counted from 0, of a generator in state `s`.
pub open spec fn xorshift_draw(s: u64, i: nat) -> u64 {
    xorshift_output(xorshift_after(s, i + 1))
}

/// Tiny deterministic generator. Its state is never zero.
pub struct XorShift {
    state: u64,
}

impl View for XorShift {
    type V = u64;

    closed spec fn view(&self) -> u64 {
        self.state
    }
}

/// A step never leads from a non-zero state to zero.
pub proof fn lemma_xorshift_nonzero(s: u64)
    requires
        s != 0,
    ensures
        xorshift_step(s) != 0,
{
    assert(s != 0 ==> {
        let a = s ^ (s << 13);
        let b = a ^ (a >> 7);
        (b ^ (b << 17)) != 0
    }) by (bit_vector);
}

/// The state that a seed stands for.
pub open spec fn xorshift_seeded(seed: u64) -> u64 {
    if seed == 0 {
        0xdead_beef_cafe_babe
    } else {
        seed
    }
}

impl XorShift {
    #[verifier::type_invariant]
    closed spec fn nonzero(&self) -> bool {
        self.state != 0
    }

    /// A generator that starts at `seed`, or at a fixed state where `seed` is 0.
    pub fn new(seed: u64) -> (r: Self)
        ensures
            r@ == xorshift_seeded(seed),
            r@ != 0,
    {
        Self {
            state: if seed == 0 {
                0xdead_beef_cafe_babe
            } else {
                seed
            },
        }
    }

    /// The next 64-bit draw.
    pub fn next_u64(&mut self) -> (r: u64)
        ensures
            final(self)@ == xorshift_step(old(self)@),
            final(self)@ != 0,
            r == xorshift_output(final(self)@),
    {
        proof {
            use_type_invariant(&*self);
            lemma_xorshift_nonzero(self.state);
        }
        let mut x: u64 = self.state;
        x ^= x << 13;
        x ^= x >> 7;
        x ^= x << 17;
        self.state = x;
        x.wrapping_mul(0x2545_F491_4F6C_DD1D)
    }

    /// A uniform draw from [0, 1), as its numerator over 2^24.
    pub fn next_f32(&mut self) -> (r: u32)
        ensures
            final(self)@ == xorshift_step(old(self)@),
            r == top24(xorshift_output(final(self)@)),
            r < 0x100_0000,
    {
        upper24(self.next_u64())
    }

    /// A sample of `noise`, from two uniform draws.
    pub fn next_gauss<R, N: Noise<R>>(&mut self, noise: &N) -> (r: R)
        ensures
            final(self)@ == xorshift_after(old(self)@, 2),
            r == noise.normal_of(
                top24(xorshift_draw(old(self)@, 0)),
                top24(xorshift_draw(old(self)@, 1)),
            ),
    {
        proof {
            reveal_with_fuel(xorshift_after, 3);
        }
        let u1: u32 = self.next_f32();
        let u2: u32 = self.next_f32();
        noise.normal(u1, u2)
    }
}

/// One indexed entry.
pub struct Entry<T> {
    pub id: u32,
    pub vec: Vec<T>,
}

/// A search hit: the number of an entry and the key of its similarity score.
#[derive(Clone, Copy, Debug, PartialEq, Eq, Structural)]
pub struct Hit {
    pub id: u32,
    pub score: u64,
}

/// The vectors of entries.
pub open spec fn vecs<T>(entries: Seq<Entry<T>>) -> Seq<Seq<T>> {
    Seq::new(entries.len(), |i: int| entries[i].vec@)
}

/// The numbers of entries.
pub open spec fn ids<T>(entries: Seq<Entry<T>>) -> Seq<u32> {
    Seq::new(entries.len(), |i: int| entries[i].id)
}

/// The numbers of hits.
pub open spec fn hit_ids(found: Seq<Hit>) -> Seq<u32> {
    Seq::new(found.len(), |i: int| found[i].id)
}

/// Copies entries.
pub fn copy_entries<T: Copy>(entries: &[Entry<T>]) -> (r: Vec<Entry<T>>)
    ensures
        vecs(r@) == vecs(entries@),
        ids(r@) == ids(entries@),
{
    let n: usize = entries.len();
    let mut r: Vec<Entry<T>> = Vec::new();
    let mut i: usize = 0;
    while i < n
        invariant
            i <= n,
            n == entries@.len(),
            r@.len() == i,
            forall|j: int|
                0 <= j < i ==> (#[trigger] r@[j]).id == entries@[j].id && r@[j].vec@
                    == entries@[j].vec@,
        decreases n - i,
    {
        r.push(Entry { id: entries[i].id, vec: copy_row(entries[i].vec.as_slice()) });
        i += 1;
    }
    assert(vecs(r@) =~= vecs(entries@));
    assert(ids(r@) =~= ids(entries@));
    r
}

/// A search backend.
pub trait AnnIndex<T> {
    /// The index is well-formed.
    spec fn ready(&self) -> bool;

    /// What a search for `k` hits returns.
    spec fn found(&self, query: Seq<T>, k: nat) -> Seq<Hit>;

    /// The bytes that the index holds.
    spec fn held(&self) -> nat;

    /// The name of the backend.
    spec fn label(&self) -> Seq<char>;

    /// Returns the top `k` hits by descending score.
    fn search(&self, query: &[T], k: usize) -> (r: Vec<Hit>)
        requires
            self.ready(),
        ensures
            r@ == self.found(query@, k as nat),
    ;

    /// The bytes that the index holds.
    fn memory_bytes(&self) -> (r: usize)
        requires
            self.ready(),
            self.held() <= usize::MAX,
        ensures
            r == self.held(),
    ;

    /// The name of the backend.
    fn name(&self) -> (r: &'static str)
        ensures
            r@ == self.label(),
    ;
}

/// Sum of the lengths of the vectors of entries.
pub(crate) fn count_components<T>(entries: &[Entry<T>]) -> (r: usize)
    requires
        cells(vecs(entries@)) <= usize::MAX,
    ensures
        r == cells(vecs(entries@)),
{
    let n: usize = entries.len();
    let mut r: usize = 0;
    let mut i: usize = 0;
    let ghost all = vecs(entries@);
    while i < n
        invariant
            i <= n,
            n == entries@.len(),
            all == vecs(entries@),
            cells(all) <= usize::MAX,
            r == cells(all.take(i as int)),
        decreases n - i,
    {
        proof {
            lemma_cells_take(all, i + 1);
            assert(all.take(i + 1).drop_last() =~= all.take(i as int));
        }
        r += entries[i].vec.len();
        i += 1;
    }
    assert(all.take(n as int) =~= all);
    r
}

/// An entry by rank: the greater score first, and of equal scores the greater
/// number.
pub open spec fn by_score<T, D: Distance<T>>(metric: D, q: Seq<T>, vec: Seq<T>, id: u32) -> Ranked {
    ((u64::MAX - metric.spec_key(q, vec)) as u64, slot_of(true, id))
}

/// The entries by rank.
pub open spec fn ranks<T, D: Distance<T>>(
    metric: D,
    q: Seq<T>,
    vectors: Seq<Seq<T>>,
    numbers: Seq<u32>,
) -> Seq<Ranked> {
    Seq::new(vectors.len(), |i: int| by_score(metric, q, vectors[i], numbers[i]))
}

/// The hit that a ranked entry is.
pub open spec fn as_hit(x: Ranked) -> Hit {
    Hit { id: node_of(true, x.1), score: (u64::MAX - x.0) as u64 }
}

/// The `k` entries with the greatest scores, the greatest one first; of equal
/// scores the greater number comes first.
pub open spec fn top_hits<T, D: Distance<T>>(
    metric: D,
    q: Seq<T>,
    vectors: Seq<Seq<T>>,
    numbers: Seq<u32>,
    k: nat,
) -> Seq<Hit> {
    first_n(in_order(ranks(metric, q, vectors, numbers).to_multiset()), k).map_values(
        |x: Ranked| as_hit(x),
    )
}

/// The hits of a scan: as many as asked for or all, by descending score, each of
/// them an entry with its score, and no other entry has a greater score.
pub proof fn lemma_top_hits<T, D: Distance<T>>(
    metric: D,
    q: Seq<T>,
    vectors: Seq<Seq<T>>,
    numbers: Seq<u32>,
    k: nat,
)
    requires
        vectors.len() == numbers.len(),
    ensures
        ({
            let r = top_hits(metric, q, vectors, numbers, k);
            &&& r.len() == if k <= vectors.len() {
                k
            } else {
                vectors.len()
            }
            &&& forall|i: int, j: int|
                0 <= i <= j < r.len() ==> (#[trigger] r[i]).score >= (#[trigger] r[j]).score
            &&& forall|i: int|
                0 <= i < r.len() ==> exists|j: int|
                    0 <= j < vectors.len() && (#[trigger] r[i]) == (Hit {
                        id: numbers[j],
                        score: metric.spec_key(q, #[trigger] vectors[j]),
                    })
            &&& forall|i: int, j: int|
                0 <= i < r.len() && 0 <= j < vectors.len() && !r.contains(
                    Hit { id: numbers[j], score: metric.spec_key(q, #[trigger] vectors[j]) },
                ) ==> metric.spec_key(q, vectors[j]) <= (#[trigger] r[i]).score
        }),
{
    let all = ranks(metric, q, vectors, numbers);
    let m = all.to_multiset();
    all.to_multiset_ensures();
    lemma_in_order(m);
    lemma_in_order_contains(m);
    let s = in_order(m);
    let r = top_hits(metric, q, vectors, numbers, k);
    assert(m.len() == vectors.len());
    assert forall|i: int, j: int| 0 <= i <= j < r.len() implies (#[trigger] r[i]).score >= (
    #[trigger] r[j]).score by {
        assert(crate::heap::before(s[i], s[j]));
    }
    assert forall|i: int| 0 <= i < r.len() implies exists|j: int|
        0 <= j < vectors.len() && (#[trigger] r[i]) == (Hit {
            id: numbers[j],
            score: metric.spec_key(q, #[trigger] vectors[j]),
        }) by {
        assert(m.contains(s[i]));
        assert(all.contains(s[i]));
        let j = choose|j: int| 0 <= j < all.len() && all[j] == s[i];
        assert(r[i] == as_hit(all[j]));
        assert(vectors[j] == vectors[j]);
    }
    assert forall|i: int, j: int|
        0 <= i < r.len() && 0 <= j < vectors.len() && !r.contains(
            Hit { id: numbers[j], score: metric.spec_key(q, #[trigger] vectors[j]) },
        ) implies metric.spec_key(q, vectors[j]) <= (#[trigger] r[i]).score by {
        assert(all.contains(all[j]));
        assert(m.contains(all[j]));
        assert(s.contains(all[j]));
        let x = choose|x: int| 0 <= x < s.len() && s[x] == all[j];
        if x < r.len() {
            assert(r[x] == as_hit(all[j]));
        }
        assert(crate::heap::before(s[i], s[x]));
    }
}

/// If no two entries have one number, no number is reported twice.
pub proof fn lemma_top_hits_distinct<T, D: Distance<T>>(
    metric: D,
    q: Seq<T>,
    vectors: Seq<Seq<T>>,
    numbers: Seq<u32>,
    k: nat,
)
    requires
        vectors.len() == numbers.len(),
        numbers.no_duplicates(),
    ensures
        hit_ids(top_hits(metric, q, vectors, numbers, k)).no_duplicates(),
{
    let all = ranks(metric, q, vectors, numbers);
    let m = all.to_multiset();
    let s = in_order(m);
    let r = top_hits(metric, q, vectors, numbers, k);
    let list = hit_ids(r);
    lemma_in_order(m);
    lemma_in_order_contains(m);
    all.to_multiset_ensures();
    assert(all.no_duplicates()) by {
        assert forall|i: int, j: int| 0 <= i < all.len() && 0 <= j < all.len() && i != j implies
            all[i] != all[j] by {
            assert(numbers[i] != numbers[j]);
        }
    }
    all.lemma_multiset_has_no_duplicates();
    s.lemma_multiset_has_no_duplicates_conv();
    assert forall|i: int, j: int| 0 <= i < list.len() && 0 <= j < list.len() && i != j implies
        list[i] != list[j] by {
        assert(s[i] != s[j]);
        assert(m.contains(s[i]) && m.contains(s[j]));
        assert(all.contains(s[i]) && all.contains(s[j]));
        let x = choose|x: int| 0 <= x < all.len() && all[x] == s[i];
        let y = choose|y: int| 0 <= y < all.len() && all[y] == s[j];
        assert(list[i] == numbers[x] && list[j] == numbers[y]);
    }
}

/// Exact scan over all entries.
pub struct FlatIndex<T, D> {
    entries: Vec<Entry<T>>,
    metric: D,
}

impl<T: Copy, D: Distance<T>> FlatIndex<T, D> {
    /// The vectors of the entries.
    pub closed spec fn vectors(&self) -> Seq<Seq<T>> {
        vecs(self.entries@)
    }

    /// The numbers of the entries.
    pub closed spec fn numbers(&self) -> Seq<u32> {
        ids(self.entries@)
    }

    /// The similarity.
    pub closed spec fn similarity(&self) -> D {
        self.metric
    }

    /// Copies the entries into an index.
    pub fn build(entries: &[Entry<T>], metric: D) -> (r: Self)
        ensures
            r.vectors() == vecs(entries@),
            r.numbers() == ids(entries@),
            r.similarity() == metric,
    {
        Self { entries: copy_entries(entries), metric }
    }
}

impl<T: Copy, D: Distance<T>> AnnIndex<T> for FlatIndex<T, D> {
    open spec fn ready(&self) -> bool {
        true
    }

    open spec fn found(&self, query: Seq<T>, k: nat) -> Seq<Hit> {
        top_hits(self.similarity(), query, self.vectors(), self.numbers(), k)
    }

    open spec fn held(&self) -> nat {
        self.vectors().len() * size_of::<Entry<T>>() + 4 * cells(self.vectors())
    }

    open spec fn label(&self) -> Seq<char> {
        "FlatIndex"@
    }

    fn search(&self, query: &[T], k: usize) -> (r: Vec<Hit>) {
        let ghost all = ranks(self.metric, query@, self.vectors(), self.numbers());
        let n: usize = self.entries.len();
        let mut heap = MinHeap::new();
        let mut i: usize = 0;
        proof {
            assert(all.take(0) =~= Seq::empty());
            Seq::<Ranked>::empty().to_multiset_ensures();
            assert(Seq::<Ranked>::empty().to_multiset() =~= vstd::multiset::Multiset::empty());
        }
        while i < n
            invariant
                i <= n,
                n == self.entries@.len(),
                all == ranks(self.metric, query@, self.vectors(), self.numbers()),
                all.len() == n,
                heap@ == all.take(i as int).to_multiset(),
            decreases n - i,
        {
            let e: &Entry<T> = &self.entries[i];
            let key: u64 = self.metric.key(query, e.vec.as_slice());
            proof {
                all.take(i as int).to_multiset_ensures();
                assert(all.take(i + 1) =~= all.take(i as int).push(all[i as int]));
            }
            heap.push((u64::MAX - key, (u32::MAX - e.id) as usize));
            i += 1;
        }
        assert(all.take(n as int) =~= all);
        proof {
            all.to_multiset_ensures();
            lemma_in_order(all.to_multiset());
            lemma_in_order_contains(all.to_multiset());
        }
        let sorted: Vec<Ranked> = heap.into_sorted();
        let count: usize = if k < sorted.len() {
            k
        } else {
            sorted.len()
        };
        let ghost out = self.found(query@, k as nat);
        let mut r: Vec<Hit> = Vec::new();
        let mut j: usize = 0;
        while j < count
            invariant
                j <= count,
                count <= sorted@.len(),
                count == out.len(),
                sorted@ == in_order(all.to_multiset()),
                all == ranks(self.metric, query@, self.vectors(), self.numbers()),
                forall|x: int| 0 <= x < sorted@.len() ==> all.contains(#[trigger] sorted@[x]),
                out == self.found(query@, k as nat),
                r@ =~= out.take(j as int),
            decreases count - j,
        {
            let x: Ranked = sorted[j];
            proof {
                assert(all.contains(sorted@[j as int]));
            }
            r.push(
                Hit { id: (u32::MAX as usize - x.1) as u32, score: u64::MAX - x.0 },
            );
            j += 1;
        }
        assert(out.take(count as int) =~= out);
        r
    }

    fn memory_bytes(&self) -> (r: usize) {
        let each: usize = core::mem::size_of::<Entry<T>>();
        let components: usize = count_components(self.entries.as_slice());
        self.entries.len() * each + components * 4
    }

    fn name(&self) -> (r: &'static str) {
        "FlatIndex"
    }
}

/// Exact top `k` hits for each of the queries.
pub fn ground_truth<T: Copy, D: Distance<T>>(
    base: &[Entry<T>],
    queries: &[Entry<T>],
    k: usize,
    metric: D,
) -> (r: Vec<Vec<Hit>>)
    ensures
        r@.len() == queries@.len(),
        forall|i: int|
            0 <= i < r@.len() ==> (#[trigger] r@[i])@ == top_hits(
                metric,
                queries@[i].vec@,
                vecs(base@),
                ids(base@),
                k as nat,
            ),
{
    let flat = FlatIndex::build(base, metric);
    let n: usize = queries.len();
    let mut r: Vec<Vec<Hit>> = Vec::new();
    let mut i: usize = 0;
    while i < n
        invariant
            i <= n,
            n == queries@.len(),
            flat.vectors() == vecs(base@),
            flat.numbers() == ids(base@),
            flat.similarity() == metric,
            r@.len() == i,
            forall|i: int|
                0 <= i < r@.len() ==> (#[trigger] r@[i])@ == top_hits(
                    metric,
                    queries@[i].vec@,
                    vecs(base@),
                    ids(base@),
                    k as nat,
                ),
        decreases n - i,
    {
        r.push(flat.search(queries[i].vec.as_slice(), k));
        i += 1;
    }
    r
}

fn collect_ids(found: &[Hit]) -> (r: Vec<usize>)
    ensures
        r@ == wide_ids(found@),
{
    let n: usize = found.len();
    let mut r: Vec<usize> = Vec::new();
    let mut i: usize = 0;
    while i < n
        invariant
            i <= n,
            n == found@.len(),
            r@ =~= wide_ids(found@).take(i as int),
        decreases n - i,
    {
        r.push(found[i].id as usize);
        i += 1;
    }
    assert(wide_ids(found@).take(n as int) =~= wide_ids(found@));
    r
}

/// The numbers of hits.
pub open spec fn wide_ids(found: Seq<Hit>) -> Seq<usize> {
    Seq::new(found.len(), |i: int| found[i].id as usize)
}

/// The number of different numbers in `got` that are in `gold`, over the number of
/// different numbers in `gold`; one where `gold` is empty.
pub open spec fn recall_of<R: Scalar>(got: Seq<Hit>, gold: Seq<Hit>) -> R {
    if gold.len() == 0 {
        whole::<R>(1)
    } else {
        whole::<R>(hits(distinct(wide_ids(got)), wide_ids(gold)) as u64).over_of(
            whole::<R>(distinct(wide_ids(gold)).len() as u64),
        )
    }
}

/// The number of different numbers in `got` that are in `gold`, over the number of
/// different numbers in `gold`; one where `gold` is empty.
pub fn recall_at_k<R: Scalar>(got: &[Hit], gold: &[Hit]) -> (r: R)
    ensures
        r == recall_of::<R>(got@, gold@),
{
    if gold.len() == 0 {
        return R::ratio(1, 1);
    }
    let gold_ids = collect_ids(gold);
    let got_ids = keep_distinct(collect_ids(got).as_slice());
    let hit: usize = count_hits(got_ids.as_slice(), gold_ids.as_slice());
    let different = keep_distinct(gold_ids.as_slice());
    R::ratio(hit as u64, 1).over(R::ratio(different.len() as u64, 1))
}

/// Component `at` of a dataset: a sample from the draws behind the first
/// `2 * at`, shifted up or down.
pub open spec fn component<R: Scalar, N: Noise<R>>(
    noise: N,
    s: u64,
    at: nat,
    shift: R,
    up: bool,
) -> R {
    let z = noise.normal_of(
        top24(xorshift_draw(s, 2 * at)),
        top24(xorshift_draw(s, 2 * at + 1)),
    );
    if up {
        z.plus_of(shift)
    } else {
        z.minus_of(shift)
    }
}

/// Draws behind the first `n` are those of the state after `n` draws.
pub proof fn lemma_xorshift_after(s: u64, n: nat, i: nat)
    ensures
        xorshift_after(xorshift_after(s, n), i) == xorshift_after(s, n + i),
    decreases i,
{
    if i > 0 {
        lemma_xorshift_after(s, n, (i - 1) as nat);
    }
}

/// Vectors `first` to `first + count` of a dataset.
pub open spec fn generated<R: Scalar, N: Noise<R>>(
    noise: N,
    s: u64,
    first: nat,
    count: nat,
    dim: nat,
    shift: R,
    up: bool,
) -> Seq<Seq<R>> {
    Seq::new(
        count,
        |i: int|
            Seq::new(
                dim,
                |d: int| component(noise, s, ((first + i) * dim + d) as nat, shift, up),
            ),
    )
}

fn gen_entries<R: Scalar, N: Noise<R>>(
    rng: &mut XorShift,
    noise: &N,
    count: usize,
    dim: usize,
    shift: R,
    up: bool,
    Ghost(s): Ghost<u64>,
    Ghost(first): Ghost<nat>,
) -> (r: Vec<Entry<R>>)
    requires
        count <= 0x1_0000_0000,
        old(rng)@ == xorshift_after(s, 2 * (first * dim) as nat),
    ensures
        vecs(r@) == generated(*noise, s, first, count as nat, dim as nat, shift, up),
        ids(r@) == Seq::new(count as nat, |i: int| i as u32),
        final(rng)@ == xorshift_after(s, 2 * ((first + count) * dim) as nat),
{
    let ghost all = generated(*noise, s, first, count as nat, dim as nat, shift, up);
    let mut r: Vec<Entry<R>> = Vec::new();
    let mut i: usize = 0;
    while i < count
        invariant
            i <= count,
            count <= 0x1_0000_0000,
            all == generated(*noise, s, first, count as nat, dim as nat, shift, up),
            rng@ == xorshift_after(s, 2 * ((first + i) * dim) as nat),
            r@.len() == i,
            forall|j: int|
                0 <= j < i ==> (#[trigger] r@[j]).vec@ == all[j] && r@[j].id == j as u32,
        decreases count - i,
    {
        let mut v: Vec<R> = Vec::new();
        let mut d: usize = 0;
        while d < dim
            invariant
                d <= dim,
                i < count,
                all == generated(*noise, s, first, count as nat, dim as nat, shift, up),
                rng@ == xorshift_after(s, 2 * ((first + i) * dim + d) as nat),
                v@ =~= all[i as int].take(d as int),
            decreases dim - d,
        {
            let ghost at = ((first + i) * dim + d) as nat;
            proof {
                lemma_xorshift_after(s, 2 * at, 1);
                lemma_xorshift_after(s, 2 * at, 2);
            }
            let z = rng.next_gauss(noise);
            let x = if up {
                z.plus(shift)
            } else {
                z.minus(shift)
            };
            assert(x == component(*noise, s, at, shift, up));
            v.push(x);
            d += 1;
        }
        proof {
            assert(all[i as int].take(dim as int) =~= all[i as int]);
            assert((first + i + 1) * dim == (first + i) * dim + dim) by (nonlinear_arith);
        }
        r.push(Entry { id: i as u32, vec: v });
        i += 1;
    }
    assert(vecs(r@) =~= all);
    assert(ids(r@) =~= Seq::new(count as nat, |i: int| i as u32));
    r
}

/// Generates base vectors shifted up and query vectors shifted down.
pub fn gen_dataset<R: Scalar, N: Noise<R>>(
    n_base: usize,
    n_query: usize,
    dim: usize,
    base_shift: R,
    query_shift: R,
    seed: u64,
    noise: &N,
) -> (r: (Vec<Entry<R>>, Vec<Entry<R>>))
    requires
        n_base <= 0x1_0000_0000,
        n_query <= 0x1_0000_0000,
    ensures
        vecs(r.0@) == generated(
            *noise,
            xorshift_seeded(seed),
            0,
            n_base as nat,
            dim as nat,
            base_shift,
            true,
        ),
        ids(r.0@) == Seq::new(n_base as nat, |i: int| i as u32),
        vecs(r.1@) == generated(
            *noise,
            xorshift_seeded(seed),
            n_base as nat,
            n_query as nat,
            dim as nat,
            query_shift,
            false,
        ),
        ids(r.1@) == Seq::new(n_query as nat, |i: int| i as u32),
{
    let mut rng = XorShift::new(seed);
    let ghost s = rng@;
    assert(0 * dim == 0);
    let base = gen_entries(
        &mut rng,
        noise,
        n_base,
        dim,
        base_shift,
        true,
        Ghost(s),
        Ghost(0),
    );
    let queries = gen_entries(
        &mut rng,
        noise,
        n_query,
        dim,
        query_shift,
        false,
        Ghost(s),
        Ghost(n_base as nat),
    );
    (base, queries)
}

} // verus!
