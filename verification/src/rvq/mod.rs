//! Residual vector quantization.
//!
//! A vector is approximated by a sum of centroids, one from each of several
//! codebooks. Each codebook is trained on what the ones before it leave.

pub mod estimate_laws;
pub mod index;
pub mod kmeans;
pub mod kmeans_laws;
pub mod seeding_laws;

use vstd::prelude::*;

use vstd::string::*;

use crate::cluster::{find_nearest_row, lemma_nearest_centre, nearest_centre};
use crate::flat::{cut, lay_out, lemma_cut_ends, lemma_cut_rectangular, rectangular, Cut, Rows};
use crate::linalg::{difference, dot, dot_of, subtract, sum, total, zero_vec, zeros};
use crate::rvq::kmeans::{kmeans, trained_with};
use crate::scalar::{whole, Scalar, Widen};
use crate::table::{copy_into, copy_row, rows};
use crate::text::{two_numbers, with_two_numbers};

pub use crate::rvq::index::{RvqIndex, SearchResult};

verus! {

/// What can go wrong when a quantizer is trained or used.
#[derive(Debug, Clone, Copy, PartialEq, Eq, Structural)]
pub enum RvqError {
    /// A vector or code has another length than the quantizer expects.
    Dim { expected: usize, got: usize },
    /// There is nothing to train on.
    EmptyTraining,
    /// There are fewer vectors than centroids.
    KTooLarge { k: usize, n: usize },
}

impl RvqError {
    /// The message that the error shows.
    pub open spec fn text(self) -> Seq<char> {
        match self {
            RvqError::Dim { expected, got } => two_numbers(
                "dimension mismatch: expected "@,
                expected as nat,
                ", got "@,
                got as nat,
                ""@,
            ),
            RvqError::EmptyTraining => "empty training set"@,
            RvqError::KTooLarge { k, n } => two_numbers(
                "k ("@,
                k as nat,
                ") exceeds training-set size ("@,
                n as nat,
                ")"@,
            ),
        }
    }

    /// The message that the error shows.
    pub fn message(&self) -> (r: String)
        ensures
            r@ == self.text(),
    {
        match self {
            RvqError::Dim { expected, got } => with_two_numbers(
                "dimension mismatch: expected ",
                *expected,
                ", got ",
                *got,
                "",
            ),
            RvqError::EmptyTraining => String::from_str("empty training set"),
            RvqError::KTooLarge { k, n } => with_two_numbers(
                "k (",
                *k,
                ") exceeds training-set size (",
                *n,
                ")",
            ),
        }
    }
}

/// How a quantizer is trained.
#[derive(Debug, Clone, Copy)]
pub struct RvqConfig {
    /// The number of codebooks.
    pub stages: usize,
    /// The number of centroids per codebook, at most 256.
    pub k: usize,
    /// The number of iterations per codebook.
    pub kmeans_iters: usize,
    /// The seed of the generator.
    pub seed: u64,
}

impl Default for RvqConfig {
    fn default() -> (r: Self)
        ensures
            r.stages == 8,
            r.k == 256,
            r.kmeans_iters == 15,
            r.seed == 0xC0FFEE,
    {
        RvqConfig { stages: 8, k: 256, kmeans_iters: 15, seed: 0xC0FFEE }
    }
}

/// The seed with which a stage is trained.
pub open spec fn stage_seed(seed: u64, stage: u64) -> u64 {
    seed ^ ((stage * 0x9E37) as u64)
}

/// A quantizer that can give vectors back.
pub trait Quantizer<R: Scalar> {
    /// The quantizer is well-formed.
    spec fn valid(&self) -> bool;

    /// The number of components of a vector.
    spec fn width(&self) -> nat;

    /// The number of bytes of a code.
    spec fn code_len(&self) -> nat;

    /// The code of a vector.
    spec fn code(&self, x: Seq<R>) -> Seq<u8>;

    /// Whether a code of the right length stands for a vector.
    spec fn decodable(&self, code: Seq<u8>) -> bool;

    /// The vector that a code stands for.
    spec fn vector(&self, code: Seq<u8>) -> Seq<R>;

    /// The number of components of a vector.
    fn dim(&self) -> (r: usize)
        ensures
            r == self.width(),
    ;

    /// The number of bytes of a code.
    fn code_bytes(&self) -> (r: usize)
        ensures
            r == self.code_len(),
    ;

    /// Computes the code of a vector.
    fn encode(&self, x: &[R], out: &mut [u8]) -> (r: Result<(), RvqError>)
        requires
            self.valid(),
        ensures
            r == if x@.len() != self.width() {
                Err::<(), RvqError>(
                    RvqError::Dim { expected: self.width() as usize, got: x@.len() as usize },
                )
            } else if old(out)@.len() != self.code_len() {
                Err(
                    RvqError::Dim {
                        expected: self.code_len() as usize,
                        got: old(out)@.len() as usize,
                    },
                )
            } else {
                Ok(())
            },
            r is Ok ==> final(out)@ == self.code(x@),
            r is Err ==> final(out)@ == old(out)@,
    ;

    /// Computes the vector that a code stands for.
    fn decode(&self, code: &[u8], out: &mut [R]) -> (r: Result<(), RvqError>)
        requires
            self.valid(),
            code@.len() == self.code_len() && old(out)@.len() == self.width() ==> self.decodable(
                code@,
            ),
        ensures
            r == if code@.len() != self.code_len() {
                Err::<(), RvqError>(
                    RvqError::Dim { expected: self.code_len() as usize, got: code@.len() as usize },
                )
            } else if old(out)@.len() != self.width() {
                Err(
                    RvqError::Dim {
                        expected: self.width() as usize,
                        got: old(out)@.len() as usize,
                    },
                )
            } else {
                Ok(())
            },
            r is Ok ==> final(out)@ == self.vector(code@),
            r is Err ==> final(out)@ == old(out)@,
    ;
}

/// What a codebook leaves of a vector.
pub open spec fn leftover<R: Scalar>(x: Seq<R>, book: Seq<Seq<R>>) -> Seq<R> {
    difference(x, book[nearest_centre(x, book) as int])
}

/// What the first `l` codebooks leave of a vector.
pub open spec fn residual<R: Scalar>(x: Seq<R>, books: Seq<Seq<Seq<R>>>, l: nat) -> Seq<R>
    decreases l,
{
    if l == 0 {
        x
    } else {
        leftover(residual(x, books, (l - 1) as nat), books[l - 1])
    }
}

/// What the first `l` codebooks leave of every row.
pub open spec fn residuals<R: Scalar>(
    table: Seq<Seq<R>>,
    books: Seq<Seq<Seq<R>>>,
    l: nat,
) -> Seq<Seq<R>> {
    Seq::new(table.len(), |i: int| residual(table[i], books, l))
}

/// Each codebook is the one that training on what the ones before it leave gives.
pub open spec fn stagewise<R: Scalar>(
    table: Seq<Seq<R>>,
    dim: nat,
    cfg: RvqConfig,
    books: Seq<Seq<Seq<R>>>,
) -> bool {
    &&& books.len() == cfg.stages
    &&& forall|l: int|
        0 <= l < books.len() ==> #[trigger] books[l] == trained_with(
            residuals(table, books, l as nat),
            dim,
            cfg.k as nat,
            cfg.kmeans_iters as nat,
            stage_seed(cfg.seed, l as u64),
        )
}

/// Training is repeatable: the rows and the configuration decide the codebooks.
pub proof fn lemma_training_repeats<R: Scalar>(
    table: Seq<Seq<R>>,
    dim: nat,
    cfg: RvqConfig,
    a: Seq<Seq<Seq<R>>>,
    b: Seq<Seq<Seq<R>>>,
)
    requires
        stagewise(table, dim, cfg, a),
        stagewise(table, dim, cfg, b),
    ensures
        a == b,
{
    lemma_same_stages(table, dim, cfg, a, b, a.len());
    assert(a.take(a.len() as int) =~= a);
    assert(b.take(b.len() as int) =~= b);
}

proof fn lemma_same_stages<R: Scalar>(
    table: Seq<Seq<R>>,
    dim: nat,
    cfg: RvqConfig,
    a: Seq<Seq<Seq<R>>>,
    b: Seq<Seq<Seq<R>>>,
    l: nat,
)
    requires
        stagewise(table, dim, cfg, a),
        stagewise(table, dim, cfg, b),
        l <= a.len(),
    ensures
        a.take(l as int) == b.take(l as int),
    decreases l,
{
    if l == 0 {
        assert(a.take(0) =~= b.take(0));
    } else {
        let m = (l - 1) as nat;
        lemma_same_stages(table, dim, cfg, a, b, m);
        lemma_residuals_prefix(table, a.take(m as int), a, m);
        lemma_residuals_prefix(table, b.take(m as int), b, m);
        assert(a[m as int] == b[m as int]);
        assert(a.take(l as int) =~= a.take(m as int).push(a[m as int]));
        assert(b.take(l as int) =~= b.take(m as int).push(b[m as int]));
    }
}

/// The code of a vector: at each stage the centroid nearest to what is left.
pub open spec fn code_of<R: Scalar>(x: Seq<R>, books: Seq<Seq<Seq<R>>>) -> Seq<u8> {
    Seq::new(
        books.len(),
        |l: int| nearest_centre(residual(x, books, l as nat), books[l]) as u8,
    )
}

/// The sum of the centroids that the first `l` bytes of a code name.
pub open spec fn restored<R: Scalar>(
    code: Seq<u8>,
    books: Seq<Seq<Seq<R>>>,
    dim: nat,
    l: nat,
) -> Seq<R>
    decreases l,
{
    if l == 0 {
        zeros(dim)
    } else {
        sum(restored(code, books, dim, (l - 1) as nat), books[l - 1][code[l - 1] as int])
    }
}

/// The sum of the table entries that the first `l` bytes of a code select.
pub open spec fn looked_up<R: Scalar>(lut: Seq<R>, k: nat, code: Seq<u8>, l: nat) -> R
    decreases l,
{
    if l == 0 {
        R::zero_of()
    } else {
        looked_up(lut, k, code, (l - 1) as nat).plus_of(lut[(l - 1) * k + code[l - 1]])
    }
}

/// The squared norm of each centroid of a codebook.
pub open spec fn norms_of<R: Scalar>(book: Seq<Seq<R>>) -> Seq<R> {
    Seq::new(book.len(), |c: int| dot_of(book[c], book[c]))
}

/// A trained quantizer.
pub struct Rvq<R> {
    dim: usize,
    stages: usize,
    k: usize,
    /// The centroids of each stage, one behind the other.
    codebooks: Vec<Vec<R>>,
    /// The squared norms of the centroids of each stage.
    sq_norms: Vec<Vec<R>>,
}

/// Subtracts from every row its nearest centroid.
fn subtract_nearest<R: Scalar>(
    data: &[R],
    n: usize,
    d: usize,
    book: &Cut<'_, R>,
) -> (r: Vec<R>)
    requires
        data@.len() == n * d,
        book.all().len() > 0,
        rectangular(book.all(), d as nat),
    ensures
        r@.len() == n * d,
        cut(r@, n as nat, d as nat) == Seq::new(
            n as nat,
            |i: int| leftover(cut(data@, n as nat, d as nat)[i], book.all()),
        ),
{
    let table = Cut::new(data, n, d);
    let ghost all = table.all();
    let ghost wanted = Seq::new(n as nat, |i: int| leftover(all[i], book.all()));
    proof {
        lemma_cut_rectangular(data@, n as nat, d as nat);
    }
    let mut out: Vec<Vec<R>> = Vec::new();
    let mut i: usize = 0;
    while i < n
        invariant
            i <= n,
            all == table.all(),
            all.len() == n,
            rectangular(all, d as nat),
            book.all().len() > 0,
            rectangular(book.all(), d as nat),
            wanted == Seq::new(n as nat, |i: int| leftover(all[i], book.all())),
            rows(out@) =~= wanted.take(i as int),
            rectangular(rows(out@), d as nat),
        decreases n - i,
    {
        let x = table.row(i);
        let best: usize = find_nearest_row(x, book);
        let rest = subtract(x, book.row(best));
        proof {
            assert(all[i as int].len() == d);
            assert(book.all()[best as int].len() == d);
            assert(rest@ == wanted[i as int]);
        }
        let ghost done = rows(out@);
        out.push(rest);
        proof {
            assert(rows(out@) =~= done.push(rest@));
            assert(rectangular(rows(out@), d as nat));
        }
        i += 1;
    }
    assert(wanted.take(n as int) =~= wanted);
    assert(rows(out@).len() == out@.len());
    lay_out(out.as_slice(), d)
}

/// Computes the squared norm of each centroid.
fn square_norms<R: Scalar>(book: &Cut<'_, R>) -> (r: Vec<R>)
    ensures
        r@ == norms_of(book.all()),
{
    let k: usize = book.count();
    let ghost all = norms_of(book.all());
    let mut r: Vec<R> = Vec::new();
    let mut c: usize = 0;
    while c < k
        invariant
            c <= k,
            k == book.all().len(),
            all == norms_of(book.all()),
            r@ =~= all.take(c as int),
        decreases k - c,
    {
        let row = book.row(c);
        r.push(dot(row, row));
        c += 1;
    }
    assert(all.take(k as int) =~= all);
    r
}

impl<R: Scalar> Rvq<R> {
    /// The number of codebooks.
    pub closed spec fn depth(&self) -> nat {
        self.stages as nat
    }

    /// The number of centroids per codebook.
    pub closed spec fn size(&self) -> nat {
        self.k as nat
    }

    /// The centroids of each stage.
    pub closed spec fn books(&self) -> Seq<Seq<Seq<R>>> {
        Seq::new(
            self.codebooks@.len(),
            |l: int| cut(self.codebooks@[l]@, self.k as nat, self.dim as nat),
        )
    }

    /// The squared norms of the centroids of each stage.
    pub closed spec fn norms(&self) -> Seq<Seq<R>> {
        rows(self.sq_norms@)
    }

    /// Every stage has its centroids and their norms.
    pub closed spec fn wf(&self) -> bool {
        &&& 1 <= self.k <= 256
        &&& self.codebooks@.len() == self.stages
        &&& self.sq_norms@.len() == self.stages
        &&& forall|l: int|
            0 <= l < self.stages ==> (#[trigger] self.codebooks@[l])@.len() == self.k * self.dim
        &&& forall|l: int|
            0 <= l < self.stages ==> (#[trigger] self.sq_norms@[l])@ == norms_of(
                cut(self.codebooks@[l]@, self.k as nat, self.dim as nat),
            )
    }

    /// What well-formedness says of the centroids.
    pub proof fn lemma_wf(&self)
        requires
            self.wf(),
        ensures
            1 <= self.size() <= 256,
            self.books().len() == self.depth(),
            self.norms().len() == self.depth(),
            forall|l: int|
                0 <= l < self.depth() ==> (#[trigger] self.books()[l]).len() == self.size()
                    && rectangular(self.books()[l], self.width()),
            forall|l: int|
                0 <= l < self.depth() ==> #[trigger] self.norms()[l] == norms_of(self.books()[l]),
    {
        assert forall|l: int| 0 <= l < self.depth() implies (#[trigger] self.books()[l]).len()
            == self.size() && rectangular(self.books()[l], self.width()) by {
            assert(self.codebooks@[l]@.len() == self.k * self.dim);
            lemma_cut_rectangular(self.codebooks@[l]@, self.k as nat, self.dim as nat);
        }
        assert forall|l: int| 0 <= l < self.depth() implies #[trigger] self.norms()[l] == norms_of(
            self.books()[l],
        ) by {
            assert(self.sq_norms@[l]@ == norms_of(self.books()[l]));
        }
    }

    /// Trains a quantizer on the `n` rows of `data`. Each codebook is trained on
    /// what the ones before it leave.
    pub fn train(data: &[R], n: usize, d: usize, cfg: &RvqConfig) -> (r: Result<Self, RvqError>)
        requires
            n == 0 || cfg.k > n || (1 <= cfg.k <= 256 && data@.len() == n * d && cfg.stages * 0x9E37
                <= u64::MAX),
        ensures
            r is Err <==> n == 0 || cfg.k > n,
            n == 0 ==> r == Err::<Self, RvqError>(RvqError::EmptyTraining),
            n > 0 && cfg.k > n ==> r == Err::<Self, RvqError>(RvqError::KTooLarge { k: cfg.k, n }),
            r is Ok ==> {
                let q = r->Ok_0;
                &&& q.wf()
                &&& q.width() == d
                &&& q.depth() == cfg.stages
                &&& q.size() == cfg.k
                &&& stagewise(cut(data@, n as nat, d as nat), d as nat, *cfg, q.books())
            },
    {
        if n == 0 {
            return Err(RvqError::EmptyTraining);
        }
        if cfg.k > n {
            return Err(RvqError::KTooLarge { k: cfg.k, n });
        }
        let ghost table = cut(data@, n as nat, d as nat);
        let mut left: Vec<R> = copy_row(data);
        let mut codebooks: Vec<Vec<R>> = Vec::new();
        let mut sq_norms: Vec<Vec<R>> = Vec::new();
        let ghost mut books: Seq<Seq<Seq<R>>> = Seq::empty();
        let mut stage: usize = 0;
        assert(cut(left@, n as nat, d as nat) =~= residuals(table, books, 0));
        while stage < cfg.stages
            invariant
                stage <= cfg.stages,
                1 <= cfg.k <= n,
                cfg.k <= 256,
                cfg.stages * 0x9E37 <= u64::MAX,
                table == cut(data@, n as nat, d as nat),
                left@.len() == n * d,
                cut(left@, n as nat, d as nat) == residuals(table, books, stage as nat),
                books.len() == stage,
                codebooks@.len() == stage,
                sq_norms@.len() == stage,
                forall|l: int|
                    0 <= l < stage ==> (#[trigger] codebooks@[l])@.len() == cfg.k * d && cut(
                        codebooks@[l]@,
                        cfg.k as nat,
                        d as nat,
                    ) == books[l],
                forall|l: int|
                    0 <= l < stage ==> (#[trigger] sq_norms@[l])@ == norms_of(books[l]),
                forall|l: int|
                    0 <= l < stage ==> #[trigger] books[l] == trained_with(
                        residuals(table, books, l as nat),
                        d as nat,
                        cfg.k as nat,
                        cfg.kmeans_iters as nat,
                        stage_seed(cfg.seed, l as u64),
                    ),
            decreases cfg.stages - stage,
        {
            assert(stage * 0x9E37 <= cfg.stages * 0x9E37);
            let mixed: u64 = cfg.seed ^ (stage as u64 * 0x9E37);
            let cb = kmeans(left.as_slice(), n, d, cfg.k, cfg.kmeans_iters, mixed);
            let ghost book = cut(cb@, cfg.k as nat, d as nat);
            let book_rows = Cut::new(cb.as_slice(), cfg.k, d);
            let next = subtract_nearest(left.as_slice(), n, d, &book_rows);
            let norms = square_norms(&book_rows);
            proof {
                let before = books;
                books = books.push(book);
                assert(books.take(before.len() as int) =~= before);
                assert forall|l: nat| l <= stage implies #[trigger] residuals(table, books, l)
                    == residuals(table, before, l) by {
                    lemma_residuals_prefix(table, before, books, l);
                }
                assert forall|l: int| 0 <= l < stage + 1 implies #[trigger] books[l] == trained_with(
                    residuals(table, books, l as nat),
                    d as nat,
                    cfg.k as nat,
                    cfg.kmeans_iters as nat,
                    stage_seed(cfg.seed, l as u64),
                ) by {
                    assert(residuals(table, books, l as nat) == residuals(
                        table,
                        before,
                        l as nat,
                    ));
                    if l < stage {
                        assert(books[l] == before[l]);
                    }
                }
                assert(cut(next@, n as nat, d as nat) =~= residuals(
                    table,
                    books,
                    stage as nat + 1,
                )) by {
                    assert forall|i: int| 0 <= i < n implies cut(next@, n as nat, d as nat)[i]
                        == residuals(table, books, stage as nat + 1)[i] by {
                        assert(residuals(table, books, stage as nat)[i] == residual(
                            table[i],
                            books,
                            stage as nat,
                        ));
                        assert(cut(left@, n as nat, d as nat)[i] == residuals(
                            table,
                            books,
                            stage as nat,
                        )[i]);
                    }
                }
            }
            codebooks.push(cb);
            sq_norms.push(norms);
            left = next;
            stage += 1;
        }
        let q = Rvq { dim: d, stages: cfg.stages, k: cfg.k, codebooks, sq_norms };
        proof {
            assert(q.books() =~= books);
        }
        Ok(q)
    }

    /// The number of codebooks.
    pub fn stages(&self) -> (r: usize)
        ensures
            r == self.depth(),
    {
        self.stages
    }

    /// The number of centroids per codebook.
    pub fn k(&self) -> (r: usize)
        ensures
            r == self.size(),
    {
        self.k
    }

    /// The bytes of `n` codes.
    pub fn storage_bytes(&self, n: usize) -> (r: usize)
        requires
            n * self.depth() <= usize::MAX,
        ensures
            r == n * self.depth(),
    {
        n * self.stages
    }

    fn encoded(&self, x: &[R]) -> (r: Vec<u8>)
        requires
            self.wf(),
            x@.len() == self.width(),
        ensures
            r@ == code_of(x@, self.books()),
            r@.len() == self.depth(),
    {
        let ghost books = self.books();
        proof {
            self.lemma_wf();
        }
        let mut left: Vec<R> = copy_row(x);
        let mut r: Vec<u8> = Vec::new();
        let mut l: usize = 0;
        while l < self.stages
            invariant
                l <= self.stages,
                self.wf(),
                books == self.books(),
                books.len() == self.stages,
                forall|l: int|
                    0 <= l < self.stages ==> (#[trigger] books[l]).len() == self.k && rectangular(
                        books[l],
                        self.dim as nat,
                    ),
                left@ == residual(x@, books, l as nat),
                left@.len() == self.dim,
                r@ =~= code_of(x@, books).take(l as int),
            decreases self.stages - l,
        {
            assert(self.codebooks@[l as int]@.len() == self.k * self.dim);
            let book = Cut::new(self.codebooks[l].as_slice(), self.k, self.dim);
            assert(books[l as int] == book.all());
            let best: usize = find_nearest_row(left.as_slice(), &book);
            r.push(best as u8);
            let next = subtract(left.as_slice(), book.row(best));
            assert(books[l as int][best as int].len() == self.dim);
            left = next;
            l += 1;
        }
        assert(code_of(x@, books).take(self.stages as int) =~= code_of(x@, books));
        r
    }

    fn decoded(&self, code: &[u8]) -> (r: Vec<R>)
        requires
            self.wf(),
            code@.len() == self.depth(),
            self.decodable(code@),
        ensures
            r@ == restored(code@, self.books(), self.width(), self.depth()),
            r@.len() == self.width(),
    {
        let ghost books = self.books();
        proof {
            self.lemma_wf();
        }
        let mut r: Vec<R> = zero_vec(self.dim);
        let mut l: usize = 0;
        while l < self.stages
            invariant
                l <= self.stages,
                self.wf(),
                books == self.books(),
                books.len() == self.stages,
                code@.len() == self.stages,
                self.decodable(code@),
                forall|l: int|
                    0 <= l < self.stages ==> (#[trigger] books[l]).len() == self.k && rectangular(
                        books[l],
                        self.dim as nat,
                    ),
                r@ == restored(code@, books, self.dim as nat, l as nat),
                r@.len() == self.dim,
            decreases self.stages - l,
        {
            assert(self.codebooks@[l as int]@.len() == self.k * self.dim);
            let book = Cut::new(self.codebooks[l].as_slice(), self.k, self.dim);
            assert(books[l as int] == book.all());
            assert(code@[l as int] < self.k);
            let row = book.row(code[l] as usize);
            assert(books[l as int][code@[l as int] as int].len() == self.dim);
            r = total(r.as_slice(), row);
            l += 1;
        }
        r
    }

    /// The mean squared difference between the components of the rows of `data`
    /// and those of the vectors that their codes stand for.
    pub fn reconstruction_mse<W: Scalar>(&self, data: &[R], n: usize) -> (r: R) where R: Widen<W>
        requires
            self.wf(),
            data@.len() == n * self.width(),
        ensures
            r == mean_error::<R, W>(
                cut(data@, n as nat, self.width()),
                self.books(),
                self.width(),
                n as nat,
            ),
    {
        let table = Cut::new(data, n, self.dim);
        let ghost all = table.all();
        let ghost books = self.books();
        proof {
            self.lemma_wf();
            lemma_cut_rectangular(data@, n as nat, self.dim as nat);
        }
        let mut acc = W::zero();
        let mut i: usize = 0;
        while i < n
            invariant
                i <= n,
                self.wf(),
                all == table.all(),
                all.len() == n,
                rectangular(all, self.dim as nat),
                books == self.books(),
                acc == error_upto::<R, W>(all, books, self.dim as nat, i as nat),
            decreases n - i,
        {
            let x = table.row(i);
            assert(all[i as int].len() == self.dim);
            let code = self.encoded(x);
            proof {
                lemma_code_decodable(*self, x@);
            }
            let recon = self.decoded(code.as_slice());
            let ghost start = acc;
            let mut j: usize = 0;
            while j < self.dim
                invariant
                    j <= self.dim,
                    x@.len() == self.dim,
                    recon@.len() == self.dim,
                    acc == squares_upto::<R, W>(start, x@, recon@, j as nat),
                decreases self.dim - j,
            {
                let e = x[j].minus(recon[j]);
                acc = acc.plus(e.times(e).widen());
                j += 1;
            }
            i += 1;
        }
        let count: usize = data.len();
        <R as Widen<W>>::narrow(acc.over(W::ratio(count as u64, 1)))
    }

    /// The inner product of the query with every centroid, stage by stage.
    pub fn ip_lut(&self, q: &[R]) -> (r: Vec<R>)
        requires
            self.wf(),
            q@.len() == self.width(),
        ensures
            r@ == ip_table(q@, self.books(), self.size()),
            r@.len() == self.depth() * self.size(),
    {
        let ghost books = self.books();
        let ghost all = ip_table(q@, books, self.k as nat);
        proof {
            self.lemma_wf();
        }
        let mut r: Vec<R> = Vec::new();
        let mut l: usize = 0;
        while l < self.stages
            invariant
                l <= self.stages,
                self.wf(),
                books == self.books(),
                books.len() == self.stages,
                forall|l: int| 0 <= l < self.stages ==> (#[trigger] books[l]).len() == self.k,
                all == ip_table(q@, books, self.k as nat),
                all.len() == self.stages * self.k,
                r@ =~= all.take(l * self.k),
                r@.len() == l * self.k,
            decreases self.stages - l,
        {
            assert(self.codebooks@[l as int]@.len() == self.k * self.dim);
            let book = Cut::new(self.codebooks[l].as_slice(), self.k, self.dim);
            assert(books[l as int] == book.all());
            proof {
                lemma_cut_ends(self.stages as nat, self.k as nat, l as nat);
                assert((l + 1) * self.k == l * self.k + self.k) by (nonlinear_arith);
            }
            let mut c: usize = 0;
            while c < self.k
                invariant
                    c <= self.k,
                    l < self.stages,
                    books.len() == self.stages,
                    book.all() == books[l as int],
                    book.all().len() == self.k,
                    all == ip_table(q@, books, self.k as nat),
                    all.len() == self.stages * self.k,
                    l * self.k + self.k <= self.stages * self.k,
                    0 <= l * self.k,
                    r@ =~= all.take(l * self.k + c),
                    r@.len() == l * self.k + c,
                decreases self.k - c,
            {
                proof {
                    lemma_split_index(l as int, self.k as int, c as int);
                }
                r.push(dot(q, book.row(c)));
                c += 1;
            }
            l += 1;
        }
        assert(all.take(self.stages * self.k) =~= all);
        r
    }

    /// The estimated inner product of a query with an encoded vector: the sum of
    /// the table entries that the code selects.
    pub fn estimate_ip(&self, lut: &[R], code: &[u8]) -> (r: R)
        requires
            self.wf(),
            lut@.len() == self.depth() * self.size(),
            code@.len() == self.depth(),
            self.decodable(code@),
        ensures
            r == looked_up(lut@, self.size(), code@, self.depth()),
    {
        let len: usize = lut.len();
        let mut s = R::zero();
        let mut l: usize = 0;
        while l < self.stages
            invariant
                l <= self.stages,
                self.wf(),
                len == lut@.len(),
                len == self.stages * self.k,
                code@.len() == self.stages,
                self.decodable(code@),
                s == looked_up(lut@, self.k as nat, code@, l as nat),
            decreases self.stages - l,
        {
            proof {
                lemma_cut_ends(self.stages as nat, self.k as nat, l as nat);
                assert(code@[l as int] < self.k);
            }
            s = s.plus(lut[l * self.k + code[l] as usize]);
            l += 1;
        }
        s
    }

    /// The estimated squared distance of a query to an encoded vector, from the
    /// squared norm of the query, the table of inner products and the table of
    /// squared norms.
    pub fn estimate_l2(&self, q_sq: R, ip_lut: &[R], norm_lut: &[R], code: &[u8]) -> (r: R)
        requires
            self.wf(),
            ip_lut@.len() == self.depth() * self.size(),
            norm_lut@.len() == self.depth() * self.size(),
            code@.len() == self.depth(),
            self.decodable(code@),
        ensures
            r == l2_estimate(q_sq, ip_lut@, norm_lut@, self.size(), code@, self.depth()),
    {
        let ip = self.estimate_ip(ip_lut, code);
        let nsum = self.estimate_ip(norm_lut, code);
        q_sq.plus(nsum).minus(R::ratio(2, 1).times(ip))
    }

    /// The squared norm of every centroid, stage by stage.
    pub fn l2_norm_lut(&self) -> (r: Vec<R>)
        requires
            self.wf(),
        ensures
            r@ == norm_table(self.books(), self.size()),
            r@.len() == self.depth() * self.size(),
    {
        let ghost books = self.books();
        let ghost all = norm_table(books, self.k as nat);
        proof {
            self.lemma_wf();
        }
        let mut r: Vec<R> = Vec::new();
        let mut l: usize = 0;
        while l < self.stages
            invariant
                l <= self.stages,
                self.wf(),
                books == self.books(),
                books.len() == self.stages,
                forall|l: int| 0 <= l < self.stages ==> (#[trigger] books[l]).len() == self.k,
                all == norm_table(books, self.k as nat),
                all.len() == self.stages * self.k,
                r@ =~= all.take(l * self.k),
                r@.len() == l * self.k,
            decreases self.stages - l,
        {
            proof {
                lemma_cut_ends(self.stages as nat, self.k as nat, l as nat);
                assert((l + 1) * self.k == l * self.k + self.k) by (nonlinear_arith);
                assert(self.sq_norms@[l as int]@ == norms_of(books[l as int]));
            }
            let mut c: usize = 0;
            while c < self.k
                invariant
                    c <= self.k,
                    l < self.stages,
                    self.sq_norms@.len() == self.stages,
                    self.sq_norms@[l as int]@ == norms_of(books[l as int]),
                    books.len() == self.stages,
                    books[l as int].len() == self.k,
                    all == norm_table(books, self.k as nat),
                    all.len() == self.stages * self.k,
                    l * self.k + self.k <= self.stages * self.k,
                    0 <= l * self.k,
                    r@ =~= all.take(l * self.k + c),
                    r@.len() == l * self.k + c,
                decreases self.k - c,
            {
                proof {
                    lemma_split_index(l as int, self.k as int, c as int);
                }
                r.push(self.sq_norms[l][c]);
                c += 1;
            }
            l += 1;
        }
        assert(all.take(self.stages * self.k) =~= all);
        r
    }
}

proof fn lemma_split_index(l: int, k: int, c: int)
    requires
        0 <= l,
        0 <= c < k,
    ensures
        (l * k + c) / k == l,
        (l * k + c) % k == c,
{
    assert((l * k + c) / k == l && (l * k + c) % k == c) by (nonlinear_arith)
        requires
            0 <= l,
            0 <= c < k,
    ;
}

/// The inner product of a query with every centroid, stage by stage.
pub open spec fn ip_table<R: Scalar>(q: Seq<R>, books: Seq<Seq<Seq<R>>>, k: nat) -> Seq<R> {
    Seq::new(books.len() * k, |i: int| dot_of(q, books[i / k as int][i % k as int]))
}

/// The squared norm of every centroid, stage by stage.
pub open spec fn norm_table<R: Scalar>(books: Seq<Seq<Seq<R>>>, k: nat) -> Seq<R> {
    Seq::new(
        books.len() * k,
        |i: int| dot_of(books[i / k as int][i % k as int], books[i / k as int][i % k as int]),
    )
}

/// The inner products of a query with the centroids that the first `l` bytes of
/// a code name, summed up.
pub open spec fn ip_upto<R: Scalar>(
    q: Seq<R>,
    books: Seq<Seq<Seq<R>>>,
    code: Seq<u8>,
    l: nat,
) -> R
    decreases l,
{
    if l == 0 {
        R::zero_of()
    } else {
        ip_upto(q, books, code, (l - 1) as nat).plus_of(
            dot_of(q, books[l - 1][code[l - 1] as int]),
        )
    }
}

/// Looking inner products up gives those with the centroids of the code.
pub proof fn lemma_looked_up<R: Scalar>(
    q: Seq<R>,
    books: Seq<Seq<Seq<R>>>,
    k: nat,
    code: Seq<u8>,
    l: nat,
)
    requires
        l <= books.len(),
        code.len() == books.len(),
        forall|i: int| 0 <= i < code.len() ==> (#[trigger] code[i]) < k,
    ensures
        looked_up(ip_table(q, books, k), k, code, l) == ip_upto(q, books, code, l),
    decreases l,
{
    if l > 0 {
        lemma_looked_up(q, books, k, code, (l - 1) as nat);
        assert(code[l - 1] < k);
        lemma_split_index(l - 1, k as int, code[l - 1] as int);
        lemma_cut_ends(books.len(), k, (l - 1) as nat);
    }
}

/// The estimated squared distance of a query to an encoded vector.
pub open spec fn l2_estimate<R: Scalar>(
    q_sq: R,
    ip_lut: Seq<R>,
    norm_lut: Seq<R>,
    k: nat,
    code: Seq<u8>,
    stages: nat,
) -> R {
    q_sq.plus_of(looked_up(norm_lut, k, code, stages)).minus_of(
        whole::<R>(2).times_of(looked_up(ip_lut, k, code, stages)),
    )
}

/// `s` and the squared differences of the first `n` components.
pub open spec fn squares_upto<R: Scalar + Widen<W>, W: Scalar>(
    s: W,
    x: Seq<R>,
    y: Seq<R>,
    n: nat,
) -> W
    decreases n,
{
    if n == 0 {
        s
    } else {
        let e = x[n - 1].minus_of(y[n - 1]);
        squares_upto::<R, W>(s, x, y, (n - 1) as nat).plus_of(e.times_of(e).widened())
    }
}

/// The squared differences between the components of the first `n` rows and
/// those of the vectors that their codes stand for.
pub open spec fn error_upto<R: Scalar + Widen<W>, W: Scalar>(
    table: Seq<Seq<R>>,
    books: Seq<Seq<Seq<R>>>,
    dim: nat,
    n: nat,
) -> W
    decreases n,
{
    if n == 0 {
        W::zero_of()
    } else {
        let x = table[n - 1];
        squares_upto::<R, W>(
            error_upto::<R, W>(table, books, dim, (n - 1) as nat),
            x,
            restored(code_of(x, books), books, dim, books.len()),
            dim,
        )
    }
}

/// The squared differences between the components of the first `n` rows and those of
/// the vectors that their codes stand for, on average.
pub open spec fn mean_error<R: Scalar + Widen<W>, W: Scalar>(
    table: Seq<Seq<R>>,
    books: Seq<Seq<Seq<R>>>,
    dim: nat,
    n: nat,
) -> R {
    <R as Widen<W>>::narrowed(
        error_upto::<R, W>(table, books, dim, n).over_of(whole::<W>((n * dim) as u64)),
    )
}

proof fn lemma_residuals_prefix<R: Scalar>(
    table: Seq<Seq<R>>,
    a: Seq<Seq<Seq<R>>>,
    b: Seq<Seq<Seq<R>>>,
    l: nat,
)
    requires
        l <= a.len() <= b.len(),
        b.take(a.len() as int) == a,
    ensures
        residuals(table, b, l) == residuals(table, a, l),
{
    assert forall|i: int| 0 <= i < table.len() implies residual(table[i], b, l) == residual(
        table[i],
        a,
        l,
    ) by {
        lemma_residual_prefix(table[i], a, b, l);
    }
    assert(residuals(table, b, l) =~= residuals(table, a, l));
}

proof fn lemma_residual_prefix<R: Scalar>(
    x: Seq<R>,
    a: Seq<Seq<Seq<R>>>,
    b: Seq<Seq<Seq<R>>>,
    l: nat,
)
    requires
        l <= a.len() <= b.len(),
        b.take(a.len() as int) == a,
    ensures
        residual(x, b, l) == residual(x, a, l),
    decreases l,
{
    if l > 0 {
        lemma_residual_prefix(x, a, b, (l - 1) as nat);
        assert(b.take(a.len() as int)[l - 1] == a[l - 1]);
    }
}

/// Every code of a vector can be decoded.
pub proof fn lemma_code_decodable<R: Scalar>(q: Rvq<R>, x: Seq<R>)
    requires
        q.wf(),
    ensures
        q.decodable(q.code(x)),
{
    q.lemma_wf();
    assert forall|l: int| 0 <= l < q.code(x).len() implies (#[trigger] q.code(x)[l]) < q.size() by {
        let book = q.books()[l];
        assert(book.len() == q.size());
        lemma_nearest_centre(residual(x, q.books(), l as nat), book, book.len());
    }
}

impl<R: Scalar> Quantizer<R> for Rvq<R> {
    open spec fn valid(&self) -> bool {
        self.wf()
    }

    closed spec fn width(&self) -> nat {
        self.dim as nat
    }

    open spec fn code_len(&self) -> nat {
        self.depth()
    }

    open spec fn code(&self, x: Seq<R>) -> Seq<u8> {
        code_of(x, self.books())
    }

    open spec fn decodable(&self, code: Seq<u8>) -> bool {
        forall|l: int| 0 <= l < code.len() ==> (#[trigger] code[l]) < self.size()
    }

    open spec fn vector(&self, code: Seq<u8>) -> Seq<R> {
        restored(code, self.books(), self.width(), self.depth())
    }

    fn dim(&self) -> (r: usize) {
        self.dim
    }

    fn code_bytes(&self) -> (r: usize) {
        self.stages
    }

    fn encode(&self, x: &[R], out: &mut [u8]) -> (r: Result<(), RvqError>) {
        if x.len() != self.dim {
            return Err(RvqError::Dim { expected: self.dim, got: x.len() });
        }
        if out.len() != self.stages {
            return Err(RvqError::Dim { expected: self.stages, got: out.len() });
        }
        let code = self.encoded(x);
        copy_into(code.as_slice(), out);
        Ok(())
    }

    fn decode(&self, code: &[u8], out: &mut [R]) -> (r: Result<(), RvqError>) {
        if code.len() != self.stages {
            return Err(RvqError::Dim { expected: self.stages, got: code.len() });
        }
        if out.len() != self.dim {
            return Err(RvqError::Dim { expected: self.dim, got: out.len() });
        }
        let v = self.decoded(code);
        copy_into(v.as_slice(), out);
        Ok(())
    }
}

} // verus!
