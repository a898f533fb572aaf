//! Single-level product quantizer with one byte per subspace.

use vstd::prelude::*;
use vstd::slice::slice_subrange;

use crate::cluster::{find_nearest_row, nearest_centre};
use crate::flat::{flatten, lemma_split_rectangular, rectangular, split, Flat, Rows};
use crate::linalg::{sq_l2, sq_l2_of};
use crate::rpq::kmeans::{kmeans, trained};
use crate::rpq::rng::Rng;
use crate::scalar::{Scalar, Widen};
use crate::table::{copy_into, copy_row, rows};

verus! {

/// The number of centroids per subspace.
pub const CENTROIDS: usize = 256;

/// Block `j` of a vector that is cut into blocks of `sub` components.
pub open spec fn block<R>(x: Seq<R>, sub: nat, j: int) -> Seq<R> {
    x.subrange(j * sub, j * sub + sub)
}

/// Block `j` of every row.
pub open spec fn column<R>(table: Seq<Seq<R>>, sub: nat, j: int) -> Seq<Seq<R>> {
    Seq::new(table.len(), |i: int| block(table[i], sub, j))
}

/// The codebooks of the first `m` subspaces, and the state of the generator.
pub open spec fn books_trained<R: Scalar + Widen<W>, W: Scalar>(
    table: Seq<Seq<R>>,
    sub: nat,
    m: nat,
    iters: nat,
    s: u64,
) -> (Seq<Seq<Seq<R>>>, u64)
    decreases m,
{
    if m == 0 {
        (Seq::empty(), s)
    } else {
        let before = books_trained::<R, W>(table, sub, (m - 1) as nat, iters, s);
        let book = trained::<R, W>(
            column(table, sub, m - 1),
            sub,
            CENTROIDS as nat,
            iters,
            before.1,
        );
        (before.0.push(book.0), book.1)
    }
}

/// The code of a vector: the centroid nearest to each block.
pub open spec fn code_of<R: Scalar>(books: Seq<Seq<Seq<R>>>, sub: nat, x: Seq<R>) -> Seq<u8> {
    Seq::new(books.len(), |j: int| nearest_centre(block(x, sub, j), books[j]) as u8)
}

/// The vector that a code stands for: the centroids one behind the other.
pub open spec fn vector_of<R>(books: Seq<Seq<Seq<R>>>, sub: nat, code: Seq<u8>) -> Seq<R> {
    Seq::new(
        books.len() * sub,
        |i: int| books[i / sub as int][code[i / sub as int] as int][i % sub as int],
    )
}

/// The squared distance of each block of the query to each centroid.
pub open spec fn table_of<R: Scalar>(books: Seq<Seq<Seq<R>>>, sub: nat, q: Seq<R>) -> Seq<R> {
    Seq::new(
        books.len() * CENTROIDS as nat,
        |i: int|
            sq_l2_of(
                block(q, sub, i / CENTROIDS as int),
                books[i / CENTROIDS as int][i % CENTROIDS as int],
            ),
    )
}

/// The sum of the table entries that the first `n` bytes of a code select.
pub open spec fn looked_up<R: Scalar>(lut: Seq<R>, code: Seq<u8>, n: nat) -> R
    decreases n,
{
    if n == 0 {
        R::zero_of()
    } else {
        looked_up(lut, code, (n - 1) as nat).plus_of(lut[(n - 1) * CENTROIDS + code[n - 1]])
    }
}

/// The sum of the squared distances of the first `n` blocks of a query to the
/// centroids of a code.
pub open spec fn block_distances<R: Scalar>(
    books: Seq<Seq<Seq<R>>>,
    sub: nat,
    q: Seq<R>,
    code: Seq<u8>,
    n: nat,
) -> R
    decreases n,
{
    if n == 0 {
        R::zero_of()
    } else {
        block_distances(books, sub, q, code, (n - 1) as nat).plus_of(
            sq_l2_of(block(q, sub, n - 1), books[n - 1][code[n - 1] as int]),
        )
    }
}

/// Looking distances up gives the distances between the blocks of the query and
/// the centroids of the code.
pub proof fn lemma_looked_up<R: Scalar>(
    books: Seq<Seq<Seq<R>>>,
    sub: nat,
    q: Seq<R>,
    code: Seq<u8>,
    n: nat,
)
    requires
        n <= books.len(),
        code.len() == books.len(),
    ensures
        looked_up(table_of(books, sub, q), code, n) == block_distances(books, sub, q, code, n),
    decreases n,
{
    if n > 0 {
        lemma_looked_up(books, sub, q, code, (n - 1) as nat);
        let i = (n - 1) * CENTROIDS + code[n - 1];
        assert(i / CENTROIDS as int == n - 1);
        assert(i % CENTROIDS as int == code[n - 1]);
    }
}

/// A block of a vector ends within it.
proof fn lemma_block_ends(m: nat, sub: nat, j: nat)
    requires
        j < m,
    ensures
        j * sub + sub <= m * sub,
{
    assert(j * sub + sub <= m * sub) by (nonlinear_arith)
        requires
            j + 1 <= m,
    ;
}

/// Product quantizer: a vector is cut into blocks, and each block is replaced
/// by the number of its nearest centroid.
pub struct Pq<R> {
    dim: usize,
    m: usize,
    sub_dim: usize,
    /// The centroids of each subspace, one behind the other.
    codebooks: Vec<Vec<R>>,
}

impl<R: Scalar> Pq<R> {
    /// The number of subspaces.
    pub closed spec fn blocks(&self) -> nat {
        self.m as nat
    }

    /// The number of components of a block.
    pub closed spec fn sub(&self) -> nat {
        self.sub_dim as nat
    }

    /// The number of components of a vector.
    pub closed spec fn width(&self) -> nat {
        self.dim as nat
    }

    /// The centroids of each subspace.
    pub closed spec fn books(&self) -> Seq<Seq<Seq<R>>> {
        Seq::new(self.codebooks@.len(), |j: int| split(self.codebooks@[j]@, self.sub_dim as nat))
    }

    /// The blocks make up the vector, and each subspace has its centroids.
    pub closed spec fn wf(&self) -> bool {
        &&& self.m > 0
        &&& self.sub_dim > 0
        &&& self.dim == self.m * self.sub_dim
        &&& self.codebooks@.len() == self.m
        &&& self.m * CENTROIDS <= usize::MAX
        &&& forall|j: int|
            0 <= j < self.m ==> (#[trigger] self.codebooks@[j])@.len() == CENTROIDS * self.sub_dim
    }

    /// What well-formedness says of the centroids.
    pub proof fn lemma_wf(&self)
        requires
            self.wf(),
        ensures
            self.blocks() > 0,
            self.sub() > 0,
            self.width() == self.blocks() * self.sub(),
            self.books().len() == self.blocks(),
            forall|j: int|
                0 <= j < self.blocks() ==> (#[trigger] self.books()[j]).len() == CENTROIDS
                    && rectangular(self.books()[j], self.sub()),
    {
        assert forall|j: int| 0 <= j < self.blocks() implies (#[trigger] self.books()[j]).len()
            == CENTROIDS && rectangular(self.books()[j], self.sub()) by {
            let len = self.codebooks@[j]@.len();
            let sub = self.sub_dim as nat;
            assert(len / sub == CENTROIDS) by (nonlinear_arith)
                requires
                    len == CENTROIDS * sub,
                    sub > 0,
            ;
            lemma_split_rectangular(self.codebooks@[j]@, sub);
        }
    }

    /// Trains the codebooks on the rows of `train`.
    pub fn train<W: Scalar>(
        train: &[R],
        dim: usize,
        m: usize,
        iters: usize,
        rng: &mut Rng,
    ) -> (r: Self) where R: Widen<W>
        requires
            0 < m <= dim,
            dim as int % m as int == 0,
            train@.len() / dim as nat >= CENTROIDS,
            m * CENTROIDS <= usize::MAX,
        ensures
            r.wf(),
            r.width() == dim,
            r.blocks() == m,
            ({
                let out = books_trained::<R, W>(
                    split(train@, dim as nat),
                    r.sub(),
                    m as nat,
                    iters as nat,
                    old(rng)@,
                );
                r.books() == out.0 && final(rng)@ == out.1
            }),
    {
        let sub_dim: usize = dim / m;
        assert(dim == m * sub_dim && sub_dim > 0) by (nonlinear_arith)
            requires
                dim as int % m as int == 0,
                sub_dim == dim as int / m as int,
                0 < m <= dim,
        ;
        let table = Flat::new(train, dim);
        let n: usize = table.count();
        let ghost all = table.all();
        let ghost sub = sub_dim as nat;
        let ghost s = rng@;
        proof {
            lemma_split_rectangular(train@, dim as nat);
        }
        let mut codebooks: Vec<Vec<R>> = Vec::new();
        let mut j: usize = 0;
        let ghost mut done: Seq<Seq<Seq<R>>> = Seq::empty();
        while j < m
            invariant
                j <= m,
                n == all.len(),
                n >= CENTROIDS,
                all == table.all(),
                rectangular(all, dim as nat),
                sub == sub_dim,
                dim == m * sub_dim,
                sub_dim > 0,
                codebooks@.len() == j,
                done == books_trained::<R, W>(all, sub, j as nat, iters as nat, s).0,
                rng@ == books_trained::<R, W>(all, sub, j as nat, iters as nat, s).1,
                done.len() == j,
                forall|x: int|
                    0 <= x < j ==> (#[trigger] codebooks@[x])@.len() == CENTROIDS * sub_dim && split(
                        codebooks@[x]@,
                        sub,
                    ) == done[x],
            decreases m - j,
        {
            proof {
                lemma_block_ends(m as nat, sub, j as nat);
            }
            let start: usize = j * sub_dim;
            let ghost part = column(all, sub, j as int);
            let mut rows_of_block: Vec<Vec<R>> = Vec::new();
            let mut i: usize = 0;
            while i < n
                invariant
                    i <= n,
                    n == all.len(),
                    all == table.all(),
                    rectangular(all, dim as nat),
                    sub == sub_dim,
                    start == j * sub_dim,
                    start + sub_dim <= dim,
                    part == column(all, sub, j as int),
                    rows_of_block@.len() == i,
                    forall|x: int| 0 <= x < i ==> (#[trigger] rows_of_block@[x])@ == part[x],
                decreases n - i,
            {
                let row = table.row(i);
                assert(row@.len() == dim) by {
                    assert(all[i as int].len() == dim);
                }
                let piece = copy_row(slice_subrange(row, start, start + sub_dim));
                assert(piece@ == part[i as int]);
                rows_of_block.push(piece);
                i += 1;
            }
            assert(rows(rows_of_block@) =~= part);
            assert(rectangular(part, sub)) by {
                assert forall|x: int| 0 <= x < part.len() implies (#[trigger] part[x]).len()
                    == sub by {
                    assert(all[x].len() == dim);
                }
            }
            let flat_block = flatten(rows_of_block.as_slice(), sub_dim);
            proof {
                assert(flat_block@.len() / sub == n) by (nonlinear_arith)
                    requires
                        flat_block@.len() == n * sub,
                        sub > 0,
                ;
            }
            let book = kmeans::<R, W>(flat_block.as_slice(), sub_dim, CENTROIDS, iters, rng);
            proof {
                done = done.push(split(book@, sub));
            }
            codebooks.push(book);
            j += 1;
        }
        let r = Pq { dim, m, sub_dim, codebooks };
        assert(r.books() =~= done);
        r
    }

    /// The number of subspaces.
    pub fn m(&self) -> (r: usize)
        ensures
            r == self.blocks(),
    {
        self.m
    }

    /// The number of centroids per subspace.
    pub fn k(&self) -> (r: usize)
        ensures
            r == CENTROIDS,
    {
        CENTROIDS
    }

    /// The number of components of a block.
    pub fn sub_dim(&self) -> (r: usize)
        ensures
            r == self.sub(),
    {
        self.sub_dim
    }

    /// The number of components of a vector.
    pub fn dim(&self) -> (r: usize)
        ensures
            r == self.width(),
    {
        self.dim
    }

    /// The centroids of subspace `j`, one behind the other.
    pub fn codebook(&self, j: usize) -> (r: &[R])
        requires
            self.wf(),
            j < self.blocks(),
        ensures
            split(r@, self.sub()) == self.books()[j as int],
            r@.len() == CENTROIDS * self.sub(),
    {
        self.codebooks[j].as_slice()
    }

    /// Computes the vector that a code stands for.
    pub fn reconstruct(&self, code: &[u8], out: &mut [R])
        requires
            self.wf(),
            code@.len() == self.blocks(),
            old(out)@.len() == self.width(),
        ensures
            final(out)@ == vector_of(self.books(), self.sub(), code@),
    {
        let r = self.decoded(code);
        copy_into(r.as_slice(), out);
    }

    pub(crate) fn decoded(&self, code: &[u8]) -> (r: Vec<R>)
        requires
            self.wf(),
            code@.len() == self.blocks(),
        ensures
            r@ == vector_of(self.books(), self.sub(), code@),
            r@.len() == self.width(),
    {
        let mut r: Vec<R> = Vec::new();
        let ghost books = self.books();
        let ghost sub = self.sub();
        let ghost all = vector_of(books, sub, code@);
        let mut j: usize = 0;
        proof {
            self.lemma_wf();
        }
        while j < self.m
            invariant
                j <= self.m,
                self.wf(),
                books == self.books(),
                sub == self.sub(),
                books.len() == self.m,
                code@.len() == self.m,
                all == vector_of(books, sub, code@),
                all.len() == self.m * sub,
                forall|j: int|
                    0 <= j < self.m ==> (#[trigger] books[j]).len() == CENTROIDS && rectangular(
                        books[j],
                        sub,
                    ),
                r@.len() == j * sub,
                r@ =~= all.take(j * sub),
            decreases self.m - j,
        {
            let book = Flat::new(self.codebooks[j].as_slice(), self.sub_dim);
            assert(books[j as int] == book.all());
            let src = book.row(code[j] as usize);
            assert(src@.len() == sub);
            proof {
                lemma_block_ends(self.m as nat, sub, j as nat);
                assert((j + 1) * sub == j * sub + sub) by (nonlinear_arith);
                assert(0 <= j * sub) by (nonlinear_arith);
            }
            let mut d: usize = 0;
            while d < self.sub_dim
                invariant
                    d <= self.sub_dim,
                    sub == self.sub_dim,
                    sub > 0,
                    j < self.m,
                    src@.len() == sub,
                    src@ == books[j as int][code@[j as int] as int],
                    all == vector_of(books, sub, code@),
                    all.len() == self.m * sub,
                    j * sub + sub <= self.m * sub,
                    0 <= j * sub,
                    r@.len() == j * sub + d,
                    r@ =~= all.take(j * sub + d),
                decreases self.sub_dim - d,
            {
                proof {
                    let i = j * sub + d;
                    assert(i / sub as int == j && i % sub as int == d) by (nonlinear_arith)
                        requires
                            i == j * sub + d,
                            0 <= d < sub,
                    ;
                    assert(all[i] == src@[d as int]);
                }
                r.push(src[d]);
                d += 1;
            }
            j += 1;
        }
        assert(all.take(self.m * sub) =~= all);
        r
    }

    /// Computes the code of a vector.
    pub fn encode_raw(&self, x: &[R], out: &mut [u8])
        requires
            self.wf(),
            x@.len() == self.width(),
            old(out)@.len() == self.blocks(),
        ensures
            final(out)@ == code_of(self.books(), self.sub(), x@),
    {
        let r = self.encoded(x);
        copy_into(r.as_slice(), out);
    }

    pub(crate) fn encoded(&self, x: &[R]) -> (r: Vec<u8>)
        requires
            self.wf(),
            x@.len() == self.width(),
        ensures
            r@ == code_of(self.books(), self.sub(), x@),
            r@.len() == self.blocks(),
    {
        let mut r: Vec<u8> = Vec::new();
        let ghost books = self.books();
        let ghost sub = self.sub();
        proof {
            self.lemma_wf();
        }
        let mut j: usize = 0;
        while j < self.m
            invariant
                j <= self.m,
                self.wf(),
                books == self.books(),
                sub == self.sub(),
                books.len() == self.m,
                x@.len() == self.m * sub,
                forall|j: int| 0 <= j < self.m ==> (#[trigger] books[j]).len() == CENTROIDS,
                r@ =~= code_of(books, sub, x@).take(j as int),
            decreases self.m - j,
        {
            proof {
                lemma_block_ends(self.m as nat, sub, j as nat);
            }
            let total: usize = x.len();
            assert(j * self.sub_dim + self.sub_dim <= total);
            let start: usize = j * self.sub_dim;
            let part = slice_subrange(x, start, start + self.sub_dim);
            let book = Flat::new(self.codebooks[j].as_slice(), self.sub_dim);
            assert(books[j as int] == book.all());
            let best: usize = find_nearest_row(part, &book);
            r.push(best as u8);
            j += 1;
        }
        assert(code_of(books, sub, x@).take(self.m as int) =~= code_of(books, sub, x@));
        r
    }

    /// Computes the squared distance of each block of the query to each
    /// centroid.
    pub fn compute_lut(&self, query: &[R]) -> (r: Vec<R>)
        requires
            self.wf(),
            query@.len() == self.width(),
        ensures
            r@ == table_of(self.books(), self.sub(), query@),
            r@.len() == self.blocks() * CENTROIDS,
    {
        let mut r: Vec<R> = Vec::new();
        let ghost books = self.books();
        let ghost sub = self.sub();
        let ghost all = table_of(books, sub, query@);
        proof {
            self.lemma_wf();
        }
        let mut j: usize = 0;
        while j < self.m
            invariant
                j <= self.m,
                self.wf(),
                books == self.books(),
                sub == self.sub(),
                books.len() == self.m,
                query@.len() == self.m * sub,
                all == table_of(books, sub, query@),
                forall|j: int| 0 <= j < self.m ==> (#[trigger] books[j]).len() == CENTROIDS,
                r@ =~= all.take(j * CENTROIDS),
            decreases self.m - j,
        {
            proof {
                lemma_block_ends(self.m as nat, sub, j as nat);
            }
            let total: usize = query.len();
            assert(j * self.sub_dim + self.sub_dim <= total);
            let start: usize = j * self.sub_dim;
            let part = slice_subrange(query, start, start + self.sub_dim);
            let book = Flat::new(self.codebooks[j].as_slice(), self.sub_dim);
            assert(books[j as int] == book.all());
            let mut c: usize = 0;
            while c < CENTROIDS
                invariant
                    c <= CENTROIDS,
                    j < self.m,
                    books.len() == self.m,
                    all == table_of(books, sub, query@),
                    book.all() == books[j as int],
                    books[j as int].len() == CENTROIDS,
                    part@ == block(query@, sub, j as int),
                    r@ =~= all.take(j * CENTROIDS + c),
                decreases CENTROIDS - c,
            {
                proof {
                    let i = j * CENTROIDS + c;
                    assert(i / CENTROIDS as int == j && i % CENTROIDS as int == c);
                    assert(i < all.len());
                }
                r.push(sq_l2(part, book.row(c)));
                c += 1;
            }
            j += 1;
        }
        assert(all.take(self.m * CENTROIDS) =~= all);
        r
    }

    /// Computes the sum of the table entries that a code selects.
    pub fn adc_from_lut(&self, lut: &[R], code: &[u8]) -> (r: R)
        requires
            self.wf(),
            lut@.len() == self.blocks() * CENTROIDS,
            code@.len() == self.blocks(),
        ensures
            r == looked_up(lut@, code@, self.blocks()),
    {
        let mut s = R::zero();
        let mut j: usize = 0;
        while j < self.m
            invariant
                j <= self.m,
                self.wf(),
                lut@.len() == self.m * CENTROIDS,
                code@.len() == self.m,
                s == looked_up(lut@, code@, j as nat),
            decreases self.m - j,
        {
            s = s.plus(lut[j * CENTROIDS + code[j] as usize]);
            j += 1;
        }
        s
    }
}

} // verus!
