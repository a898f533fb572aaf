//! What codes keep of vectors, and what estimates measure.

use vstd::prelude::*;

use crate::cluster::{lemma_nearest_centre, nearest_centre, nearest_upto};
use crate::exact::{
    bounded, close, gaps, lemma_dot_upto, lemma_gap, lemma_over, lemma_sq_l2_exact, lemma_times,
    products,
};
use crate::flat::{lemma_cut_ends, rectangular};
use crate::linalg::{difference, dot_of, sq_l2_of, sum, zeros};
use crate::rvq::{
    code_of, error_upto, ip_table, ip_upto, l2_estimate, lemma_code_decodable, lemma_looked_up,
    lemma_split_index, looked_up, mean_error, norm_table, residual, restored, squares_upto, Quantizer, Rvq,
};
use crate::scalar::{less, whole, Fixed, Scalar, Widen};

verus! {

/// There are no more than 64 codebooks, and their centroids have `dim` components no
/// farther than 2^10 from zero.
pub open spec fn books_bounded(books: Seq<Seq<Seq<Fixed>>>, k: nat, dim: nat) -> bool {
    &&& books.len() <= 0x40
    &&& forall|l: int, c: int|
        0 <= l < books.len() && 0 <= c < k ==> (#[trigger] books[l][c]).len() == dim && bounded(
            books[l][c],
            0x400_0000,
        )
}

/// A code names a centroid of each codebook.
pub open spec fn names_centroids(code: Seq<u8>, books: Seq<Seq<Seq<Fixed>>>, k: nat) -> bool {
    code.len() == books.len() && forall|l: int| 0 <= l < code.len() ==> (#[trigger] code[l]) < k
}

/// The centroid of stage `l` that a code names.
pub open spec fn chosen(books: Seq<Seq<Seq<Fixed>>>, code: Seq<u8>, l: int) -> Seq<Fixed> {
    books[l][code[l] as int]
}

/// The inner products of a vector with the centroids that the first `l` bytes of a
/// code name, summed up.
pub open spec fn with_chosen(
    x: Seq<Fixed>,
    books: Seq<Seq<Seq<Fixed>>>,
    code: Seq<u8>,
    dim: nat,
    l: nat,
) -> int
    decreases l,
{
    if l == 0 {
        0
    } else {
        with_chosen(x, books, code, dim, (l - 1) as nat) + products(
            x,
            chosen(books, code, l - 1),
            dim,
        )
    }
}

/// The squared norms of the centroids that the first `l` bytes of a code name, summed
/// up.
pub open spec fn own_norms(books: Seq<Seq<Seq<Fixed>>>, code: Seq<u8>, dim: nat, l: nat) -> int
    decreases l,
{
    if l == 0 {
        0
    } else {
        own_norms(books, code, dim, (l - 1) as nat) + products(
            chosen(books, code, l - 1),
            chosen(books, code, l - 1),
            dim,
        )
    }
}

/// The inner products of the centroids of different stages that the first `l` bytes of
/// a code name, each pair once.
pub open spec fn cross_terms(books: Seq<Seq<Seq<Fixed>>>, code: Seq<u8>, dim: nat, l: nat) -> int
    decreases l,
{
    if l == 0 {
        0
    } else {
        cross_terms(books, code, dim, (l - 1) as nat) + with_chosen(
            chosen(books, code, l - 1),
            books,
            code,
            dim,
            (l - 1) as nat,
        )
    }
}

/// Component `d` of the centroids that the first `l` bytes of a code name, summed up.
pub open spec fn exact_sum(books: Seq<Seq<Seq<Fixed>>>, code: Seq<u8>, d: int, l: nat) -> int
    decreases l,
{
    if l == 0 {
        0
    } else {
        exact_sum(books, code, d, (l - 1) as nat) + chosen(books, code, l - 1)[d].raw
    }
}

/// A code stands for the sum of the centroids that it names, component by component.
pub proof fn lemma_restored_exact(
    books: Seq<Seq<Seq<Fixed>>>,
    k: nat,
    code: Seq<u8>,
    dim: nat,
    l: nat,
)
    requires
        books_bounded(books, k, dim),
        names_centroids(code, books, k),
        l <= books.len(),
    ensures
        restored(code, books, dim, l).len() == dim,
        forall|d: int|
            0 <= d < dim ==> (#[trigger] restored(code, books, dim, l)[d]).raw == exact_sum(
                books,
                code,
                d,
                l,
            ) && -0x400_0000 * l <= exact_sum(books, code, d, l) <= 0x400_0000 * l,
    decreases l,
{
    if l > 0 {
        let m = (l - 1) as nat;
        lemma_restored_exact(books, k, code, dim, m);
        let c = chosen(books, code, m as int);
        assert(code[m as int] < k);
        assert(books[m as int][code[m as int] as int].len() == dim);
        let before = restored(code, books, dim, m);
        assert(restored(code, books, dim, l) == sum(before, c));
        assert forall|d: int| 0 <= d < dim implies (#[trigger] restored(
            code,
            books,
            dim,
            l,
        )[d]).raw == exact_sum(books, code, d, l) && -0x400_0000 * l <= exact_sum(
            books,
            code,
            d,
            l,
        ) <= 0x400_0000 * l by {
            assert(before[d].raw == exact_sum(books, code, d, m));
            assert(-0x400_0000 <= c[d].raw <= 0x400_0000);
        }
    }
}

/// `v` is `u` and `c`, component by component.
spec fn sums_up(u: Seq<Fixed>, c: Seq<Fixed>, v: Seq<Fixed>, n: nat) -> bool {
    forall|d: int| 0 <= d < n ==> (#[trigger] v[d]).raw == u[d].raw + c[d].raw
}

proof fn lemma_products_sum(
    x: Seq<Fixed>,
    u: Seq<Fixed>,
    c: Seq<Fixed>,
    v: Seq<Fixed>,
    n: nat,
)
    requires
        sums_up(u, c, v, n),
    ensures
        products(x, v, n) == products(x, u, n) + products(x, c, n),
    decreases n,
{
    if n > 0 {
        lemma_products_sum(x, u, c, v, (n - 1) as nat);
        let (p, q, r, s) = (x[n - 1].raw, u[n - 1].raw, c[n - 1].raw, v[n - 1].raw);
        assert(s == q + r);
        assert(p * s == p * q + p * r) by (nonlinear_arith)
            requires
                s == q + r,
        ;
    }
}

proof fn lemma_gaps_sum(x: Seq<Fixed>, u: Seq<Fixed>, c: Seq<Fixed>, v: Seq<Fixed>, n: nat)
    requires
        sums_up(u, c, v, n),
    ensures
        gaps(x, v, n) == gaps(x, u, n) - 2 * products(x, c, n) + 2 * products(c, u, n) + products(
            c,
            c,
            n,
        ),
    decreases n,
{
    if n > 0 {
        lemma_gaps_sum(x, u, c, v, (n - 1) as nat);
        let (p, q, r, s) = (x[n - 1].raw, u[n - 1].raw, c[n - 1].raw, v[n - 1].raw);
        assert(s == q + r);
        assert((p - s) * (p - s) == (p - q) * (p - q) - 2 * (p * r) + 2 * (r * q) + r * r)
            by (nonlinear_arith)
            requires
                s == q + r,
        ;
    }
}

proof fn lemma_zero_products(x: Seq<Fixed>, dim: nat, n: nat)
    requires
        n <= dim,
    ensures
        products(x, zeros::<Fixed>(dim), n) == 0,
        gaps(x, zeros::<Fixed>(dim), n) == products(x, x, n),
    decreases n,
{
    if n > 0 {
        lemma_zero_products(x, dim, (n - 1) as nat);
        let p = x[n - 1].raw;
        let z = zeros::<Fixed>(dim)[n - 1].raw;
        assert(z == 0);
        assert(p * z == 0 && (p - z) * (p - z) == p * p) by (nonlinear_arith)
            requires
                z == 0,
        ;
    }
}

/// The inner product with the vector of a code is the sum of those with its centroids.
proof fn lemma_with_restored(
    x: Seq<Fixed>,
    books: Seq<Seq<Seq<Fixed>>>,
    k: nat,
    code: Seq<u8>,
    dim: nat,
    l: nat,
)
    requires
        books_bounded(books, k, dim),
        names_centroids(code, books, k),
        l <= books.len(),
    ensures
        products(x, restored(code, books, dim, l), dim) == with_chosen(x, books, code, dim, l),
    decreases l,
{
    if l == 0 {
        lemma_zero_products(x, dim, dim);
    } else {
        let m = (l - 1) as nat;
        lemma_with_restored(x, books, k, code, dim, m);
        lemma_next_sum(books, k, code, dim, l);
        lemma_products_sum(
            x,
            restored(code, books, dim, m),
            chosen(books, code, m as int),
            restored(code, books, dim, l),
            dim,
        );
    }
}

proof fn lemma_next_sum(
    books: Seq<Seq<Seq<Fixed>>>,
    k: nat,
    code: Seq<u8>,
    dim: nat,
    l: nat,
)
    requires
        books_bounded(books, k, dim),
        names_centroids(code, books, k),
        0 < l <= books.len(),
    ensures
        sums_up(
            restored(code, books, dim, (l - 1) as nat),
            chosen(books, code, l - 1),
            restored(code, books, dim, l),
            dim,
        ),
{
    lemma_restored_exact(books, k, code, dim, l);
    lemma_restored_exact(books, k, code, dim, (l - 1) as nat);
}

/// The squared distance to the vector of a code, multiplied out.
proof fn lemma_gaps_restored(
    x: Seq<Fixed>,
    books: Seq<Seq<Seq<Fixed>>>,
    k: nat,
    code: Seq<u8>,
    dim: nat,
    l: nat,
)
    requires
        books_bounded(books, k, dim),
        names_centroids(code, books, k),
        l <= books.len(),
    ensures
        gaps(x, restored(code, books, dim, l), dim) == products(x, x, dim) - 2 * with_chosen(
            x,
            books,
            code,
            dim,
            l,
        ) + own_norms(books, code, dim, l) + 2 * cross_terms(books, code, dim, l),
    decreases l,
{
    if l == 0 {
        lemma_zero_products(x, dim, dim);
    } else {
        let m = (l - 1) as nat;
        let c = chosen(books, code, m as int);
        lemma_gaps_restored(x, books, k, code, dim, m);
        lemma_next_sum(books, k, code, dim, l);
        lemma_gaps_sum(
            x,
            restored(code, books, dim, m),
            c,
            restored(code, books, dim, l),
            dim,
        );
        lemma_with_restored(c, books, k, code, dim, m);
    }
}

/// Inner products of vectors of this size.
proof fn lemma_small_dot(a: Seq<Fixed>, b: Seq<Fixed>, dim: nat)
    requires
        bounded(a, 0x400_0000),
        bounded(b, 0x400_0000),
        a.len() == dim,
        b.len() == dim,
    ensures
        close(0x1_0000 * dot_of(a, b).raw, products(a, b, dim), 0x1_0000 * dim),
        close(dot_of(a, b).raw as int, 0, 0x8_0000_0000_0000),
{
    lemma_dot_upto(a, b, dim);
    lemma_small_products(a, b, dim);
}

proof fn lemma_small_products(a: Seq<Fixed>, b: Seq<Fixed>, n: nat)
    requires
        bounded(a, 0x400_0000),
        bounded(b, 0x400_0000),
        n <= a.len(),
        n <= b.len(),
    ensures
        close(products(a, b, n), 0, 0x10_0000_0000_0000 * n),
    decreases n,
{
    if n > 0 {
        lemma_small_products(a, b, (n - 1) as nat);
        let (x, y) = (a[n - 1].raw, b[n - 1].raw);
        assert(-0x10_0000_0000_0000 <= x * y <= 0x10_0000_0000_0000) by (nonlinear_arith)
            requires
                -0x400_0000 <= x <= 0x400_0000,
                -0x400_0000 <= y <= 0x400_0000,
        ;
    }
}

proof fn lemma_ip_upto(
    x: Seq<Fixed>,
    books: Seq<Seq<Seq<Fixed>>>,
    k: nat,
    code: Seq<u8>,
    dim: nat,
    l: nat,
)
    requires
        books_bounded(books, k, dim),
        names_centroids(code, books, k),
        bounded(x, 0x400_0000),
        x.len() == dim,
        l <= books.len(),
    ensures
        close(
            0x1_0000 * ip_upto(x, books, code, l).raw,
            with_chosen(x, books, code, dim, l),
            0x1_0000 * (dim * l),
        ),
        close(ip_upto(x, books, code, l).raw as int, 0, 0x8_0000_0000_0000 * l),
    decreases l,
{
    if l == 0 {
        assert(dim * l == 0) by (nonlinear_arith)
            requires
                l == 0,
        ;
    } else {
        let m = (l - 1) as nat;
        lemma_ip_upto(x, books, k, code, dim, m);
        assert(code[m as int] < k);
        let c = chosen(books, code, m as int);
        assert(books[m as int][code[m as int] as int].len() == dim);
        lemma_small_dot(x, c, dim);
        assert(dim * l == dim * m + dim) by (nonlinear_arith)
            requires
                l == m + 1,
        ;
    }
}

proof fn lemma_norms_upto(
    books: Seq<Seq<Seq<Fixed>>>,
    k: nat,
    code: Seq<u8>,
    dim: nat,
    l: nat,
)
    requires
        books_bounded(books, k, dim),
        names_centroids(code, books, k),
        l <= books.len(),
    ensures
        close(
            0x1_0000 * looked_up(norm_table(books, k), k, code, l).raw,
            own_norms(books, code, dim, l),
            0x1_0000 * (dim * l),
        ),
        close(looked_up(norm_table(books, k), k, code, l).raw as int, 0, 0x8_0000_0000_0000 * l),
    decreases l,
{
    if l == 0 {
        assert(dim * l == 0) by (nonlinear_arith)
            requires
                l == 0,
        ;
    } else {
        let m = (l - 1) as nat;
        lemma_norms_upto(books, k, code, dim, m);
        assert(code[m as int] < k);
        let c = chosen(books, code, m as int);
        assert(books[m as int][code[m as int] as int].len() == dim);
        lemma_small_dot(c, c, dim);
        lemma_split_index(m as int, k as int, code[m as int] as int);
        lemma_cut_ends(books.len(), k, m);
        assert(norm_table(books, k)[m * k + code[m as int]] == dot_of(c, c));
        assert(dim * l == dim * m + dim) by (nonlinear_arith)
            requires
                l == m + 1,
        ;
    }
}

/// The estimated inner product of a query with a code is that with the vector that the
/// code stands for, with at most a unit of rounding for each component of each stage.
pub proof fn lemma_estimate_ip_exact(q: Rvq<Fixed>, query: Seq<Fixed>, code: Seq<u8>)
    requires
        q.wf(),
        query.len() == q.width(),
        code.len() == q.depth(),
        q.decodable(code),
        bounded(query, 0x400_0000),
        books_bounded(q.books(), q.size(), q.width()),
    ensures
        close(
            0x1_0000 * looked_up(
                ip_table(query, q.books(), q.size()),
                q.size(),
                code,
                q.depth(),
            ).raw,
            products(query, q.vector(code), q.width()),
            0x1_0000 * (q.width() * q.depth()),
        ),
{
    q.lemma_wf();
    let (books, k, dim, l) = (q.books(), q.size(), q.width(), q.depth());
    lemma_looked_up(query, books, k, code, l);
    lemma_ip_upto(query, books, k, code, dim, l);
    lemma_with_restored(query, books, k, code, dim, l);
}

/// The estimated squared distance of a query to a code is the squared distance to the
/// vector that the code stands for, less twice the inner products of the centroids of
/// different stages that the code names. The tolerance is a unit of rounding for each
/// component of each inner product that is looked up.
pub proof fn lemma_estimate_l2_exact(q: Rvq<Fixed>, query: Seq<Fixed>, code: Seq<u8>)
    requires
        q.wf(),
        query.len() == q.width(),
        code.len() == q.depth(),
        q.decodable(code),
        bounded(query, 0x400_0000),
        books_bounded(q.books(), q.size(), q.width()),
    ensures
        ({
            let estimate = l2_estimate(
                dot_of(query, query),
                ip_table(query, q.books(), q.size()),
                norm_table(q.books(), q.size()),
                q.size(),
                code,
                q.depth(),
            );
            close(
                0x1_0000 * estimate.raw + 2 * cross_terms(
                    q.books(),
                    code,
                    q.width(),
                    q.depth(),
                ),
                gaps(query, q.vector(code), q.width()),
                0x1_0000 * (q.width() + 3 * (q.width() * q.depth())),
            )
        }),
{
    q.lemma_wf();
    let (books, k, dim, l) = (q.books(), q.size(), q.width(), q.depth());
    lemma_looked_up(query, books, k, code, l);
    lemma_ip_upto(query, books, k, code, dim, l);
    lemma_norms_upto(books, k, code, dim, l);
    lemma_gaps_restored(query, books, k, code, dim, l);
    lemma_small_dot(query, query, dim);
    let ip = ip_upto(query, books, code, l);
    let two = whole::<Fixed>(2);
    assert(two.raw == 0x2_0000);
    lemma_times(two, ip);
    assert(two.times_of(ip).raw == 2 * ip.raw);
}

/// With one stage the estimated squared distance of a query to a code is the squared
/// distance to the vector that the code stands for, whatever the sign of their inner
/// product.
pub proof fn lemma_estimate_l2_one_stage(q: Rvq<Fixed>, query: Seq<Fixed>, code: Seq<u8>)
    requires
        q.wf(),
        q.depth() == 1,
        query.len() == q.width(),
        code.len() == q.depth(),
        q.decodable(code),
        bounded(query, 0x400_0000),
        books_bounded(q.books(), q.size(), q.width()),
    ensures
        ({
            let estimate = l2_estimate(
                dot_of(query, query),
                ip_table(query, q.books(), q.size()),
                norm_table(q.books(), q.size()),
                q.size(),
                code,
                q.depth(),
            );
            close(
                0x1_0000 * estimate.raw,
                gaps(query, q.vector(code), q.width()),
                0x4_0000 * q.width(),
            )
        }),
{
    lemma_estimate_l2_exact(q, query, code);
    let (books, dim) = (q.books(), q.width());
    assert(cross_terms(books, code, dim, 1) == cross_terms(books, code, dim, 0) + with_chosen(
        chosen(books, code, 0),
        books,
        code,
        dim,
        0,
    ));
    assert(q.width() * q.depth() == q.width()) by (nonlinear_arith)
        requires
            q.depth() == 1,
    ;
}

/// What the first `l` stages leave of a vector is the vector less the sum of the
/// centroids that its code names.
pub proof fn lemma_residual_exact(q: Rvq<Fixed>, x: Seq<Fixed>, l: nat)
    requires
        q.wf(),
        x.len() == q.width(),
        l <= q.depth(),
        bounded(x, 0x400_0000),
        books_bounded(q.books(), q.size(), q.width()),
    ensures
        residual(x, q.books(), l).len() == q.width(),
        forall|d: int|
            0 <= d < q.width() ==> (#[trigger] residual(x, q.books(), l)[d]).raw == x[d].raw
                - exact_sum(q.books(), q.code(x), d, l),
    decreases l,
{
    q.lemma_wf();
    lemma_code_decodable(q, x);
    if l > 0 {
        let m = (l - 1) as nat;
        let (books, code) = (q.books(), q.code(x));
        lemma_residual_exact(q, x, m);
        lemma_restored_exact(books, q.size(), code, q.width(), m);
        let before = residual(x, books, m);
        assert(books[m as int].len() == q.size());
        lemma_nearest_centre(before, books[m as int], q.size());
        assert(code[m as int] as nat == nearest_centre(before, books[m as int]));
        let c = chosen(books, code, m as int);
        assert(code[m as int] < q.size());
        assert(books[m as int][code[m as int] as int].len() == q.width());
        assert(residual(x, books, l) == difference(before, c));
        assert forall|d: int| 0 <= d < q.width() implies (#[trigger] residual(
            x,
            q.books(),
            l,
        )[d]).raw == x[d].raw - exact_sum(q.books(), q.code(x), d, l) by {
            assert(before[d].raw == x[d].raw - exact_sum(books, code, d, m));
            assert(restored(code, books, q.width(), m)[d].raw == exact_sum(books, code, d, m));
            assert(-0x400_0000 <= c[d].raw <= 0x400_0000);
            assert(-0x400_0000 <= x[d].raw <= 0x400_0000);
        }
    }
}

/// At each stage no centroid is nearer to what is left than the one that the code
/// names.
pub proof fn lemma_stage_nearest(q: Rvq<Fixed>, x: Seq<Fixed>, l: int, c: int)
    requires
        q.wf(),
        0 <= l < q.depth(),
        0 <= c < q.size(),
        bounded(residual(x, q.books(), l as nat), 0x8000_0000),
        books_bounded(q.books(), q.size(), q.width()),
    ensures
        q.code(x).len() == q.depth(),
        q.code(x)[l] < q.size(),
        ({
            let left = residual(x, q.books(), l as nat);
            sq_l2_of(left, q.books()[l][q.code(x)[l] as int]).raw <= sq_l2_of(
                left,
                q.books()[l][c],
            ).raw
        }),
{
    q.lemma_wf();
    let left = residual(x, q.books(), l as nat);
    let book = q.books()[l];
    assert(book.len() == q.size());
    lemma_nearest_centre(left, book, book.len());
    let best = nearest_centre(left, book) as int;
    assert(q.code(x)[l] as int == best);
    assert(q.books()[l][c].len() == q.width());
    assert(q.books()[l][best].len() == q.width());
    lemma_sq_l2_exact(left, book[c]);
    lemma_sq_l2_exact(left, book[best]);
    let found = nearest_upto(left, book, book.len()).1;
    assert(!less(sq_l2_of(left, book[c]), found));
    assert(!less(sq_l2_of(left, book[best]), found));
}

/// The squared distances of the first `n` rows to the vectors that their codes stand
/// for, summed up.
pub open spec fn error_gaps(
    table: Seq<Seq<Fixed>>,
    books: Seq<Seq<Seq<Fixed>>>,
    dim: nat,
    n: nat,
) -> int
    decreases n,
{
    if n == 0 {
        0
    } else {
        let x = table[n - 1];
        error_gaps(table, books, dim, (n - 1) as nat) + gaps(
            x,
            restored(code_of(x, books), books, dim, books.len()),
            dim,
        )
    }
}

proof fn lemma_squares_upto(s: Fixed, x: Seq<Fixed>, y: Seq<Fixed>, n: nat)
    requires
        n <= x.len(),
        n <= y.len(),
        bounded(x, 0x8000_0000),
        bounded(y, 0x8000_0000),
        s.raw >= 0,
        0x1_0000 * s.raw + gaps(x, y, n) <= 0x7FFF_FFFF_FFFF_FFFF_0000,
    ensures
        squares_upto::<Fixed, Fixed>(s, x, y, n).raw >= s.raw,
        0x1_0000 * squares_upto::<Fixed, Fixed>(s, x, y, n).raw <= 0x1_0000 * s.raw + gaps(x, y, n),
        0x1_0000 * squares_upto::<Fixed, Fixed>(s, x, y, n).raw >= 0x1_0000 * s.raw + gaps(x, y, n)
            - 0x1_0000 * n,
    decreases n,
{
    if n > 0 {
        lemma_gap(x[n - 1], y[n - 1]);
        lemma_squares_upto(s, x, y, (n - 1) as nat);
    }
}

proof fn lemma_error_upto(
    table: Seq<Seq<Fixed>>,
    q: Rvq<Fixed>,
    dim: nat,
    n: nat,
)
    requires
        q.wf(),
        dim == q.width(),
        rectangular(table, dim),
        n <= table.len(),
        forall|i: int| 0 <= i < table.len() ==> bounded(#[trigger] table[i], 0x400_0000),
        books_bounded(q.books(), q.size(), dim),
        q.depth() <= 0x20,
        error_gaps(table, q.books(), dim, n) <= 0x7FFF_FFFF_FFFF_FFFF_0000,
    ensures
        0 <= 0x1_0000 * error_upto::<Fixed, Fixed>(table, q.books(), dim, n).raw <= error_gaps(
            table,
            q.books(),
            dim,
            n,
        ),
        0x1_0000 * error_upto::<Fixed, Fixed>(table, q.books(), dim, n).raw >= error_gaps(
            table,
            q.books(),
            dim,
            n,
        ) - 0x1_0000 * (n * dim),
    decreases n,
{
    if n == 0 {
        assert(n * dim == 0) by (nonlinear_arith)
            requires
                n == 0,
        ;
    } else {
        let m = (n - 1) as nat;
        let books = q.books();
        let x = table[m as int];
        q.lemma_wf();
        lemma_code_decodable(q, x);
        let code = q.code(x);
        let y = restored(code, books, dim, books.len());
        lemma_restored_exact(books, q.size(), code, dim, books.len());
        assert(x.len() == dim);
        assert(bounded(x, 0x400_0000));
        assert forall|d: int| 0 <= d < y.len() implies -0x8000_0000 <= (#[trigger] y[d]).raw
            <= 0x8000_0000 by {
            assert(y[d].raw == exact_sum(books, code, d, books.len()));
        }
        assert(bounded(y, 0x8000_0000));
        lemma_gaps_positive(x, y, dim);
        lemma_error_upto(table, q, dim, m);
        lemma_squares_upto(
            error_upto::<Fixed, Fixed>(table, books, dim, m),
            x,
            y,
            dim,
        );
        assert(n * dim == m * dim + dim) by (nonlinear_arith)
            requires
                n == m + 1,
        ;
    }
}

proof fn lemma_gaps_positive(x: Seq<Fixed>, y: Seq<Fixed>, n: nat)
    ensures
        gaps(x, y, n) >= 0,
    decreases n,
{
    if n > 0 {
        lemma_gaps_positive(x, y, (n - 1) as nat);
        let e = x[n - 1].raw - y[n - 1].raw;
        assert(e * e >= 0) by (nonlinear_arith);
    }
}

/// The mean squared error of a quantizer, times the number of components of all rows,
/// is the sum of the squared distances of the rows to the vectors that their codes
/// stand for, with at most two units of rounding for each component.
pub proof fn lemma_reconstruction_exact(q: Rvq<Fixed>, table: Seq<Seq<Fixed>>, n: nat)
    requires
        q.wf(),
        rectangular(table, q.width()),
        n == table.len(),
        0 < n * q.width() <= 0xFFFF_FFFF,
        forall|i: int| 0 <= i < table.len() ==> bounded(#[trigger] table[i], 0x400_0000),
        books_bounded(q.books(), q.size(), q.width()),
        q.depth() <= 0x20,
        error_gaps(table, q.books(), q.width(), n) <= 0x7FFF_FFFF_FFFF_FFFF_0000,
    ensures
        ({
            let cells = n * q.width();
            let total = error_gaps(table, q.books(), q.width(), n);
            let mse = mean_error::<Fixed, Fixed>(table, q.books(), q.width(), n);
            &&& 0 <= 0x1_0000 * (mse.raw * cells) <= total
            &&& total < 0x1_0000 * (mse.raw * cells) + 0x2_0000 * cells
        }),
{
    lemma_error_upto(table, q, q.width(), n);
    let cells = n * q.width();
    let e = error_upto::<Fixed, Fixed>(table, q.books(), q.width(), n);
    let w = whole::<Fixed>(cells as u64);
    assert(w.raw == cells * 0x1_0000);
    assert(e.raw * 0x1_0000 <= 0x7FFF_FFFF_FFFF_FFFF * w.raw);
    lemma_over(e, w);
    let m = e.over_of(w).raw as int;
    assert(m * w.raw == 0x1_0000 * (m * cells)) by (nonlinear_arith)
        requires
            w.raw == cells * 0x1_0000,
    ;
}

} // verus!
