//! What codes keep of vectors, and what estimated distances measure.

use vstd::prelude::*;

use crate::cluster::{lemma_nearest_centre, nearest_centre, nearest_upto};
use crate::exact::{bounded, close, gaps, lemma_over, lemma_sq_l2_upto, lemma_times};
use crate::linalg::{common, difference, sq_l2_of, sq_l2_upto};
use crate::rpq::pq::{block, block_distances, code_of, vector_of, Pq, CENTROIDS};
use crate::rpq::rpq2::Rpq2;
use crate::rpq::sq8::{byte_distances, greatest_in, least_in, steps_of, value_of, Sq8};
use crate::rpq::sweep::{all_codes, estimates};
use crate::rpq::Quantizer;
use crate::scalar::{less, whole, Fixed, Scalar};

verus! {

/// The vector that the bytes of a code stand for.
pub open spec fn bytes_decoded<R: Scalar>(lows: Seq<R>, steps: Seq<R>, code: Seq<u8>) -> Seq<R> {
    Seq::new(code.len(), |d: int| value_of(lows[d], steps[d], code[d]))
}

/// The estimated distance of a query to the bytes of a code is its squared distance
/// to the vector that they stand for.
pub proof fn lemma_sq8_estimate<R: Scalar>(q: Sq8<R>, query: Seq<R>, code: Seq<u8>)
    requires
        q.valid(),
        query.len() == q.width(),
        code.len() == q.width(),
    ensures
        q.estimate(query, code) == sq_l2_of(query, bytes_decoded(q.lows(), q.steps(), code)),
{
    lemma_byte_distances(q.lows(), q.steps(), query, code, q.width());
}

proof fn lemma_byte_distances<R: Scalar>(
    lows: Seq<R>,
    steps: Seq<R>,
    query: Seq<R>,
    code: Seq<u8>,
    n: nat,
)
    requires
        n <= query.len(),
        n <= code.len(),
    ensures
        byte_distances(lows, steps, query, code, n) == sq_l2_upto(
            query,
            bytes_decoded(lows, steps, code),
            n,
        ),
    decreases n,
{
    if n > 0 {
        lemma_byte_distances(lows, steps, query, code, (n - 1) as nat);
    }
}

/// The sum over the first `n` dimensions of the squared differences between a query
/// and the value `low + byte * step`.
pub open spec fn byte_gaps(
    lows: Seq<Fixed>,
    steps: Seq<Fixed>,
    query: Seq<Fixed>,
    code: Seq<u8>,
    n: nat,
) -> int
    decreases n,
{
    if n == 0 {
        0
    } else {
        let gap = query[n - 1].raw - (lows[n - 1].raw + code[n - 1] * steps[n - 1].raw);
        byte_gaps(lows, steps, query, code, (n - 1) as nat) + gap * gap
    }
}

/// The greatest byte stands for a value no farther than 2^15 from zero, and so does
/// the least one.
pub open spec fn in_range(lows: Seq<Fixed>, steps: Seq<Fixed>) -> bool {
    &&& steps.len() == lows.len() <= 0x4000
    &&& forall|d: int|
        0 <= d < lows.len() ==> {
            &&& 0 <= (#[trigger] steps[d]).raw
            &&& -0x8000_0000 <= lows[d].raw
            &&& lows[d].raw + 255 * steps[d].raw <= 0x8000_0000
        }
}

/// A byte stands for the low end of its column and as many steps as it counts.
pub proof fn lemma_byte_value(lo: Fixed, step: Fixed, byte: u8)
    requires
        -0x8000_0000 <= lo.raw <= 0x8000_0000,
        0 <= step.raw,
        lo.raw + 255 * step.raw <= 0x8000_0000,
    ensures
        value_of(lo, step, byte).raw == lo.raw + byte * step.raw,
        -0x8000_0000 <= value_of(lo, step, byte).raw <= 0x8000_0000,
{
    let b = whole::<Fixed>(byte as u64);
    assert(b.raw == byte * 0x1_0000);
    let s = byte * step.raw;
    assert(b.raw * step.raw == 0x1_0000 * s) by (nonlinear_arith)
        requires
            b.raw == byte * 0x1_0000,
            s == byte * step.raw,
    ;
    assert(0 <= s <= 255 * step.raw) by (nonlinear_arith)
        requires
            s == byte * step.raw,
            0 <= byte <= 255,
            step.raw >= 0,
    ;
    lemma_times(b, step);
}

/// The estimated distance of a query to the bytes of a code is the sum over all
/// dimensions of the squared differences between the query and `low + byte * step`,
/// with at most a unit of rounding for each dimension.
pub proof fn lemma_sq8_exact(q: Sq8<Fixed>, query: Seq<Fixed>, code: Seq<u8>)
    requires
        q.valid(),
        query.len() == q.width(),
        code.len() == q.width(),
        bounded(query, 0x8000_0000),
        in_range(q.lows(), q.steps()),
        q.lows().len() == q.width(),
    ensures
        close(
            0x1_0000 * q.estimate(query, code).raw,
            byte_gaps(q.lows(), q.steps(), query, code, q.width()),
            0x1_0000 * q.width(),
        ),
{
    let v = bytes_decoded(q.lows(), q.steps(), code);
    lemma_sq8_estimate(q, query, code);
    lemma_byte_gaps(q.lows(), q.steps(), query, code, q.width());
    assert forall|d: int| 0 <= d < v.len() implies -0x8000_0000 <= (#[trigger] v[d]).raw
        <= 0x8000_0000 by {
        assert(q.steps()[d].raw >= 0);
        lemma_byte_value(q.lows()[d], q.steps()[d], code[d]);
    }
    lemma_sq_l2_upto(query, v, q.width());
}

proof fn lemma_byte_gaps(
    lows: Seq<Fixed>,
    steps: Seq<Fixed>,
    query: Seq<Fixed>,
    code: Seq<u8>,
    n: nat,
)
    requires
        in_range(lows, steps),
        n <= lows.len(),
        n <= code.len(),
    ensures
        byte_gaps(lows, steps, query, code, n) == gaps(
            query,
            bytes_decoded(lows, steps, code),
            n,
        ),
    decreases n,
{
    if n > 0 {
        lemma_byte_gaps(lows, steps, query, code, (n - 1) as nat);
        assert(steps[n - 1].raw >= 0);
        lemma_byte_value(lows[n - 1], steps[n - 1], code[n - 1]);
    }
}

/// A component that lies within its column is replaced by the nearest of the 256
/// values: decoding its byte gives a value half a step away, but for the rounding of
/// the two quotients by which a column is measured.
pub proof fn lemma_sq8_code(q: Sq8<Fixed>, x: Seq<Fixed>, d: int, spread: Fixed)
    requires
        q.valid(),
        0 <= d < q.width(),
        x.len() == q.width(),
        q.scales()[d] == steps_of(spread).0,
        q.steps()[d] == steps_of(spread).1,
        -0x8000_0000 <= q.lows()[d].raw <= 0x8000_0000,
        0 < spread.raw,
        q.lows()[d].raw + spread.raw <= 0x8000_0000,
        q.lows()[d].raw <= x[d].raw <= q.lows()[d].raw + spread.raw,
    ensures
        ({
            let back = bytes_decoded(q.lows(), q.steps(), q.code(x))[d].raw;
            let y = x[d].raw - q.lows()[d].raw;
            close(
                0xFF_0000_0000 * (x[d].raw - back),
                0,
                (0x8000_0000 * spread.raw + y * spread.raw + 0x1_0000 * spread.raw + 0xFF_0000_0000
                    * q.code(x)[d]) as nat,
            )
        }),
{
    lemma_round_trip(q.lows()[d], spread, x[d]);
}

/// The low end of a column is one of its values.
pub proof fn lemma_column_least<R: Scalar>(table: Seq<Seq<R>>, d: int, n: nat)
    requires
        n > 0,
        forall|i: int| 0 <= i < n ==> less((#[trigger] table[i])[d], R::infinity_of()),
    ensures
        exists|i: int| 0 <= i < n && (#[trigger] table[i])[d] == least_in(table, d, n),
    decreases n,
{
    let m = n - 1;
    if n > 1 {
        lemma_column_least(table, d, m as nat);
    }
    assert(less(table[m][d], R::infinity_of()));
    if less(table[m][d], least_in(table, d, m as nat)) {
        assert(table[m][d] == least_in(table, d, n));
    } else {
        let i = choose|i: int|
            0 <= i < m && (#[trigger] table[i])[d] == least_in(table, d, m as nat);
        assert(table[i][d] == least_in(table, d, n));
    }
}

/// The high end of a column is one of its values.
pub proof fn lemma_column_greatest<R: Scalar>(table: Seq<Seq<R>>, d: int, n: nat)
    requires
        n > 0,
        forall|i: int|
            0 <= i < n ==> less(
                R::zero_of().minus_of(R::infinity_of()),
                (#[trigger] table[i])[d],
            ),
    ensures
        exists|i: int| 0 <= i < n && (#[trigger] table[i])[d] == greatest_in(table, d, n),
    decreases n,
{
    let m = n - 1;
    if n > 1 {
        lemma_column_greatest(table, d, m as nat);
    }
    assert(less(R::zero_of().minus_of(R::infinity_of()), table[m][d]));
    if less(greatest_in(table, d, m as nat), table[m][d]) {
        assert(table[m][d] == greatest_in(table, d, n));
    } else {
        let i = choose|i: int|
            0 <= i < m && (#[trigger] table[i])[d] == greatest_in(table, d, m as nat);
        assert(table[i][d] == greatest_in(table, d, n));
    }
}

proof fn lemma_round_trip(lo: Fixed, spread: Fixed, x: Fixed)
    requires
        -0x8000_0000 <= lo.raw <= 0x8000_0000,
        0 < spread.raw,
        lo.raw + spread.raw <= 0x8000_0000,
        lo.raw <= x.raw <= lo.raw + spread.raw,
    ensures
        ({
            let (scale, step) = steps_of(spread);
            let byte = x.minus_of(lo).times_of(scale).byte_of();
            let back = value_of(lo, step, byte).raw;
            let y = x.raw - lo.raw;
            close(
                0xFF_0000_0000 * (x.raw - back),
                0,
                (0x8000_0000 * spread.raw + y * spread.raw + 0x1_0000 * spread.raw
                    + 0xFF_0000_0000 * byte) as nat,
            )
        }),
{
    let (scale, step) = steps_of(spread);
    let s = spread.raw as int;
    assert(crate::rpq::sq8::narrowest::<Fixed>().raw == 0);
    assert(less(crate::rpq::sq8::narrowest::<Fixed>(), spread));
    let w = whole::<Fixed>(255);
    assert(w.raw == 255 * 0x1_0000);
    lemma_over(w, spread);
    lemma_over(spread, w);
    let k = scale.raw as int;
    let t = step.raw as int;
    assert(k * s <= 0xFF_0000_0000 < k * s + s);
    assert(255 * t <= s < 255 * t + 255);
    let d = x.minus_of(lo);
    let y = d.raw as int;
    assert(y == x.raw - lo.raw);
    let yk = y * k;
    assert(0 <= yk && yk <= 0xFF_0000_0000) by (nonlinear_arith)
        requires
            yk == y * k,
            0 <= y <= s,
            0 <= k,
            k * s <= 0xFF_0000_0000,
    ;
    lemma_times(d, scale);
    let p = d.times_of(scale).raw as int;
    let byte = d.times_of(scale).byte_of();
    let b = byte as int;
    assert(0 <= p <= 255 * 0x1_0000);
    assert(-0x8000 <= b * 0x1_0000 - p <= 0x8000);
    lemma_byte_value(lo, step, byte);
    let back = value_of(lo, step, byte).raw as int;
    let ps = p * s;
    let yks = yk * s;
    assert(yks <= y * (0xFF_0000_0000) <= yks + y * s) by (nonlinear_arith)
        requires
            yks == (y * k) * s,
            y >= 0,
            k * s <= 0xFF_0000_0000 <= k * s + s,
    ;
    assert(0x1_0000 * ps <= yks <= 0x1_0000 * ps + 0x1_0000 * s) by (nonlinear_arith)
        requires
            ps == p * s,
            yks == yk * s,
            s > 0,
            0x1_0000 * p <= yk <= 0x1_0000 * p + 0x1_0000,
    ;
    let bs = b * s;
    assert(-0x8000 * s <= 0x1_0000 * bs - ps <= 0x8000 * s) by (nonlinear_arith)
        requires
            bs == b * s,
            ps == p * s,
            s > 0,
            -0x8000 <= b * 0x1_0000 - p <= 0x8000,
    ;
    let bt = b * t;
    assert(0 <= bs - 255 * bt <= 255 * b) by (nonlinear_arith)
        requires
            bs == b * s,
            bt == b * t,
            b >= 0,
            255 * t <= s <= 255 * t + 255,
    ;
    assert(x.raw - back == y - bt);
    let ys = y * s;
    assert(ys >= 0) by (nonlinear_arith)
        requires
            ys == y * s,
            y >= 0,
            s > 0,
    ;
    assert(ys == (x.raw - lo.raw) * spread.raw) by (nonlinear_arith)
        requires
            ys == y * s,
            y == x.raw - lo.raw,
            s == spread.raw,
    ;
    let most = 0x8000_0000 * s + ys + 0x1_0000 * s + 0xFF_0000_0000 * b;
    lemma_round_trip_bounds(y, s, b, ys, yks, ps, bs, bt);
    assert(close(0xFF_0000_0000 * (x.raw - back), 0, most as nat));
}

proof fn lemma_round_trip_bounds(
    y: int,
    s: int,
    b: int,
    ys: int,
    yks: int,
    ps: int,
    bs: int,
    bt: int,
)
    requires
        yks <= y * (0xFF_0000_0000) <= yks + ys,
        0x1_0000 * ps <= yks <= 0x1_0000 * ps + 0x1_0000 * s,
        -0x8000 * s <= 0x1_0000 * bs - ps <= 0x8000 * s,
        0 <= bs - 255 * bt <= 255 * b,
        s > 0,
        ys >= 0,
        b >= 0,
    ensures
        ({
            let most = 0x8000_0000 * s + ys + 0x1_0000 * s + 0xFF_0000_0000 * b;
            -most <= 0xFF_0000_0000 * (y - bt) <= most
        }),
{
}

/// All centroids of the codebooks have `sub` components, and none is farther than `m`
/// units from zero.
pub open spec fn books_bounded(books: Seq<Seq<Seq<Fixed>>>, sub: nat, m: int) -> bool {
    &&& sub > 0
    &&& books.len() * sub <= 0x4000
    &&& forall|j: int, c: int|
        0 <= j < books.len() && 0 <= c < CENTROIDS ==> (#[trigger] books[j][c]).len() == sub
            && bounded(books[j][c], m)
}

proof fn lemma_index(j: int, sub: nat, e: int)
    requires
        0 <= e < sub,
        0 <= j,
    ensures
        (j * sub + e) / sub as int == j,
        (j * sub + e) % sub as int == e,
        j * sub >= 0,
        (j + 1) * sub == j * sub + sub,
{
    assert(j * sub >= 0 && (j + 1) * sub == j * sub + sub) by (nonlinear_arith)
        requires
            0 <= j,
    ;
    vstd::arithmetic::div_mod::lemma_fundamental_div_mod_converse(j * sub + e, sub as int, j, e);
}

/// A block of the vector of a code is the centroid that the code names.
proof fn lemma_block_gaps(
    books: Seq<Seq<Seq<Fixed>>>,
    sub: nat,
    q: Seq<Fixed>,
    code: Seq<u8>,
    j: int,
    e: nat,
)
    requires
        0 <= j < books.len(),
        code.len() == books.len(),
        q.len() == books.len() * sub,
        e <= sub,
        sub > 0,
    ensures
        gaps(q, vector_of(books, sub, code), (j * sub + e) as nat) == gaps(
            q,
            vector_of(books, sub, code),
            (j * sub) as nat,
        ) + gaps(block(q, sub, j), books[j][code[j] as int], e),
        j * sub + sub <= books.len() * sub,
        j * sub >= 0,
    decreases e,
{
    lemma_index(j, sub, 0);
    assert(j * sub + sub <= books.len() * sub) by (nonlinear_arith)
        requires
            j + 1 <= books.len(),
    ;
    if e > 0 {
        let f = (e - 1) as nat;
        lemma_block_gaps(books, sub, q, code, j, f);
        lemma_index(j, sub, f as int);
        let i = j * sub + f;
        assert(vector_of(books, sub, code)[i] == books[j][code[j] as int][f as int]);
        assert(block(q, sub, j)[f as int] == q[i]);
    }
}

proof fn lemma_block_distances(
    books: Seq<Seq<Seq<Fixed>>>,
    sub: nat,
    q: Seq<Fixed>,
    code: Seq<u8>,
    n: nat,
)
    requires
        n <= books.len(),
        code.len() == books.len(),
        q.len() == books.len() * sub,
        bounded(q, 0x8000_0000),
        books_bounded(books, sub, 0x8000_0000),
    ensures
        close(
            0x1_0000 * block_distances(books, sub, q, code, n).raw,
            gaps(q, vector_of(books, sub, code), (n * sub) as nat),
            0x1_0000 * (n * sub) as nat,
        ),
        0 <= block_distances(books, sub, q, code, n).raw <= 0x1_0000_0000_0000 * (n * sub),
        n * sub <= 0x4000,
    decreases n,
{
    assert(n * sub <= books.len() * sub) by (nonlinear_arith)
        requires
            n <= books.len(),
    ;
    if n == 0 {
        assert(n * sub == 0) by (nonlinear_arith)
            requires
                n == 0,
        ;
    } else {
        let j = n - 1;
        lemma_block_distances(books, sub, q, code, j as nat);
        lemma_block_gaps(books, sub, q, code, j, sub);
        lemma_index(j, sub, 0);
        let b = block(q, sub, j);
        let c = books[j][code[j] as int];
        assert(bounded(b, 0x8000_0000));
        lemma_sq_l2_upto(b, c, sub);
        assert(common(b, c) == sub);
    }
}

/// The distance of a query to a code, looked up block by block, is the squared
/// distance to the vector that the code stands for: the sum of the squared
/// differences over all dimensions, with at most a unit of rounding for each.
pub proof fn lemma_pq_exact(pq: Pq<Fixed>, query: Seq<Fixed>, code: Seq<u8>)
    requires
        pq.wf(),
        query.len() == pq.width(),
        code.len() == pq.blocks(),
        bounded(query, 0x8000_0000),
        books_bounded(pq.books(), pq.sub(), 0x8000_0000),
    ensures
        close(
            0x1_0000 * pq.estimate(query, code).raw,
            gaps(query, vector_of(pq.books(), pq.sub(), code), query.len()),
            0x1_0000 * query.len(),
        ),
{
    pq.lemma_wf();
    lemma_block_distances(pq.books(), pq.sub(), query, code, pq.blocks());
}

/// The code of a vector is the nearest of all codes: no code has a shorter estimated
/// distance to it.
pub proof fn lemma_pq_code_nearest(pq: Pq<Fixed>, x: Seq<Fixed>, code: Seq<u8>)
    requires
        pq.wf(),
        x.len() == pq.width(),
        code.len() == pq.blocks(),
        bounded(x, 0x8000_0000),
        books_bounded(pq.books(), pq.sub(), 0x8000_0000),
    ensures
        pq.code(x).len() == pq.blocks(),
        pq.estimate(x, pq.code(x)).raw <= pq.estimate(x, code).raw,
{
    pq.lemma_wf();
    lemma_nearest_blocks(pq.books(), pq.sub(), x, code, pq.blocks());
}

proof fn lemma_nearest_blocks(
    books: Seq<Seq<Seq<Fixed>>>,
    sub: nat,
    x: Seq<Fixed>,
    code: Seq<u8>,
    n: nat,
)
    requires
        n <= books.len(),
        code.len() == books.len(),
        x.len() == books.len() * sub,
        bounded(x, 0x8000_0000),
        books_bounded(books, sub, 0x8000_0000),
        forall|j: int| 0 <= j < books.len() ==> (#[trigger] books[j]).len() == CENTROIDS,
    ensures
        block_distances(books, sub, x, code_of(books, sub, x), n).raw <= block_distances(
            books,
            sub,
            x,
            code,
            n,
        ).raw,
    decreases n,
{
    if n > 0 {
        let j = n - 1;
        let own = code_of(books, sub, x);
        lemma_nearest_blocks(books, sub, x, code, j as nat);
        lemma_block_distances(books, sub, x, code, n);
        lemma_block_distances(books, sub, x, code, j as nat);
        lemma_block_distances(books, sub, x, own, n);
        lemma_block_distances(books, sub, x, own, j as nat);
        lemma_block_gaps(books, sub, x, code, j, sub);
        let b = block(x, sub, j);
        assert(bounded(b, 0x8000_0000));
        assert(books[j].len() == CENTROIDS);
        lemma_nearest_centre(b, books[j], books[j].len());
        let best = nearest_centre(b, books[j]) as int;
        let other = code[j] as int;
        assert(own[j] == best as u8 && own[j] as int == best);
        lemma_sq_l2_upto(b, books[j][best], sub);
        lemma_sq_l2_upto(b, books[j][other], sub);
        let found = nearest_upto(b, books[j], books[j].len()).1;
        assert(!less(sq_l2_of(b, books[j][other]), found));
        assert(!less(sq_l2_of(b, books[j][best]), found));
        lemma_index(j, sub, 0);
        assert(sub <= 0x4000) by (nonlinear_arith)
            requires
                n * sub <= 0x4000,
                n >= 1,
        ;
    }
}

/// The sum over the first `n` dimensions of the squared differences between a query
/// and the sum of two vectors.
pub open spec fn two_level_gaps(q: Seq<Fixed>, a: Seq<Fixed>, b: Seq<Fixed>, n: nat) -> int
    decreases n,
{
    if n == 0 {
        0
    } else {
        let gap = q[n - 1].raw - (a[n - 1].raw + b[n - 1].raw);
        two_level_gaps(q, a, b, (n - 1) as nat) + gap * gap
    }
}

proof fn lemma_two_level_gaps(q: Seq<Fixed>, a: Seq<Fixed>, b: Seq<Fixed>, n: nat)
    requires
        bounded(q, 0x4000_0000),
        bounded(a, 0x4000_0000),
        n <= q.len(),
        n <= a.len(),
    ensures
        gaps(difference(q, a), b, n) == two_level_gaps(q, a, b, n),
    decreases n,
{
    if n > 0 {
        lemma_two_level_gaps(q, a, b, (n - 1) as nat);
        let (x, y, z) = (q[n - 1], a[n - 1], b[n - 1]);
        assert(difference(q, a)[n - 1].raw == x.raw - y.raw);
        assert((x.raw - y.raw) - z.raw == x.raw - (y.raw + z.raw));
    }
}

/// The distance of a query to a code of two levels is the squared distance to the
/// sum of the vectors that its two parts stand for, with at most a unit of rounding
/// for each dimension.
pub proof fn lemma_rpq2_exact(pq: Rpq2<Fixed>, query: Seq<Fixed>, code: Seq<u8>)
    requires
        pq.wf(),
        query.len() == pq.width(),
        code.len() == pq.code_len(),
        bounded(query, 0x4000_0000),
        books_bounded(pq.coarse().books(), pq.coarse().sub(), 0x4000_0000),
        books_bounded(pq.residual().books(), pq.residual().sub(), 0x8000_0000),
    ensures
        ({
            let m = pq.coarse().blocks() as int;
            let first = vector_of(pq.coarse().books(), pq.coarse().sub(), code.take(m));
            let second = vector_of(pq.residual().books(), pq.residual().sub(), code.skip(m));
            close(
                0x1_0000 * pq.estimate(query, code).raw,
                two_level_gaps(query, first, second, query.len()),
                0x1_0000 * query.len(),
            )
        }),
{
    pq.lemma_wf();
    pq.coarse().lemma_wf();
    pq.residual().lemma_wf();
    let m = pq.coarse().blocks() as int;
    let (books, sub) = (pq.coarse().books(), pq.coarse().sub());
    let first = vector_of(books, sub, code.take(m));
    assert(first.len() == query.len());
    assert forall|i: int| 0 <= i < first.len() implies -0x4000_0000 <= (#[trigger] first[i]).raw
        <= 0x4000_0000 by {
        lemma_split(i, books.len(), sub);
        let j = i / sub as int;
        let c = books[j][code.take(m)[j] as int];
        assert(bounded(c, 0x4000_0000));
        assert(first[i] == c[i % sub as int]);
    }
    let rest = difference(query, first);
    assert forall|i: int| 0 <= i < rest.len() implies -0x8000_0000 <= (#[trigger] rest[i]).raw
        <= 0x8000_0000 by {
        assert(-0x4000_0000 <= first[i].raw <= 0x4000_0000);
        assert(-0x4000_0000 <= query[i].raw <= 0x4000_0000);
    }
    let second = vector_of(pq.residual().books(), pq.residual().sub(), code.skip(m));
    lemma_two_level_gaps(query, first, second, query.len());
    lemma_block_distances(
        pq.residual().books(),
        pq.residual().sub(),
        rest,
        code.skip(m),
        pq.residual().blocks(),
    );
}

proof fn lemma_split(i: int, blocks: nat, sub: nat)
    requires
        sub > 0,
        0 <= i < blocks * sub,
    ensures
        0 <= i / sub as int,
        i / (sub as int) < blocks,
        0 <= i % (sub as int) < sub,
{
    vstd::arithmetic::div_mod::lemma_fundamental_div_mod(i, sub as int);
    vstd::arithmetic::div_mod::lemma_mod_bound(i, sub as int);
    let (a, b, s) = (i / sub as int, i % sub as int, sub as int);
    assert(0 <= a < blocks) by (nonlinear_arith)
        requires
            i == s * a + b,
            0 <= b < s,
            0 <= i < blocks * s,
    ;
}

/// Scoring the codes of a database scores each row by the code of that row.
pub proof fn lemma_encoded_scores<R: Scalar, Q: Quantizer<R>>(
    q: Q,
    query: Seq<R>,
    table: Seq<Seq<R>>,
    i: int,
)
    requires
        0 <= i < table.len(),
    ensures
        estimates::<R, Q>(q, query, all_codes::<R, Q>(q, table)).len() == table.len(),
        estimates::<R, Q>(q, query, all_codes::<R, Q>(q, table))[i] == q.estimate(
            query,
            q.code(table[i]),
        ),
{
}

} // verus!
