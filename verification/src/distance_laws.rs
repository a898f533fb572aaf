//! What the distances measure, over fixed-point numbers.

use vstd::prelude::*;

use crate::exact::{bounded, close, gaps, lemma_gap, lemma_sq_l2_exact, lemma_sq_l2_upto};
use crate::linalg::{common, sq_l2_of, sq_l2_upto};
use crate::metric::{Cosine, Distance, SqL2};
use crate::roargraph::distance::{l2_sq_of, lane, tail};
use crate::scalar::{Fixed, Scalar};
use crate::serf::data::{gaps_upto, Squared};

verus! {

proof fn lemma_four_by_four(a: Seq<Fixed>, b: Seq<Fixed>, n: nat)
    requires
        bounded(a, 0x8000_0000),
        bounded(b, 0x8000_0000),
        n <= a.len(),
        n <= b.len(),
    ensures
        gaps_upto(a, b, n) == sq_l2_upto(a, b, n),
    decreases n,
{
    if n > 0 && n % 4 == 0 {
        let m = (n - 4) as nat;
        lemma_four_by_four(a, b, m);
        lemma_sq_l2_upto(a, b, m);
        let i = m as int;
        lemma_gap(a[i], b[i]);
        lemma_gap(a[i + 1], b[i + 1]);
        lemma_gap(a[i + 2], b[i + 2]);
        lemma_gap(a[i + 3], b[i + 3]);
        reveal_with_fuel(sq_l2_upto, 5);
        assert(sq_l2_upto(a, b, (m + 1) as nat) == crate::linalg::add_square(
            sq_l2_upto(a, b, m),
            a[m as int],
            b[m as int],
        ));
    } else if n > 0 {
        lemma_four_by_four(a, b, (n - 1) as nat);
    }
}

/// The squared distance that is summed up four by four is the exact sum of the squared
/// differences of the components, with at most a unit of rounding for each component.
pub proof fn lemma_serf_sq_l2_exact(a: Seq<Fixed>, b: Seq<Fixed>)
    requires
        bounded(a, 0x8000_0000),
        bounded(b, 0x8000_0000),
    ensures
        close(
            0x1_0000 * crate::serf::data::sq_l2_of(a, b).raw,
            gaps(a, b, common(a, b)),
            0x1_0000 * common(a, b),
        ),
        crate::serf::data::sq_l2_of(a, b).raw >= 0,
{
    lemma_four_by_four(a, b, common(a, b));
    lemma_sq_l2_exact(a, b);
}

proof fn lemma_lanes(a: Seq<Fixed>, b: Seq<Fixed>, chunks: nat)
    requires
        bounded(a, 0x8000_0000),
        bounded(b, 0x8000_0000),
        chunks * 4 <= a.len(),
        chunks * 4 <= b.len(),
    ensures
        lane(a, b, 0, chunks).raw >= 0,
        lane(a, b, 1, chunks).raw >= 0,
        lane(a, b, 2, chunks).raw >= 0,
        lane(a, b, 3, chunks).raw >= 0,
        lane(a, b, 0, chunks).raw + lane(a, b, 1, chunks).raw + lane(a, b, 2, chunks).raw + lane(
            a,
            b,
            3,
            chunks,
        ).raw == sq_l2_upto(a, b, chunks * 4).raw,
    decreases chunks,
{
    if chunks > 0 {
        let c = (chunks - 1) as nat;
        let m = c * 4;
        lemma_lanes(a, b, c);
        lemma_sq_l2_upto(a, b, m);
        let i = m as int;
        lemma_gap(a[i], b[i]);
        lemma_gap(a[i + 1], b[i + 1]);
        lemma_gap(a[i + 2], b[i + 2]);
        lemma_gap(a[i + 3], b[i + 3]);
        reveal_with_fuel(sq_l2_upto, 5);
    }
}

proof fn lemma_tail(s: Fixed, a: Seq<Fixed>, b: Seq<Fixed>, from: nat, to: nat)
    requires
        from <= to,
        s == sq_l2_upto(a, b, from),
    ensures
        tail(s, a, b, from as int, to as int) == sq_l2_upto(a, b, to),
    decreases to - from,
{
    if from < to {
        lemma_tail(s, a, b, from, (to - 1) as nat);
    }
}

/// The squared distance that is summed up in four lanes is the exact sum of the squared
/// differences of the components, with at most a unit of rounding for each component.
pub proof fn lemma_l2_sq_exact(a: Seq<Fixed>, b: Seq<Fixed>)
    requires
        bounded(a, 0x8000_0000),
        bounded(b, 0x8000_0000),
        a.len() == b.len(),
    ensures
        close(0x1_0000 * l2_sq_of(a, b).raw, gaps(a, b, a.len()), 0x1_0000 * a.len()),
        l2_sq_of(a, b).raw >= 0,
        l2_sq_of(a, b) == sq_l2_of(a, b),
{
    let n = a.len();
    let chunks = n / 4;
    lemma_lanes(a, b, chunks);
    lemma_sq_l2_upto(a, b, chunks * 4);
    let s = lane(a, b, 0, chunks).plus_of(lane(a, b, 1, chunks)).plus_of(
        lane(a, b, 2, chunks),
    ).plus_of(lane(a, b, 3, chunks));
    assert(s == sq_l2_upto(a, b, chunks * 4));
    lemma_tail(s, a, b, chunks * 4, n);
    lemma_sq_l2_exact(a, b);
}

proof fn lemma_gaps_symmetric(a: Seq<Fixed>, b: Seq<Fixed>, n: nat)
    ensures
        gaps(a, b, n) == gaps(b, a, n),
        gaps(a, a, n) == 0,
    decreases n,
{
    if n > 0 {
        lemma_gaps_symmetric(a, b, (n - 1) as nat);
        let (x, y) = (a[n - 1].raw, b[n - 1].raw);
        assert((x - y) * (x - y) == (y - x) * (y - x) && (x - x) * (x - x) == 0)
            by (nonlinear_arith);
    }
}

/// Distances rank vectors by the exact sums of squared differences: what is nearer by
/// more than rounding has the smaller key, under each of the two metrics; a vector has
/// distance zero to itself; and distances are symmetric but for rounding.
pub proof fn lemma_distance_keys(q: Seq<Fixed>, a: Seq<Fixed>, b: Seq<Fixed>)
    requires
        bounded(q, 0x8000_0000),
        bounded(a, 0x8000_0000),
        bounded(b, 0x8000_0000),
        q.len() == a.len() == b.len(),
    ensures
        gaps(q, a, q.len()) + 0x1_0000 * q.len() < gaps(q, b, q.len()) ==> SqL2.spec_key(q, a)
            < SqL2.spec_key(q, b),
        gaps(q, a, q.len()) + 0x1_0000 * q.len() < gaps(q, b, q.len()) ==> Squared.spec_key(q, a)
            < Squared.spec_key(q, b),
        SqL2.spec_key(q, q) == Fixed::zero_of().key_of(),
        Squared.spec_key(q, q) == Fixed::zero_of().key_of(),
        close(SqL2.spec_key(q, a) as int, SqL2.spec_key(a, q) as int, q.len()),
        close(Squared.spec_key(q, a) as int, Squared.spec_key(a, q) as int, q.len()),
{
    let n = q.len();
    lemma_sq_l2_upto(q, a, n);
    lemma_sq_l2_upto(q, b, n);
    lemma_sq_l2_upto(a, q, n);
    lemma_sq_l2_upto(q, q, n);
    lemma_four_by_four(q, a, n);
    lemma_four_by_four(q, b, n);
    lemma_four_by_four(a, q, n);
    lemma_four_by_four(q, q, n);
    lemma_gaps_symmetric(q, a, n);
    assert(common(q, a) == n && common(q, b) == n && common(a, q) == n && common(q, q) == n);
}

/// Similarities rank vectors by the cosine: the greater cosine has the greater key.
pub proof fn lemma_cosine_keys(q: Seq<Fixed>, a: Seq<Fixed>, b: Seq<Fixed>)
    ensures
        Cosine.spec_key(q, a) < Cosine.spec_key(q, b) <==> crate::linalg::cosine_of(q, a).raw
            < crate::linalg::cosine_of(q, b).raw,
{
}

} // verus!
