//! What sums over fixed-point vectors are worth as whole numbers.
//!
//! A fixed-point number counts units of 2^-16, so a product of two of them counts
//! units of 2^-32. The sums of this module are taken over whole numbers and are not
//! rounded; the laws say how near the computed sums come to them.

use vstd::prelude::*;

use crate::linalg::{common, cosine_of, dot_of, dot_upto, sq_l2_of, sq_l2_upto};
use crate::scalar::{is_root, root, Fixed, Scalar};

verus! {

/// `x` and `y` differ by no more than `e`.
pub open spec fn close(x: int, y: int, e: nat) -> bool {
    -e <= x - y <= e
}

/// There are no more than 16384 components, and none is farther than `m` units
/// from zero.
pub open spec fn bounded(v: Seq<Fixed>, m: int) -> bool {
    v.len() <= 0x4000 && forall|i: int| 0 <= i < v.len() ==> -m <= (#[trigger] v[i]).raw <= m
}

/// The sum of the products of the first `n` components.
pub open spec fn products(a: Seq<Fixed>, b: Seq<Fixed>, n: nat) -> int
    decreases n,
{
    if n == 0 {
        0
    } else {
        products(a, b, (n - 1) as nat) + a[n - 1].raw * b[n - 1].raw
    }
}

/// The sum of the squared differences of the first `n` components.
pub open spec fn gaps(a: Seq<Fixed>, b: Seq<Fixed>, n: nat) -> int
    decreases n,
{
    if n == 0 {
        0
    } else {
        gaps(a, b, (n - 1) as nat) + (a[n - 1].raw - b[n - 1].raw) * (a[n - 1].raw - b[n - 1].raw)
    }
}

/// A product of fixed-point numbers that fits is the exact one, rounded towards
/// zero.
pub proof fn lemma_times(a: Fixed, b: Fixed)
    requires
        -0x7FFF_FFFF_FFFF_FFFF * 0x1_0000 <= a.raw * b.raw <= 0x7FFF_FFFF_FFFF_FFFF * 0x1_0000,
    ensures
        -0x1_0000 < a.raw * b.raw - 0x1_0000 * a.times_of(b).raw < 0x1_0000,
        a.raw * b.raw >= 0 ==> 0 <= 0x1_0000 * a.times_of(b).raw <= a.raw * b.raw,
        a.raw * b.raw <= 0 ==> a.raw * b.raw <= 0x1_0000 * a.times_of(b).raw <= 0,
{
}

/// A quotient of fixed-point numbers that fits is the exact one, rounded towards
/// zero.
pub proof fn lemma_over(a: Fixed, b: Fixed)
    requires
        b.raw > 0,
        -0x7FFF_FFFF_FFFF_FFFF * b.raw <= a.raw * 0x1_0000 <= 0x7FFF_FFFF_FFFF_FFFF * b.raw,
    ensures
        -b.raw < a.raw * 0x1_0000 - a.over_of(b).raw * b.raw < b.raw,
        a.raw >= 0 ==> 0 <= a.over_of(b).raw * b.raw <= a.raw * 0x1_0000,
        a.raw <= 0 ==> a.raw * 0x1_0000 <= a.over_of(b).raw * b.raw <= 0,
        a.raw >= 0 ==> a.over_of(b).raw >= 0,
        a.raw <= 0 ==> a.over_of(b).raw <= 0,
{
    let x = a.raw * 0x1_0000;
    let y = b.raw as int;
    let size = if x >= 0 {
        x
    } else {
        -x
    };
    let q = size / y;
    vstd::arithmetic::div_mod::lemma_fundamental_div_mod(size, y);
    vstd::arithmetic::div_mod::lemma_mod_bound(size, y);
    assert(y * q == q * y) by (nonlinear_arith);
    assert(0 <= q <= 0x7FFF_FFFF_FFFF_FFFF) by (nonlinear_arith)
        requires
            y > 0,
            0 <= size <= 0x7FFF_FFFF_FFFF_FFFF * y,
            q * y <= size < q * y + y,
    ;
    assert((-q) * y == -(q * y)) by (nonlinear_arith);
}

/// The inner product of two vectors is the exact sum of the products of their
/// components, with at most a unit of rounding for each component.
pub proof fn lemma_dot_exact(a: Seq<Fixed>, b: Seq<Fixed>)
    requires
        bounded(a, 0x8000_0000),
        bounded(b, 0x8000_0000),
    ensures
        close(
            0x1_0000 * dot_of(a, b).raw,
            products(a, b, common(a, b)),
            0x1_0000 * common(a, b),
        ),
        close(dot_of(a, b).raw as int, 0, 0x4000_0000_0000 * common(a, b)),
{
    lemma_dot_upto(a, b, common(a, b));
}

/// The inner product over the first components.
pub proof fn lemma_dot_upto(a: Seq<Fixed>, b: Seq<Fixed>, n: nat)
    requires
        bounded(a, 0x8000_0000),
        bounded(b, 0x8000_0000),
        n <= a.len(),
        n <= b.len(),
    ensures
        close(0x1_0000 * dot_upto(a, b, n).raw, products(a, b, n), 0x1_0000 * n),
        close(dot_upto(a, b, n).raw as int, 0, 0x4000_0000_0000 * n),
    decreases n,
{
    if n > 0 {
        lemma_dot_upto(a, b, (n - 1) as nat);
        let x = a[n - 1];
        let y = b[n - 1];
        let p = x.raw * y.raw;
        assert(-0x8000_0000 * 0x8000_0000 <= p <= 0x8000_0000 * 0x8000_0000) by (nonlinear_arith)
            requires
                p == x.raw * y.raw,
                -0x8000_0000 <= x.raw <= 0x8000_0000,
                -0x8000_0000 <= y.raw <= 0x8000_0000,
        ;
        lemma_times(x, y);
    }
}

/// The squared distance of two vectors is the exact sum of the squared differences
/// of their components, with at most a unit of rounding for each component.
pub proof fn lemma_sq_l2_exact(a: Seq<Fixed>, b: Seq<Fixed>)
    requires
        bounded(a, 0x8000_0000),
        bounded(b, 0x8000_0000),
    ensures
        close(
            0x1_0000 * sq_l2_of(a, b).raw,
            gaps(a, b, common(a, b)),
            0x1_0000 * common(a, b),
        ),
        0 <= sq_l2_of(a, b).raw <= 0x1_0000_0000_0000 * common(a, b),
{
    lemma_sq_l2_upto(a, b, common(a, b));
}

/// The squared difference of two components.
pub proof fn lemma_gap(x: Fixed, y: Fixed)
    requires
        -0x8000_0000 <= x.raw <= 0x8000_0000,
        -0x8000_0000 <= y.raw <= 0x8000_0000,
    ensures
        x.minus_of(y).raw == x.raw - y.raw,
        0 <= 0x1_0000 * x.minus_of(y).times_of(x.minus_of(y)).raw <= (x.raw - y.raw) * (x.raw
            - y.raw),
        (x.raw - y.raw) * (x.raw - y.raw) - 0x1_0000 < 0x1_0000 * x.minus_of(y).times_of(
            x.minus_of(y),
        ).raw,
        0 <= (x.raw - y.raw) * (x.raw - y.raw) <= 0x1_0000_0000 * 0x1_0000_0000,
{
    let d = x.minus_of(y);
    let p = d.raw * d.raw;
    assert(0 <= p <= 0x1_0000_0000 * 0x1_0000_0000) by (nonlinear_arith)
        requires
            p == d.raw * d.raw,
            -0x1_0000_0000 <= d.raw <= 0x1_0000_0000,
    ;
    lemma_times(d, d);
}

/// The squared distance over the first components.
pub proof fn lemma_sq_l2_upto(a: Seq<Fixed>, b: Seq<Fixed>, n: nat)
    requires
        bounded(a, 0x8000_0000),
        bounded(b, 0x8000_0000),
        n <= a.len(),
        n <= b.len(),
    ensures
        close(0x1_0000 * sq_l2_upto(a, b, n).raw, gaps(a, b, n), 0x1_0000 * n),
        0 <= sq_l2_upto(a, b, n).raw <= 0x1_0000_0000_0000 * n,
        0x1_0000 * sq_l2_upto(a, b, n).raw <= gaps(a, b, n),
    decreases n,
{
    if n > 0 {
        lemma_sq_l2_upto(a, b, (n - 1) as nat);
        lemma_gap(a[n - 1], b[n - 1]);
    }
}

/// The whole number `r` whose square is the greatest one up to `x`.
pub proof fn lemma_root(x: nat)
    requires
        x <= 0xFFFF_FFFF_FFFF_FFFF,
    ensures
        is_root(root(x), x),
{
    lemma_root_exists(x);
}

proof fn lemma_root_exists(x: nat)
    ensures
        exists|r: nat| is_root(r, x),
    decreases x,
{
    if x == 0 {
        assert(0nat * 0nat == 0 && (0nat + 1) * (0nat + 1) == 1) by (nonlinear_arith);
        assert(is_root(0, 0));
    } else {
        let y = (x - 1) as nat;
        lemma_root_exists(y);
        let r = choose|r: nat| is_root(r, y);
        if (r + 1) * (r + 1) <= x {
            assert((r + 2) * (r + 2) > x) by (nonlinear_arith)
                requires
                    x - 1 < (r + 1) * (r + 1),
                    r >= 0,
            ;
            assert(is_root(r + 1, x));
        } else {
            assert(is_root(r, x));
        }
    }
}

/// The number of units without the sign.
pub open spec fn size_of(x: Fixed) -> int {
    if x.raw >= 0 {
        x.raw as int
    } else {
        -x.raw
    }
}

/// The inner product is no greater than 2^30 and the norms are not zero.
pub open spec fn comparable(a: Seq<Fixed>, b: Seq<Fixed>) -> bool {
    &&& a.len() == b.len() > 0
    &&& size_of(dot_of(a, b)) <= 0x4000_0000_0000
    &&& 0 < dot_of(a, a).raw <= 0x4000_0000_0000
    &&& 0 < dot_of(b, b).raw <= 0x4000_0000_0000
}

proof fn lemma_cosine_quotient(a: Seq<Fixed>, b: Seq<Fixed>, ra: nat, rb: nat)
    requires
        comparable(a, b),
        is_root(ra, dot_of(a, a).raw as nat),
        is_root(rb, dot_of(b, b).raw as nat),
    ensures
        ra > 0,
        rb > 0,
        size_of(cosine_of(a, b)) * (ra * rb) <= 0x1_0000 * size_of(dot_of(a, b)),
        0x1_0000 * size_of(dot_of(a, b)) < (size_of(cosine_of(a, b)) + 1) * (ra * rb),
        dot_of(a, b).raw >= 0 ==> cosine_of(a, b).raw >= 0,
        dot_of(a, b).raw <= 0 ==> cosine_of(a, b).raw <= 0,
{
    let na = dot_of(a, a);
    let nb = dot_of(b, b);
    let d = dot_of(a, b);
    lemma_root(na.raw as nat);
    lemma_root(nb.raw as nat);
    crate::scalar::lemma_root_unique(ra, root(na.raw as nat), na.raw as nat);
    crate::scalar::lemma_root_unique(rb, root(nb.raw as nat), nb.raw as nat);
    assert(0 < ra <= 0x80_0000) by (nonlinear_arith)
        requires
            ra * ra <= 0x4000_0000_0000,
            0 < na.raw < (ra + 1) * (ra + 1),
    ;
    assert(0 < rb <= 0x80_0000) by (nonlinear_arith)
        requires
            rb * rb <= 0x4000_0000_0000,
            0 < nb.raw < (rb + 1) * (rb + 1),
    ;
    let sa = na.sqrt_of();
    let sb = nb.sqrt_of();
    assert(sa.raw == ra * 0x100 && sb.raw == rb * 0x100);
    let m = ra * rb;
    assert(0 < m <= 0x80_0000 * 0x80_0000) by (nonlinear_arith)
        requires
            m == ra * rb,
            0 < ra <= 0x80_0000,
            0 < rb <= 0x80_0000,
    ;
    assert(sa.raw * sb.raw == m * 0x1_0000) by (nonlinear_arith)
        requires
            sa.raw == ra * 0x100,
            sb.raw == rb * 0x100,
            m == ra * rb,
    ;
    lemma_times(sa, sb);
    let den = sa.times_of(sb);
    assert(den.raw == m);
    assert(crate::linalg::tiny::<Fixed>().raw == 0);
    lemma_over(d, den);
    let c = cosine_of(a, b);
    assert(c == d.over_of(den));
    let (x, y) = (size_of(c), size_of(d));
    assert(x * m <= 0x1_0000 * y && 0x1_0000 * y < (x + 1) * m) by (nonlinear_arith)
        requires
            m > 0,
            c.raw >= 0 ==> x == c.raw,
            c.raw < 0 ==> x == -c.raw,
            d.raw >= 0 ==> y == d.raw && c.raw >= 0,
            d.raw < 0 ==> y == -d.raw && c.raw <= 0,
            -m < d.raw * 0x1_0000 - c.raw * m < m,
            d.raw >= 0 ==> c.raw * m <= d.raw * 0x1_0000,
            d.raw < 0 ==> d.raw * 0x1_0000 <= c.raw * m,
    ;
}

/// The cosine of the angle between two vectors, times the product of their norms,
/// is their inner product, and it has the sign of the inner product. Norms are
/// given by their squares; `ra` and `rb` are whole numbers next to the roots of
/// these, and the tolerance is that of rounding the roots and the quotient.
pub proof fn lemma_cosine_exact(a: Seq<Fixed>, b: Seq<Fixed>, ra: nat, rb: nat)
    requires
        comparable(a, b),
        is_root(ra, dot_of(a, a).raw as nat),
        is_root(rb, dot_of(b, b).raw as nat),
    ensures
        ({
            let c = size_of(cosine_of(a, b));
            let d = size_of(dot_of(a, b));
            let squares = dot_of(a, a).raw * dot_of(b, b).raw;
            let near = 0x1_0000 * d + c * (ra + rb + 1);
            &&& (0x1_0000 * d) * (0x1_0000 * d) < ((c + 1) * (c + 1)) * squares
            &&& (c * c) * squares <= near * near
        }),
        dot_of(a, b).raw >= 0 ==> cosine_of(a, b).raw >= 0,
        dot_of(a, b).raw <= 0 ==> cosine_of(a, b).raw <= 0,
{
    lemma_cosine_quotient(a, b, ra, rb);
    let c = size_of(cosine_of(a, b));
    let d = 0x1_0000 * size_of(dot_of(a, b));
    let x = dot_of(a, a).raw as int;
    let y = dot_of(b, b).raw as int;
    let m = ra * rb;
    let near = d + c * (ra + rb + 1);
    assert(m * m <= x * y) by (nonlinear_arith)
        requires
            m == ra * rb,
            0 <= ra * ra <= x,
            0 <= rb * rb <= y,
    ;
    lemma_square_less(d, (c + 1) * m);
    assert(((c + 1) * m) * ((c + 1) * m) == ((c + 1) * (c + 1)) * (m * m)) by (nonlinear_arith);
    assert(((c + 1) * (c + 1)) * (m * m) <= ((c + 1) * (c + 1)) * (x * y)) by (nonlinear_arith)
        requires
            m * m <= x * y,
            c >= 0,
    ;
    let up = (ra + 1) * (rb + 1);
    assert(x * y <= up * up) by (nonlinear_arith)
        requires
            up == (ra + 1) * (rb + 1),
            0 <= x <= (ra + 1) * (ra + 1),
            0 <= y <= (rb + 1) * (rb + 1),
    ;
    assert(c * up == c * m + c * (ra + rb + 1)) by (nonlinear_arith)
        requires
            up == (ra + 1) * (rb + 1),
            m == ra * rb,
    ;
    assert(0 <= c * up) by (nonlinear_arith)
        requires
            c >= 0,
            up >= 0,
    ;
    assert((c * c) * (x * y) <= (c * c) * (up * up)) by (nonlinear_arith)
        requires
            x * y <= up * up,
    ;
    assert((c * c) * (up * up) == (c * up) * (c * up)) by (nonlinear_arith);
    assert((c * up) * (c * up) <= near * near) by (nonlinear_arith)
        requires
            0 <= c * up <= near,
    ;
}

proof fn lemma_square_less(a: int, b: int)
    requires
        0 <= a < b,
    ensures
        a * a < b * b,
{
    assert(a * a < b * b) by (nonlinear_arith)
        requires
            0 <= a < b,
    ;
}

/// A vector has a similarity of one with itself; rounding the norm takes it no
/// farther above one than three units of the norm's root, and never below.
pub proof fn lemma_cosine_self(a: Seq<Fixed>, r: nat)
    requires
        comparable(a, a),
        is_root(r, dot_of(a, a).raw as nat),
    ensures
        cosine_of(a, a).raw >= 0x1_0000,
        (cosine_of(a, a).raw - 0x1_0000) * r <= 3 * 0x1_0000,
{
    lemma_cosine_quotient(a, a, r, r);
    let c = cosine_of(a, a).raw as int;
    let n = dot_of(a, a).raw as int;
    let m = r * r;
    assert(m > 0) by (nonlinear_arith)
        requires
            m == r * r,
            r > 0,
    ;
    assert(c >= 0x1_0000) by (nonlinear_arith)
        requires
            m <= n,
            m > 0,
            0x1_0000 * n < (c + 1) * m,
    ;
    assert((r + 1) * (r + 1) == m + 2 * r + 1) by (nonlinear_arith)
        requires
            m == r * r,
    ;
    assert((c - 0x1_0000) * m <= 0x1_0000 * (2 * r)) by (nonlinear_arith)
        requires
            c * m <= 0x1_0000 * n,
            n <= m + 2 * r,
    ;
    assert((c - 0x1_0000) * r <= 3 * 0x1_0000) by (nonlinear_arith)
        requires
            (c - 0x1_0000) * m <= 0x1_0000 * (2 * r),
            m == r * r,
            r > 0,
    ;
}

/// The similarity of two vectors does not depend on their lengths: it stays the
/// same, but for the rounding of the norm, where one of them becomes `k` times as
/// long and its products are not rounded.
pub proof fn lemma_cosine_scaled(a: Seq<Fixed>, b: Seq<Fixed>, longer: Seq<Fixed>, k: int, r: nat)
    requires
        k >= 1,
        comparable(a, b),
        comparable(longer, b),
        scaled(a, longer, k),
        eight_places(a),
        eight_places(b),
        bounded(a, 0x8000_0000),
        bounded(b, 0x8000_0000),
        bounded(longer, 0x8000_0000),
        is_root(r, dot_of(a, a).raw as nat),
    ensures
        size_of(cosine_of(longer, b)) <= size_of(cosine_of(a, b)),
        size_of(cosine_of(a, b)) * r < (size_of(cosine_of(longer, b)) + 1) * (r + 1),
        cosine_of(a, b).raw > 0 ==> cosine_of(longer, b).raw >= 0,
        cosine_of(a, b).raw < 0 ==> cosine_of(longer, b).raw <= 0,
{
    let na = dot_of(a, a).raw as nat;
    let nl = dot_of(longer, longer).raw as nat;
    let nb = dot_of(b, b).raw as nat;
    lemma_root(na);
    lemma_root(nb);
    lemma_root(nl);
    let rb = root(nb);
    let rl = root(nl);
    assert(eight_places(longer)) by {
        assert forall|i: int| 0 <= i < longer.len() implies (#[trigger] longer[i]).raw % 0x100
            == 0 by {
            lemma_multiple(a[i].raw as int, k);
            assert(a[i].raw % 0x100 == 0);
        }
    }
    lemma_exact_products(a, b, a.len());
    lemma_exact_products(longer, b, a.len());
    lemma_exact_products(a, a, a.len());
    lemma_exact_products(longer, longer, a.len());
    lemma_scaled_products(a, longer, b, k, a.len());
    lemma_scaled_squares(a, longer, k, a.len());
    let d = dot_of(a, b).raw as int;
    let e = dot_of(longer, b).raw as int;
    assert(e == k * d) by (nonlinear_arith)
        requires
            0x1_0000 * e == k * (0x1_0000 * d),
    ;
    assert(nl == k * k * na) by (nonlinear_arith)
        requires
            0x1_0000 * nl == k * k * (0x1_0000 * na),
    ;
    lemma_cosine_quotient(a, b, r, rb);
    lemma_cosine_quotient(longer, b, rl, rb);
    assert(k * r <= rl < k * (r + 1)) by (nonlinear_arith)
        requires
            k >= 1,
            r * r <= na < (r + 1) * (r + 1),
            rl * rl <= nl < (rl + 1) * (rl + 1),
            nl == k * k * na,
            r >= 0,
            rl >= 0,
    ;
    let (x, y) = (size_of(cosine_of(a, b)), size_of(cosine_of(longer, b)));
    let (p, q) = (size_of(dot_of(a, b)), size_of(dot_of(longer, b)));
    assert(q == k * p) by (nonlinear_arith)
        requires
            e == k * d,
            k >= 1,
            d >= 0 ==> p == d,
            d < 0 ==> p == -d,
            e >= 0 ==> q == e,
            e < 0 ==> q == -e,
    ;
    lemma_scaled_bounds(x, y, p, k, r as int, rl as int, rb as int);
    assert(d > 0 ==> e > 0) by (nonlinear_arith)
        requires
            e == k * d,
            k >= 1,
    ;
    assert(d < 0 ==> e < 0) by (nonlinear_arith)
        requires
            e == k * d,
            k >= 1,
    ;
}

proof fn lemma_scaled_bounds(x: int, y: int, p: int, k: int, r: int, rl: int, rb: int)
    requires
        x >= 0,
        y >= 0,
        p >= 0,
        k >= 1,
        r > 0,
        rb > 0,
        k * r <= rl < k * (r + 1),
        x * (r * rb) <= 0x1_0000 * p < (x + 1) * (r * rb),
        y * (rl * rb) <= 0x1_0000 * (k * p) < (y + 1) * (rl * rb),
    ensures
        y <= x,
        x * r < (y + 1) * (r + 1),
{
    assert(k * (0x1_0000 * p) == 0x1_0000 * (k * p)) by (nonlinear_arith);
    assert(k * (0x1_0000 * p) < k * ((x + 1) * (r * rb))) by (nonlinear_arith)
        requires
            0x1_0000 * p < (x + 1) * (r * rb),
            k >= 1,
    ;
    assert(k * ((x + 1) * (r * rb)) == (x + 1) * ((k * r) * rb)) by (nonlinear_arith);
    assert(y * ((k * r) * rb) <= y * (rl * rb)) by (nonlinear_arith)
        requires
            y >= 0,
            rb > 0,
            k * r <= rl,
    ;
    let m = (k * r) * rb;
    assert(m > 0) by (nonlinear_arith)
        requires
            m == (k * r) * rb,
            k >= 1,
            r > 0,
            rb > 0,
    ;
    assert(y <= x) by (nonlinear_arith)
        requires
            y * m < (x + 1) * m,
            m > 0,
    ;
    assert(k * (x * (r * rb)) <= k * (0x1_0000 * p)) by (nonlinear_arith)
        requires
            x * (r * rb) <= 0x1_0000 * p,
            k >= 1,
    ;
    assert((y + 1) * (rl * rb) <= (y + 1) * ((k * (r + 1)) * rb)) by (nonlinear_arith)
        requires
            y >= 0,
            rb > 0,
            rl < k * (r + 1),
    ;
    assert(k * (x * (r * rb)) == (x * r) * (k * rb)) by (nonlinear_arith);
    assert((y + 1) * ((k * (r + 1)) * rb) == ((y + 1) * (r + 1)) * (k * rb)) by (nonlinear_arith);
    let w = k * rb;
    assert(w > 0) by (nonlinear_arith)
        requires
            w == k * rb,
            k >= 1,
            rb > 0,
    ;
    let (u, v) = (x * r, (y + 1) * (r + 1));
    assert(u < v) by (nonlinear_arith)
        requires
            u * w < v * w,
            w > 0,
    ;
}

/// `longer` is `k` times `a`.
pub open spec fn scaled(a: Seq<Fixed>, longer: Seq<Fixed>, k: int) -> bool {
    longer.len() == a.len() && forall|i: int|
        0 <= i < a.len() ==> (#[trigger] longer[i]).raw == k * a[i].raw
}

/// No component has more than eight binary places, so that products are exact.
pub open spec fn eight_places(v: Seq<Fixed>) -> bool {
    forall|i: int| 0 <= i < v.len() ==> (#[trigger] v[i]).raw % 0x100 == 0
}

proof fn lemma_multiple(x: int, k: int)
    requires
        x % 0x100 == 0,
    ensures
        (k * x) % 0x100 == 0,
{
    let q = x / 0x100;
    assert(k * x == 0x100 * (k * q)) by (nonlinear_arith)
        requires
            x == 0x100 * q,
    ;
}

/// Products of components with eight binary places are not rounded.
pub proof fn lemma_exact_products(a: Seq<Fixed>, b: Seq<Fixed>, n: nat)
    requires
        bounded(a, 0x8000_0000),
        bounded(b, 0x8000_0000),
        eight_places(a),
        eight_places(b),
        n <= a.len(),
        n <= b.len(),
    ensures
        0x1_0000 * dot_upto(a, b, n).raw == products(a, b, n),
    decreases n,
{
    if n > 0 {
        lemma_exact_products(a, b, (n - 1) as nat);
        lemma_dot_upto(a, b, (n - 1) as nat);
        let x = a[n - 1].raw as int;
        let y = b[n - 1].raw as int;
        assert(x % 0x100 == 0 && y % 0x100 == 0);
        let p = x * y;
        let (u, v) = (x / 0x100, y / 0x100);
        assert(p == 0x1_0000 * (u * v)) by (nonlinear_arith)
            requires
                p == x * y,
                x == 0x100 * u,
                y == 0x100 * v,
        ;
        assert(-0x8000_0000 * 0x8000_0000 <= p <= 0x8000_0000 * 0x8000_0000) by (nonlinear_arith)
            requires
                p == x * y,
                -0x8000_0000 <= x <= 0x8000_0000,
                -0x8000_0000 <= y <= 0x8000_0000,
        ;
        lemma_times(a[n - 1], b[n - 1]);
    }
}

/// Scaling one vector scales the sum of the products.
pub proof fn lemma_scaled_products(
    a: Seq<Fixed>,
    longer: Seq<Fixed>,
    b: Seq<Fixed>,
    k: int,
    n: nat,
)
    requires
        scaled(a, longer, k),
        n <= a.len(),
        n <= b.len(),
    ensures
        products(longer, b, n) == k * products(a, b, n),
        products(b, longer, n) == k * products(b, a, n),
    decreases n,
{
    if n > 0 {
        lemma_scaled_products(a, longer, b, k, (n - 1) as nat);
        let x = a[n - 1].raw as int;
        let z = longer[n - 1].raw as int;
        let y = b[n - 1].raw as int;
        let s = products(a, b, (n - 1) as nat);
        let t = products(b, a, (n - 1) as nat);
        assert(z == k * x);
        assert(k * s + z * y == k * (s + x * y)) by (nonlinear_arith)
            requires
                z == k * x,
        ;
        assert(k * t + y * z == k * (t + y * x)) by (nonlinear_arith)
            requires
                z == k * x,
        ;
    }
}

/// Scaling a vector scales its squared norm by the square.
pub proof fn lemma_scaled_squares(a: Seq<Fixed>, longer: Seq<Fixed>, k: int, n: nat)
    requires
        scaled(a, longer, k),
        n <= a.len(),
    ensures
        products(longer, longer, n) == k * k * products(a, a, n),
{
    lemma_scaled_products(a, longer, longer, k, n);
    lemma_scaled_products(a, longer, a, k, n);
    assert(k * (k * products(a, a, n)) == k * k * products(a, a, n)) by (nonlinear_arith);
}

/// The first `n` weights in units, summed up.
pub open spec fn exact_weight(weights: Seq<Fixed>, n: nat) -> int
    decreases n,
{
    if n == 0 {
        0
    } else {
        exact_weight(weights, (n - 1) as nat) + weights[n - 1].raw
    }
}

/// Weights are not negative, and their sum fits.
pub open spec fn summable(weights: Seq<Fixed>) -> bool {
    &&& weights.len() > 0
    &&& forall|i: int| 0 <= i < weights.len() ==> (#[trigger] weights[i]).raw >= 0
    &&& exact_weight(weights, weights.len()) <= 0x4000_0000_0000_0000
}

/// Sums of weights do not fall.
pub proof fn lemma_weight_rises(weights: Seq<Fixed>, m: nat, n: nat)
    requires
        m <= n <= weights.len(),
        forall|i: int| 0 <= i < weights.len() ==> (#[trigger] weights[i]).raw >= 0,
    ensures
        0 <= exact_weight(weights, m) <= exact_weight(weights, n),
    decreases n,
{
    if n > 0 {
        lemma_weight_rises(
            weights,
            if m < n {
                m
            } else {
                (m - 1) as nat
            },
            (n - 1) as nat,
        );
        assert(weights[n - 1].raw >= 0);
    }
}

/// A quotient of whole numbers is the exact one, rounded down.
pub proof fn lemma_ratio(num: u64, den: u64)
    requires
        den > 0,
        num * 0x1_0000 <= 0x7FFF_FFFF_FFFF_FFFF * den,
    ensures
        ({
            let r = Fixed::ratio_of(num, den).raw;
            0 <= r * den <= num * 0x1_0000 < r * den + den
        }),
{
    let (x, y) = (num * 0x1_0000, den as int);
    let q = x / y;
    vstd::arithmetic::div_mod::lemma_fundamental_div_mod(x, y);
    vstd::arithmetic::div_mod::lemma_mod_bound(x, y);
    assert(y * q == q * y) by (nonlinear_arith);
    assert(0 <= q <= 0x7FFF_FFFF_FFFF_FFFF) by (nonlinear_arith)
        requires
            y > 0,
            0 <= x <= 0x7FFF_FFFF_FFFF_FFFF * y,
            q * y <= x < q * y + y,
    ;
}

/// A square root, squared, is the number, with the tolerance of a root that is rounded
/// down to eight binary places.
pub proof fn lemma_sqrt(x: Fixed)
    requires
        x.raw >= 0,
    ensures
        ({
            let r = x.sqrt_of().raw;
            &&& r >= 0
            &&& r * r <= 0x1_0000 * x.raw < (r + 0x100) * (r + 0x100)
        }),
{
    let n = x.raw as nat;
    lemma_root(n);
    let s = root(n);
    assert(s <= 0xFFFF_FFFF) by (nonlinear_arith)
        requires
            s * s <= 0x7FFF_FFFF_FFFF_FFFF,
    ;
    if x.raw == 0 {
        assert((0int + 0x100) * (0int + 0x100) == 0x1_0000 && 0int * 0int == 0) by (nonlinear_arith);
    } else {
        let r = x.sqrt_of().raw as int;
        assert(r == 0x100 * s);
        assert(r * r == 0x1_0000 * (s * s) && (r + 0x100) * (r + 0x100) == 0x1_0000 * ((s + 1) * (s
            + 1))) by (nonlinear_arith)
            requires
                r == 0x100 * s,
        ;
    }
}

/// The byte of a number is the nearest whole number that is a byte.
pub proof fn lemma_byte(x: Fixed)
    ensures
        ({
            let b = x.byte_of() as int;
            &&& 0x1_0000 * b - x.raw <= 0x8000 || b == 0
            &&& x.raw - 0x1_0000 * b < 0x8000 || b == 255
        }),
{
}

/// The nearest whole number is no farther than a half, and halves go away from zero.
pub proof fn lemma_nearest(x: Fixed)
    requires
        -0x7FFF_FFFF_FFFF_0000 <= x.raw <= 0x7FFF_FFFF_FFFF_0000,
    ensures
        ({
            let n = x.nearest_of() as int;
            &&& x.raw >= 0 ==> -0x8000 <= x.raw - 0x1_0000 * n < 0x8000
            &&& x.raw <= 0 ==> -0x8000 < x.raw - 0x1_0000 * n <= 0x8000
        }),
{
}

} // verus!
