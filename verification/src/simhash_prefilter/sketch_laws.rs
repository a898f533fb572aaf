//! What the bits of a sketch tell, over fixed-point numbers.

use vstd::prelude::*;

use crate::exact::{bounded, lemma_times, scaled};
use crate::scalar::{whole, Fixed, Scalar};
use crate::simhash_prefilter::family::{sides, sign_value, signed_sum, SketchFamily, SrpFamily};

verus! {

/// The inner product of a hyperplane's signs with the first `n` components, in units.
pub open spec fn along(signs: Seq<i8>, v: Seq<Fixed>, n: nat) -> int
    decreases n,
{
    if n == 0 {
        0
    } else {
        along(signs, v, (n - 1) as nat) + if signs[n - 1] > 0 {
            v[n - 1].raw as int
        } else {
            -v[n - 1].raw
        }
    }
}

proof fn lemma_along(signs: Seq<i8>, v: Seq<Fixed>, n: nat)
    requires
        bounded(v, 0x8000_0000),
        n <= v.len(),
    ensures
        signed_sum(signs, v, n).raw == along(signs, v, n),
        -0x8000_0000 * n <= along(signs, v, n) <= 0x8000_0000 * n,
    decreases n,
{
    if n > 0 {
        lemma_along(signs, v, (n - 1) as nat);
        let x = v[n - 1];
        assert(-0x8000_0000 <= x.raw <= 0x8000_0000);
        let s = sign_value::<Fixed>(signs[n - 1]);
        assert(whole::<Fixed>(1).raw == 0x1_0000);
        if signs[n - 1] > 0 {
            assert(s.raw == 0x1_0000);
            assert(s.raw * x.raw == 0x1_0000 * x.raw);
            lemma_times(s, x);
            assert(s.times_of(x).raw == x.raw);
        } else {
            assert(s.raw == -0x1_0000);
            assert(s.raw * x.raw == -0x1_0000 * x.raw);
            lemma_times(s, x);
            assert(s.times_of(x).raw == -x.raw);
        }
    }
}

/// Each bit of a sketch tells on which side of a hyperplane the vector lies: it is set
/// where the inner product with the hyperplane's signs is not negative.
pub proof fn lemma_sketch_sides<const W: usize>(family: SrpFamily<W>, v: Seq<Fixed>)
    requires
        v.len() == family.columns(),
        bounded(v, 0x8000_0000),
    ensures
        ({
            let bits = SketchFamily::<Fixed, W>::sketch_of(&family, v);
            &&& bits is Ok
            &&& bits->Ok_0.len() == family.planes().len()
            &&& forall|b: int|
                0 <= b < family.planes().len() ==> (#[trigger] bits->Ok_0[b] <==> along(
                    family.planes()[b],
                    v,
                    v.len(),
                ) >= 0)
        }),
{
    let planes = family.planes();
    assert forall|b: int| 0 <= b < planes.len() implies (#[trigger] sides(planes, v)[b] <==> along(
        planes[b],
        v,
        v.len(),
    ) >= 0) by {
        lemma_along(planes[b], v, v.len());
    }
}

proof fn lemma_along_scaled(signs: Seq<i8>, v: Seq<Fixed>, w: Seq<Fixed>, k: int, n: nat)
    requires
        scaled(v, w, k),
        n <= v.len(),
    ensures
        along(signs, w, n) == k * along(signs, v, n),
    decreases n,
{
    if n == 0 {
        assert(k * 0 == 0) by (nonlinear_arith);
    } else {
        let m = (n - 1) as nat;
        lemma_along_scaled(signs, v, w, k, m);
        let (s, x) = (along(signs, v, m), v[m as int].raw as int);
        assert(w[m as int].raw == k * x);
        assert(k * (s + x) == k * s + k * x) by (nonlinear_arith);
        assert(k * (s - x) == k * s - k * x) by (nonlinear_arith);
    }
}

/// A sketch depends on the direction of a vector and not on its length: a positive
/// multiple has the same sketch. The opposite direction has every bit inverted but for
/// hyperplanes that the vector lies on.
pub proof fn lemma_sketch_direction<const W: usize>(
    family: SrpFamily<W>,
    v: Seq<Fixed>,
    w: Seq<Fixed>,
    k: int,
)
    requires
        v.len() == family.columns(),
        bounded(v, 0x8000_0000),
        bounded(w, 0x8000_0000),
        scaled(v, w, k),
        k != 0,
    ensures
        ({
            let a = SketchFamily::<Fixed, W>::sketch_of(&family, v);
            let b = SketchFamily::<Fixed, W>::sketch_of(&family, w);
            &&& a is Ok && b is Ok
            &&& k > 0 ==> a == b
            &&& k < 0 ==> forall|i: int|
                0 <= i < family.planes().len() && along(family.planes()[i], v, v.len()) != 0 ==> (
                #[trigger] b->Ok_0[i]) == !a->Ok_0[i]
        }),
{
    let planes = family.planes();
    lemma_sketch_sides(family, v);
    lemma_sketch_sides(family, w);
    let a = SketchFamily::<Fixed, W>::sketch_of(&family, v)->Ok_0;
    let b = SketchFamily::<Fixed, W>::sketch_of(&family, w)->Ok_0;
    assert forall|i: int| 0 <= i < planes.len() implies {
        let s = along(planes[i], v, v.len());
        &&& k > 0 ==> (#[trigger] b[i]) == a[i]
        &&& k < 0 && s != 0 ==> b[i] == !a[i]
    } by {
        lemma_along_scaled(planes[i], v, w, k, v.len());
        let (s, t) = (along(planes[i], v, v.len()), along(planes[i], w, v.len()));
        assert(k > 0 ==> (s >= 0 <==> t >= 0)) by (nonlinear_arith)
            requires
                t == k * s,
        ;
        assert(k < 0 && s != 0 ==> (s >= 0 <==> t < 0)) by (nonlinear_arith)
            requires
                t == k * s,
        ;
    }
    if k > 0 {
        assert(a =~= b);
    }
}

} // verus!
