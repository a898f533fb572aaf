//! Families of projections that make sketches.

use vstd::prelude::*;
use vstd::slice::slice_subrange;

use crate::flat::{cut, lemma_cut_ends};
use crate::random::{draw_trials, std_trials};
use crate::scalar::{is_less, less, whole, Scalar};
use crate::simhash_prefilter::error::PrefilterError;
use crate::simhash_prefilter::sketch::{lemma_set_bit, Sketch};

verus! {

/// The bits of a sketch, or the error.
pub open spec fn outcome<const W: usize>(r: Result<Sketch<W>, PrefilterError>) -> Result<
    Seq<bool>,
    PrefilterError,
> {
    match r {
        Ok(s) => Ok(s.bits()),
        Err(e) => Err(e),
    }
}

/// A family of projections: how a vector becomes a sketch.
pub trait SketchFamily<R, const W: usize> {
    /// The number of components of a vector.
    open spec fn dim_of(&self) -> nat {
        arbitrary()
    }

    /// The bits of the sketch of a vector, or the error.
    open spec fn sketch_of(&self, v: Seq<R>) -> Result<Seq<bool>, PrefilterError> {
        arbitrary()
    }

    /// The number of components of a vector.
    fn dim(&self) -> (r: usize)
        ensures
            r == self.dim_of(),
    ;

    /// The sketch of a vector.
    fn sketch(&self, v: &[R]) -> (r: Result<Sketch<W>, PrefilterError>)
        ensures
            outcome(r) == self.sketch_of(v@),
    ;

    /// The number of bytes of a sketch.
    fn sketch_bytes() -> (r: usize)
        requires
            W * 8 <= usize::MAX,
        ensures
            r == W * 8,
    {
        W * 8
    }
}

/// One for success, minus one for failure.
pub open spec fn sign_of(trial: bool) -> i8 {
    if trial {
        1
    } else {
        -1i8
    }
}

/// The signs for a sequence of trials.
pub open spec fn signs_of(trials: Seq<bool>) -> Seq<i8> {
    Seq::new(trials.len(), |i: int| sign_of(trials[i]))
}

/// The value of a sign.
pub open spec fn sign_value<R: Scalar>(s: i8) -> R {
    if s > 0 {
        whole::<R>(1)
    } else {
        R::zero_of().minus_of(whole::<R>(1))
    }
}

/// The sum of the first `n` components of `v`, each with its sign.
pub open spec fn signed_sum<R: Scalar>(signs: Seq<i8>, v: Seq<R>, n: nat) -> R
    decreases n,
{
    if n == 0 {
        R::zero_of()
    } else {
        signed_sum(signs, v, (n - 1) as nat).plus_of(
            sign_value::<R>(signs[n - 1]).times_of(v[n - 1]),
        )
    }
}

/// On which side of each hyperplane a vector lies.
pub open spec fn sides<R: Scalar>(planes: Seq<Seq<i8>>, v: Seq<R>) -> Seq<bool> {
    Seq::new(
        planes.len(),
        |b: int| !less(signed_sum(planes[b], v, v.len()), R::zero_of()),
    )
}

/// Signed random projection: each bit of a sketch tells on which side of a
/// random hyperplane the vector lies.
pub struct SrpFamily<const W: usize> {
    dim: usize,
    projections: Vec<i8>,
}

impl<const W: usize> SrpFamily<W> {
    /// The signs of the hyperplanes' components, one hyperplane after another.
    pub closed spec fn signs(&self) -> Seq<i8> {
        self.projections@
    }

    /// The number of components of a hyperplane.
    pub closed spec fn columns(&self) -> nat {
        self.dim as nat
    }

    /// The hyperplanes.
    pub open spec fn planes(&self) -> Seq<Seq<i8>> {
        cut(self.signs(), W as nat * 64, self.columns())
    }

    #[verifier::type_invariant]
    closed spec fn inv(self) -> bool {
        self.projections@.len() == W * 64 * self.dim
    }

    /// Draws a family. The same dimension and seed give the same family.
    pub fn new(dim: usize, seed: u64) -> (r: Self)
        requires
            W * 64 * dim <= usize::MAX,
            W * 64 <= usize::MAX,
        ensures
            r.columns() == dim,
            r.signs() == signs_of(std_trials(seed, 1, 2, (W * 64 * dim) as nat)),
            r.signs().len() == W * 64 * dim,
    {
        let n: usize = W * 64 * dim;
        let trials = draw_trials(seed, 1, 2, n);
        let mut projections: Vec<i8> = Vec::new();
        let mut i: usize = 0;
        while i < n
            invariant
                i <= n,
                n == trials@.len(),
                projections@ =~= signs_of(trials@).take(i as int),
            decreases n - i,
        {
            let s: i8 = if trials[i] {
                1
            } else {
                -1
            };
            projections.push(s);
            i += 1;
        }
        assert(signs_of(trials@).take(n as int) =~= signs_of(trials@));
        SrpFamily { dim, projections }
    }

    /// The number of bytes of the hyperplanes.
    pub fn matrix_bytes(&self) -> (r: usize)
        ensures
            r == self.signs().len(),
            r == W * 64 * self.columns(),
    {
        proof {
            use_type_invariant(self);
        }
        self.projections.len()
    }
}

/// Adds the components of a vector, each with its sign.
fn add_signed<R: Scalar>(signs: &[i8], v: &[R]) -> (r: R)
    requires
        signs@.len() == v@.len(),
    ensures
        r == signed_sum(signs@, v@, v@.len()),
{
    let n: usize = v.len();
    let one: R = R::ratio(1, 1);
    let minus_one: R = R::zero().minus(one);
    let mut acc: R = R::zero();
    let mut i: usize = 0;
    while i < n
        invariant
            i <= n,
            n == v@.len(),
            signs@.len() == n,
            one == whole::<R>(1),
            minus_one == R::zero_of().minus_of(one),
            acc == signed_sum(signs@, v@, i as nat),
        decreases n - i,
    {
        let s: R = if signs[i] > 0 {
            one
        } else {
            minus_one
        };
        acc = acc.plus(s.times(v[i]));
        i += 1;
    }
    acc
}

impl<R: Scalar, const W: usize> SketchFamily<R, W> for SrpFamily<W> {
    open spec fn dim_of(&self) -> nat {
        self.columns()
    }

    open spec fn sketch_of(&self, v: Seq<R>) -> Result<Seq<bool>, PrefilterError> {
        if v.len() != self.columns() {
            Err(
                PrefilterError::DimensionMismatch {
                    expected: self.columns() as usize,
                    got: v.len() as usize,
                },
            )
        } else {
            Ok(sides(self.planes(), v))
        }
    }

    fn dim(&self) -> (r: usize) {
        self.dim
    }

    fn sketch(&self, v: &[R]) -> (r: Result<Sketch<W>, PrefilterError>) {
        proof {
            use_type_invariant(self);
        }
        if v.len() != self.dim {
            return Err(PrefilterError::DimensionMismatch { expected: self.dim, got: v.len() });
        }
        let dim: usize = self.dim;
        let size: usize = self.projections.len();
        let mut out: Sketch<W> = Sketch::zero();
        let ghost want = sides(self.planes(), v@);
        let mut word: usize = 0;
        let mut start: usize = 0;
        while word < W
            invariant
                word <= W,
                dim == self.dim,
                v@.len() == dim,
                want == sides(self.planes(), v@),
                self.projections@.len() == size,
                size == W * 64 * dim,
                start == word * 64 * dim,
                forall|b: int| 0 <= b < word * 64 ==> #[trigger] out.bits()[b] == want[b],
                forall|b: int| word * 64 <= b < W * 64 ==> !#[trigger] out.bits()[b],
            decreases W - word,
        {
            let mut bit: u64 = 0;
            while bit < 64
                invariant
                    word < W,
                    bit <= 64,
                    dim == self.dim,
                    v@.len() == dim,
                    want == sides(self.planes(), v@),
                    self.projections@.len() == size,
                    size == W * 64 * dim,
                    start == (word * 64 + bit) * dim,
                    forall|b: int|
                        0 <= b < word * 64 + bit ==> #[trigger] out.bits()[b] == want[b],
                    forall|b: int| word * 64 + bit <= b < W * 64 ==> !#[trigger] out.bits()[b],
                decreases 64 - bit,
            {
                let ghost at = word * 64 + bit;
                proof {
                    lemma_cut_ends(W as nat * 64, dim as nat, at as nat);
                    assert((at + 1) * dim == at * dim + dim) by (nonlinear_arith);
                    assert(self.planes()[at] == self.projections@.subrange(
                        at * dim,
                        at * dim + dim,
                    ));
                }
                let row = slice_subrange(self.projections.as_slice(), start, start + dim);
                let acc: R = add_signed(row, v);
                let ghost before = out;
                if !is_less(acc, R::zero()) {
                    let w: u64 = out.words[word] | (1u64 << bit);
                    out.words[word] = w;
                    proof {
                        assert forall|b: int| 0 <= b < W * 64 implies #[trigger] out.bits()[b] == (b
                            == at || before.bits()[b]) by {
                            if b / 64 == word {
                                lemma_set_bit(before.words@[word as int], bit as nat, (b % 64) as nat);
                            }
                        }
                    }
                }
                start = start + dim;
                bit += 1;
            }
            word += 1;
        }
        assert(out.bits() =~= want);
        Ok(out)
    }
}

/// Two families that were drawn with the same dimension and seed make the same
/// sketch of every vector.
pub proof fn lemma_same_family<R: Scalar, const W: usize>(
    a: SrpFamily<W>,
    b: SrpFamily<W>,
    seed: u64,
    v: Seq<R>,
)
    requires
        a.columns() == b.columns(),
        a.signs() == signs_of(std_trials(seed, 1, 2, W as nat * 64 * a.columns())),
        b.signs() == signs_of(std_trials(seed, 1, 2, W as nat * 64 * b.columns())),
    ensures
        SketchFamily::<R, W>::sketch_of(&a, v) == SketchFamily::<R, W>::sketch_of(&b, v),
{
}

proof fn lemma_zero_sum<R: Scalar>(signs: Seq<i8>, v: Seq<R>, n: nat)
    requires
        n <= v.len(),
        forall|i: int| 0 <= i < v.len() ==> #[trigger] v[i] == R::zero_of(),
    ensures
        signed_sum(signs, v, n) == R::zero_of(),
    decreases n,
{
    if n > 0 {
        lemma_zero_sum(signs, v, (n - 1) as nat);
        assert(v[n - 1] == R::zero_of());
        R::law_zero();
    }
}

/// The sketch of the zero vector has every bit set.
pub proof fn lemma_zero_sketch<R: Scalar, const W: usize>(family: SrpFamily<W>, v: Seq<R>)
    requires
        v.len() == family.columns(),
        forall|i: int| 0 <= i < v.len() ==> #[trigger] v[i] == R::zero_of(),
    ensures
        SketchFamily::<R, W>::sketch_of(&family, v) == Ok::<Seq<bool>, PrefilterError>(
            Seq::new(W as nat * 64, |b: int| true),
        ),
{
    let planes = family.planes();
    assert forall|b: int| 0 <= b < planes.len() implies #[trigger] sides(planes, v)[b] by {
        lemma_zero_sum(planes[b], v, v.len());
    }
    assert(sides(planes, v) =~= Seq::new(W as nat * 64, |b: int| true));
}

} // verus!
