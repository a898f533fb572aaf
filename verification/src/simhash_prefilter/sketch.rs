//! Binary sketches of a fixed width.

use vstd::prelude::*;

verus! {

/// Bit `b` of a word.
pub open spec fn bit_of(w: u64, b: nat) -> bool {
    (w >> (b as u64)) & 1u64 == 1u64
}

/// The number of bits among the lowest `n` of a word that are set.
pub open spec fn ones_upto(w: u64, n: nat) -> nat
    decreases n,
{
    if n == 0 {
        0
    } else {
        ones_upto(w, (n - 1) as nat) + if bit_of(w, (n - 1) as nat) {
            1nat
        } else {
            0
        }
    }
}

/// `u64::count_ones` counts the bits of a word that are set.
pub assume_specification[ u64::count_ones ](w: u64) -> (r: u32)
    ensures
        r == ones_upto(w, 64),
;

/// The number of positions among the first `n` at which two sequences of bits
/// differ.
pub open spec fn differing(a: Seq<bool>, b: Seq<bool>, n: nat) -> nat
    decreases n,
{
    if n == 0 {
        0
    } else {
        differing(a, b, (n - 1) as nat) + if a[n - 1] != b[n - 1] {
            1nat
        } else {
            0
        }
    }
}

/// A sketch of `64 * W` bits, packed into words.
#[derive(Clone, Copy, Debug, PartialEq, Eq)]
pub struct Sketch<const W: usize> {
    pub words: [u64; W],
}

impl<const W: usize> Sketch<W> {
    /// The bits of the sketch: the lowest bit of the first word comes first.
    pub open spec fn bits(self) -> Seq<bool> {
        Seq::new(W as nat * 64, |b: int| bit_of(self.words@[b / 64], (b % 64) as nat))
    }

    /// The number of positions at which the bits of two sketches differ.
    pub open spec fn distance(self, other: Self) -> nat {
        differing(self.bits(), other.bits(), W as nat * 64)
    }

    /// The number of bits of a sketch.
    pub fn width() -> (r: usize)
        requires
            W * 64 <= usize::MAX,
        ensures
            r == W * 64,
    {
        W * 64
    }

    /// The Hamming distance to another sketch.
    pub fn hamming(&self, other: &Self) -> (d: u32)
        requires
            self.distance(*other) <= u32::MAX,
        ensures
            d == self.distance(*other),
    {
        let mut d: u32 = 0;
        let mut i: usize = 0;
        while i < W
            invariant
                i <= W,
                self.distance(*other) <= u32::MAX,
                d == differing(self.bits(), other.bits(), i as nat * 64),
            decreases W - i,
        {
            let x: u64 = self.words[i] ^ other.words[i];
            proof {
                lemma_word(*self, *other, i as int, 64);
                lemma_differing(self.bits(), other.bits(), (i as nat + 1) * 64, W as nat * 64);
            }
            d += x.count_ones();
            i += 1;
        }
        d
    }

    /// The sketch without any bit set.
    pub fn zero() -> (r: Self)
        ensures
            forall|b: int| 0 <= b < W * 64 ==> !#[trigger] r.bits()[b],
            forall|i: int| 0 <= i < W ==> #[trigger] r.words@[i] == 0,
    {
        let r = Sketch { words: [0u64; W] };
        proof {
            assert forall|b: int| 0 <= b < W * 64 implies !#[trigger] r.bits()[b] by {
                lemma_zero_bit((b % 64) as nat);
            }
        }
        r
    }
}

/// No bit of the word zero is set.
pub proof fn lemma_zero_bit(b: nat)
    requires
        b < 64,
    ensures
        !bit_of(0, b),
{
    let c = b as u64;
    assert((0u64 >> c) & 1u64 != 1u64) by (bit_vector);
}

/// Setting a bit sets this one and leaves the others.
pub proof fn lemma_set_bit(w: u64, set: nat, b: nat)
    requires
        set < 64,
        b < 64,
    ensures
        bit_of(w | (1u64 << (set as u64)), b) == (b == set || bit_of(w, b)),
{
    let s = set as u64;
    let c = b as u64;
    assert(s < 64 && c < 64 ==> ((((w | (1u64 << s)) >> c) & 1u64 == 1u64) <==> (c == s || (w >> c)
        & 1u64 == 1u64))) by (bit_vector);
}

proof fn lemma_xor_bit(x: u64, y: u64, b: nat)
    requires
        b < 64,
    ensures
        bit_of(x ^ y, b) == (bit_of(x, b) != bit_of(y, b)),
{
    let c = b as u64;
    assert((((x ^ y) >> c) & 1u64 == 1u64) <==> !(((x >> c) & 1u64 == 1u64) <==> ((y >> c) & 1u64
        == 1u64))) by (bit_vector);
}

/// The bits by which two words differ are those that their `xor` has.
proof fn lemma_word<const W: usize>(a: Sketch<W>, b: Sketch<W>, i: int, n: nat)
    requires
        0 <= i < W,
        n <= 64,
    ensures
        differing(a.bits(), b.bits(), i as nat * 64 + n) == differing(
            a.bits(),
            b.bits(),
            i as nat * 64,
        ) + ones_upto(a.words@[i] ^ b.words@[i], n),
    decreases n,
{
    if n > 0 {
        let m = (n - 1) as nat;
        lemma_word(a, b, i, m);
        let p = i * 64 + m;
        assert(p / 64 == i && p % 64 == m);
        lemma_xor_bit(a.words@[i], b.words@[i], m);
        assert(a.bits()[p] == bit_of(a.words@[i], m));
        assert(b.bits()[p] == bit_of(b.words@[i], m));
    }
}

/// More positions do not differ less, and at most all differ.
pub proof fn lemma_differing(a: Seq<bool>, b: Seq<bool>, m: nat, n: nat)
    requires
        m <= n,
    ensures
        differing(a, b, m) <= differing(a, b, n) <= differing(a, b, m) + (n - m),
    decreases n,
{
    if m < n {
        lemma_differing(a, b, m, (n - 1) as nat);
    }
}

proof fn lemma_metric(a: Seq<bool>, b: Seq<bool>, c: Seq<bool>, n: nat)
    ensures
        differing(a, b, n) == differing(b, a, n),
        differing(a, c, n) <= differing(a, b, n) + differing(b, c, n),
        differing(a, b, n) == 0 <==> forall|i: int| 0 <= i < n ==> a[i] == b[i],
    decreases n,
{
    if n > 0 {
        lemma_metric(a, b, c, (n - 1) as nat);
        if differing(a, b, n) == 0 {
            assert(a[n - 1] == b[n - 1]);
        }
    }
}

/// The Hamming distance is a metric: it is zero exactly between sketches with
/// the same bits, it is symmetric, and no way round is shorter. It is at most
/// the number of bits.
pub proof fn lemma_hamming<const W: usize>(a: Sketch<W>, b: Sketch<W>, c: Sketch<W>)
    ensures
        a.distance(a) == 0,
        a.distance(b) == 0 <==> a.bits() == b.bits(),
        a.distance(b) == b.distance(a),
        a.distance(c) <= a.distance(b) + b.distance(c),
        a.distance(b) <= W * 64,
{
    let n = W as nat * 64;
    lemma_metric(a.bits(), a.bits(), c.bits(), n);
    lemma_metric(a.bits(), b.bits(), c.bits(), n);
    lemma_differing(a.bits(), b.bits(), 0, n);
    if a.distance(b) == 0 {
        assert(a.bits() =~= b.bits());
    }
}

} // verus!
