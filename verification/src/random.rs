//! Draws from the generators of the `rand` and `rand_chacha` crates.

use rand::distributions::{Bernoulli, Standard};
use rand::rngs::StdRng;
use rand::{Rng, RngCore, SeedableRng};
use rand_chacha::ChaCha8Rng;
use vstd::prelude::*;

verus! {

/// The first `count` words of `rand`'s `StdRng`, seeded with `seed`.
pub uninterp spec fn std_words(seed: u64, count: nat) -> Seq<u32>;

/// Draws words: `StdRng::seed_from_u64`, and from it as many samples of the
/// distribution `Standard` over 32-bit words as asked for. They depend on the
/// seed and the count alone. Which words they are is not said.
#[verifier::external_body]
pub(crate) fn draw_words(seed: u64, count: usize) -> (r: Vec<u32>)
    ensures
        r@ == std_words(seed, count as nat),
        r@.len() == count,
{
    StdRng::seed_from_u64(seed).sample_iter(Standard).take(count).collect()
}

/// The first `count` words of `rand_chacha`'s `ChaCha8Rng`, seeded with `seed`.
pub uninterp spec fn chacha_words(seed: u64, count: nat) -> Seq<u32>;

/// Draws words: `ChaCha8Rng::seed_from_u64`, and from it as many samples of the
/// distribution `Standard` over 32-bit words as asked for. They depend on the
/// seed and the count alone. Which words they are is not said.
#[verifier::external_body]
pub(crate) fn draw_chacha_words(seed: u64, count: usize) -> (r: Vec<u32>)
    ensures
        r@ == chacha_words(seed, count as nat),
        r@.len() == count,
{
    ChaCha8Rng::seed_from_u64(seed).sample_iter(Standard).take(count).collect()
}

/// The first `count` outcomes of trials that succeed `num` times out of `den`,
/// by `rand`'s `StdRng`, seeded with `seed`.
pub uninterp spec fn std_trials(seed: u64, num: u32, den: u32, count: nat) -> Seq<bool>;

/// Makes trials: `StdRng::seed_from_u64`, and from it as many samples of
/// `Bernoulli::from_ratio(num, den)` as asked for. They depend on the arguments
/// alone. Which trials succeed is not said.
#[verifier::external_body]
pub(crate) fn draw_trials(seed: u64, num: u32, den: u32, count: usize) -> (r: Vec<bool>)
    requires
        num <= den,
        den > 0,
    ensures
        r@ == std_trials(seed, num, den, count as nat),
        r@.len() == count,
{
    let trial = Bernoulli::from_ratio(num, den).unwrap();
    StdRng::seed_from_u64(seed).sample_iter(trial).take(count).collect()
}

/// The standard generator of the `rand` crate.
#[verifier::external_type_specification]
#[verifier::external_body]
pub struct ExStdRng(StdRng);

/// A standard generator in use.
///
/// Its view is the seed and what was asked of it since: `n` for a number below
/// `n`, and 0 for a word.
pub struct Stream {
    rng: StdRng,
    past: Ghost<(u64, Seq<usize>)>,
}

impl View for Stream {
    type V = (u64, Seq<usize>);

    closed spec fn view(&self) -> (u64, Seq<usize>) {
        self.past@
    }
}

/// The number below `n` that `rand`'s `StdRng`, seeded with `seed`, gives after
/// it was asked for `earlier`. A draw takes 32 or 64 bits, by the width of `usize`:
/// on machines with words of different widths the numbers differ.
pub uninterp spec fn std_below(seed: u64, earlier: Seq<usize>, n: usize) -> usize;

/// The word that `rand`'s `StdRng`, seeded with `seed`, gives after it was asked
/// for `earlier`.
pub uninterp spec fn std_word(seed: u64, earlier: Seq<usize>) -> u32;

/// Starts a generator: `StdRng::seed_from_u64`. Nothing was asked of it yet.
#[verifier::external_body]
pub(crate) fn seed_stream(seed: u64) -> (r: Stream)
    ensures
        r@ == (seed, Seq::<usize>::empty()),
{
    Stream { rng: StdRng::seed_from_u64(seed), past: Ghost((seed, Seq::empty())) }
}

/// Draws a number below `n`: `Rng::gen_range`. It depends on the seed and on what
/// was asked before. Which number it is is not said.
#[verifier::external_body]
pub(crate) fn draw_below(stream: &mut Stream, n: usize) -> (i: usize)
    requires
        n > 0,
    ensures
        i == std_below(old(stream)@.0, old(stream)@.1, n),
        i < n,
        final(stream)@ == (old(stream)@.0, old(stream)@.1.push(n)),
{
    stream.rng.gen_range(0..n)
}

/// Draws a word: `RngCore::next_u32`. It depends on the seed and on what was asked
/// before. Which word it is is not said.
#[verifier::external_body]
pub(crate) fn draw_word(stream: &mut Stream) -> (w: u32)
    ensures
        w == std_word(old(stream)@.0, old(stream)@.1),
        final(stream)@ == (old(stream)@.0, old(stream)@.1.push(0)),
{
    stream.rng.next_u32()
}

} // verus!
