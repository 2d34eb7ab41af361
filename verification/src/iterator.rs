//! The sequence of uniform draws behind a distribution.
//!
//! A `ZipfIterator` pairs a distribution handle with a seeded generator of
//! random words. Each draw takes one word from the generator and turns its
//! 53 high bits into a number `u` in the half-open interval from zero to
//! one. The value of the sequence at that draw is the inverse transform of
//! the handle at `u`; evaluating it is left to the caller, who has floating
//! point arithmetic.
use vstd::prelude::*;
use rand::rngs::StdRng;
use rand::RngCore;
use rand::SeedableRng;
use crate::double::Double;
use crate::zipf::Zipf;

verus! {

/// The seed of a sequence that was given none.
pub const DEFAULT_SEED: u64 = 666;

/// `rand::rngs::StdRng`, the generator of the random words. Nothing inside
/// it is visible here; what is said of it is said through `upcoming`.
#[verifier::external_type_specification]
#[verifier::external_body]
pub struct ExStdRng(StdRng);

/// The word that `rng` yields after `i` others: what the call number
/// `i + 1` of `next_u64` returns, counted from the state that `rng` is in.
pub uninterp spec fn upcoming(rng: StdRng, i: nat) -> u64;

/// The word that a generator seeded with `seed` yields after `i` others.
pub uninterp spec fn seeded_word(seed: u64, i: nat) -> u64;

/// `StdRng::seed_from_u64`: the generator whose state is a function of
/// `seed` alone, so that its words are the same for the same seed.
#[verifier::external_body]
fn seed_rng(seed: u64) -> (rng: StdRng)
    ensures
        forall|i: nat| #[trigger] upcoming(rng, i) == seeded_word(seed, i),
{
    StdRng::seed_from_u64(seed)
}

/// `RngCore::next_u64` of `StdRng`: returns the next word and advances the
/// generator by that one word.
#[verifier::external_body]
fn next_word(rng: &mut StdRng) -> (word: u64)
    ensures
        word == upcoming(*old(rng), 0),
        forall|i: nat| #[trigger] upcoming(*final(rng), i) == upcoming(*old(rng), i + 1),
    no_unwind
{
    rng.next_u64()
}

/// `Clone::clone` of `StdRng`: a generator in the same state, which yields
/// the same words.
pub assume_specification[ <StdRng as Clone>::clone ](rng: &StdRng) -> (copy: StdRng)
    ensures
        forall|i: nat| #[trigger] upcoming(copy, i) == upcoming(*rng, i),
;

/// An endless sequence of uniform draws for one distribution.
#[derive(Debug)]
pub struct ZipfIterator {
    zipf: Zipf,
    rng: StdRng,
}

impl Clone for ZipfIterator {
    /// A second sequence in the same state: it draws what this one draws,
    /// and neither advances the other.
    fn clone(&self) -> (copy: ZipfIterator)
        ensures
            copy.handle() == self.handle(),
            forall|i: nat| #[trigger] copy.word(i) == self.word(i),
    {
        ZipfIterator { zipf: self.zipf, rng: self.rng.clone() }
    }
}

impl ZipfIterator {
    /// The distribution that the sequence is for.
    pub closed spec fn handle(&self) -> Zipf {
        self.zipf
    }

    /// The random word behind the draw that comes after `i` others.
    pub closed spec fn word(&self, i: nat) -> u64 {
        upcoming(self.rng, i)
    }

    /// The draw that comes after `i` others.
    pub open spec fn uniform(&self, i: nat) -> Double {
        Double::spec_from_word(self.word(i))
    }

    /// Whether the words ahead are those of a generator fresh from `seed`.
    pub open spec fn seeded(&self, seed: u64) -> bool {
        forall|i: nat| #[trigger] self.word(i) == seeded_word(seed, i)
    }

    /// The sequence for `zipf` from the default seed.
    pub fn new(zipf: Zipf) -> (it: ZipfIterator)
        ensures
            it.handle() == zipf,
            it.seeded(DEFAULT_SEED),
    {
        ZipfIterator { zipf, rng: seed_rng(DEFAULT_SEED) }
    }

    /// The same sequence drawing from `rng` instead.
    pub fn with_rng(self, rng: StdRng) -> (it: ZipfIterator)
        ensures
            it.handle() == self.handle(),
            forall|i: nat| #[trigger] it.word(i) == upcoming(rng, i),
    {
        ZipfIterator { zipf: self.zipf, rng }
    }

    /// The sequence for `zipf` from `seed`.
    pub fn with_seed(zipf: Zipf, seed: u64) -> (it: ZipfIterator)
        ensures
            it.handle() == zipf,
            it.seeded(seed),
    {
        ZipfIterator::new(zipf).with_rng(seed_rng(seed))
    }

    /// The distribution that the sequence is for.
    pub fn zipf(&self) -> (zipf: Zipf)
        ensures
            zipf == self.handle(),
    {
        self.zipf
    }

    /// Draws the next uniform number and advances the generator by one
    /// word. The number is at least zero and less than one.
    pub fn next_uniform(&mut self) -> (u: Double)
        ensures
            u == old(self).uniform(0),
            Double::spec_zero().spec_le(u),
            u.spec_lt(Double::spec_one()),
            final(self).handle() == old(self).handle(),
            forall|i: nat| #[trigger] final(self).word(i) == old(self).word(i + 1),
        no_unwind
    {
        let word = next_word(&mut self.rng);
        Double::from_word(word)
    }

    /// Draws the next `n` uniform numbers, in order.
    pub fn take(&mut self, n: usize) -> (draws: Vec<Double>)
        ensures
            draws@.len() == n,
            forall|i: int| 0 <= i < n ==> #[trigger] draws@[i] == old(self).uniform(i as nat),
            final(self).handle() == old(self).handle(),
            forall|i: nat| #[trigger] final(self).word(i) == old(self).word(i + n as nat),
    {
        let mut draws: Vec<Double> = Vec::new();
        let mut k: usize = 0;
        while k < n
            invariant
                k <= n,
                draws@.len() == k,
                forall|i: int| 0 <= i < k ==> #[trigger] draws@[i] == old(self).uniform(i as nat),
                self.handle() == old(self).handle(),
                forall|i: nat| #[trigger] self.word(i) == old(self).word(i + k as nat),
            decreases n - k,
        {
            let u = self.next_uniform();
            draws.push(u);
            k = k + 1;
        }
        draws
    }
}

/// Determinism of the draws: two sequences whose generators were seeded
/// with the same seed draw the same number at every position.
pub proof fn lemma_same_seed_same_draws(a: ZipfIterator, b: ZipfIterator, seed: u64)
    requires
        a.seeded(seed),
        b.seeded(seed),
    ensures
        forall|i: nat| #[trigger] a.uniform(i) == b.uniform(i),
{
    assert forall|i: nat| #[trigger] a.uniform(i) == b.uniform(i) by {
        assert(a.word(i) == seeded_word(seed, i));
        assert(b.word(i) == seeded_word(seed, i));
    }
}

} // verus!
