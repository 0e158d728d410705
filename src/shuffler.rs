use vstd::prelude::*;

use rand::seq::SliceRandom;
use rand::SeedableRng;
use rand_pcg::Pcg64Mcg;

use crate::card_pile::CardPile;
use crate::cards::Card;

verus! {

#[verifier::external_type_specification]
#[verifier::external_body]
pub struct ExMcg128Xsl64(rand_pcg::Mcg128Xsl64);

/// Reorders a pile before it becomes a deck again. Whatever the order, the
/// pile keeps exactly the cards it had.
pub trait Shuffler {
    /// Whether `after` is an order this shuffler may give `before`.
    spec fn shuffled(before: Seq<Card>, after: Seq<Card>) -> bool;

    fn shuffle(&mut self, input: &mut CardPile)
        ensures
            final(input)@.to_multiset() == old(input)@.to_multiset(),
            Self::shuffled(old(input)@, final(input)@),
    ;
}

/// A shuffler that leaves the pile as it is.
#[derive(Debug)]
pub struct NoShuffle;

impl NoShuffle {
    pub fn new() -> (r: NoShuffle) {
        NoShuffle
    }
}

impl Shuffler for NoShuffle {
    open spec fn shuffled(before: Seq<Card>, after: Seq<Card>) -> bool {
        after == before
    }

    fn shuffle(&mut self, input: &mut CardPile) {
    }
}

/// A shuffler driven by a seeded pseudo-random generator, so that a seed
/// gives the same game every time.
#[derive(Debug)]
pub struct RandomShuffler {
    rng: Pcg64Mcg,
}

/// Relies on rand_core's `SeedableRng::seed_from_u64` for `Mcg128Xsl64`:
/// a generator whose state is derived from the seed.
#[verifier::external_body]
fn rng_from_seed(seed: u64) -> Pcg64Mcg {
    Pcg64Mcg::seed_from_u64(seed)
}

/// Relies on rand's `SliceRandom::shuffle`, which only swaps elements of the
/// slice: the result is a permutation of the input.
#[verifier::external_body]
fn shuffle_cards(cards: &mut Vec<Card>, rng: &mut Pcg64Mcg)
    ensures
        final(cards)@.to_multiset() == old(cards)@.to_multiset(),
{
    cards.shuffle(rng)
}

impl RandomShuffler {
    pub fn new(seed: u64) -> (r: RandomShuffler) {
        RandomShuffler { rng: rng_from_seed(seed) }
    }

    /// A shuffler around a generator that the caller has seeded.
    pub fn from_rng(rng: Pcg64Mcg) -> (r: RandomShuffler) {
        RandomShuffler { rng }
    }
}

impl Shuffler for RandomShuffler {
    open spec fn shuffled(before: Seq<Card>, after: Seq<Card>) -> bool {
        after.to_multiset() == before.to_multiset()
    }

    fn shuffle(&mut self, input: &mut CardPile) {
        shuffle_cards(input.temp_internal_vec(), &mut self.rng);
    }
}

} // verus!
