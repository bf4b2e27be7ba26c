//! The pseudo-random numbers that drive the search.
//!
//! All draws come from the ChaCha generator with 8 rounds, seeded from one
//! integer.  Such a generator is a position in a fixed stream of words: its
//! seed and the number of words already used say everything about what it
//! yields next.  [`SeededRng`] holds just these two numbers, so a search is a
//! function of its seed.

use vstd::prelude::*;

use rand::seq::SliceRandom;
use rand::{Rng, SeedableRng};
use rand_chacha::ChaCha8Rng;

verus! {

/// A generator of pseudo-random numbers: a seed and a position in the stream
/// of 32-bit words that belongs to the seed.
#[derive(Clone, Copy, PartialEq, Eq, Structural, Debug)]
pub struct SeededRng {
    pub seed: u64,
    pub word_pos: u128,
}

/// What `gen_range(0..bound)` of `rand` draws from a `ChaCha8Rng` that was
/// seeded with `seed` and stands at word `word_pos`, and the word at which the
/// generator stands afterwards.
pub uninterp spec fn chacha8_below(seed: u64, word_pos: u128, bound: u64) -> (u64, u128);

/// The order into which `shuffle` of `rand` brings `items` when it draws from
/// a `ChaCha8Rng` that was seeded with `seed` and stands at word `word_pos`,
/// and the word at which the generator stands afterwards.
pub uninterp spec fn chacha8_shuffled(seed: u64, word_pos: u128, items: Seq<usize>) -> (
    Seq<usize>,
    u128,
);

/// Calls `Rng::gen_range` of `rand` on a `ChaCha8Rng` of `rand_chacha` made by
/// `seed_from_u64` and moved by `set_word_pos`; `get_word_pos` reads where it
/// stands afterwards.  The contract claims that the number drawn and the new
/// position depend on the seed, the position and the bound alone, and that the
/// number is below the bound.
#[verifier::external_body]
fn draw_below(seed: u64, word_pos: u128, bound: u64) -> (drawn: (u64, u128))
    requires
        bound > 0,
    ensures
        drawn == chacha8_below(seed, word_pos, bound),
        drawn.0 < bound,
{
    let mut rng = ChaCha8Rng::seed_from_u64(seed);
    rng.set_word_pos(word_pos);
    let number = rng.gen_range(0..bound);
    (number, rng.get_word_pos())
}

/// Calls `SliceRandom::shuffle` of `rand` with a `ChaCha8Rng` of `rand_chacha`
/// made by `seed_from_u64` and moved by `set_word_pos`; `get_word_pos` reads
/// where it stands afterwards.  The contract claims that the new order and the
/// new position depend on the seed, the position and the items alone, and that
/// the items are the same as before, each as often as before.
#[verifier::external_body]
fn shuffle_items(seed: u64, word_pos: u128, items: &mut Vec<usize>) -> (after: u128)
    requires
        old(items)@.len() <= u32::MAX,
    ensures
        (final(items)@, after) == chacha8_shuffled(seed, word_pos, old(items)@),
        final(items)@.to_multiset() == old(items)@.to_multiset(),
{
    let mut rng = ChaCha8Rng::seed_from_u64(seed);
    rng.set_word_pos(word_pos);
    items.shuffle(&mut rng);
    rng.get_word_pos()
}

impl SeededRng {
    /// The number below `bound` that this generator draws next, and the
    /// generator afterwards.
    pub open spec fn below(self, bound: usize) -> (usize, SeededRng) {
        let drawn = chacha8_below(self.seed, self.word_pos, bound as u64);
        (drawn.0 as usize, SeededRng { seed: self.seed, word_pos: drawn.1 })
    }

    /// The order into which this generator shuffles `items`, and the
    /// generator afterwards.
    pub open spec fn shuffled(self, items: Seq<usize>) -> (Seq<usize>, SeededRng) {
        let drawn = chacha8_shuffled(self.seed, self.word_pos, items);
        (drawn.0, SeededRng { seed: self.seed, word_pos: drawn.1 })
    }

    /// The generator for `seed`, at the start of its stream.
    pub fn seed_from_u64(seed: u64) -> (rng: SeededRng)
        ensures
            rng == (SeededRng { seed, word_pos: 0 }),
    {
        SeededRng { seed, word_pos: 0 }
    }

    /// Draws a position in a sequence of `bound` items, each with the same
    /// chance.
    pub fn gen_index(&mut self, bound: usize) -> (index: usize)
        requires
            bound > 0,
        ensures
            index < bound,
            (index, *final(self)) == old(self).below(bound),
    {
        let drawn = draw_below(self.seed, self.word_pos, bound as u64);
        self.word_pos = drawn.1;
        drawn.0 as usize
    }

    /// Brings `items` into a random order.
    pub fn shuffle(&mut self, items: &mut Vec<usize>)
        requires
            old(items)@.len() <= u32::MAX,
        ensures
            (final(items)@, *final(self)) == old(self).shuffled(old(items)@),
            final(items)@.to_multiset() == old(items)@.to_multiset(),
    {
        self.word_pos = shuffle_items(self.seed, self.word_pos, items);
    }
}

} // verus!
