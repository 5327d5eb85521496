//! Random draws from a seeded generator.
//!
//! A generator is seen as the endless run of 32-bit words that it is going to
//! put out. A draw reads some words from the front of that run and leaves the
//! rest for the next draw.

use rand::rngs::StdRng;
use rand::{Rng, SeedableRng};
use vstd::prelude::*;

use crate::fixed::CERTAIN;

verus! {

/// The generator `rand::rngs::StdRng`, as an opaque type.
#[verifier::external_type_specification]
#[verifier::external_body]
pub struct ExStdRng(rand::rngs::StdRng);

/// The 32-bit words that a generator is going to put out, numbered from 0.
pub uninterp spec fn upcoming(rng: StdRng) -> Map<nat, u32>;

/// The words that `StdRng::seed_from_u64` puts out for a seed.
pub uninterp spec fn seeded(seed: u64) -> Map<nat, u32>;

/// What `Rng::gen_range` makes of the words `words` for the inclusive `u64`
/// range from `low` to `high`: the value, and the number of words it reads.
pub uninterp spec fn ranged(words: Map<nat, u32>, low: u64, high: u64) -> (u64, nat);

/// The words that are left once the first `count` of them are read.
pub open spec fn skip(words: Map<nat, u32>, count: nat) -> Map<nat, u32> {
    Map::total(|i: nat| words[i + count])
}

/// The first two words as one 64-bit number, the low half first.
pub open spec fn double_word(words: Map<nat, u32>) -> int {
    words[0] + 0x1_0000_0000 * words[1]
}

/// Whether an event of probability `chance` (in parts of `CERTAIN`) comes true.
pub open spec fn hits(words: Map<nat, u32>, chance: int) -> bool {
    chance >= CERTAIN || double_word(words) < chance
}

/// The words left after the draw of an event of probability `chance`. A
/// certain event reads none.
pub open spec fn after_chance(words: Map<nat, u32>, chance: int) -> Map<nat, u32> {
    if chance >= CERTAIN {
        words
    } else {
        skip(words, 2)
    }
}

/// The value that a draw from the inclusive range from `low` to `high` gives.
/// It never leaves the range.
pub open spec fn between(words: Map<nat, u32>, low: int, high: int) -> int {
    let value = ranged(words, low as u64, high as u64).0 as int;
    if value < low {
        low
    } else if value > high {
        high
    } else {
        value
    }
}

/// The words left after a draw from the inclusive range from `low` to `high`.
pub open spec fn after_between(words: Map<nat, u32>, low: int, high: int) -> Map<nat, u32> {
    skip(words, ranged(words, low as u64, high as u64).1)
}

/// Calls `SeedableRng::seed_from_u64` of `StdRng`. Claims that the words of the
/// new generator depend on the seed alone.
#[verifier::external_body]
pub(crate) fn seed_rng(seed: u64) -> (rng: StdRng)
    ensures
        upcoming(rng) == seeded(seed),
{
    StdRng::seed_from_u64(seed)
}

/// Calls `Rng::gen` for a `u32`. Claims that it hands out the next word.
#[verifier::external_body]
pub(crate) fn next_word(rng: &mut StdRng) -> (word: u32)
    ensures
        word == upcoming(*old(rng))[0],
        upcoming(*final(rng)) == skip(upcoming(*old(rng)), 1),
{
    rng.gen::<u32>()
}

/// Calls `Rng::gen` for a `u64`. Claims that it hands out the next two words,
/// the first of them as the low half.
#[verifier::external_body]
pub(crate) fn next_double_word(rng: &mut StdRng) -> (word: u64)
    ensures
        word == double_word(upcoming(*old(rng))),
        upcoming(*final(rng)) == skip(upcoming(*old(rng)), 2),
{
    rng.gen::<u64>()
}

/// Calls `Rng::gen_range` for an inclusive range of `u64`. Claims that the
/// value lies in the range, and that the value and the number of words read
/// depend on the upcoming words and the range alone.
#[verifier::external_body]
pub(crate) fn range_word(rng: &mut StdRng, low: u64, high: u64) -> (value: u64)
    requires
        low <= high,
    ensures
        low <= value <= high,
        value == ranged(upcoming(*old(rng)), low, high).0,
        upcoming(*final(rng)) == skip(
            upcoming(*old(rng)),
            ranged(upcoming(*old(rng)), low, high).1,
        ),
{
    rng.gen_range(low..=high)
}

/// Draws an event of probability `chance`, in parts of `CERTAIN`.
pub fn draw_chance(rng: &mut StdRng, chance: u128) -> (hit: bool)
    ensures
        hit == hits(upcoming(*old(rng)), chance as int),
        upcoming(*final(rng)) == after_chance(upcoming(*old(rng)), chance as int),
{
    if chance >= CERTAIN {
        true
    } else {
        let word: u64 = next_double_word(rng);
        (word as u128) < chance
    }
}

/// Draws a number from `low` to `high`, both included.
pub fn draw_between(rng: &mut StdRng, low: usize, high: usize) -> (value: usize)
    requires
        low <= high,
    ensures
        low <= value <= high,
        value == between(upcoming(*old(rng)), low as int, high as int),
        upcoming(*final(rng)) == after_between(upcoming(*old(rng)), low as int, high as int),
{
    range_word(rng, low as u64, high as u64) as usize
}

} // verus!
