//! What the draws are, word by word.

use vstd::prelude::*;

use crate::random;

verus! {

/// Reading words leaves the later ones, in order.
pub proof fn law_reading_leaves_the_later_words(words: Map<nat, u32>, count: nat, i: nat)
    ensures
        random::skip(words, count)[i] == words[i + count],
        random::skip(words, count).dom().contains(i),
{
}

/// An event of probability 1 comes true without a draw. Any other reads two
/// words, and comes true exactly where the 64-bit number that they make, the low
/// half first, is less than its probability in parts of 2^64.
pub proof fn law_chance_reads_two_words(words: Map<nat, u32>, chance: int, i: nat)
    ensures
        chance >= 0x1_0000_0000_0000_0000 ==> random::hits(words, chance)
            && random::after_chance(words, chance) == words,
        chance < 0x1_0000_0000_0000_0000 ==> {
            &&& random::hits(words, chance) <==> words[0] + 0x1_0000_0000 * words[1] < chance
            &&& random::after_chance(words, chance)[i] == words[i + 2]
        },
{
}

/// A more likely event comes true wherever a less likely one does.
pub proof fn law_likelier_events_hit_more(words: Map<nat, u32>, low: int, high: int)
    requires
        low <= high,
    ensures
        random::hits(words, low) ==> random::hits(words, high),
        low <= 0 ==> !random::hits(words, low),
{
}

/// A draw from a range is the value that the generator makes of the words for
/// that range, and it reads as many words as the generator does.
pub proof fn law_range_draw_is_the_generators(
    words: Map<nat, u32>,
    low: u64,
    high: u64,
    i: nat,
)
    requires
        low <= high,
    ensures
        low <= random::between(words, low as int, high as int) <= high,
        low <= random::ranged(words, low, high).0 <= high ==> random::between(
            words,
            low as int,
            high as int,
        ) == random::ranged(words, low, high).0,
        random::after_between(words, low as int, high as int)[i] == words[i + random::ranged(
            words,
            low,
            high,
        ).1],
{
}

} // verus!
