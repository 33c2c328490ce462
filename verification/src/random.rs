//! Deterministic pseudo-random choices, seeded from values that every
//! authority agrees on.

use crate::types::{AuthorityIndex, Stake};
use rand::rngs::StdRng;
use rand::seq::SliceRandom;
use rand::SeedableRng;
use vstd::bytes::{spec_u32_to_le_bytes, u32_to_le_bytes};
use vstd::prelude::*;

verus! {

/// The positions that a weighted draw of all entries without replacement
/// yields, in the order drawn, from a generator seeded with `seed`.
pub uninterp spec fn weighted_order(seed: Seq<u8>, weights: Seq<u32>) -> Seq<int>;

/// The position that a uniform draw of one among `len` entries yields from a
/// generator seeded with `seed`.
pub uninterp spec fn uniform_position(seed: Seq<u8>, len: nat) -> int;

/// The position that a uniform draw of one among `len` entries names, read
/// as the first position should the draw ever leave the list.
pub open spec fn drawn_position(seed: Seq<u8>, len: nat) -> int {
    let position = uniform_position(seed, len);
    if 0 <= position < len {
        position
    } else {
        0
    }
}

/// The weights of a list of `(item, weight)` choices.
pub open spec fn weights_of(choices: Seq<(u32, u32)>) -> Seq<u32> {
    Seq::new(choices.len(), |i: int| choices[i].1)
}

/// `positions` lists `len` positions below `len`, none of them twice.
pub open spec fn is_draw_without_replacement(positions: Seq<int>, len: int) -> bool {
    &&& positions.len() == len
    &&& forall|i: int| 0 <= i < len ==> 0 <= #[trigger] positions[i] < len
    &&& forall|i: int, j: int|
        0 <= i < j < len ==> #[trigger] positions[i] != #[trigger] positions[j]
}

/// `items` holds the first part of the choice at each of `positions`, which
/// name every choice once.
pub open spec fn is_weighted_draw(
    choices: Seq<(u32, u32)>,
    positions: Seq<int>,
    items: Seq<u32>,
) -> bool {
    &&& is_draw_without_replacement(positions, choices.len() as int)
    &&& items.len() == choices.len()
    &&& forall|i: int| 0 <= i < items.len() ==> #[trigger] items[i] == choices[positions[i]].0
}

/// The seed for the leader shuffle of `round`: twenty-eight zero bytes, then
/// the round in little-endian order.
pub open spec fn election_seed(round: u32) -> Seq<u8> {
    Seq::new(28, |i: int| 0u8) + spec_u32_to_le_bytes(round)
}

/// The seed for substituting the leader of a slot: twenty-four zero bytes,
/// then the round and the offset, each in little-endian order.
pub open spec fn swap_seed(round: u32, offset: u32) -> Seq<u8> {
    Seq::new(24, |i: int| 0u8) + spec_u32_to_le_bytes(round) + spec_u32_to_le_bytes(offset)
}

pub fn make_election_seed(round: u32) -> (seed: [u8; 32])
    ensures
        seed@ == election_seed(round),
{
    let mut seed = [0u8; 32];
    let bytes = u32_to_le_bytes(round);
    seed[28] = bytes[0];
    seed[29] = bytes[1];
    seed[30] = bytes[2];
    seed[31] = bytes[3];
    assert(seed@ =~= election_seed(round));
    seed
}

pub fn make_swap_seed(round: u32, offset: u32) -> (seed: [u8; 32])
    ensures
        seed@ == swap_seed(round, offset),
{
    let mut seed = [0u8; 32];
    let round_bytes = u32_to_le_bytes(round);
    let offset_bytes = u32_to_le_bytes(offset);
    seed[24] = round_bytes[0];
    seed[25] = round_bytes[1];
    seed[26] = round_bytes[2];
    seed[27] = round_bytes[3];
    seed[28] = offset_bytes[0];
    seed[29] = offset_bytes[1];
    seed[30] = offset_bytes[2];
    seed[31] = offset_bytes[3];
    assert(seed@ =~= swap_seed(round, offset));
    seed
}

/// Calls `rand::rngs::StdRng::from_seed` and then
/// `rand::seq::SliceRandom::choose_multiple_weighted` on `choices`, asking
/// for as many entries as there are, with the second part of each entry as
/// its weight, and hands out the first part of each entry drawn, in the
/// order drawn.
///
/// Believed without proof: the draw does not fail (the sampler rejects only
/// weights that are negative or not numbers); which positions are drawn is
/// settled by the seed and the weights alone; and every position is drawn
/// exactly once.
#[verifier::external_body]
pub(crate) fn draw_all_weighted(seed: &[u8; 32], choices: &Vec<(u32, u32)>) -> (drawn: Option<
    Vec<u32>,
>)
    ensures
        drawn.is_some(),
        is_weighted_draw(
            choices@,
            weighted_order(seed@, weights_of(choices@)),
            drawn.unwrap()@,
        ),
{
    let mut rng = StdRng::from_seed(*seed);
    let drawn = choices.choose_multiple_weighted(&mut rng, choices.len(), |choice| choice.1);
    drawn.ok().map(|items| items.map(|choice| choice.0).collect())
}

/// Calls `rand::rngs::StdRng::from_seed` and then
/// `rand::seq::SliceRandom::choose` on `items`, and hands out the index of
/// the entry chosen.
///
/// Believed without proof: nothing is chosen from an empty list; otherwise
/// the entry at one position is chosen, and that position is settled by
/// the seed and the length of the list alone.
#[verifier::external_body]
pub(crate) fn draw_one(seed: &[u8; 32], items: &Vec<(AuthorityIndex, String, Stake)>) -> (drawn:
    Option<AuthorityIndex>)
    ensures
        items@.len() == 0 ==> drawn.is_none(),
        items@.len() > 0 ==> drawn == Some(items@[uniform_position(seed@, items@.len())].0),
        drawn.is_some() ==> 0 <= uniform_position(seed@, items@.len()) < items@.len(),
{
    let mut rng = StdRng::from_seed(*seed);
    items.choose(&mut rng).map(|item| item.0)
}

} // verus!
