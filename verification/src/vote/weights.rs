use vstd::prelude::*;

use crate::vote::{rank_weight, two_to};

verus! {

/// The weight of each place of a juror's ranking, from 4096 for a place 0 down to 1 for the
/// twelfth place.
proof fn lemma_weight_values(rank: u16)
    ensures
        rank == 0 ==> rank_weight(rank) == 4096,
        rank == 1 ==> rank_weight(rank) == 2048,
        rank == 2 ==> rank_weight(rank) == 1024,
        rank == 3 ==> rank_weight(rank) == 512,
        rank == 4 ==> rank_weight(rank) == 256,
        rank == 5 ==> rank_weight(rank) == 128,
        rank == 6 ==> rank_weight(rank) == 64,
        rank == 7 ==> rank_weight(rank) == 32,
        rank == 8 ==> rank_weight(rank) == 16,
        rank == 9 ==> rank_weight(rank) == 8,
        rank == 10 ==> rank_weight(rank) == 4,
        rank == 11 ==> rank_weight(rank) == 2,
        rank == 12 ==> rank_weight(rank) == 1,
        rank > 12 ==> rank_weight(rank) == 0,
{
    reveal_with_fuel(two_to, 13);
    assert(two_to(0) == 1 && two_to(1) == 2 && two_to(2) == 4 && two_to(3) == 8);
    assert(two_to(4) == 16 && two_to(5) == 32 && two_to(6) == 64 && two_to(7) == 128);
    assert(two_to(8) == 256 && two_to(9) == 512 && two_to(10) == 1024);
    assert(two_to(11) == 2048 && two_to(12) == 4096);
}

/// The weights of a juror's places form an exponential scale: 4096 before the first place,
/// each place weighing exactly half of the one before it, down to 1 for the twelfth place,
/// and nothing for any later place.
pub proof fn law_rank_weight_halves(rank: u16)
    ensures
        rank == 0 ==> rank_weight(rank) == 4096,
        rank < 12 ==> 2 * rank_weight((rank + 1) as u16) == rank_weight(rank),
        rank == 12 ==> rank_weight(rank) == 1,
        rank > 12 ==> rank_weight(rank) == 0,
{
    lemma_weight_values(rank);
    if rank < 12 {
        lemma_weight_values((rank + 1) as u16);
    }
}

/// A juror's later place never weighs more than an earlier one, and weighs strictly less
/// while the earlier one weighs anything.
pub proof fn law_rank_weight_decreasing(a: u16, b: u16)
    requires
        a < b,
    ensures
        rank_weight(b) <= rank_weight(a),
        rank_weight(a) > 0 ==> rank_weight(b) < rank_weight(a),
    decreases b - a,
{
    law_rank_weight_halves(a);
    law_rank_weight_halves((a + 1) as u16);
    if a + 1 < b {
        law_rank_weight_decreasing((a + 1) as u16, b);
    }
    lemma_weight_values(a);
    lemma_weight_values(b);
}

} // verus!
