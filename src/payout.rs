//! The payout that a line earns for the sum of its three digits.

use vstd::prelude::*;

verus! {

/// The payout for a line whose digits add up to `s`; zero off the table.
pub open spec fn payout(s: int) -> int {
    if s == 6 { 10000 }
    else if s == 7 { 36 }
    else if s == 8 { 720 }
    else if s == 9 { 360 }
    else if s == 10 { 80 }
    else if s == 11 { 252 }
    else if s == 12 { 108 }
    else if s == 13 { 72 }
    else if s == 14 { 54 }
    else if s == 15 { 180 }
    else if s == 16 { 72 }
    else if s == 17 { 180 }
    else if s == 18 { 119 }
    else if s == 19 { 36 }
    else if s == 20 { 306 }
    else if s == 21 { 1080 }
    else if s == 22 { 144 }
    else if s == 23 { 1800 }
    else if s == 24 { 3600 }
    else { 0 }
}

/// The largest payout of the table.
pub const TOP_PAYOUT: u32 = 10000;

/// Looks up the payout for a line sum.
pub fn payout_for_sum(sum: u8) -> (r: u32)
    ensures
        r == payout(sum as int),
{
    match sum {
        6 => 10000,
        7 => 36,
        8 => 720,
        9 => 360,
        10 => 80,
        11 => 252,
        12 => 108,
        13 => 72,
        14 => 54,
        15 => 180,
        16 => 72,
        17 => 180,
        18 => 119,
        19 => 36,
        20 => 306,
        21 => 1080,
        22 => 144,
        23 => 1800,
        24 => 3600,
        _ => 0,
    }
}

/// Only the sums from 6 to 24 pay anything, and each of them pays something,
/// never more than the top prize.
pub proof fn lemma_payout_range(s: int)
    ensures
        0 <= payout(s) <= TOP_PAYOUT,
        payout(s) > 0 <==> 6 <= s <= 24,
{
}

} // verus!
