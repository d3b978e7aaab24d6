//! A solver for the Mini Cactpot lottery: a 3x3 grid holding the digits 1 to 9,
//! some of them revealed, and eight lines whose payout depends on the sum of
//! their three digits.

pub mod payout;
pub mod board;
pub mod permutations;
pub mod lines;
pub mod table;
pub mod analysis;
pub mod input;
