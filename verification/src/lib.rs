//! Constraints derived from the feedback of a word-guessing game, and the
//! filtering of word lists by them.
//!
//! A history of guesses, each letter coloured green, yellow or gray, is turned
//! into a [`reqs::Requirement`]; a requirement then decides for every candidate
//! word whether it is still possible, and picks the possible words out of a
//! word list. Every function carries a contract over the mathematical model in
//! [`model`], and [`theorems`] states what holds of the model as a whole.
//!
//! [`guess`] holds the histories, [`grid`] the grid in which a history is
//! entered tile by tile, [`wordlist`] the splitting of a word list into lines,
//! and [`letters`] the alphabet.

pub mod grid;
pub mod guess;
pub mod letters;
pub mod model;
pub mod reqs;
pub mod theorems;
pub mod wordlist;

use vstd::prelude::*;

verus! {

/// The sum of two numbers, where a `u32` holds it.
pub fn add(a: u32, b: u32) -> (sum: u32)
    requires
        a + b <= u32::MAX,
    ensures
        sum == a + b,
{
    a + b
}

} // verus!
