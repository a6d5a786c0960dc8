//! The alphabet of the game: the 26 ASCII letters, upper and lower case alike.

use vstd::prelude::*;

verus! {

/// The number of letters.
pub const ALPHABET: usize = 26;

/// Whether `b` is an ASCII letter of either case.
pub open spec fn is_letter(b: u8) -> bool {
    (65 <= b <= 90) || (97 <= b <= 122)
}

/// `b` with an upper-case ASCII letter replaced by its lower-case form.
pub open spec fn to_lower(b: u8) -> u8 {
    if 65 <= b <= 90 {
        (b + 32) as u8
    } else {
        b
    }
}

/// The place of `b` in the alphabet, from 0 for `a` or `A` to 25 for `z` or
/// `Z`. It lies outside that range exactly if `b` is no letter.
pub open spec fn letter_index(b: u8) -> int {
    to_lower(b) - 97
}

/// `word` with every upper-case ASCII letter replaced by its lower-case form.
pub open spec fn lowered(word: Seq<u8>) -> Seq<u8> {
    word.map_values(|b: u8| to_lower(b))
}

/// The lower-case form of a letter and its place in the alphabet.
pub fn place(letter: u8) -> (r: (u8, usize))
    requires
        is_letter(letter),
    ensures
        r.0 == to_lower(letter),
        r.1 == letter_index(letter),
        r.1 < ALPHABET,
{
    if letter >= 97 {
        (letter, (letter - 97) as usize)
    } else {
        (letter + 32, (letter - 65) as usize)
    }
}

/// The lower-case form of `b` and its place in the alphabet, if `b` is a letter.
pub fn normalize(b: u8) -> (r: Option<(u8, usize)>)
    ensures
        r is Some <==> is_letter(b),
        r matches Some((lower, index)) ==> lower == to_lower(b) && index == letter_index(b)
            && index < ALPHABET,
{
    if (65 <= b && b <= 90) || (97 <= b && b <= 122) {
        Some(place(b))
    } else {
        None
    }
}

} // verus!
