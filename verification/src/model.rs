//! The mathematical model: what a guess history demands of the secret word,
//! and which words meet the demands.

use crate::guess::{GuessColor, GuessHistory, LetterGuess};
use crate::letters::{is_letter, letter_index, to_lower, ALPHABET};
use vstd::prelude::*;

verus! {

/// Why a guess history cannot be used.
#[derive(Clone, Copy, Debug, PartialEq, Eq, Structural)]
pub enum MalformedHistory {
    /// The word length is zero.
    ZeroWordLength,
    /// The number of letters is no multiple of the word length, so that the
    /// last round is cut short.
    PartialRound,
    /// Some letter of the history is not an ASCII letter.
    InvalidLetter,
}

impl GuessHistory {
    /// Whether the history consists of whole rounds of letters.
    pub open spec fn well_formed(self) -> bool {
        self.defect() is None
    }

    /// What is wrong with the history, if anything. The word length is looked
    /// at first, then the number of letters, then the letters themselves.
    pub open spec fn defect(self) -> Option<MalformedHistory> {
        if self.word_len == 0 {
            Some(MalformedHistory::ZeroWordLength)
        } else if self.letters.len() % self.word_len != 0 {
            Some(MalformedHistory::PartialRound)
        } else if exists|i: int|
            0 <= i < self.letters.len() && !is_letter(#[trigger] self.letters[i].char) {
            Some(MalformedHistory::InvalidLetter)
        } else {
            None
        }
    }

    /// The first `n` letters of the history, as a history.
    pub open spec fn played(self, n: int) -> GuessHistory {
        GuessHistory { word_len: self.word_len, letters: self.letters.take(n) }
    }

    /// The history with every letter in lower case.
    pub open spec fn lowered(self) -> GuessHistory {
        GuessHistory { word_len: self.word_len, letters: lowered_letters(self.letters) }
    }

    /// The history with one more round played after the others.
    pub open spec fn with_round(self, round: Seq<LetterGuess>) -> GuessHistory {
        GuessHistory { word_len: self.word_len, letters: self.letters + round }
    }
}

/// The guessed letters with every letter in lower case.
pub open spec fn lowered_letters(letters: Seq<LetterGuess>) -> Seq<LetterGuess> {
    letters.map_values(|g: LetterGuess| LetterGuess { color: g.color, char: to_lower(g.char) })
}

/// Whether a guessed letter shows one occurrence of the letter at place `c`
/// of the alphabet: it does unless it is gray.
pub open spec fn shows(g: LetterGuess, c: int) -> bool {
    g.color != GuessColor::Gray && letter_index(g.char) == c
}

/// Whether a guessed letter denies a further occurrence of the letter at
/// place `c` of the alphabet: a gray one does.
pub open spec fn denies(g: LetterGuess, c: int) -> bool {
    g.color == GuessColor::Gray && letter_index(g.char) == c
}

/// How many occurrences of the letter at place `c` of the alphabet the
/// guessed letters show.
pub open spec fn shown(letters: Seq<LetterGuess>, c: int) -> nat
    decreases letters.len(),
{
    if letters.len() == 0 {
        0
    } else {
        shown(letters.drop_last(), c) + if shows(letters.last(), c) {
            1nat
        } else {
            0nat
        }
    }
}

/// The exact number of occurrences that one round settles for the letter at
/// place `c` of the alphabet: where the round denies the letter, as many as it
/// has shown before the last denial.
pub open spec fn settled(round: Seq<LetterGuess>, c: int) -> Option<nat>
    decreases round.len(),
{
    if round.len() == 0 {
        None
    } else if denies(round.last(), c) {
        Some(shown(round.drop_last(), c))
    } else {
        settled(round.drop_last(), c)
    }
}

/// What is demanded of a candidate word.
#[verifier::ext_equal]
pub struct Constraints {
    /// The length of the word.
    pub word_len: nat,
    /// For each place of the alphabet, how often the letter occurs at least.
    pub min_counts: Seq<nat>,
    /// For each place of the alphabet, how often the letter occurs exactly, where known.
    pub exact_counts: Seq<Option<nat>>,
    /// For each position of the word, the lower-case letter that stands there, where known.
    pub must_be: Seq<Option<u8>>,
    /// For each position of the word, the lower-case letters that do not stand there.
    pub must_not_be: Seq<Set<u8>>,
}

/// How often the letter at place `c` of the alphabet occurs in `word`, in
/// either case.
pub open spec fn occurrences(word: Seq<u8>, c: int) -> nat
    decreases word.len(),
{
    if word.len() == 0 {
        0
    } else {
        occurrences(word.drop_last(), c) + if letter_index(word.last()) == c {
            1nat
        } else {
            0nat
        }
    }
}

impl Constraints {
    /// The constraints that demand nothing but the length.
    pub open spec fn blank(word_len: nat) -> Constraints {
        Constraints {
            word_len,
            min_counts: Seq::new(ALPHABET as nat, |c: int| 0nat),
            exact_counts: Seq::new(ALPHABET as nat, |c: int| None),
            must_be: Seq::new(word_len, |p: int| None),
            must_not_be: Seq::new(word_len, |p: int| Set::empty()),
        }
    }

    /// Whether every table has its length.
    pub open spec fn well_formed(self) -> bool {
        &&& self.min_counts.len() == ALPHABET
        &&& self.exact_counts.len() == ALPHABET
        &&& self.must_be.len() == self.word_len
        &&& self.must_not_be.len() == self.word_len
    }

    /// The constraints after the letters of one more round, or of its first
    /// positions, have been taken in; the minimum counts are left as they are.
    ///
    /// A green letter becomes the letter of its position, in place of an
    /// earlier one. A yellow or gray letter is excluded from its position. A
    /// letter that the round denies gets the exact count that the round
    /// settles, in place of an earlier one.
    pub open spec fn absorb_positions(self, round: Seq<LetterGuess>) -> Constraints {
        Constraints {
            word_len: self.word_len,
            min_counts: self.min_counts,
            exact_counts: Seq::new(
                ALPHABET as nat,
                |c: int|
                    match settled(round, c) {
                        Some(k) => Some(k),
                        None => self.exact_counts[c],
                    },
            ),
            must_be: Seq::new(
                self.word_len,
                |p: int|
                    if p < round.len() && round[p].color == GuessColor::Green {
                        Some(to_lower(round[p].char))
                    } else {
                        self.must_be[p]
                    },
            ),
            must_not_be: Seq::new(
                self.word_len,
                |p: int|
                    if p < round.len() && round[p].color != GuessColor::Green {
                        self.must_not_be[p].insert(to_lower(round[p].char))
                    } else {
                        self.must_not_be[p]
                    },
            ),
        }
    }

    /// The constraints after one more round: its positions are taken in, and
    /// every letter occurs at least as often as the round shows it.
    pub open spec fn absorb(self, round: Seq<LetterGuess>) -> Constraints {
        Constraints {
            min_counts: Seq::new(
                ALPHABET as nat,
                |c: int|
                    if shown(round, c) > self.min_counts[c] {
                        shown(round, c)
                    } else {
                        self.min_counts[c]
                    },
            ),
            ..self.absorb_positions(round)
        }
    }

    /// Whether `later` keeps what these constraints have settled: every letter
    /// that they fix at a position, and every exact count that they know.
    pub open spec fn upheld_by(self, later: Constraints) -> bool {
        &&& forall|p: int|
            0 <= p < self.word_len ==> (#[trigger] self.must_be[p] is Some ==> later.must_be[p]
                == self.must_be[p])
        &&& forall|c: int|
            0 <= c < ALPHABET ==> (#[trigger] self.exact_counts[c] is Some
                ==> later.exact_counts[c] == self.exact_counts[c])
    }

    /// Whether `word`, given by its bytes, meets the constraints: it has the
    /// length, consists of letters, and satisfies each table, in either case.
    pub open spec fn applies_to(self, word: Seq<u8>) -> bool {
        &&& word.len() == self.word_len
        &&& forall|p: int| 0 <= p < word.len() ==> is_letter(#[trigger] word[p])
        &&& forall|p: int|
            0 <= p < word.len() ==> (#[trigger] self.must_be[p] matches Some(letter) ==> to_lower(
                word[p],
            ) == letter)
        &&& forall|p: int|
            0 <= p < word.len() ==> !(#[trigger] self.must_not_be[p]).contains(to_lower(word[p]))
        &&& forall|c: int|
            0 <= c < ALPHABET ==> (#[trigger] self.exact_counts[c] matches Some(k) ==> occurrences(
                word,
                c,
            ) == k)
        &&& forall|c: int|
            0 <= c < ALPHABET ==> occurrences(word, c) >= #[trigger] self.min_counts[c]
    }

    /// The words among `words` that meet the constraints, in their order.
    pub open spec fn matching(self, words: Seq<Seq<u8>>) -> Seq<Seq<u8>> {
        words.filter(|word: Seq<u8>| self.applies_to(word))
    }
}

impl GuessHistory {
    /// The constraints that the history yields: the blank ones, with its
    /// rounds taken in one after another.
    pub open spec fn constraints(self) -> Constraints
        decreases self.letters.len(),
    {
        if self.word_len == 0 || self.letters.len() < self.word_len {
            Constraints::blank(self.word_len)
        } else {
            self.played(self.letters.len() - self.word_len).constraints().absorb(
                self.letters.skip(self.letters.len() - self.word_len),
            )
        }
    }
}

} // verus!
