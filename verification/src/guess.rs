//! Guess histories: the letters that were played and the colour each received.

use crate::grid::{
    grid_filled, grid_tiles, lemma_grid_tiles_prefix, lemma_grid_tiles_step, Tile,
};
use vstd::prelude::*;

verus! {

/// The colour that one letter of a guess received.
#[derive(Clone, Copy, Debug, PartialEq, Eq, Structural)]
pub enum GuessColor {
    /// The letter does not occur in the secret word, or not as often as it was played.
    Gray,
    /// The letter occurs in the secret word, but not at this position.
    Yellow,
    /// The letter stands at this position of the secret word.
    Green,
}

impl Default for GuessColor {
    fn default() -> (color: GuessColor)
        ensures
            color == GuessColor::Gray,
    {
        GuessColor::Gray
    }
}

/// One letter of a guess together with its colour. The letter is an ASCII
/// letter of either case.
#[derive(Clone, Copy, Debug, PartialEq, Eq, Structural)]
pub struct LetterGuess {
    pub color: GuessColor,
    pub char: u8,
}

/// Another name for [`GuessColor`].
pub type GuessType = GuessColor;

/// Another name for [`LetterGuess`].
pub type CharGuess = LetterGuess;

/// A guess history: rounds of `word_len` letters each, one after another in `val`.
#[derive(Debug, PartialEq, Eq)]
pub struct Guesses {
    pub word_len: usize,
    pub val: Vec<LetterGuess>,
}

/// What a [`Guesses`] value stands for: the word length and the letters in order.
pub struct GuessHistory {
    pub word_len: nat,
    pub letters: Seq<LetterGuess>,
}

impl Clone for Guesses {
    fn clone(&self) -> (copy: Guesses)
        ensures
            copy@ == self@,
    {
        let mut val: Vec<LetterGuess> = Vec::new();
        let mut i: usize = 0;
        while i < self.val.len()
            invariant
                i <= self.val.len(),
                val@ == self.val@.take(i as int),
            decreases self.val.len() - i,
        {
            val.push(self.val[i]);
            proof {
                assert(self.val@.take(i + 1) =~= self.val@.take(i as int).push(
                    self.val@[i as int],
                ));
            }
            i += 1;
        }
        proof {
            assert(self.val@.take(i as int) =~= self.val@);
        }
        Guesses { word_len: self.word_len, val }
    }
}

impl View for Guesses {
    type V = GuessHistory;

    open spec fn view(&self) -> GuessHistory {
        GuessHistory { word_len: self.word_len as nat, letters: self.val@ }
    }
}

impl Guesses {
    /// Reads a guess history off a grid, row by row. There is a history only
    /// if every tile of the grid is filled.
    pub fn from_grid(grid: Vec<Vec<Tile>>, word_len: usize) -> (history: Option<Guesses>)
        ensures
            history is Some <==> grid_filled(grid@),
            history matches Some(h) ==> h.word_len == word_len && h.val@ == grid_tiles(
                grid@,
            ).map_values(|t: Tile| t.letter_guess()),
    {
        let mut val: Vec<LetterGuess> = Vec::new();
        let mut r: usize = 0;
        while r < grid.len()
            invariant
                r <= grid.len(),
                val@ == grid_tiles(grid@.take(r as int)).map_values(|t: Tile| t.letter_guess()),
                forall|i: int|
                    0 <= i < grid_tiles(grid@.take(r as int)).len() ==> (#[trigger] grid_tiles(
                        grid@.take(r as int),
                    )[i]).is_filled(),
            decreases grid.len() - r,
        {
            let row = &grid[r];
            let ghost before = grid_tiles(grid@.take(r as int));
            let mut c: usize = 0;
            while c < row.len()
                invariant
                    r < grid.len(),
                    row == grid@[r as int],
                    c <= row.len(),
                    before == grid_tiles(grid@.take(r as int)),
                    val@ == (before + row@.take(c as int)).map_values(|t: Tile| t.letter_guess()),
                    forall|i: int|
                        0 <= i < before.len() + c ==> (#[trigger] (before + row@.take(
                            c as int,
                        ))[i]).is_filled(),
                decreases row.len() - c,
            {
                let tile = row[c];
                let ghost seen = before + row@.take(c as int);
                let ghost next = before + row@.take(c + 1);
                proof {
                    assert(next =~= seen.push(tile));
                }
                match (tile.color, tile.char) {
                    (Some(color), Some(char)) => {
                        val.push(LetterGuess { color, char });
                        proof {
                            assert(val@ =~= next.map_values(|t: Tile| t.letter_guess()));
                            assert forall|i: int| 0 <= i < before.len() + c + 1 implies (
                            #[trigger] next[i]).is_filled() by {
                                if i < before.len() + c {
                                    assert(seen[i].is_filled());
                                }
                            }
                        }
                    },
                    _ => {
                        proof {
                            lemma_grid_tiles_prefix(grid@, r as int, c as int);
                        }
                        return None;
                    },
                }
                c += 1;
            }
            proof {
                assert(row@.take(c as int) =~= row@);
                lemma_grid_tiles_step(grid@, r as int);
            }
            r += 1;
        }
        proof {
            assert(grid@.take(r as int) =~= grid@);
        }
        Some(Guesses { word_len, val })
    }
}

} // verus!
