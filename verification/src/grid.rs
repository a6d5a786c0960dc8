//! The grid in which guesses are entered: one row for each guess, one tile
//! for each letter, and the rules by which the grid is edited.

use crate::guess::{GuessColor, LetterGuess};
use crate::letters::{is_letter, normalize};
use vstd::prelude::*;
use vstd::string::*;
use vstd::utf8::*;

verus! {

/// The smallest number of guesses that a grid can hold.
pub const MIN_GUESS_COUNT: usize = 1;

/// The largest number of guesses that a grid can hold.
pub const MAX_GUESS_COUNT: usize = 100;

/// The smallest word length that a grid can have.
pub const MIN_WORD_LEN: usize = 2;

/// The largest word length that a grid can have.
pub const MAX_WORD_LEN: usize = 28;

/// One cell of a grid in which guesses are being entered: either part may
/// still be missing.
#[derive(Clone, Copy, Debug, PartialEq, Eq, Structural)]
pub struct Tile {
    pub color: Option<GuessColor>,
    pub char: Option<u8>,
}

impl Default for Tile {
    fn default() -> (tile: Tile)
        ensures
            tile.color is None,
            tile.char is None,
    {
        Tile { color: None, char: None }
    }
}

/// The colour that follows `color` when a tile is clicked: gray for a tile
/// without colour, then yellow, then green, then gray again.
pub open spec fn next_color(color: Option<GuessColor>) -> GuessColor {
    match color {
        None => GuessColor::Gray,
        Some(GuessColor::Gray) => GuessColor::Yellow,
        Some(GuessColor::Yellow) => GuessColor::Green,
        Some(GuessColor::Green) => GuessColor::Gray,
    }
}

impl Tile {
    /// Gives the tile its next colour and leaves its letter alone.
    pub fn cycle_color(&mut self)
        ensures
            final(self).color == Some(next_color(old(self).color)),
            final(self).char == old(self).char,
    {
        self.color = match self.color {
            None => Some(GuessColor::Gray),
            Some(GuessColor::Gray) => Some(GuessColor::Yellow),
            Some(GuessColor::Green) => Some(GuessColor::Gray),
            Some(GuessColor::Yellow) => Some(GuessColor::Green),
        };
    }

    /// Whether both the letter and its colour have been entered.
    pub open spec fn is_filled(self) -> bool {
        self.color is Some && self.char is Some
    }

    /// The letter guess that a filled tile holds.
    pub open spec fn letter_guess(self) -> LetterGuess
        recommends
            self.is_filled(),
    {
        LetterGuess { color: self.color->0, char: self.char->0 }
    }
}

/// The tiles of a grid, row after row.
pub open spec fn grid_tiles(grid: Seq<Vec<Tile>>) -> Seq<Tile> {
    grid.map_values(|row: Vec<Tile>| row@).flatten()
}

/// Whether every tile of a grid is filled.
pub open spec fn grid_filled(grid: Seq<Vec<Tile>>) -> bool {
    forall|i: int| 0 <= i < grid_tiles(grid).len() ==> (#[trigger] grid_tiles(grid)[i]).is_filled()
}


/// A direction in which the focus moves from one tile to another.
#[derive(Clone, Copy, Debug, PartialEq, Eq, Structural)]
pub enum MoveDir {
    Left,
    Right,
    Down,
    Up,
}

/// The tile that gets the focus when it moves from the tile in row `row` and
/// column `col` of a grid: the neighbour in that direction. To the left of the
/// first tile of a row lies the last tile of the row above, to the right of
/// the last tile of a row the first tile of the row below. Where the grid
/// ends, the focus stays.
pub fn focus_after_moving(
    dir: MoveDir,
    row: usize,
    col: usize,
    total_rows: usize,
    total_cols: usize,
) -> (target: Option<(usize, usize)>)
    requires
        row < total_rows,
        col < total_cols,
    ensures
        target == match dir {
            MoveDir::Left => if col > 0 {
                Some((row, (col - 1) as usize))
            } else if row > 0 {
                Some(((row - 1) as usize, (total_cols - 1) as usize))
            } else {
                None
            },
            MoveDir::Right => if col + 1 < total_cols {
                Some((row, (col + 1) as usize))
            } else if row + 1 < total_rows {
                Some(((row + 1) as usize, 0usize))
            } else {
                None
            },
            MoveDir::Up => if row > 0 {
                Some(((row - 1) as usize, col))
            } else {
                None
            },
            MoveDir::Down => if row + 1 < total_rows {
                Some(((row + 1) as usize, col))
            } else {
                None
            },
        },
        target matches Some((r, c)) ==> r < total_rows && c < total_cols,
{
    match dir {
        MoveDir::Left => {
            if col > 0 {
                Some((row, col - 1))
            } else if row > 0 {
                Some((row - 1, total_cols - 1))
            } else {
                None
            }
        },
        MoveDir::Right => {
            if col + 1 < total_cols {
                Some((row, col + 1))
            } else if row + 1 < total_rows {
                Some((row + 1, 0))
            } else {
                None
            }
        },
        MoveDir::Up => {
            if row > 0 {
                Some((row - 1, col))
            } else {
                None
            }
        },
        MoveDir::Down => {
            if row + 1 < total_rows {
                Some((row + 1, col))
            } else {
                None
            }
        },
    }
}

/// The letter that the text of an input field gives to its tile: the upper
/// case form of its last byte, if that is an ASCII letter. In text, which is
/// UTF-8, the last byte is an ASCII letter exactly if the last character is.
pub open spec fn typed(value: Seq<u8>) -> Option<u8> {
    if value.len() > 0 && is_letter(value.last()) {
        Some(to_upper(value.last()))
    } else {
        None
    }
}

/// `b` with a lower-case ASCII letter replaced by its upper-case form.
pub open spec fn to_upper(b: u8) -> u8 {
    if 97 <= b <= 122 {
        (b - 32) as u8
    } else {
        b
    }
}

/// The letter that the text of an input field gives to its tile, if it gives one.
pub fn typed_letter(value: &str) -> (letter: Option<u8>)
    ensures
        letter == typed(value.spec_bytes()),
{
    let bytes = value.as_bytes();
    if bytes.len() == 0 {
        return None;
    }
    match normalize(bytes[bytes.len() - 1]) {
        Some((lower, _)) => Some(lower - 32),
        None => None,
    }
}

/// Whether two texts consist of the same characters.
pub fn same_text(a: &str, b: &str) -> (same: bool)
    ensures
        same == (a@ == b@),
{
    broadcast use encode_utf8_decode_utf8;

    let x = a.as_bytes();
    let y = b.as_bytes();
    if x.len() != y.len() {
        return false;
    }
    let mut i: usize = 0;
    while i < x.len()
        invariant
            i <= x.len(),
            x.len() == y.len(),
            x@ == a.spec_bytes(),
            y@ == b.spec_bytes(),
            forall|j: int| 0 <= j < i ==> x@[j] == y@[j],
        decreases x.len() - i,
    {
        if x[i] != y[i] {
            return false;
        }
        i += 1;
    }
    proof {
        assert(a.spec_bytes() =~= b.spec_bytes());
        assert(decode_utf8(encode_utf8(a@)) == a@);
        assert(decode_utf8(encode_utf8(b@)) == b@);
    }
    true
}

/// What a key asks of the tile that has the focus.
#[derive(Clone, Copy, Debug, PartialEq, Eq, Structural)]
pub struct KeyAction {
    /// Whether the letter of the tile is taken out.
    pub clears: bool,
    /// The direction in which the focus then moves, if it does.
    pub moves: Option<MoveDir>,
}

/// What the key of the given name asks for. The space bar takes the letter
/// out; the backspace key takes it out and goes left; an arrow key goes its
/// way; any other key asks for nothing.
pub open spec fn key_meaning(key: Seq<char>) -> KeyAction {
    if key == " "@ {
        KeyAction { clears: true, moves: None }
    } else if key == "Backspace"@ {
        KeyAction { clears: true, moves: Some(MoveDir::Left) }
    } else if key == "ArrowLeft"@ {
        KeyAction { clears: false, moves: Some(MoveDir::Left) }
    } else if key == "ArrowRight"@ {
        KeyAction { clears: false, moves: Some(MoveDir::Right) }
    } else if key == "ArrowUp"@ {
        KeyAction { clears: false, moves: Some(MoveDir::Up) }
    } else if key == "ArrowDown"@ {
        KeyAction { clears: false, moves: Some(MoveDir::Down) }
    } else {
        KeyAction { clears: false, moves: None }
    }
}

/// What the key of the given name asks for.
pub fn key_action(key: &str) -> (action: KeyAction)
    ensures
        action == key_meaning(key@),
{
    if same_text(key, " ") {
        KeyAction { clears: true, moves: None }
    } else if same_text(key, "Backspace") {
        KeyAction { clears: true, moves: Some(MoveDir::Left) }
    } else if same_text(key, "ArrowLeft") {
        KeyAction { clears: false, moves: Some(MoveDir::Left) }
    } else if same_text(key, "ArrowRight") {
        KeyAction { clears: false, moves: Some(MoveDir::Right) }
    } else if same_text(key, "ArrowUp") {
        KeyAction { clears: false, moves: Some(MoveDir::Up) }
    } else if same_text(key, "ArrowDown") {
        KeyAction { clears: false, moves: Some(MoveDir::Down) }
    } else {
        KeyAction { clears: false, moves: None }
    }
}

/// Whether a grid may hold `count` guesses.
pub fn guess_count_allowed(count: usize) -> (allowed: bool)
    ensures
        allowed == (MIN_GUESS_COUNT <= count <= MAX_GUESS_COUNT),
{
    MIN_GUESS_COUNT <= count && count <= MAX_GUESS_COUNT
}

/// Whether a grid may be made for words of `len` letters.
pub fn word_len_allowed(len: usize) -> (allowed: bool)
    ensures
        allowed == (MIN_WORD_LEN <= len <= MAX_WORD_LEN),
{
    MIN_WORD_LEN <= len && len <= MAX_WORD_LEN
}

/// The tile in row `r` and column `c` of a grid, and an empty tile where the
/// grid has none.
pub open spec fn tile_at(grid: Seq<Vec<Tile>>, r: int, c: int) -> Tile {
    if 0 <= r < grid.len() && 0 <= c < grid[r]@.len() {
        grid[r]@[c]
    } else {
        Tile { color: None, char: None }
    }
}

/// Gives a grid `rows` rows of `cols` tiles each. The tiles that it had in
/// those places stay as they are, and the new ones are empty.
pub fn resize(grid: &mut Vec<Vec<Tile>>, rows: usize, cols: usize)
    ensures
        final(grid)@.len() == rows,
        forall|r: int| 0 <= r < rows ==> (#[trigger] final(grid)@[r])@.len() == cols,
        forall|r: int, c: int|
            0 <= r < rows && 0 <= c < cols ==> #[trigger] final(grid)@[r]@[c] == tile_at(
                old(grid)@,
                r,
                c,
            ),
{
    grid.truncate(rows);
    while grid.len() < rows
        invariant
            grid@.len() <= rows,
            old(grid)@.len() <= grid@.len() || grid@.len() == rows,
            forall|r: int|
                0 <= r < grid@.len() && r < old(grid)@.len() ==> #[trigger] grid@[r] == old(
                    grid,
                )@[r],
            forall|r: int|
                old(grid)@.len() <= r < grid@.len() ==> (#[trigger] grid@[r])@.len() == 0,
        decreases rows - grid.len(),
    {
        grid.push(Vec::new());
    }
    let mut r: usize = 0;
    while r < rows
        invariant
            r <= rows,
            grid@.len() == rows,
            forall|q: int| 0 <= q < r ==> (#[trigger] grid@[q])@.len() == cols,
            forall|q: int, c: int|
                0 <= q < r && 0 <= c < cols ==> #[trigger] grid@[q]@[c] == tile_at(
                    old(grid)@,
                    q,
                    c,
                ),
            forall|q: int|
                r <= q < rows && q < old(grid)@.len() ==> #[trigger] grid@[q] == old(grid)@[q],
            forall|q: int|
                r <= q < rows && q >= old(grid)@.len() ==> (#[trigger] grid@[q])@.len() == 0,
        decreases rows - r,
    {
        let ghost was = grid@[r as int]@;
        grid[r].truncate(cols);
        while grid[r].len() < cols
            invariant
                r < rows,
                grid@.len() == rows,
                grid@[r as int]@.len() <= cols,
                was.len() <= grid@[r as int]@.len() || grid@[r as int]@.len() == cols,
                forall|c: int|
                    0 <= c < grid@[r as int]@.len() ==> #[trigger] grid@[r as int]@[c] == if c
                        < was.len() {
                        was[c]
                    } else {
                        Tile { color: None, char: None }
                    },
                forall|q: int| 0 <= q < r ==> (#[trigger] grid@[q])@.len() == cols,
                forall|q: int, c: int|
                    0 <= q < r && 0 <= c < cols ==> #[trigger] grid@[q]@[c] == tile_at(
                        old(grid)@,
                        q,
                        c,
                    ),
                forall|q: int|
                    r < q < rows && q < old(grid)@.len() ==> #[trigger] grid@[q] == old(grid)@[q],
                forall|q: int|
                    r < q < rows && q >= old(grid)@.len() ==> (#[trigger] grid@[q])@.len() == 0,
            decreases cols - grid@[r as int]@.len(),
        {
            grid[r].push(Tile::default());
        }
        r += 1;
    }
}

/// Whether every tile of a grid is filled, so that the grid gives a guess history.
pub fn is_solvable(grid: &Vec<Vec<Tile>>) -> (filled: bool)
    ensures
        filled == grid_filled(grid@),
{
    let mut r: usize = 0;
    while r < grid.len()
        invariant
            r <= grid.len(),
            grid_filled(grid@.take(r as int)),
        decreases grid.len() - r,
    {
        let row = &grid[r];
        let ghost before = grid_tiles(grid@.take(r as int));
        let mut c: usize = 0;
        while c < row.len()
            invariant
                r < grid.len(),
                row == grid@[r as int],
                c <= row.len(),
                before == grid_tiles(grid@.take(r as int)),
                forall|i: int| 0 <= i < before.len() ==> (#[trigger] before[i]).is_filled(),
                forall|j: int| 0 <= j < c ==> (#[trigger] row@[j]).is_filled(),
            decreases row.len() - c,
        {
            let tile = row[c];
            if tile.color.is_none() || tile.char.is_none() {
                proof {
                    lemma_grid_tiles_prefix(grid@, r as int, c as int);
                }
                return false;
            }
            c += 1;
        }
        proof {
            lemma_grid_tiles_step(grid@, r as int);
        }
        r += 1;
    }
    proof {
        assert(grid@.take(r as int) =~= grid@);
    }
    true
}

/// The tiles of the first `r + 1` rows are those of the first `r` rows
/// followed by row `r`.
pub proof fn lemma_grid_tiles_step(grid: Seq<Vec<Tile>>, r: int)
    requires
        0 <= r < grid.len(),
    ensures
        grid_tiles(grid.take(r + 1)) == grid_tiles(grid.take(r)) + grid[r]@,
{
    let rows = grid.take(r).map_values(|row: Vec<Tile>| row@);
    assert(grid.take(r + 1).map_values(|row: Vec<Tile>| row@) =~= rows.push(grid[r]@));
    rows.lemma_flatten_push(grid[r]@);
}

/// The tiles of the whole grid start with those of its first `r` rows.
pub proof fn lemma_grid_tiles_rows(grid: Seq<Vec<Tile>>, r: int)
    requires
        0 <= r <= grid.len(),
    ensures
        grid_tiles(grid.take(r)).len() <= grid_tiles(grid).len(),
        forall|i: int|
            0 <= i < grid_tiles(grid.take(r)).len() ==> grid_tiles(grid)[i] == grid_tiles(
                grid.take(r),
            )[i],
    decreases grid.len() - r,
{
    if r == grid.len() {
        assert(grid.take(r) =~= grid);
    } else {
        lemma_grid_tiles_step(grid, r);
        lemma_grid_tiles_rows(grid, r + 1);
    }
}

/// Tile `c` of row `r` is one of the tiles of the grid.
pub proof fn lemma_grid_tiles_prefix(grid: Seq<Vec<Tile>>, r: int, c: int)
    requires
        0 <= r < grid.len(),
        0 <= c < grid[r]@.len(),
    ensures
        grid_tiles(grid.take(r)).len() + c < grid_tiles(grid).len(),
        grid_tiles(grid)[grid_tiles(grid.take(r)).len() + c] == grid[r]@[c],
{
    lemma_grid_tiles_step(grid, r);
    lemma_grid_tiles_rows(grid, r + 1);
}

} // verus!
