use vstd::prelude::*;
use crate::codec::digits_below;

verus! {

/// Number of cells on the board.
pub const BOARD_SIZE: usize = 9;

/// Number of faces of the die.
pub const NUM_DICE_SIDES: usize = 6;

/// Number of values a cell can hold: empty, or one face of the die.
pub const NUM_TILE_VALUES: usize = 7;

/// The penalty of a board: the distance of its weighted digit sum from 1000, less ten times
/// the middle value for each diagonal whose three cells agree. Cells are laid out as
/// ```text
/// 0 3 6
/// 1 4 7
/// 2 5 8
/// ```
pub open spec fn score_spec(b: Seq<u32>) -> int {
    let weighted = (b[0] + b[1] + b[2]) * 100 + (b[3] + b[4] + b[5]) * 10 + (b[6] + b[7] + b[8]);
    let distance = if weighted <= 1000 { 1000 - weighted } else { weighted - 1000 };
    let first = if b[0] == b[4] && b[4] == b[8] { b[4] * 10 } else { 0 };
    let second = if b[2] == b[4] && b[4] == b[6] { b[4] * 10 } else { 0 };
    distance - first - second
}

/// The penalty of a board of nine cells (lower is better).
pub fn score(board: &[u32]) -> (r: i64)
    requires
        board@.len() == BOARD_SIZE,
        digits_below(board@, NUM_TILE_VALUES as nat),
    ensures
        r == score_spec(board@),
        -120 <= r <= 1000,
{
    let b = board;
    let weighted: i64 = ((b[0] + b[1] + b[2]) as i64) * 100 + ((b[3] + b[4] + b[5]) as i64) * 10
        + ((b[6] + b[7] + b[8]) as i64);
    let mut base_score: i64 = if weighted <= 1000 { 1000 - weighted } else { weighted - 1000 };
    if b[0] == b[4] && b[4] == b[8] {
        base_score = base_score - (b[4] as i64) * 10;
    }
    if b[2] == b[4] && b[4] == b[6] {
        base_score = base_score - (b[4] as i64) * 10;
    }
    base_score
}

} // verus!
