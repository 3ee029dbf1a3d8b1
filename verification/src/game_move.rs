//! One move of the game: the stone color played, the board position, and
//! the sequence number of the move. Immutable once constructed; sequence
//! numbers are informational only.

use vstd::prelude::*;
use crate::stone::Stone;

verus! {

#[derive(Clone, Copy, Debug)]
pub struct GameMove {
    pub stone: Stone,
    pub pos: (usize, usize),
    pub move_number: usize,
}

impl GameMove {
    /// A move record always carries a real stone color, never `Empty`.
    pub fn new(stone: Stone, pos: (usize, usize), move_number: usize) -> (r: GameMove)
        requires
            stone != Stone::Empty,
        ensures
            r.stone == stone,
            r.pos == pos,
            r.move_number == move_number,
    {
        GameMove { stone, pos, move_number }
    }
}

} // verus!
