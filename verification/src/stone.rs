//! The three-valued cell marker: a black stone, a white stone, or an empty
//! cell. `Empty` is the default cell value and also marks "no group".

use vstd::prelude::*;

verus! {

#[derive(Clone, Copy, Debug, PartialEq, Eq, Structural)]
pub enum Stone {
    Black,
    White,
    Empty,
}

impl Stone {
    /// The opposing color: Black and White swap; Empty has no opponent.
    pub fn get_opponent(&self) -> (r: Option<Stone>)
        ensures
            r == match *self {
                Stone::Black => Some(Stone::White),
                Stone::White => Some(Stone::Black),
                Stone::Empty => None::<Stone>,
            },
    {
        match &self {
            Stone::Black => Some(Stone::White),
            Stone::White => Some(Stone::Black),
            Stone::Empty => None,
        }
    }
}

} // verus!
