use vstd::prelude::*;

use crate::piece::Color;

verus! {

/// One side's seat at the board: its color and the pieces it has yet to place.
#[derive(Clone, Copy, Debug)]
pub struct Player {
    pub color: Color,
    pub flatstone_count: u8,
    pub capstone_count: u8,
}

impl Player {
    pub fn new(color: Color, flatstone_count: u8, capstone_count: u8) -> (r: Player)
        ensures
            r.color == color,
            r.flatstone_count == flatstone_count,
            r.capstone_count == capstone_count,
    {
        Player { color, flatstone_count, capstone_count }
    }
}

} // verus!
