use vstd::prelude::*;

verus! {

/// The two sides of a game.
#[derive(Clone, Copy, Debug, PartialEq, Eq, Structural)]
pub enum Color {
    White,
    Black,
}

impl Color {
    pub open spec fn spec_flip(self) -> Color {
        match self {
            Color::White => Color::Black,
            Color::Black => Color::White,
        }
    }

    /// The other side.
    pub fn flip(self) -> (r: Color)
        ensures
            r == self.spec_flip(),
    {
        match self {
            Color::White => Color::Black,
            Color::Black => Color::White,
        }
    }
}

/// A piece, tagged with the color that owns it.
#[derive(Clone, Copy, Debug, PartialEq, Eq, Structural)]
pub enum Piece {
    Flatstone(Color),
    StandingStone(Color),
    Capstone(Color),
}

impl Piece {
    pub open spec fn color(self) -> Color {
        match self {
            Piece::Flatstone(c) => c,
            Piece::StandingStone(c) => c,
            Piece::Capstone(c) => c,
        }
    }

    /// Flatstones and capstones count toward a road; standing stones do not.
    pub open spec fn is_road_piece(self) -> bool {
        !(self is StandingStone)
    }

    pub fn get_color(&self) -> (r: Color)
        ensures
            r == self.color(),
    {
        match self {
            Piece::Flatstone(c) => *c,
            Piece::StandingStone(c) => *c,
            Piece::Capstone(c) => *c,
        }
    }
}

/// The four compass directions a slide may take. `x` grows to the east and
/// `y` grows to the north.
#[derive(Clone, Copy, Debug, PartialEq, Eq, Structural)]
pub enum Direction {
    North,
    East,
    South,
    West,
}

impl Direction {
    pub open spec fn dx(self) -> int {
        match self {
            Direction::East => 1,
            Direction::West => -1,
            _ => 0,
        }
    }

    pub open spec fn dy(self) -> int {
        match self {
            Direction::North => 1,
            Direction::South => -1,
            _ => 0,
        }
    }

    /// The step, as `(dx, dy)`, that one cell of travel in this direction makes.
    pub fn to_offset(self) -> (r: (i8, i8))
        ensures
            r.0 as int == self.dx(),
            r.1 as int == self.dy(),
    {
        match self {
            Direction::North => (0, 1),
            Direction::East => (1, 0),
            Direction::South => (0, -1),
            Direction::West => (-1, 0),
        }
    }
}

} // verus!
