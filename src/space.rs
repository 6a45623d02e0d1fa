use vstd::prelude::*;

verus! {

/// The content of one cell of a board.
#[derive(Clone, Copy, Debug, PartialEq, Eq, Structural, Hash, PartialOrd, Ord)]
pub enum Piece {
    X,
    O,
    Empty,
}

/// Swaps `X` and `O`; `Empty` stays `Empty`.
pub open spec fn inverse_of(p: Piece) -> Piece {
    match p {
        Piece::X => Piece::O,
        Piece::O => Piece::X,
        Piece::Empty => Piece::Empty,
    }
}

impl Piece {
    pub fn inverse(&self) -> (r: Piece)
        ensures
            r == inverse_of(*self),
    {
        match self {
            Piece::X => Piece::O,
            Piece::O => Piece::X,
            Piece::Empty => Piece::Empty,
        }
    }
}

/// A cell position: row index and column index.
#[derive(Clone, Copy, Debug, PartialEq, Eq, Structural, Hash, PartialOrd, Ord)]
pub struct Coord {
    pub row: usize,
    pub col: usize,
}

/// A piece together with the position it had on the board it came from.
#[derive(Clone, Copy, Debug, PartialEq, Eq, Structural, PartialOrd, Ord)]
pub struct Space {
    pub piece: Piece,
    pub coord: Coord,
}

} // verus!
