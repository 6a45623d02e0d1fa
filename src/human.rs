//! A player whose moves are typed in.
use crate::space::Piece;
use vstd::prelude::*;
use vstd::string::StringExecFns;

verus! {

/// A named player holding a piece.
#[derive(Debug)]
pub struct Human {
    pub name: String,
    pub piece: Piece,
}

impl Human {
    pub fn new(name: &str, piece: Piece) -> (r: Human)
        ensures
            r.name@ == name@,
            r.piece == piece,
    {
        Human { name: String::from_str(name), piece }
    }
}

} // verus!
