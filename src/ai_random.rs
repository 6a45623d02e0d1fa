//! A player that plays a uniformly random empty cell.
use crate::ai_serial::all_filled;
use crate::board::Board;
use crate::move_value::{available_spaces, is_open};
use crate::random::choose_coord;
use crate::space::{Coord, Piece};
use vstd::prelude::*;

verus! {

/// Plays a random empty cell.
pub struct AiRandom {
    pub piece: Piece,
}

impl AiRandom {
    pub fn new(piece: Piece) -> (r: AiRandom)
        ensures
            r.piece == piece,
    {
        AiRandom { piece }
    }

    pub fn piece(&self) -> (r: Piece)
        ensures
            r == self.piece,
    {
        self.piece
    }

    /// Puts this player's piece on a random empty cell; a full board stays
    /// as it is.
    pub fn make_move(&mut self, game_board: &mut Board)
        requires
            old(game_board).wf(),
        ensures
            final(self).piece == old(self).piece,
            final(game_board).wf(),
            final(game_board).size == old(game_board).size,
            all_filled(old(game_board).grid@) ==> final(game_board).grid@ == old(game_board).grid@,
            !all_filled(old(game_board).grid@) ==> exists|c: Coord|
                is_open(old(game_board).grid@, old(game_board).size as int, c) && final(game_board).grid@
                    == old(game_board).grid@.update(c.row * old(game_board).size + c.col, old(self).piece),
    {
        let spaces = available_spaces(game_board);
        proof {
            crate::ai_serial::lemma_open_exists(game_board);
            if !all_filled(game_board.grid@) {
                let c = choose|c: Coord| is_open(game_board.grid@, game_board.size as int, c);
                assert(spaces@.contains(c));
            }
        }
        if spaces.len() == 0 {
            proof {
                if !all_filled(game_board.grid@) {
                    let c = choose|c: Coord| is_open(game_board.grid@, game_board.size as int, c);
                    assert(spaces@.contains(c));
                }
            }
            return;
        }
        let c = choose_coord(&spaces);
        proof {
            let q = choose|q: int| 0 <= q < spaces@.len() && spaces@[q] == c;
            assert(is_open(game_board.grid@, game_board.size as int, spaces@[q]));
            if all_filled(game_board.grid@) {
                crate::board::lemma_index(c.row as int, c.col as int, game_board.size as int);
            }
        }
        let _ = game_board.place(self.piece, c);
    }
}

} // verus!
