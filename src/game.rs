//! The rules of a turn: when the game ends and who won it.
use crate::ai_serial::all_filled;
use crate::board::{wins, Board};
use crate::space::Piece;
use vstd::prelude::*;

verus! {

/// Whose turn it is, or how the game ended.
#[derive(Clone, Copy, Debug, PartialEq, Eq, Structural)]
pub enum GameState {
    P1,
    P2,
    Tie,
}

impl GameState {
    /// The player who moves after this one.
    pub fn other(&self) -> (r: GameState)
        ensures
            *self == GameState::P1 ==> r == GameState::P2,
            *self == GameState::P2 ==> r == GameState::P1,
            *self == GameState::Tie ==> r == GameState::Tie,
    {
        match self {
            GameState::P1 => GameState::P2,
            GameState::P2 => GameState::P1,
            GameState::Tie => GameState::Tie,
        }
    }
}

/// Before a turn: the game is a tie when the board is full.
pub fn before_turn(board: &Board) -> (r: Option<GameState>)
    ensures
        r == if all_filled(board.grid@) {
            Some(GameState::Tie)
        } else {
            None::<GameState>
        },
{
    if board.is_full() {
        Some(GameState::Tie)
    } else {
        None
    }
}

/// After `turn`'s player, holding `mover`, moved: that player has won when
/// `mover` holds a transversal.
pub fn after_turn(board: &Board, mover: Piece, turn: GameState) -> (r: Option<GameState>)
    requires
        board.wf(),
    ensures
        r == if wins(board.grid@, board.size as nat, mover) {
            Some(turn)
        } else {
            None::<GameState>
        },
{
    if board.has_win(mover) {
        Some(turn)
    } else {
        None
    }
}

} // verus!
