//! Laws relating the canonicalization steps to each other.
use crate::ai_serial::{completes, sound};
use crate::board::wins;
use crate::canon::{is_standard_grid, settle};
use crate::move_value::{index_of, MoveAnalysis, MoveValue};
use crate::space::Piece;
use vstd::prelude::*;

verus! {

/// A canonical grid is left as it is by repeated standardization.
pub proof fn lemma_standard_is_fixed(g: Seq<Piece>, n: int, fuel: nat)
    requires
        is_standard_grid(g, n),
    ensures
        settle(g, n, fuel) == g,
{
}

/// Full standardization is idempotent: standardizing its result again
/// changes nothing, whenever the first run reached a canonical grid (it
/// stops early only after `usize::MAX` rounds).
pub proof fn lemma_fully_standardize_idempotent(g: Seq<Piece>, n: int)
    requires
        is_standard_grid(settle(g, n, usize::MAX as nat), n),
    ensures
        settle(settle(g, n, usize::MAX as nat), n, usize::MAX as nat) == settle(g, n, usize::MAX as nat),
{
    lemma_standard_is_fixed(settle(g, n, usize::MAX as nat), n, usize::MAX as nat);
}

/// Full standardization of a board with coordinate tags is idempotent
/// too: run again on its own result it changes neither pieces nor tags,
/// whenever the first run reached a canonical grid.
pub proof fn lemma_fully_standardize_spaces_idempotent(g: Seq<crate::space::Space>, n: int)
    requires
        is_standard_grid(crate::order::bare(crate::canon::settle_spaces(g, n, usize::MAX as nat)), n),
    ensures
        crate::canon::settle_spaces(crate::canon::settle_spaces(g, n, usize::MAX as nat), n, usize::MAX as nat)
            == crate::canon::settle_spaces(g, n, usize::MAX as nat),
{
}

/// Evaluation soundness: an analysis the engines return (every one is
/// `sound`) is never `Win(0)`, and when it is `Win(1)`, a win on this very
/// move, placing the analyzing piece on any of its listed moves gives that
/// piece a transversal.
pub proof fn lemma_win_is_a_transversal(k: Seq<Piece>, n: int, piece: Piece, a: MoveAnalysis)
    requires
        sound(k, n, piece, a),
    ensures
        a.evaluation != MoveValue::Win(0),
        a.evaluation == MoveValue::Win(1) ==> forall|i: int|
            0 <= i < a.move_options@.len() ==> wins(
                k.update(index_of(#[trigger] a.move_options@[i], n), piece),
                n as nat,
                piece,
            ),
{
    if a.evaluation == MoveValue::Win(1) {
        assert forall|i: int| 0 <= i < a.move_options@.len() implies wins(
            k.update(index_of(#[trigger] a.move_options@[i], n), piece),
            n as nat,
            piece,
        ) by {
            assert(completes(k, n, piece, a.move_options@[i]));
        }
    }
}

} // verus!
