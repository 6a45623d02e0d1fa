//! The exhaustive engine that keeps one best move per position and stops
//! at the first winning move.
use crate::ai_serial::{all_filled, child_key};
use crate::board::{inverted, wins, Board};
use crate::cache::Cache;
use crate::canon::{copy_vec, settle};
use crate::move_value::{index_of, available_spaces, is_open, lists_open_cells, ply, value_less, MoveValue};
use crate::random::choose_coord;
use crate::scrambled_board::ScrambledBoard;
use crate::space::{inverse_of, Coord, Piece};
use vstd::prelude::*;

verus! {

/// What the deterministic engine stores for a position: its evaluation and
/// one move that reaches it.
#[derive(Clone, Copy, Debug, PartialEq, Eq, Structural)]
pub struct LazyMoveAnalysis {
    pub evaluation: MoveValue,
    pub move_option: Option<Coord>,
}

/// What holds of every analysis of the `n`-wide position `k` made for
/// `piece`: its move is an empty cell; it is `Lose(0)` exactly when the
/// opponent already holds a transversal; `Tie(0)` only on a full board,
/// and on a full board the opponent has not won; a position that is
/// neither lost nor full has a move; it is never `Win(0)`; and when it is
/// `Win(1)`, its move completes a transversal of `piece`.
pub open spec fn lazy_sound(k: Seq<Piece>, n: int, piece: Piece, a: LazyMoveAnalysis) -> bool {
    let lost = wins(k, n as nat, inverse_of(piece));
    &&& k.len() == n * n
    &&& a.move_option matches Some(c) ==> is_open(k, n, c)
    &&& (a.evaluation == MoveValue::Lose(0)) == lost
    &&& a.evaluation == MoveValue::Tie(0) ==> all_filled(k)
    &&& (!lost && all_filled(k)) ==> a.evaluation == MoveValue::Tie(0)
    &&& (!lost && !all_filled(k)) ==> a.move_option is Some
    &&& a.evaluation != MoveValue::Win(0)
    &&& (a.evaluation == MoveValue::Win(1) && a.move_option is Some) ==> crate::ai_serial::completes(
        k,
        n,
        piece,
        a.move_option->Some_0,
    )
}

/// The number of empty cells of `g`.
pub open spec fn empties(g: Seq<Piece>) -> nat {
    crate::order::count_of(g, Piece::Empty)
}

/// `g` with `p` at index `i`.
pub open spec fn placed(g: Seq<Piece>, i: int, p: Piece) -> Seq<Piece> {
    g.update(i, p)
}

/// An engine that solves positions completely, keeping one best move for
/// each and taking the first winning move it finds.
pub struct AiLazy {
    board_size: usize,
    piece: Piece,
    known_boards: Cache<LazyMoveAnalysis>,
    deterministic: bool,
}

impl AiLazy {
    pub closed spec fn size_spec(&self) -> usize {
        self.board_size
    }

    pub closed spec fn piece_spec(&self) -> Piece {
        self.piece
    }

    pub closed spec fn deterministic_spec(&self) -> bool {
        self.deterministic
    }

    /// The analysis stored for position `k`, if any.
    pub closed spec fn cached(&self, k: Seq<Piece>) -> Option<LazyMoveAnalysis> {
        self.known_boards.lookup(k)
    }

    /// The analysis stored for the position after this engine's piece
    /// moves at `c` on `g`.
    pub open spec fn child_record(&self, g: Seq<Piece>, c: Coord) -> LazyMoveAnalysis {
        self.cached(child_key(g, self.size_spec() as int, self.piece_spec(), c))->Some_0
    }

    /// Whether an analysis is stored for that position, one with an empty
    /// cell fewer than `g`.
    pub open spec fn has_child(&self, g: Seq<Piece>, c: Coord) -> bool {
        let k = child_key(g, self.size_spec() as int, self.piece_spec(), c);
        &&& self.cached(k) is Some
        &&& crate::order::count_of(k, Piece::Empty) + 1 == crate::order::count_of(g, Piece::Empty)
    }

    /// `a` is the search result for `g` over the analyses this engine has
    /// stored for `g`'s moves, looked at in row-major order: its move `c` is
    /// an empty cell whose value after one ply is `a`'s value. Every empty
    /// cell before `c` was looked at and does not win. When `a` wins, `c` is
    /// thus the first winning move; otherwise every empty cell was looked
    /// at, none is better than `c`, and every one before `c` is worse.
    pub open spec fn searched(&self, g: Seq<Piece>, a: LazyMoveAnalysis) -> bool {
        let n = self.size_spec() as int;
        let c = a.move_option->Some_0;
        &&& a.move_option is Some
        &&& is_open(g, n, c)
        &&& self.has_child(g, c)
        &&& a.evaluation == ply(self.child_record(g, c).evaluation)
        &&& forall|d: Coord|
            #[trigger] is_open(g, n, d) && index_of(d, n) < index_of(c, n) ==> {
                &&& self.has_child(g, d)
                &&& !(ply(self.child_record(g, d).evaluation) is Win)
                &&& !(a.evaluation is Win) ==> value_less(ply(self.child_record(g, d).evaluation), a.evaluation)
            }
        &&& !(a.evaluation is Win) ==> forall|d: Coord|
            #[trigger] is_open(g, n, d) ==> self.has_child(g, d) && !value_less(
                a.evaluation,
                ply(self.child_record(g, d).evaluation),
            )
    }

    /// Every stored analysis is sound for its position.
    pub closed spec fn inv(&self) -> bool {
        self.known_boards.wf() && forall|k: Seq<Piece>|
            #[trigger] self.known_boards.lookup(k) is Some ==> lazy_sound(
                k,
                self.board_size as int,
                self.piece,
                self.known_boards.lookup(k)->Some_0,
            )
    }

    /// A deterministic engine for `piece` on `size`-wide boards.
    pub fn new(size: usize, piece: Piece) -> (r: AiLazy)
        ensures
            r.inv(),
            r.size_spec() == size,
            r.piece_spec() == piece,
            r.deterministic_spec(),
            forall|k: Seq<Piece>| #[trigger] r.cached(k) == None::<LazyMoveAnalysis>,
    {
        AiLazy { board_size: size, piece, known_boards: Cache::new(), deterministic: true }
    }

    /// This engine, picking at random among the moves whose positions are
    /// canonically equal to that of its stored move.
    pub fn randomized(self) -> (r: AiLazy)
        requires
            self.inv(),
        ensures
            r.inv(),
            r.size_spec() == self.size_spec(),
            r.piece_spec() == self.piece_spec(),
            !r.deterministic_spec(),
            forall|k: Seq<Piece>| #[trigger] r.cached(k) == self.cached(k),
    {
        AiLazy { deterministic: false, ..self }
    }

    pub fn piece(&self) -> (r: Piece)
        ensures
            r == self.piece_spec(),
    {
        self.piece
    }

    fn remember(&mut self, b: &Board, a: LazyMoveAnalysis)
        requires
            old(self).inv(),
            lazy_sound(b.grid@, old(self).board_size as int, old(self).piece, a),
        ensures
            final(self).inv(),
            final(self).board_size == old(self).board_size,
            final(self).piece == old(self).piece,
            final(self).deterministic == old(self).deterministic,
            final(self).cached(b.grid@) == Some(a),
            forall|k: Seq<Piece>| k != b.grid@ ==> #[trigger] final(self).cached(k) == old(self).cached(k),
    {
        self.known_boards.insert(copy_vec(&b.grid), a);
        proof {
            assert forall|k: Seq<Piece>| #[trigger] self.known_boards.lookup(k) is Some implies lazy_sound(
                k,
                self.board_size as int,
                self.piece,
                self.known_boards.lookup(k)->Some_0,
            ) by {
                if k != b.grid@ {
                    assert(old(self).known_boards.lookup(k) == self.known_boards.lookup(k));
                }
            }
        }
    }

    /// Solves canonical position `b`, with this engine's piece to move; a
    /// stored analysis is returned as it is.
    pub fn analyze(&mut self, b: &Board) -> (r: LazyMoveAnalysis)
        requires
            old(self).inv(),
            b.wf(),
            b.size == old(self).size_spec(),
            old(self).piece_spec() != Piece::Empty,
        ensures
            final(self).inv(),
            final(self).size_spec() == old(self).size_spec(),
            final(self).piece_spec() == old(self).piece_spec(),
            final(self).deterministic_spec() == old(self).deterministic_spec(),
            lazy_sound(b.grid@, b.size as int, old(self).piece_spec(), r),
            final(self).cached(b.grid@) == Some(r),
            old(self).cached(b.grid@) is Some ==> r == old(self).cached(b.grid@)->Some_0 && forall|
                k: Seq<Piece>,
            | #[trigger] final(self).cached(k) == old(self).cached(k),
            forall|k: Seq<Piece>| old(self).cached(k) is Some ==> #[trigger] final(self).cached(k) == old(self).cached(k),
            forall|k: Seq<Piece>|
                k != b.grid@ && crate::order::count_of(k, Piece::Empty) >= crate::order::count_of(b.grid@, Piece::Empty)
                    ==> #[trigger] final(self).cached(k) == old(self).cached(k),
            old(self).cached(b.grid@) is None ==> {
                let lost = wins(b.grid@, b.size as nat, inverse_of(old(self).piece_spec()));
                &&& lost ==> r == (LazyMoveAnalysis { evaluation: MoveValue::Lose(0), move_option: None })
                &&& (!lost && all_filled(b.grid@)) ==> r == (LazyMoveAnalysis {
                    evaluation: MoveValue::Tie(0),
                    move_option: None,
                })
                &&& (!lost && !all_filled(b.grid@)) ==> final(self).searched(b.grid@, r)
            },
        decreases crate::order::count_of(b.grid@, Piece::Empty),
    {
        if let Some(a) = self.known_boards.get(&b.grid) {
            return *a;
        }
        if b.has_win(self.piece.inverse()) {
            let a = LazyMoveAnalysis { evaluation: MoveValue::Lose(0), move_option: None };
            self.remember(b, a);
            return a;
        }
        if b.is_full() {
            let a = LazyMoveAnalysis { evaluation: MoveValue::Tie(0), move_option: None };
            self.remember(b, a);
            return a;
        }
        let spaces = available_spaces(b);
        proof {
            crate::ai_serial::lemma_open_exists(b);
        }
        proof {
            crate::symmetry::lemma_some_empty(b.grid@);
        }
        let mut best_coord = spaces[0];
        let mut best_evaluation = MoveValue::Lose(0);
        let ghost mut bi: int = 0;
        let ghost g = b.grid@;
        let ghost n = b.size as int;
        let mut i: usize = 0;
        while i < spaces.len()
            invariant
                g == b.grid@,
                n == b.size,
                i > 0 ==> 0 <= bi < i && best_coord == spaces@[bi],
                forall|j: int|
                    0 <= j < i ==> !(ply(self.child_record(g, #[trigger] spaces@[j]).evaluation) is Win),
                forall|j: int|
                    0 <= j < bi && i > 0 ==> value_less(ply(self.child_record(g, #[trigger] spaces@[j]).evaluation), best_evaluation),
                self.inv(),
                self.board_size == old(self).board_size,
                self.piece == old(self).piece,
                self.deterministic == old(self).deterministic,
                old(self).known_boards.lookup(b.grid@) is None,
                b.wf(),
                b.size == self.board_size,
                !wins(b.grid@, b.size as nat, inverse_of(self.piece)),
                !all_filled(b.grid@),
                self.piece != Piece::Empty,
                forall|k: Seq<Piece>| old(self).cached(k) is Some ==> #[trigger] self.cached(k) == old(self).cached(k),
                forall|k: Seq<Piece>|
                    k != b.grid@ && crate::order::count_of(k, Piece::Empty) >= crate::order::count_of(b.grid@, Piece::Empty)
                        ==> #[trigger] self.cached(k) == old(self).cached(k),
                self.known_boards.lookup(b.grid@) is None,
                i <= spaces@.len(),
                lists_open_cells(spaces@, b.grid@, b.size as int),
                spaces@.contains(best_coord),
                forall|j: int|
                    0 <= j < i ==> self.has_child(b.grid@, #[trigger] spaces@[j]) && !value_less(
                        best_evaluation,
                        ply(self.child_record(b.grid@, spaces@[j]).evaluation),
                    ),
                i > 0 ==> self.has_child(b.grid@, best_coord) && best_evaluation == ply(
                    self.child_record(b.grid@, best_coord).evaluation,
                ),
                i == 0 ==> best_evaluation == MoveValue::Lose(0),
                i > 0 ==> crate::ai_serial::depth_of_at_least_one(best_evaluation),
                !(best_evaluation matches MoveValue::Win(_)),
            decreases spaces@.len() - i,
        {
            let c = spaces[i];
            let mut child = b.duplicate();
            let _ = child.place(self.piece, c);
            child.invert();
            child.fully_standardize();
            proof {
                assert(is_open(b.grid@, b.size as int, spaces@[i as int]));
                crate::board::lemma_index(c.row as int, c.col as int, b.size as int);
                crate::symmetry::lemma_child_empties(
                    b.grid@,
                    b.size as int,
                    crate::move_value::index_of(c, b.size as int),
                    self.piece,
                );
            }
            let ghost mid = *self;
            assert(child.grid@ == child_key(b.grid@, b.size as int, self.piece, c));
            let lower = self.analyze(&child);
            proof {
                assert(child.grid@ != b.grid@);
                assert(self.cached(b.grid@) == mid.cached(b.grid@));
                assert forall|j: int| 0 <= j < i implies self.cached(
                    child_key(b.grid@, b.size as int, self.piece, #[trigger] spaces@[j]),
                ) == mid.cached(child_key(b.grid@, b.size as int, self.piece, spaces@[j])) by {
                    assert(mid.has_child(b.grid@, spaces@[j]));
                }
                if i > 0 {
                    assert(mid.has_child(b.grid@, best_coord));
                    assert(self.cached(child_key(b.grid@, b.size as int, self.piece, best_coord)) == mid.cached(
                        child_key(b.grid@, b.size as int, self.piece, best_coord),
                    ));
                }
                assert(self.has_child(b.grid@, c));
                assert(self.child_record(b.grid@, c) == lower);
                assert forall|k: Seq<Piece>| old(self).cached(k) is Some implies #[trigger] self.cached(k) == old(self).cached(k) by {
                    assert(mid.cached(k) == old(self).cached(k));
                }
            }
            let v = lower.evaluation.invert().increment();
            proof {
                if v == MoveValue::Win(1) {
                    assert(lower.evaluation == MoveValue::Lose(0));
                    crate::symmetry::lemma_child_loss_is_win(
                        b.grid@.update(crate::move_value::index_of(c, b.size as int), self.piece),
                        b.size as nat,
                        self.piece,
                    );
                }
            }
            if let MoveValue::Win(_) = v {
                let a = LazyMoveAnalysis { evaluation: v, move_option: Some(c) };
                proof {
                    assert(is_open(b.grid@, b.size as int, spaces@[i as int]));
                }
                let ghost before = *self;
                self.remember(b, a);
                proof {
                    assert(self.cached(child_key(b.grid@, b.size as int, self.piece, c)) == before.cached(
                        child_key(b.grid@, b.size as int, self.piece, c),
                    ));
                }
                return a;
            }
            proof {
                if i == 0 {
                    assert(crate::ai_serial::depth_of_at_least_one(v));
                    assert(value_less(best_evaluation, v));
                }
            }
            if matches!(v.cmp(&best_evaluation), std::cmp::Ordering::Greater) {
                best_coord = c;
                best_evaluation = v;
                proof {
                    bi = i as int;
                }
            }
            proof {
                assert(spaces@[i as int] == c);
            }
            i = i + 1;
        }
        let a = LazyMoveAnalysis { evaluation: best_evaluation, move_option: Some(best_coord) };
        let ghost before = *self;
        self.remember(b, a);
        proof {
            assert(self.cached(child_key(b.grid@, b.size as int, self.piece, best_coord)) == before.cached(
                child_key(b.grid@, b.size as int, self.piece, best_coord),
            ));
            assert forall|c: Coord| #[trigger] is_open(b.grid@, b.size as int, c) implies self.has_child(b.grid@, c)
                && !value_less(a.evaluation, ply(self.child_record(b.grid@, c).evaluation)) by {
                assert(spaces@.contains(c));
                let j = choose|j: int| 0 <= j < spaces@.len() && spaces@[j] == c;
                assert(before.has_child(b.grid@, spaces@[j]));
                assert(self.cached(child_key(b.grid@, b.size as int, self.piece, c)) == before.cached(
                    child_key(b.grid@, b.size as int, self.piece, c),
                ));
            }
        }
        a
    }
}

impl AiLazy {
    /// Picks a move for `piece_to_play` on `game_board`: the stored move of
    /// the canonical position, mapped back to the board, or, for an engine
    /// that is not deterministic, a random move equivalent to it. `None`
    /// when that position has no move, being lost or full.
    pub fn choose_move(&mut self, piece_to_play: Piece, game_board: &Board) -> (r: Option<Coord>)
        requires
            old(self).inv(),
            piece_to_play != Piece::Empty,
            old(self).piece_spec() != Piece::Empty,
            game_board.wf(),
            game_board.size == old(self).size_spec(),
        ensures
            final(self).inv(),
            final(self).size_spec() == old(self).size_spec(),
            final(self).piece_spec() == old(self).piece_spec(),
            final(self).deterministic_spec() == old(self).deterministic_spec(),
            match r {
                Some(c) => is_open(game_board.grid@, game_board.size as int, c) && final(self).cached(
                    crate::ai_serial::key_for(game_board.grid@, game_board.size as int, old(self).piece_spec(), piece_to_play),
                ) is Some && crate::ai_serial::lands_from(
                    game_board.grid@,
                    game_board.size as int,
                    old(self).piece_spec(),
                    piece_to_play,
                    match final(self).cached(crate::ai_serial::key_for(game_board.grid@, game_board.size as int, old(self).piece_spec(), piece_to_play))->Some_0.move_option { Some(m) => seq![m], None => Seq::<Coord>::empty() },
                    !old(self).deterministic_spec(),
                    c,
                ),
                None => all_filled(game_board.grid@) || wins(
                    game_board.grid@,
                    game_board.size as nat,
                    inverse_of(piece_to_play),
                ),
            },
            forall|k: Seq<Piece>| old(self).cached(k) is Some ==> #[trigger] final(self).cached(k) == old(self).cached(k),
            final(self).cached(crate::ai_serial::key_for(game_board.grid@, game_board.size as int, old(self).piece_spec(), piece_to_play)) is Some,
            forall|k: Seq<Piece>|
                k != crate::ai_serial::key_for(game_board.grid@, game_board.size as int, old(self).piece_spec(), piece_to_play) && crate::order::count_of(k, Piece::Empty) >= crate::order::count_of(
                    crate::ai_serial::key_for(game_board.grid@, game_board.size as int, old(self).piece_spec(), piece_to_play),
                    Piece::Empty,
                ) ==> #[trigger] final(self).cached(k) == old(self).cached(k),
    {
        let mut scrambled = ScrambledBoard::from_board(game_board);
        let ghost n = game_board.size as int;
        assert(scrambled.grid@ =~= crate::ai_serial::initial_spaces(game_board.grid@, n));
        if piece_to_play != self.piece {
            scrambled.invert();
            assert(scrambled.grid@ =~= crate::ai_serial::initial_spaces(inverted(game_board.grid@), n));
        }
        assert(scrambled.tracks(game_board.grid@));
        proof {
            if piece_to_play != self.piece {
                assert(scrambled.pieces() =~= inverted(game_board.grid@));
            }
        }
        scrambled.fully_standardize();
        assert(scrambled.tracks(game_board.grid@));
        let key = scrambled.to_board_scrambled();
        let analysis = self.analyze(&key);
        let chosen = match analysis.move_option {
            Some(c) => c,
            None => {
                proof {
                    crate::symmetry::lemma_key_lost_or_full(game_board.grid@, game_board.size as nat, self.piece, piece_to_play);
                }
                return None;
            },
        };
        let chosen_move = match scrambled.space_at(chosen) {
            Ok(s) => {
                proof {
                    crate::board::lemma_index(chosen.row as int, chosen.col as int, self.board_size as int);
                    let idx = chosen.row * self.board_size + chosen.col;
                    assert(crate::scrambled_board::fits(scrambled.grid@[idx], game_board.grid@, self.board_size as int));
                    assert(scrambled.grid@[idx].piece == key.grid@[idx]);
                    assert(scrambled.grid@ == crate::ai_serial::key_spaces(game_board.grid@, n, self.piece, piece_to_play));
                }
                s.coord
            },
            Err(_) => {
                return None;
            },
        };
        proof {
            assert(seq![chosen][0] == chosen);
            assert(seq![chosen].contains(chosen));
        }
        if self.deterministic {
            Some(chosen_move)
        } else {
            Some(self.equivalent_move(chosen_move, game_board))
        }
    }

    /// A random empty cell of `b` such that this engine's piece there gives
    /// a position canonically equal to the one it gives at
    /// `reference_coord`.
    pub fn equivalent_move(&self, reference_coord: Coord, b: &Board) -> (r: Coord)
        requires
            b.wf(),
            is_open(b.grid@, b.size as int, reference_coord),
        ensures
            is_open(b.grid@, b.size as int, r),
            equivalent(b.grid@, b.size as int, self.piece_spec(), reference_coord, r),
    {
        equivalent_move_of(self.piece, reference_coord, b)
    }

    /// Plays this engine's move on `game_board`; the board stays as it is
    /// when there is no move.
    pub fn make_move(&mut self, game_board: &mut Board)
        requires
            old(self).inv(),
            old(self).piece_spec() != Piece::Empty,
            old(game_board).wf(),
            old(game_board).size == old(self).size_spec(),
        ensures
            final(self).inv(),
            final(self).size_spec() == old(self).size_spec(),
            final(self).piece_spec() == old(self).piece_spec(),
            final(game_board).wf(),
            final(game_board).size == old(game_board).size,
            final(game_board).grid@ == old(game_board).grid@ || exists|c: Coord|
                is_open(old(game_board).grid@, old(game_board).size as int, c) && final(game_board).grid@
                    == old(game_board).grid@.update(c.row * old(game_board).size + c.col, old(self).piece_spec()),
            !all_filled(old(game_board).grid@) && !wins(
                old(game_board).grid@,
                old(game_board).size as nat,
                inverse_of(old(self).piece_spec()),
            ) ==> exists|c: Coord|
                is_open(old(game_board).grid@, old(game_board).size as int, c) && final(game_board).grid@
                    == old(game_board).grid@.update(c.row * old(game_board).size + c.col, old(self).piece_spec()),
    {
        let p = self.piece;
        match self.choose_move(p, game_board) {
            Some(c) => {
                let _ = game_board.place(p, c);
            },
            None => {},
        }
    }
}

/// `piece` at `c` gives an `n`-wide position `g` whose full
/// canonicalization equals the one `piece` at `reference` gives.
pub open spec fn equivalent(g: Seq<Piece>, n: int, piece: Piece, reference: Coord, c: Coord) -> bool {
    settle(placed(g, crate::move_value::index_of(c, n), piece), n, usize::MAX as nat) == settle(
        placed(g, crate::move_value::index_of(reference, n), piece),
        n,
        usize::MAX as nat,
    )
}

/// Every empty cell of `b` where `piece` gives a position canonically
/// equal to the one `piece` at `reference_coord` gives, in row-major order.
pub fn equivalent_moves(piece: Piece, reference_coord: Coord, b: &Board) -> (r: Vec<Coord>)
    requires
        b.wf(),
        is_open(b.grid@, b.size as int, reference_coord),
    ensures
        forall|c: Coord|
            #[trigger] r@.contains(c) <==> (is_open(b.grid@, b.size as int, c) && equivalent(
                b.grid@,
                b.size as int,
                piece,
                reference_coord,
                c,
            )),
        forall|i: int, j: int|
            0 <= i < j < r@.len() ==> crate::move_value::index_of(r@[i], b.size as int)
                < crate::move_value::index_of(r@[j], b.size as int),
        r@.contains(reference_coord),
{
    let spaces = available_spaces(b);
    let mut reference = b.duplicate();
    let _ = reference.place(piece, reference_coord);
    reference.fully_standardize();
    let mut equivalent_cells: Vec<Coord> = Vec::new();
    let ghost mut origin: Seq<int> = Seq::empty();
    let mut i: usize = 0;
    while i < spaces.len()
        invariant
            b.wf(),
            i <= spaces@.len(),
            lists_open_cells(spaces@, b.grid@, b.size as int),
            reference.grid@ == settle(
                placed(b.grid@, crate::move_value::index_of(reference_coord, b.size as int), piece),
                b.size as int,
                usize::MAX as nat,
            ),
            is_open(b.grid@, b.size as int, reference_coord),
            origin.len() == equivalent_cells@.len(),
            forall|k: int|
                0 <= k < equivalent_cells@.len() ==> 0 <= #[trigger] origin[k] < i && spaces@[origin[k]]
                    == equivalent_cells@[k],
            forall|k: int, l: int| 0 <= k < l < equivalent_cells@.len() ==> origin[k] < origin[l],
            forall|k: int|
                0 <= k < equivalent_cells@.len() ==> equivalent(
                    b.grid@,
                    b.size as int,
                    piece,
                    reference_coord,
                    #[trigger] equivalent_cells@[k],
                ),
            forall|q: int|
                0 <= q < i && equivalent(b.grid@, b.size as int, piece, reference_coord, #[trigger] spaces@[q])
                    ==> equivalent_cells@.contains(spaces@[q]),
        decreases spaces@.len() - i,
    {
        let c = spaces[i];
        let mut this_board = b.duplicate();
        let _ = this_board.place(piece, c);
        this_board.fully_standardize();
        if crate::canon::same_pieces(&this_board.grid, &reference.grid) {
            let ghost before = equivalent_cells@;
            equivalent_cells.push(c);
            proof {
                origin = origin.push(i as int);
                assert forall|q: int|
                    0 <= q < i + 1 && equivalent(b.grid@, b.size as int, piece, reference_coord, #[trigger] spaces@[q])
                        implies equivalent_cells@.contains(spaces@[q]) by {
                    if q == i {
                        assert(equivalent_cells@[equivalent_cells@.len() - 1] == spaces@[q]);
                    } else {
                        let w = choose|w: int| 0 <= w < before.len() && before[w] == spaces@[q];
                        assert(equivalent_cells@[w] == spaces@[q]);
                    }
                }
            }
        }
        i = i + 1;
    }
    proof {
        assert forall|c: Coord|
            #[trigger] equivalent_cells@.contains(c) <==> (is_open(b.grid@, b.size as int, c) && equivalent(
                b.grid@,
                b.size as int,
                piece,
                reference_coord,
                c,
            )) by {
            if equivalent_cells@.contains(c) {
                let k = choose|k: int| 0 <= k < equivalent_cells@.len() && equivalent_cells@[k] == c;
                assert(spaces@[origin[k]] == c);
            }
            if is_open(b.grid@, b.size as int, c) && equivalent(b.grid@, b.size as int, piece, reference_coord, c) {
                let q = choose|q: int| 0 <= q < spaces@.len() && spaces@[q] == c;
                assert(equivalent(b.grid@, b.size as int, piece, reference_coord, spaces@[q]));
            }
        }
        assert forall|k: int, l: int| 0 <= k < l < equivalent_cells@.len() implies crate::move_value::index_of(
            equivalent_cells@[k],
            b.size as int,
        ) < crate::move_value::index_of(equivalent_cells@[l], b.size as int) by {
            assert(origin[k] < origin[l]);
            assert(spaces@[origin[k]] == equivalent_cells@[k]);
            assert(spaces@[origin[l]] == equivalent_cells@[l]);
        }
        assert(equivalent(b.grid@, b.size as int, piece, reference_coord, reference_coord));
    }
    equivalent_cells
}

/// A random empty cell of `b` such that `piece` there gives a position
/// canonically equal to the one it gives at `reference_coord`: one of
/// `equivalent_moves`.
pub fn equivalent_move_of(piece: Piece, reference_coord: Coord, b: &Board) -> (r: Coord)
    requires
        b.wf(),
        is_open(b.grid@, b.size as int, reference_coord),
    ensures
        is_open(b.grid@, b.size as int, r),
        equivalent(b.grid@, b.size as int, piece, reference_coord, r),
{
    let options = equivalent_moves(piece, reference_coord, b);
    let r = choose_coord(&options);
    assert(options@.contains(r));
    r
}


impl AiLazy {
    /// The file this engine's analyses are kept in; with `inverted`, the
    /// file of an engine for the other piece.
    pub fn cbor_path(&self, inverted: bool) -> (r: String)
        ensures
            r@ == crate::paths::path_text(
                seq!['l', 'a', 'z', 'y'],
                self.size_spec(),
                self.piece_spec(),
                inverted,
                seq!['-', 'l', 'a', 'z', 'y', '.', 'c', 'b', 'o', 'r'],
            ),
    {
        proof {
            reveal_strlit("lazy");
            reveal_strlit("-lazy.cbor");
        }
        crate::paths::strategy_path("lazy", self.board_size, self.piece, inverted, "-lazy.cbor")
    }
}

impl AiLazy {
    /// Every stored position with its analysis.
    pub fn export_cache(&self) -> (r: Vec<(Vec<Piece>, LazyMoveAnalysis)>)
        requires
            self.inv(),
        ensures
            forall|i: int|
                0 <= i < r@.len() ==> (#[trigger] self.cached(r@[i].0@) == Some(r@[i].1)),
            forall|k: Seq<Piece>|
                #[trigger] self.cached(k) is Some ==> exists|i: int| 0 <= i < r@.len() && r@[i].0@ == k,
            forall|i: int, j: int| 0 <= i < j < r@.len() ==> r@[i].0@ != r@[j].0@,
    {
        let keys = self.known_boards.stored_keys();
        let mut out: Vec<(Vec<Piece>, LazyMoveAnalysis)> = Vec::new();
        let mut i: usize = 0;
        while i < keys.len()
            invariant
                self.known_boards.wf(),
                out@.len() == i,
                forall|t: int| 0 <= t < out@.len() ==> (#[trigger] out@[t]).0@ == keys@[t]@,
                forall|k: Seq<Piece>| #[trigger] self.cached(k) is Some ==> exists|q: int| 0 <= q < keys@.len() && keys@[q]@ == k,
                forall|q: int| 0 <= q < keys@.len() ==> self.cached(#[trigger] keys@[q]@) is Some,
                forall|p: int, q: int| 0 <= p < q < keys@.len() ==> keys@[p]@ != keys@[q]@,
                i <= keys@.len(),
                forall|j: int|
                    0 <= j < out@.len() ==> (#[trigger] self.cached(out@[j].0@) == Some(out@[j].1)),
            decreases keys@.len() - i,
        {
            match self.known_boards.get(&keys[i]) {
                Some(a) => {
                    out.push((copy_vec(&keys[i]), *a));
                },
                None => {},
            }
            i = i + 1;
        }
        proof {
            assert forall|k: Seq<Piece>| #[trigger] self.cached(k) is Some implies exists|q: int|
                0 <= q < out@.len() && out@[q].0@ == k by {
                let q = choose|q: int| 0 <= q < keys@.len() && keys@[q]@ == k;
                assert(out@[q].0@ == k);
            }
            assert forall|t: int, u: int| 0 <= t < u < out@.len() implies out@[t].0@ != out@[u].0@ by {
                assert(out@[t].0@ == keys@[t]@ && out@[u].0@ == keys@[u]@);
            }
        }
        out
    }

    /// Stores `a` for `key` when it is a sound analysis for this engine.
    pub fn import_entry(&mut self, key: Vec<Piece>, a: LazyMoveAnalysis) -> (r: bool)
        requires
            old(self).inv(),
        ensures
            final(self).inv(),
            final(self).size_spec() == old(self).size_spec(),
            final(self).piece_spec() == old(self).piece_spec(),
            final(self).deterministic_spec() == old(self).deterministic_spec(),
            r == lazy_sound(key@, old(self).size_spec() as int, old(self).piece_spec(), a),
            r ==> (final(self).cached(key@) == Some(a)),
            !r ==> forall|k: Seq<Piece>| #[trigger] final(self).cached(k) == old(self).cached(k),
            forall|k: Seq<Piece>| k != key@ ==> #[trigger] final(self).cached(k) == old(self).cached(k),
    {
        if !check_lazy_sound(&key, self.board_size, self.piece, &a) {
            return false;
        }
        let b = Board { size: self.board_size, grid: key };
        self.remember(&b, a);
        true
    }

    /// Stores every sound entry of `entries`, with each position inverted
    /// first when `inverted` (entries made by an engine for the other
    /// piece); returns how many were stored.
    pub fn import_cache(&mut self, entries: Vec<(Vec<Piece>, LazyMoveAnalysis)>, inverted: bool) -> (r: usize)
        requires
            old(self).inv(),
        ensures
            final(self).inv(),
            final(self).size_spec() == old(self).size_spec(),
            final(self).piece_spec() == old(self).piece_spec(),
            final(self).deterministic_spec() == old(self).deterministic_spec(),
            r <= entries@.len(),
            forall|i: int|
                0 <= i < entries@.len() && lazy_sound(
                    crate::ai_serial::stored_key(entries@[i].0@, inverted),
                    old(self).size_spec() as int,
                    old(self).piece_spec(),
                    entries@[i].1,
                ) && (forall|j: int|
                    0 <= j < i ==> crate::ai_serial::stored_key(entries@[j].0@, inverted) != crate::ai_serial::stored_key(
                        entries@[i].0@,
                        inverted,
                    )) ==> (final(self).cached(crate::ai_serial::stored_key(#[trigger] entries@[i].0@, inverted)) == Some(entries@[i].1)),
    {
        let ghost orig = entries@;
        let mut entries = entries;
        let mut stored: usize = 0;
        let ghost total = entries@.len();
        let start = entries.len();
        while entries.len() > 0
            invariant
                total == start,
                self.inv(),
                self.size_spec() == old(self).size_spec(),
                self.piece_spec() == old(self).piece_spec(),
            self.deterministic_spec() == old(self).deterministic_spec(),
                total == orig.len(),
                entries@ == orig.subrange(0, entries@.len() as int),
                forall|i: int|
                    entries@.len() <= i < total && lazy_sound(
                        crate::ai_serial::stored_key(orig[i].0@, inverted),
                        self.size_spec() as int,
                        self.piece_spec(),
                        orig[i].1,
                    ) && (forall|j: int|
                        0 <= j < i ==> crate::ai_serial::stored_key(orig[j].0@, inverted) != crate::ai_serial::stored_key(
                            orig[i].0@,
                            inverted,
                        )) ==> (self.cached(crate::ai_serial::stored_key(#[trigger] orig[i].0@, inverted)) == Some(orig[i].1)),
                stored + entries@.len() <= total,
            decreases entries@.len(),
        {
            let ghost m = entries@.len() - 1;
            let (key, a) = entries.pop().unwrap();
            let key = if inverted {
                Board { size: self.board_size, grid: key }.inverse().grid
            } else {
                key
            };
            assert(key@ == crate::ai_serial::stored_key(orig[m].0@, inverted));
            let ghost before = *self;
            if self.import_entry(key, a) {
                stored = stored + 1;
            }
            proof {
                assert forall|i: int|
                    entries@.len() <= i < total && lazy_sound(
                        crate::ai_serial::stored_key(orig[i].0@, inverted),
                        self.size_spec() as int,
                        self.piece_spec(),
                        orig[i].1,
                    ) && (forall|j: int|
                        0 <= j < i ==> crate::ai_serial::stored_key(orig[j].0@, inverted) != crate::ai_serial::stored_key(
                            orig[i].0@,
                            inverted,
                        )) implies (self.cached(crate::ai_serial::stored_key(#[trigger] orig[i].0@, inverted)) == Some(orig[i].1)) by {
                    if i > m {
                        assert(crate::ai_serial::stored_key(orig[m].0@, inverted) != crate::ai_serial::stored_key(orig[i].0@, inverted));
                        assert(self.cached(crate::ai_serial::stored_key(orig[i].0@, inverted)) == before.cached(
                            crate::ai_serial::stored_key(orig[i].0@, inverted),
                        ));
                    }
                }
            }
        }
        stored
    }
}

/// Whether `a` is a sound analysis of the `n`-wide position `key` made for
/// `piece`.
pub fn check_lazy_sound(key: &Vec<Piece>, n: usize, piece: Piece, a: &LazyMoveAnalysis) -> (r: bool)
    ensures
        r == lazy_sound(key@, n as int, piece, *a),
{
    let len = key.len();
    match n.checked_mul(n) {
        None => {
            return false;
        },
        Some(m) => {
            if key.len() != m {
                return false;
            }
        },
    }
    let b = Board { size: n, grid: copy_vec(key) };
    let lost = b.has_win(piece.inverse());
    let full = b.is_full();
    let move_ok = match a.move_option {
        None => true,
        Some(c) => {
            let mut v: Vec<Coord> = Vec::new();
            v.push(c);
            let open = crate::ai_serial::all_open(key, n, &v);
            proof {
                assert(v@[0] == c);
            }
            open && (a.evaluation != MoveValue::Win(1) || crate::ai_serial::all_complete(&b, piece, &v))
        },
    };
    move_ok && (a.evaluation == MoveValue::Lose(0)) == lost && (a.evaluation != MoveValue::Tie(0) || full)
        && (lost || !full || a.evaluation == MoveValue::Tie(0)) && (lost || full || a.move_option.is_some())
        && a.evaluation != MoveValue::Win(0)
}

} // verus!
