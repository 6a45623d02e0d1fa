//! The exhaustive engine that keeps every best move and stops looking at a
//! position's moves once one of them wins. Its children can be evaluated
//! apart, then put together by `combine_children`.
use crate::ai_lazy::{equivalent_move_of, placed};
use crate::ai_serial::{all_filled, child_key, same, sound};
use crate::board::{inverted, wins, Board};
use crate::cache::Cache;
use crate::canon::{copy_vec, settle};
use crate::move_value::{index_of, available_spaces, is_open, lists_open_cells, ply, value_less, MoveAnalysis, MoveValue};
use crate::random::choose_coord;
use crate::scrambled_board::ScrambledBoard;
use crate::space::{inverse_of, Coord, Piece};
use vstd::prelude::*;

verus! {

/// The moves `moves` lead to positions that the opponent evaluates as
/// `lower`: the best of their values after one ply, every move with that
/// value, and one more than the shallowest depth among them.
pub fn combine_children(moves: &Vec<Coord>, lower: &Vec<MoveAnalysis>) -> (r: MoveAnalysis)
    requires
        moves@.len() == lower@.len(),
        moves@.len() > 0,
    ensures
        moves@.no_duplicates() ==> r.move_options@.no_duplicates(),
        exists|k: int| 0 <= k < lower@.len() && r.evaluation == ply(#[trigger] lower@[k].evaluation),
        forall|k: int| 0 <= k < lower@.len() ==> !value_less(r.evaluation, ply(#[trigger] lower@[k].evaluation)),
        forall|t: int|
            0 <= t < r.move_options@.len() ==> exists|k: int|
                0 <= k < moves@.len() && moves@[k] == #[trigger] r.move_options@[t] && ply(lower@[k].evaluation)
                    == r.evaluation,
        forall|k: int| 0 <= k < moves@.len() && ply(#[trigger] lower@[k].evaluation) == r.evaluation
            ==> r.move_options@.contains(moves@[k]),
        exists|k: int| 0 <= k < lower@.len() && r.depth_used == spec_add_one(#[trigger] lower@[k].depth_used),
        forall|k: int| 0 <= k < lower@.len() ==> r.depth_used <= spec_add_one(#[trigger] lower@[k].depth_used),
{
    let mut best = lower[0].evaluation.invert().increment();
    let mut shallowest = lower[0].depth_used;
    let mut j: usize = 1;
    while j < lower.len()
        invariant
            1 <= j <= lower@.len(),
            exists|k: int| 0 <= k < j && best == ply(#[trigger] lower@[k].evaluation),
            forall|k: int| 0 <= k < j ==> !value_less(best, ply(#[trigger] lower@[k].evaluation)),
            exists|k: int| 0 <= k < j && shallowest == #[trigger] lower@[k].depth_used,
            forall|k: int| 0 <= k < j ==> shallowest <= #[trigger] lower@[k].depth_used,
        decreases lower@.len() - j,
    {
        let v = lower[j].evaluation.invert().increment();
        if matches!(best.cmp(&v), std::cmp::Ordering::Less) {
            best = v;
        }
        if lower[j].depth_used < shallowest {
            shallowest = lower[j].depth_used;
        }
        j = j + 1;
    }
    let mut options: Vec<Coord> = Vec::new();
    let ghost mut origin: Seq<int> = Seq::empty();
    let mut k: usize = 0;
    while k < lower.len()
        invariant
            k <= lower@.len(),
            moves@.len() == lower@.len(),
            origin.len() == options@.len(),
            forall|t: int|
                0 <= t < options@.len() ==> 0 <= #[trigger] origin[t] < k && moves@[origin[t]] == options@[t]
                    && ply(lower@[origin[t]].evaluation) == best,
            forall|q: int| 0 <= q < k && ply(#[trigger] lower@[q].evaluation) == best ==> options@.contains(moves@[q]),
            forall|t: int, u: int| 0 <= t < u < options@.len() ==> origin[t] < origin[u],
        decreases lower@.len() - k,
    {
        let v = lower[k].evaluation.invert().increment();
        if v == best {
            let ghost before = options@;
            options.push(moves[k]);
            proof {
                origin = origin.push(k as int);
                assert forall|q: int| 0 <= q < k + 1 && ply(#[trigger] lower@[q].evaluation) == best implies options@.contains(
                    moves@[q],
                ) by {
                    if q == k {
                        assert(options@[options@.len() - 1] == moves@[q]);
                    } else {
                        let w = choose|w: int| 0 <= w < before.len() && before[w] == moves@[q];
                        assert(options@[w] == moves@[q]);
                    }
                }
            }
        }
        k = k + 1;
    }
    proof {
        assert forall|t: int| 0 <= t < options@.len() implies exists|q: int|
            0 <= q < moves@.len() && moves@[q] == #[trigger] options@[t] && ply(lower@[q].evaluation) == best by {
            assert(0 <= origin[t] < k);
        }
        if moves@.no_duplicates() {
            assert forall|t: int, u: int| 0 <= t < options@.len() && 0 <= u < options@.len() && t != u implies options@[t]
                != options@[u] by {
                assert(0 <= origin[t] < k && 0 <= origin[u] < k);
                if t < u {
                    assert(origin[t] < origin[u]);
                } else {
                    assert(origin[u] < origin[t]);
                }
            }
        }
    }
    MoveAnalysis { evaluation: best, move_options: options, depth_used: shallowest.saturating_add(1) }
}

/// One more than `d`, held at `usize::MAX`.
pub open spec fn spec_add_one(d: usize) -> usize {
    if d < usize::MAX {
        (d + 1) as usize
    } else {
        usize::MAX
    }
}

/// An engine that solves positions completely, keeping every best move,
/// and stops looking at a position's moves once one of them wins.
pub struct AiParallel {
    board_size: usize,
    piece: Piece,
    known_boards: Cache<MoveAnalysis>,
    deterministic: bool,
}

impl AiParallel {
    pub closed spec fn size_spec(&self) -> usize {
        self.board_size
    }

    pub closed spec fn piece_spec(&self) -> Piece {
        self.piece
    }

    pub closed spec fn deterministic_spec(&self) -> bool {
        self.deterministic
    }

    /// The analysis stored for position `k`, if any.
    pub closed spec fn cached(&self, k: Seq<Piece>) -> Option<MoveAnalysis> {
        self.known_boards.lookup(k)
    }

    /// The analysis stored for the position after this engine's piece
    /// moves at `c` on `g`.
    pub open spec fn child_record(&self, g: Seq<Piece>, c: Coord) -> MoveAnalysis {
        self.cached(child_key(g, self.size_spec() as int, self.piece_spec(), c))->Some_0
    }

    /// Whether an analysis is stored for that position.
    pub open spec fn has_child(&self, g: Seq<Piece>, c: Coord) -> bool {
        self.cached(child_key(g, self.size_spec() as int, self.piece_spec(), c)) is Some
    }

    /// This engine has stored `l` for the position after its piece moves at
    /// `c` on `g`, which has one empty cell fewer than `g`.
    pub open spec fn records_child(&self, g: Seq<Piece>, c: Coord, l: MoveAnalysis) -> bool {
        let k = child_key(g, self.size_spec() as int, self.piece_spec(), c);
        &&& self.cached(k) is Some
        &&& same(self.cached(k)->Some_0, l)
        &&& crate::order::count_of(k, Piece::Empty) + 1 == crate::order::count_of(g, Piece::Empty)
    }

    /// `a` is the search result for `g` over the analyses this engine has
    /// stored for `g`'s moves, looked at in row-major order until one of them
    /// wins: its value is the best of theirs after one ply, its moves are
    /// moves reaching it, each once, and its depth is one more than the
    /// depth of one of them. When no move wins, every move was looked at:
    /// the value is the best of all, the moves are exactly those reaching it,
    /// and the depth is one more than the shallowest.
    pub open spec fn searched(&self, g: Seq<Piece>, a: MoveAnalysis) -> bool {
        let n = self.size_spec() as int;
        &&& forall|c: Coord|
            #[trigger] a.move_options@.contains(c) ==> is_open(g, n, c) && self.has_child(g, c) && ply(
                self.child_record(g, c).evaluation,
            ) == a.evaluation
        &&& exists|c: Coord| is_open(g, n, c) && self.has_child(g, c) && a.evaluation == ply(self.child_record(g, c).evaluation)
        &&& exists|c: Coord|
            is_open(g, n, c) && self.has_child(g, c) && a.depth_used == spec_add_one(self.child_record(g, c).depth_used)
        &&& a.move_options@.no_duplicates()
        &&& !(a.evaluation is Win) ==> forall|c: Coord|
            #[trigger] is_open(g, n, c) ==> {
                &&& self.has_child(g, c)
                &&& !value_less(a.evaluation, ply(self.child_record(g, c).evaluation))
                &&& ply(self.child_record(g, c).evaluation) == a.evaluation ==> a.move_options@.contains(c)
                &&& a.depth_used <= spec_add_one(self.child_record(g, c).depth_used)
            }
    }

    pub closed spec fn inv(&self) -> bool {
        self.known_boards.wf() && forall|k: Seq<Piece>|
            #[trigger] self.known_boards.lookup(k) is Some ==> sound(
                k,
                self.board_size as int,
                self.piece,
                self.known_boards.lookup(k)->Some_0,
            )
    }

    /// An engine for `piece` on `size`-wide boards; a deterministic one
    /// plays the first of its best moves as it maps back to the board.
    pub fn new(size: usize, piece: Piece, deterministic: bool) -> (r: AiParallel)
        ensures
            r.inv(),
            r.size_spec() == size,
            r.piece_spec() == piece,
            r.deterministic_spec() == deterministic,
            forall|k: Seq<Piece>| #[trigger] r.cached(k) is None,
    {
        AiParallel { board_size: size, piece, known_boards: Cache::new(), deterministic }
    }

    pub fn piece(&self) -> (r: Piece)
        ensures
            r == self.piece_spec(),
    {
        self.piece
    }

    pub fn is_deterministic(&self) -> (r: bool)
        ensures
            r == self.deterministic_spec(),
    {
        self.deterministic
    }

    fn remember(&mut self, b: &Board, a: &MoveAnalysis)
        requires
            old(self).inv(),
            sound(b.grid@, old(self).board_size as int, old(self).piece, *a),
        ensures
            final(self).inv(),
            final(self).board_size == old(self).board_size,
            final(self).piece == old(self).piece,
            final(self).deterministic == old(self).deterministic,
            final(self).cached(b.grid@) matches Some(c) && same(c, *a),
            forall|k: Seq<Piece>| k != b.grid@ ==> #[trigger] final(self).cached(k) == old(self).cached(k),
    {
        let stored = a.duplicate();
        self.known_boards.insert(copy_vec(&b.grid), stored);
        proof {
            assert forall|k: Seq<Piece>| #[trigger] self.known_boards.lookup(k) is Some implies sound(
                k,
                self.board_size as int,
                self.piece,
                self.known_boards.lookup(k)->Some_0,
            ) by {
                if k != b.grid@ {
                    assert(old(self).known_boards.lookup(k) == self.known_boards.lookup(k));
                }
            }
        }
    }

    /// Solves canonical position `b`, with this engine's piece to move; a
    /// stored analysis is returned as it is.
    pub fn analyze(&mut self, b: &Board) -> (r: MoveAnalysis)
        requires
            old(self).inv(),
            b.wf(),
            b.size == old(self).size_spec(),
            old(self).piece_spec() != Piece::Empty,
        ensures
            final(self).inv(),
            final(self).size_spec() == old(self).size_spec(),
            final(self).piece_spec() == old(self).piece_spec(),
            final(self).deterministic_spec() == old(self).deterministic_spec(),
            sound(b.grid@, b.size as int, old(self).piece_spec(), r),
            final(self).cached(b.grid@) matches Some(c) && same(c, r),
            old(self).cached(b.grid@) is Some ==> same(r, old(self).cached(b.grid@)->Some_0),
            forall|k: Seq<Piece>| old(self).cached(k) is Some ==> #[trigger] final(self).cached(k) == old(self).cached(k),
            forall|k: Seq<Piece>|
                k != b.grid@ && crate::order::count_of(k, Piece::Empty) >= crate::order::count_of(b.grid@, Piece::Empty)
                    ==> #[trigger] final(self).cached(k) == old(self).cached(k),
            (old(self).cached(b.grid@) is None && !wins(b.grid@, b.size as nat, inverse_of(old(self).piece_spec()))
                && !all_filled(b.grid@)) ==> final(self).searched(b.grid@, r),
        decreases crate::order::count_of(b.grid@, Piece::Empty),
    {
        if let Some(a) = self.known_boards.get(&b.grid) {
            return a.duplicate();
        }
        if b.has_win(self.piece.inverse()) {
            let a = MoveAnalysis { evaluation: MoveValue::Lose(0), move_options: Vec::new(), depth_used: usize::MAX };
            self.remember(b, &a);
            return a;
        }
        if b.is_full() {
            let a = MoveAnalysis { evaluation: MoveValue::Tie(0), move_options: Vec::new(), depth_used: usize::MAX };
            self.remember(b, &a);
            return a;
        }
        let spaces = available_spaces(b);
        proof {
            crate::ai_serial::lemma_open_exists(b);
        }
        proof {
            crate::symmetry::lemma_some_empty(b.grid@);
        }
        proof {
            let c = choose|c: Coord| is_open(b.grid@, b.size as int, c);
            assert(spaces@.contains(c));
        }
        let mut moves: Vec<Coord> = Vec::new();
        let mut lower_all: Vec<MoveAnalysis> = Vec::new();
        let mut win_found = false;
        let ghost g = b.grid@;
        let ghost n = b.size as int;
        let mut i: usize = 0;
        while i < spaces.len() && !win_found
            invariant
                g == b.grid@,
                n == b.size,
                forall|j: int| 0 <= j < i ==> #[trigger] self.records_child(g, moves@[j], lower_all@[j]),
                win_found ==> exists|j: int| 0 <= j < i && (ply(#[trigger] lower_all@[j].evaluation) is Win),
                !win_found ==> forall|j: int| 0 <= j < i ==> !(ply(#[trigger] lower_all@[j].evaluation) is Win),
                self.inv(),
                self.board_size == old(self).board_size,
                self.piece == old(self).piece,
                self.deterministic == old(self).deterministic,
                old(self).known_boards.lookup(b.grid@) is None,
                b.wf(),
                b.size == self.board_size,
                !wins(b.grid@, b.size as nat, inverse_of(self.piece)),
                !all_filled(b.grid@),
                self.piece != Piece::Empty,
                forall|k: Seq<Piece>| old(self).cached(k) is Some ==> #[trigger] self.cached(k) == old(self).cached(k),
                forall|k: Seq<Piece>|
                    k != b.grid@ && crate::order::count_of(k, Piece::Empty) >= crate::order::count_of(b.grid@, Piece::Empty)
                        ==> #[trigger] self.cached(k) == old(self).cached(k),
                self.known_boards.lookup(b.grid@) is None,
                i <= spaces@.len(),
                spaces@.len() > 0,
                win_found ==> i > 0,
                lists_open_cells(spaces@, b.grid@, b.size as int),
                moves@.len() == i,
                lower_all@.len() == i,
                forall|j: int| 0 <= j < i ==> moves@[j] == spaces@[j],
                forall|j: int|
                    0 <= j < i && ply(#[trigger] lower_all@[j].evaluation) == MoveValue::Win(1) ==> crate::ai_serial::completes(
                        b.grid@,
                        b.size as int,
                        self.piece,
                        moves@[j],
                    ),
            decreases spaces@.len() - i,
        {
            let c = spaces[i];
            let mut child = b.duplicate();
            let _ = child.place(self.piece, c);
            child.invert();
            child.fully_standardize();
            proof {
                assert(is_open(b.grid@, b.size as int, spaces@[i as int]));
                crate::board::lemma_index(c.row as int, c.col as int, b.size as int);
                crate::symmetry::lemma_child_empties(
                    b.grid@,
                    b.size as int,
                    crate::move_value::index_of(c, b.size as int),
                    self.piece,
                );
            }
            let ghost mid = *self;
            assert(child.grid@ == child_key(g, n, self.piece, c));
            let lower = self.analyze(&child);
            proof {
                assert(child.grid@ != b.grid@);
                assert(self.cached(b.grid@) == mid.cached(b.grid@));
                assert forall|k: Seq<Piece>| old(self).cached(k) is Some implies #[trigger] self.cached(k) == old(self).cached(k) by {
                    assert(mid.cached(k) == old(self).cached(k));
                }
            }
            proof {
                if ply(lower.evaluation) == MoveValue::Win(1) {
                    assert(lower.evaluation == MoveValue::Lose(0));
                    crate::symmetry::lemma_child_loss_is_win(
                        b.grid@.update(crate::move_value::index_of(c, b.size as int), self.piece),
                        b.size as nat,
                        self.piece,
                    );
                }
            }
            if let MoveValue::Win(_) = lower.evaluation.invert().increment() {
                win_found = true;
            }
            let ghost prev = lower_all@;
            moves.push(c);
            lower_all.push(lower);
            proof {
                assert forall|j: int| 0 <= j < i + 1 implies #[trigger] self.records_child(g, moves@[j], lower_all@[j]) by {
                    if j == i {
                        assert(moves@[j] == c);
                        assert(lower_all@[j] == lower);
                    } else {
                        assert(lower_all@[j] == prev[j]);
                        assert(mid.records_child(g, moves@[j], prev[j]));
                        let kj = child_key(g, n, self.piece, moves@[j]);
                        assert(mid.cached(kj) is Some);
                        assert(mid.cached(kj) == old(self).cached(kj) || old(self).cached(kj) is None);
                        assert(self.cached(kj) == mid.cached(kj));
                    }
                }
                if win_found {
                    if ply(lower.evaluation) is Win {
                        assert(ply(lower_all@[i as int].evaluation) is Win);
                    } else {
                        let j = choose|j: int| 0 <= j < i && (ply(prev[j].evaluation) is Win);
                        assert(lower_all@[j] == prev[j]);
                    }
                } else {
                    assert forall|j: int| 0 <= j < i + 1 implies !(ply(#[trigger] lower_all@[j].evaluation) is Win) by {
                        if j < i {
                            assert(lower_all@[j] == prev[j]);
                        }
                    }
                }
            }
            i = i + 1;
        }
        proof {
            assert(moves@.no_duplicates()) by {
                assert forall|p: int, q: int| 0 <= p < moves@.len() && 0 <= q < moves@.len() && p != q implies moves@[p]
                    != moves@[q] by {
                    assert(moves@[p] == spaces@[p] && moves@[q] == spaces@[q]);
                    if p < q {
                        assert(index_of(spaces@[p], n) < index_of(spaces@[q], n));
                    } else {
                        assert(index_of(spaces@[q], n) < index_of(spaces@[p], n));
                    }
                }
            }
        }
        let a = combine_children(&moves, &lower_all);
        proof {
            assert forall|t: int| 0 <= t < a.move_options@.len() implies is_open(
                b.grid@,
                b.size as int,
                #[trigger] a.move_options@[t],
            ) by {
                let k = choose|k: int|
                    0 <= k < moves@.len() && moves@[k] == a.move_options@[t] && ply(lower_all@[k].evaluation)
                        == a.evaluation;
                assert(spaces@[k] == moves@[k]);
            }
            let k = choose|k: int| 0 <= k < lower_all@.len() && a.evaluation == ply(lower_all@[k].evaluation);
            assert(a.move_options@.contains(moves@[k]));
            assert(crate::ai_serial::depth_of_at_least_one(a.evaluation));
            if a.evaluation == MoveValue::Win(1) {
                assert forall|t: int| 0 <= t < a.move_options@.len() implies crate::ai_serial::completes(
                    b.grid@,
                    b.size as int,
                    self.piece,
                    #[trigger] a.move_options@[t],
                ) by {
                    let q = choose|q: int|
                        0 <= q < moves@.len() && moves@[q] == a.move_options@[t] && ply(lower_all@[q].evaluation)
                            == a.evaluation;
                    assert(ply(lower_all@[q].evaluation) == MoveValue::Win(1));
                }
            }
        }
        let ghost loop_end = *self;
        self.remember(b, &a);
        proof {
            lemma_parallel_searched(loop_end, *self, g, n, moves@, lower_all@, spaces@, win_found, a);
        }
        a
    }
}

impl AiParallel {
    /// Picks a move for `piece_to_play` on `game_board`: a random best move
    /// of the canonical position, mapped back to the board, then, for an
    /// engine that is not deterministic, a random move equivalent to it.
    /// `None` when that position has no move, being lost or full.
    pub fn choose_move(&mut self, piece_to_play: Piece, game_board: &Board) -> (r: Option<Coord>)
        requires
            old(self).inv(),
            piece_to_play != Piece::Empty,
            old(self).piece_spec() != Piece::Empty,
            game_board.wf(),
            game_board.size == old(self).size_spec(),
        ensures
            final(self).inv(),
            final(self).size_spec() == old(self).size_spec(),
            final(self).piece_spec() == old(self).piece_spec(),
            final(self).deterministic_spec() == old(self).deterministic_spec(),
            match r {
                Some(c) => is_open(game_board.grid@, game_board.size as int, c) && final(self).cached(
                    crate::ai_serial::key_for(game_board.grid@, game_board.size as int, old(self).piece_spec(), piece_to_play),
                ) is Some && crate::ai_serial::lands_from(
                    game_board.grid@,
                    game_board.size as int,
                    old(self).piece_spec(),
                    piece_to_play,
                    final(self).cached(crate::ai_serial::key_for(game_board.grid@, game_board.size as int, old(self).piece_spec(), piece_to_play))->Some_0.move_options@,
                    !old(self).deterministic_spec(),
                    c,
                ),
                None => all_filled(game_board.grid@) || wins(
                    game_board.grid@,
                    game_board.size as nat,
                    inverse_of(piece_to_play),
                ),
            },
            forall|k: Seq<Piece>| old(self).cached(k) is Some ==> #[trigger] final(self).cached(k) == old(self).cached(k),
            final(self).cached(crate::ai_serial::key_for(game_board.grid@, game_board.size as int, old(self).piece_spec(), piece_to_play)) is Some,
            forall|k: Seq<Piece>|
                k != crate::ai_serial::key_for(game_board.grid@, game_board.size as int, old(self).piece_spec(), piece_to_play) && crate::order::count_of(k, Piece::Empty) >= crate::order::count_of(
                    crate::ai_serial::key_for(game_board.grid@, game_board.size as int, old(self).piece_spec(), piece_to_play),
                    Piece::Empty,
                ) ==> #[trigger] final(self).cached(k) == old(self).cached(k),
    {
        let mut scrambled = ScrambledBoard::from_board(game_board);
        let ghost n = game_board.size as int;
        assert(scrambled.grid@ =~= crate::ai_serial::initial_spaces(game_board.grid@, n));
        if piece_to_play != self.piece {
            scrambled.invert();
            assert(scrambled.grid@ =~= crate::ai_serial::initial_spaces(inverted(game_board.grid@), n));
        }
        assert(scrambled.tracks(game_board.grid@));
        proof {
            if piece_to_play != self.piece {
                assert(scrambled.pieces() =~= inverted(game_board.grid@));
            }
        }
        scrambled.fully_standardize();
        assert(scrambled.tracks(game_board.grid@));
        let key = scrambled.to_board_scrambled();
        let analysis = self.analyze(&key);
        if analysis.move_options.len() == 0 {
            proof {
                crate::symmetry::lemma_key_lost_or_full(game_board.grid@, game_board.size as nat, self.piece, piece_to_play);
            }
            return None;
        }
        let chosen = choose_coord(&analysis.move_options);
        proof {
            let q = choose|q: int| 0 <= q < analysis.move_options@.len() && analysis.move_options@[q] == chosen;
            assert(is_open(key.grid@, key.size as int, analysis.move_options@[q]));
        }
        let initial = match scrambled.space_at(chosen) {
            Ok(s) => {
                proof {
                    crate::board::lemma_index(chosen.row as int, chosen.col as int, self.board_size as int);
                    let idx = chosen.row * self.board_size + chosen.col;
                    assert(crate::scrambled_board::fits(scrambled.grid@[idx], game_board.grid@, self.board_size as int));
                    assert(scrambled.grid@[idx].piece == key.grid@[idx]);
                    assert(scrambled.grid@ == crate::ai_serial::key_spaces(game_board.grid@, n, self.piece, piece_to_play));
                }
                s.coord
            },
            Err(_) => {
                return None;
            },
        };
        if self.deterministic {
            Some(initial)
        } else {
            Some(self.equivalent_move(initial, game_board))
        }
    }

    /// A random empty cell of `b` such that this engine's piece there gives
    /// a position canonically equal to the one it gives at
    /// `reference_coord`.
    pub fn equivalent_move(&self, reference_coord: Coord, b: &Board) -> (r: Coord)
        requires
            b.wf(),
            is_open(b.grid@, b.size as int, reference_coord),
        ensures
            is_open(b.grid@, b.size as int, r),
            crate::ai_lazy::equivalent(b.grid@, b.size as int, self.piece_spec(), reference_coord, r),
    {
        equivalent_move_of(self.piece, reference_coord, b)
    }

    /// Plays this engine's move on `game_board`; the board stays as it is
    /// when there is no move.
    pub fn make_move(&mut self, game_board: &mut Board)
        requires
            old(self).inv(),
            old(self).piece_spec() != Piece::Empty,
            old(game_board).wf(),
            old(game_board).size == old(self).size_spec(),
        ensures
            final(self).inv(),
            final(self).size_spec() == old(self).size_spec(),
            final(self).piece_spec() == old(self).piece_spec(),
            final(game_board).wf(),
            final(game_board).size == old(game_board).size,
            final(game_board).grid@ == old(game_board).grid@ || exists|c: Coord|
                is_open(old(game_board).grid@, old(game_board).size as int, c) && final(game_board).grid@
                    == old(game_board).grid@.update(c.row * old(game_board).size + c.col, old(self).piece_spec()),
            !all_filled(old(game_board).grid@) && !wins(
                old(game_board).grid@,
                old(game_board).size as nat,
                inverse_of(old(self).piece_spec()),
            ) ==> exists|c: Coord|
                is_open(old(game_board).grid@, old(game_board).size as int, c) && final(game_board).grid@
                    == old(game_board).grid@.update(c.row * old(game_board).size + c.col, old(self).piece_spec()),
    {
        let p = self.piece;
        match self.choose_move(p, game_board) {
            Some(c) => {
                let _ = game_board.place(p, c);
            },
            None => {},
        }
    }
}

impl AiParallel {
    /// The file this engine's analyses are kept in; with `inverted`, the
    /// file of an engine for the other piece.
    pub fn cbor_path(&self, inverted: bool) -> (r: String)
        ensures
            r@ == crate::paths::path_text(
                seq!['p', 'a', 'r', 'a', 'l', 'l', 'e', 'l'],
                self.size_spec(),
                self.piece_spec(),
                inverted,
                seq!['-', 'l', 'a', 'z', 'y', '.', 'c', 'b', 'o', 'r'],
            ),
    {
        proof {
            reveal_strlit("parallel");
            reveal_strlit("-lazy.cbor");
        }
        crate::paths::strategy_path("parallel", self.board_size, self.piece, inverted, "-lazy.cbor")
    }
}

impl AiParallel {
    /// Every stored position with its analysis.
    pub fn export_cache(&self) -> (r: Vec<(Vec<Piece>, MoveAnalysis)>)
        requires
            self.inv(),
        ensures
            forall|i: int|
                0 <= i < r@.len() ==> (#[trigger] self.cached(r@[i].0@) matches Some(c) && same(c, r@[i].1)),
            forall|k: Seq<Piece>|
                #[trigger] self.cached(k) is Some ==> exists|i: int| 0 <= i < r@.len() && r@[i].0@ == k,
            forall|i: int, j: int| 0 <= i < j < r@.len() ==> r@[i].0@ != r@[j].0@,
    {
        let keys = self.known_boards.stored_keys();
        let mut out: Vec<(Vec<Piece>, MoveAnalysis)> = Vec::new();
        let mut i: usize = 0;
        while i < keys.len()
            invariant
                self.known_boards.wf(),
                out@.len() == i,
                forall|t: int| 0 <= t < out@.len() ==> (#[trigger] out@[t]).0@ == keys@[t]@,
                forall|k: Seq<Piece>| #[trigger] self.cached(k) is Some ==> exists|q: int| 0 <= q < keys@.len() && keys@[q]@ == k,
                forall|q: int| 0 <= q < keys@.len() ==> self.cached(#[trigger] keys@[q]@) is Some,
                forall|p: int, q: int| 0 <= p < q < keys@.len() ==> keys@[p]@ != keys@[q]@,
                i <= keys@.len(),
                forall|j: int|
                    0 <= j < out@.len() ==> (#[trigger] self.cached(out@[j].0@) matches Some(c) && same(c, out@[j].1)),
            decreases keys@.len() - i,
        {
            match self.known_boards.get(&keys[i]) {
                Some(a) => {
                    out.push((copy_vec(&keys[i]), a.duplicate()));
                },
                None => {},
            }
            i = i + 1;
        }
        proof {
            assert forall|k: Seq<Piece>| #[trigger] self.cached(k) is Some implies exists|q: int|
                0 <= q < out@.len() && out@[q].0@ == k by {
                let q = choose|q: int| 0 <= q < keys@.len() && keys@[q]@ == k;
                assert(out@[q].0@ == k);
            }
            assert forall|t: int, u: int| 0 <= t < u < out@.len() implies out@[t].0@ != out@[u].0@ by {
                assert(out@[t].0@ == keys@[t]@ && out@[u].0@ == keys@[u]@);
            }
        }
        out
    }

    /// Stores `a` for `key` when it is a sound analysis for this engine.
    pub fn import_entry(&mut self, key: Vec<Piece>, a: MoveAnalysis) -> (r: bool)
        requires
            old(self).inv(),
        ensures
            final(self).inv(),
            final(self).size_spec() == old(self).size_spec(),
            final(self).piece_spec() == old(self).piece_spec(),
            final(self).deterministic_spec() == old(self).deterministic_spec(),
            r == sound(key@, old(self).size_spec() as int, old(self).piece_spec(), a),
            r ==> (final(self).cached(key@) matches Some(c) && same(c, a)),
            !r ==> forall|k: Seq<Piece>| #[trigger] final(self).cached(k) == old(self).cached(k),
            forall|k: Seq<Piece>| k != key@ ==> #[trigger] final(self).cached(k) == old(self).cached(k),
    {
        if !crate::ai_serial::check_sound(&key, self.board_size, self.piece, &a) {
            return false;
        }
        let b = Board { size: self.board_size, grid: key };
        self.remember(&b, &a);
        true
    }

    /// Stores every sound entry of `entries`, with each position inverted
    /// first when `inverted` (entries made by an engine for the other
    /// piece); returns how many were stored.
    pub fn import_cache(&mut self, entries: Vec<(Vec<Piece>, MoveAnalysis)>, inverted: bool) -> (r: usize)
        requires
            old(self).inv(),
        ensures
            final(self).inv(),
            final(self).size_spec() == old(self).size_spec(),
            final(self).piece_spec() == old(self).piece_spec(),
            final(self).deterministic_spec() == old(self).deterministic_spec(),
            r <= entries@.len(),
            forall|i: int|
                0 <= i < entries@.len() && sound(
                    crate::ai_serial::stored_key(entries@[i].0@, inverted),
                    old(self).size_spec() as int,
                    old(self).piece_spec(),
                    entries@[i].1,
                ) && (forall|j: int|
                    0 <= j < i ==> crate::ai_serial::stored_key(entries@[j].0@, inverted) != crate::ai_serial::stored_key(
                        entries@[i].0@,
                        inverted,
                    )) ==> (final(self).cached(crate::ai_serial::stored_key(#[trigger] entries@[i].0@, inverted)) matches Some(c) && same(c, entries@[i].1)),
    {
        let ghost orig = entries@;
        let mut entries = entries;
        let mut stored: usize = 0;
        let ghost total = entries@.len();
        let start = entries.len();
        while entries.len() > 0
            invariant
                total == start,
                self.inv(),
                self.size_spec() == old(self).size_spec(),
                self.piece_spec() == old(self).piece_spec(),
            self.deterministic_spec() == old(self).deterministic_spec(),
                total == orig.len(),
                entries@ == orig.subrange(0, entries@.len() as int),
                forall|i: int|
                    entries@.len() <= i < total && sound(
                        crate::ai_serial::stored_key(orig[i].0@, inverted),
                        self.size_spec() as int,
                        self.piece_spec(),
                        orig[i].1,
                    ) && (forall|j: int|
                        0 <= j < i ==> crate::ai_serial::stored_key(orig[j].0@, inverted) != crate::ai_serial::stored_key(
                            orig[i].0@,
                            inverted,
                        )) ==> (self.cached(crate::ai_serial::stored_key(#[trigger] orig[i].0@, inverted)) matches Some(c) && same(c, orig[i].1)),
                stored + entries@.len() <= total,
            decreases entries@.len(),
        {
            let ghost m = entries@.len() - 1;
            let (key, a) = entries.pop().unwrap();
            let key = if inverted {
                Board { size: self.board_size, grid: key }.inverse().grid
            } else {
                key
            };
            assert(key@ == crate::ai_serial::stored_key(orig[m].0@, inverted));
            let ghost before = *self;
            if self.import_entry(key, a) {
                stored = stored + 1;
            }
            proof {
                assert forall|i: int|
                    entries@.len() <= i < total && sound(
                        crate::ai_serial::stored_key(orig[i].0@, inverted),
                        self.size_spec() as int,
                        self.piece_spec(),
                        orig[i].1,
                    ) && (forall|j: int|
                        0 <= j < i ==> crate::ai_serial::stored_key(orig[j].0@, inverted) != crate::ai_serial::stored_key(
                            orig[i].0@,
                            inverted,
                        )) implies (self.cached(crate::ai_serial::stored_key(#[trigger] orig[i].0@, inverted)) matches Some(c) && same(c, orig[i].1)) by {
                    if i > m {
                        assert(crate::ai_serial::stored_key(orig[m].0@, inverted) != crate::ai_serial::stored_key(orig[i].0@, inverted));
                        assert(self.cached(crate::ai_serial::stored_key(orig[i].0@, inverted)) == before.cached(
                            crate::ai_serial::stored_key(orig[i].0@, inverted),
                        ));
                    }
                }
            }
        }
        stored
    }
}

impl AiParallel {
    /// The moves of canonical position `key` for this engine's piece, each
    /// with the canonical position the opponent then faces, so that they
    /// can be analyzed apart and put together by `combine_children`.
    pub fn root_children(&self, key: &Board) -> (r: (Vec<Coord>, Vec<Board>))
        requires
            key.wf(),
            key.size == self.size_spec(),
        ensures
            lists_open_cells(r.0@, key.grid@, key.size as int),
            r.1@.len() == r.0@.len(),
            forall|i: int|
                0 <= i < r.1@.len() ==> (#[trigger] r.1@[i]).wf() && r.1@[i].size == key.size && r.1@[i].grid@
                    == child_key(key.grid@, key.size as int, self.piece_spec(), r.0@[i]),
    {
        let moves = available_spaces(key);
        let mut children: Vec<Board> = Vec::new();
        let mut i: usize = 0;
        while i < moves.len()
            invariant
                key.wf(),
                key.size == self.board_size,
                i <= moves@.len(),
                lists_open_cells(moves@, key.grid@, key.size as int),
                children@.len() == i,
                forall|j: int|
                    0 <= j < i ==> (#[trigger] children@[j]).wf() && children@[j].size == key.size
                        && children@[j].grid@ == child_key(key.grid@, key.size as int, self.piece, moves@[j]),
            decreases moves@.len() - i,
        {
            let c = moves[i];
            let mut child = key.duplicate();
            proof {
                assert(is_open(key.grid@, key.size as int, moves@[i as int]));
            }
            let _ = child.place(self.piece, c);
            child.invert();
            child.fully_standardize();
            children.push(child);
            i = i + 1;
        }
        (moves, children)
    }
}

/// The search result over the moves looked at, whose stored analyses in
/// `mid` agree with `lower` and are left alone by the step to `fin`, is
/// `searched` in `fin`.
proof fn lemma_parallel_searched(
    mid: AiParallel,
    fin: AiParallel,
    g: Seq<Piece>,
    n: int,
    moves: Seq<Coord>,
    lower: Seq<MoveAnalysis>,
    spaces: Seq<Coord>,
    win_found: bool,
    a: MoveAnalysis,
)
    requires
        n == mid.board_size,
        fin.board_size == mid.board_size,
        fin.piece == mid.piece,
        moves.len() == lower.len(),
        moves.len() > 0,
        moves.len() <= spaces.len(),
        forall|j: int| 0 <= j < moves.len() ==> moves[j] == spaces[j],
        !win_found ==> moves.len() == spaces.len(),
        win_found ==> exists|j: int| 0 <= j < moves.len() && (ply(#[trigger] lower[j].evaluation) is Win),
        lists_open_cells(spaces, g, n),
        forall|j: int| 0 <= j < moves.len() ==> #[trigger] mid.records_child(g, moves[j], lower[j]),
        forall|k: Seq<Piece>| k != g ==> #[trigger] fin.cached(k) == mid.cached(k),
        moves.no_duplicates() ==> a.move_options@.no_duplicates(),
        moves.no_duplicates(),
        exists|k: int| 0 <= k < lower.len() && a.evaluation == ply(#[trigger] lower[k].evaluation),
        forall|k: int| 0 <= k < lower.len() ==> !value_less(a.evaluation, ply(#[trigger] lower[k].evaluation)),
        forall|t: int|
            0 <= t < a.move_options@.len() ==> exists|k: int|
                0 <= k < moves.len() && moves[k] == #[trigger] a.move_options@[t] && ply(lower[k].evaluation)
                    == a.evaluation,
        forall|k: int| 0 <= k < moves.len() && ply(#[trigger] lower[k].evaluation) == a.evaluation
            ==> a.move_options@.contains(moves[k]),
        exists|k: int| 0 <= k < lower.len() && a.depth_used == spec_add_one(#[trigger] lower[k].depth_used),
        forall|k: int| 0 <= k < lower.len() ==> a.depth_used <= spec_add_one(#[trigger] lower[k].depth_used),
    ensures
        fin.searched(g, a),
{
    assert forall|j: int| 0 <= j < moves.len() implies fin.has_child(g, #[trigger] moves[j]) && fin.child_record(g, moves[j])
        == mid.cached(child_key(g, n, mid.piece, moves[j]))->Some_0 && same(fin.child_record(g, moves[j]), lower[j])
        && is_open(g, n, moves[j]) by {
        let kj = child_key(g, n, mid.piece, moves[j]);
        assert(mid.records_child(g, moves[j], lower[j]));
        if kj == g {
            assert(crate::order::count_of(kj, Piece::Empty) + 1 == crate::order::count_of(g, Piece::Empty));
        }
        assert(is_open(g, n, spaces[j]));
    }
    assert forall|c: Coord| #[trigger] a.move_options@.contains(c) implies is_open(g, n, c) && fin.has_child(g, c) && ply(
        fin.child_record(g, c).evaluation,
    ) == a.evaluation by {
        let t = choose|t: int| 0 <= t < a.move_options@.len() && a.move_options@[t] == c;
        let k = choose|k: int|
            0 <= k < moves.len() && moves[k] == a.move_options@[t] && ply(lower[k].evaluation) == a.evaluation;
        assert(same(fin.child_record(g, moves[k]), lower[k]));
    }
    let w = choose|k: int| 0 <= k < lower.len() && a.evaluation == ply(lower[k].evaluation);
    assert(same(fin.child_record(g, moves[w]), lower[w]));
    assert(is_open(g, n, moves[w]) && fin.has_child(g, moves[w]));
    let v = choose|k: int| 0 <= k < lower.len() && a.depth_used == spec_add_one(lower[k].depth_used);
    assert(same(fin.child_record(g, moves[v]), lower[v]));
    assert(is_open(g, n, moves[v]) && fin.has_child(g, moves[v]));
    if !(a.evaluation is Win) {
        if win_found {
            let j = choose|j: int| 0 <= j < moves.len() && (ply(lower[j].evaluation) is Win);
            assert(!value_less(a.evaluation, ply(lower[j].evaluation)));
            assert(false);
        }
        assert forall|c: Coord| #[trigger] is_open(g, n, c) implies {
            &&& fin.has_child(g, c)
            &&& !value_less(a.evaluation, ply(fin.child_record(g, c).evaluation))
            &&& ply(fin.child_record(g, c).evaluation) == a.evaluation ==> a.move_options@.contains(c)
            &&& a.depth_used <= spec_add_one(fin.child_record(g, c).depth_used)
        } by {
            assert(spaces.contains(c));
            let j = choose|j: int| 0 <= j < spaces.len() && spaces[j] == c;
            assert(moves[j] == c);
            assert(same(fin.child_record(g, moves[j]), lower[j]));
            if ply(fin.child_record(g, c).evaluation) == a.evaluation {
                assert(ply(lower[j].evaluation) == a.evaluation);
            }
        }
    }
}

} // verus!
