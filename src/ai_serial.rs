//! The depth-bounded, memoized search engine.
use crate::board::{wins, Board};
use crate::cache::Cache;
use crate::canon::{copy_vec, settle};
use crate::order::count_of;
use crate::ai_parallel::{combine_children, spec_add_one};
use crate::move_value::{available_spaces, index_of, is_open, ply, value_less, MoveAnalysis, MoveValue};
use crate::random::choose_coord;
use crate::scrambled_board::ScrambledBoard;
use crate::space::{inverse_of, Coord, Piece};
use vstd::prelude::*;

verus! {

/// Every cell of `g` holds a piece.
pub open spec fn all_filled(g: Seq<Piece>) -> bool {
    forall|i: int| 0 <= i < g.len() ==> g[i] != Piece::Empty
}

/// `piece` at `m` gives `piece` a transversal of the `n`-wide position `k`.
pub open spec fn completes(k: Seq<Piece>, n: int, piece: Piece, m: Coord) -> bool {
    wins(k.update(crate::move_value::index_of(m, n), piece), n as nat, piece)
}

/// What holds of every analysis of the `n`-wide position `k` made for
/// `piece`: its moves are empty cells; it is `Lose(0)` exactly when the
/// opponent already holds a transversal; `Tie(0)` only on a full board,
/// and on a full board the opponent has not won; a position that is
/// neither lost nor full has a move; it is never `Win(0)`; and when it is
/// `Win(1)`, each of its moves completes a transversal of `piece`.
pub open spec fn sound(k: Seq<Piece>, n: int, piece: Piece, a: MoveAnalysis) -> bool {
    let lost = wins(k, n as nat, inverse_of(piece));
    &&& k.len() == n * n
    &&& forall|i: int| 0 <= i < a.move_options@.len() ==> is_open(k, n, #[trigger] a.move_options@[i])
    &&& (a.evaluation == MoveValue::Lose(0)) == lost
    &&& a.evaluation == MoveValue::Tie(0) ==> all_filled(k)
    &&& (!lost && all_filled(k)) ==> a.evaluation == MoveValue::Tie(0)
    &&& (!lost && !all_filled(k)) ==> a.move_options@.len() > 0
    &&& a.evaluation != MoveValue::Win(0)
    &&& a.evaluation == MoveValue::Win(1) ==> forall|i: int|
        0 <= i < a.move_options@.len() ==> completes(k, n, piece, #[trigger] a.move_options@[i])
}

/// A stored record stays, or gives way only to a strictly deeper one.
pub open spec fn deepened(before: Option<MoveAnalysis>, after: Option<MoveAnalysis>) -> bool {
    before is Some ==> after is Some && (after == before || after->Some_0.depth_used > before->Some_0.depth_used)
}

/// The canonical position the opponent faces after `piece` moves at `c`
/// on the `n`-wide position `g`, seen as the opponent's own.
pub open spec fn child_key(g: Seq<Piece>, n: int, piece: Piece, c: Coord) -> Seq<Piece> {
    settle(crate::board::inverted(g.update(crate::move_value::index_of(c, n), piece)), n, usize::MAX as nat)
}

/// The spaces of an `n`-wide grid, each carrying its own coordinate.
pub open spec fn initial_spaces(g: Seq<Piece>, n: int) -> Seq<crate::space::Space> {
    Seq::new(
        g.len(),
        |i: int| crate::space::Space { piece: g[i], coord: Coord { row: (i / n) as usize, col: (i % n) as usize } },
    )
}

/// The canonical position an engine for `engine` analyzes when `player`
/// is to move on `g`, each cell carrying the coordinate on `g` it came from.
pub open spec fn key_spaces(g: Seq<Piece>, n: int, engine: Piece, player: Piece) -> Seq<crate::space::Space> {
    let seen = if player != engine {
        crate::board::inverted(g)
    } else {
        g
    };
    crate::canon::settle_spaces(initial_spaces(seen, n), n, usize::MAX as nat)
}

/// `c` is where on `g` one of `options` of the canonical position for
/// `player` lands or, when `allow_equivalent`, a cell giving a position
/// canonically equal to the one that landing cell gives.
pub open spec fn lands_from(
    g: Seq<Piece>,
    n: int,
    engine: Piece,
    player: Piece,
    options: Seq<Coord>,
    allow_equivalent: bool,
    c: Coord,
) -> bool {
    exists|m: Coord|
        #[trigger] options.contains(m) && m.row < n && m.col < n && {
            let mapped = key_spaces(g, n, engine, player)[index_of(m, n)].coord;
            c == mapped || (allow_equivalent && crate::ai_lazy::equivalent(g, n, engine, mapped, c))
        }
}

/// The position an imported entry is stored under: its own, or its
/// inverse for entries made by an engine for the other piece.
pub open spec fn stored_key(key: Seq<Piece>, inverted: bool) -> Seq<Piece> {
    if inverted {
        crate::board::inverted(key)
    } else {
        key
    }
}

/// Two analyses agree in every field.
pub open spec fn same(a: MoveAnalysis, b: MoveAnalysis) -> bool {
    a.evaluation == b.evaluation && a.move_options@ == b.move_options@ && a.depth_used == b.depth_used
}

/// The position an engine for `engine` analyzes when `player` is to move
/// on `g`: inverted when the two differ, then brought into canonical form.
pub open spec fn key_for(g: Seq<Piece>, n: int, engine: Piece, player: Piece) -> Seq<Piece> {
    let seen = if player != engine {
        crate::board::inverted(g)
    } else {
        g
    };
    settle(seen, n, usize::MAX as nat)
}

/// An engine that searches a bounded number of moves ahead and remembers
/// every position it analyzed.
pub struct AiSerial {
    size: usize,
    piece: Piece,
    depth: usize,
    known_boards: Cache<MoveAnalysis>,
}

impl AiSerial {
    pub closed spec fn size_spec(&self) -> usize {
        self.size
    }

    pub closed spec fn piece_spec(&self) -> Piece {
        self.piece
    }

    pub closed spec fn depth_spec(&self) -> usize {
        self.depth
    }

    /// The analysis stored for position `k`, if any.
    pub closed spec fn cached(&self, k: Seq<Piece>) -> Option<MoveAnalysis> {
        self.known_boards.lookup(k)
    }

    /// The analysis stored for the position after this engine's piece
    /// moves at `c` on `g`.
    pub open spec fn child_record(&self, g: Seq<Piece>, c: Coord) -> MoveAnalysis {
        self.cached(child_key(g, self.size_spec() as int, self.piece_spec(), c))->Some_0
    }

    /// This engine has stored `l` for the position after its piece moves at
    /// `c` on `g`, which has one empty cell fewer than `g`.
    pub open spec fn records_child(&self, g: Seq<Piece>, c: Coord, l: MoveAnalysis) -> bool {
        let k = child_key(g, self.size_spec() as int, self.piece_spec(), c);
        &&& self.cached(k) is Some
        &&& same(self.cached(k)->Some_0, l)
        &&& count_of(k, Piece::Empty) + 1 == count_of(g, Piece::Empty)
    }

    /// `a` is the search result for `g` over the analyses this engine has
    /// stored for `g`'s moves: the best of their values after one ply,
    /// exactly the moves reaching it, each once, and one more than
    /// the shallowest of their depths.
    pub open spec fn searched(&self, g: Seq<Piece>, a: MoveAnalysis) -> bool {
        let n = self.size_spec() as int;
        &&& forall|c: Coord|
            #[trigger] is_open(g, n, c) ==> self.cached(child_key(g, n, self.piece_spec(), c)) is Some
        &&& exists|c: Coord| is_open(g, n, c) && a.evaluation == ply(self.child_record(g, c).evaluation)
        &&& forall|c: Coord|
            #[trigger] is_open(g, n, c) ==> !value_less(a.evaluation, ply(self.child_record(g, c).evaluation))
        &&& forall|c: Coord|
            #[trigger] a.move_options@.contains(c) <==> (is_open(g, n, c) && ply(self.child_record(g, c).evaluation)
                == a.evaluation)
        &&& a.move_options@.no_duplicates()
        &&& exists|c: Coord| is_open(g, n, c) && a.depth_used == spec_add_one(self.child_record(g, c).depth_used)
        &&& forall|c: Coord|
            #[trigger] is_open(g, n, c) ==> a.depth_used <= spec_add_one(self.child_record(g, c).depth_used)
    }

    /// Every stored analysis is sound for its position.
    pub closed spec fn inv(&self) -> bool {
        self.known_boards.wf() && forall|k: Seq<Piece>|
            #[trigger] self.known_boards.lookup(k) is Some ==> sound(
                k,
                self.size as int,
                self.piece,
                self.known_boards.lookup(k)->Some_0,
            )
    }

    /// An engine for `piece` on `size`-wide boards that looks `depth` moves
    /// ahead, at most as many as the board has cells.
    pub fn new(size: usize, piece: Piece, depth: usize) -> (r: AiSerial)
        requires
            size * size <= usize::MAX,
        ensures
            r.inv(),
            r.size_spec() == size,
            r.piece_spec() == piece,
            r.depth_spec() == if depth > size * size {
                size * size
            } else {
                depth as int
            },
            forall|k: Seq<Piece>| #[trigger] r.cached(k) == None::<MoveAnalysis>,
    {
        let depth = if depth > size * size {
            size * size
        } else {
            depth
        };
        AiSerial { size, piece, depth, known_boards: Cache::new() }
    }

    pub fn piece(&self) -> (r: Piece)
        ensures
            r == self.piece_spec(),
    {
        self.piece
    }

    fn remember(&mut self, b: &Board, a: &MoveAnalysis)
        requires
            old(self).inv(),
            sound(b.grid@, old(self).size as int, old(self).piece, *a),
        ensures
            final(self).inv(),
            final(self).size == old(self).size,
            final(self).piece == old(self).piece,
            final(self).depth == old(self).depth,
            final(self).cached(b.grid@) matches Some(c) && same(c, *a),
            forall|k: Seq<Piece>| k != b.grid@ ==> #[trigger] final(self).cached(k) == old(self).cached(k),
    {
        let stored = a.duplicate();
        let ghost sv = stored;
        self.known_boards.insert(copy_vec(&b.grid), stored);
        proof {
            assert(sound(b.grid@, self.size as int, self.piece, sv));
            assert forall|k: Seq<Piece>| #[trigger] self.known_boards.lookup(k) is Some implies sound(
                k,
                self.size as int,
                self.piece,
                self.known_boards.lookup(k)->Some_0,
            ) by {
                if k != b.grid@ {
                    assert(old(self).known_boards.lookup(k) == self.known_boards.lookup(k));
                }
            }
        }
    }

    /// Analyzes canonical position `b`, with this engine's piece to move,
    /// looking `depth_to_use` moves ahead; a stored analysis at least that
    /// deep is returned as it is.
    #[verifier::rlimit(100)]
    pub fn analyze(&mut self, b: &Board, depth_to_use: usize) -> (r: MoveAnalysis)
        requires
            old(self).inv(),
            b.wf(),
            b.size == old(self).size_spec(),
            old(self).piece_spec() != Piece::Empty,
        ensures
            final(self).inv(),
            forall|k: Seq<Piece>| #[trigger] deepened(old(self).cached(k), final(self).cached(k)),
            forall|k: Seq<Piece>|
                k != b.grid@ && count_of(k, Piece::Empty) >= count_of(b.grid@, Piece::Empty)
                    ==> #[trigger] final(self).cached(k) == old(self).cached(k),
            final(self).size_spec() == old(self).size_spec(),
            final(self).piece_spec() == old(self).piece_spec(),
            final(self).depth_spec() == old(self).depth_spec(),
            sound(b.grid@, b.size as int, old(self).piece_spec(), r),
            r.depth_used >= depth_to_use,
            final(self).cached(b.grid@) matches Some(c) && same(c, r),
            (old(self).cached(b.grid@) matches Some(c) && c.depth_used >= depth_to_use) ==> {
                &&& same(r, old(self).cached(b.grid@)->Some_0)
                &&& forall|k: Seq<Piece>| #[trigger] final(self).cached(k) == old(self).cached(k)
            },
            !(old(self).cached(b.grid@) matches Some(c) && c.depth_used >= depth_to_use) ==> {
                let lost = wins(b.grid@, b.size as nat, inverse_of(old(self).piece_spec()));
                &&& lost ==> r.evaluation == MoveValue::Lose(0) && r.move_options@.len() == 0
                    && r.depth_used == usize::MAX
                &&& (!lost && all_filled(b.grid@)) ==> r.evaluation == MoveValue::Tie(0)
                    && r.move_options@.len() == 0 && r.depth_used == usize::MAX
                &&& (!lost && !all_filled(b.grid@) && depth_to_use == 0) ==> r.evaluation
                    == MoveValue::Unknown(0) && crate::move_value::lists_open_cells(
                    r.move_options@,
                    b.grid@,
                    b.size as int,
                ) && r.depth_used == 0
                &&& (lost || all_filled(b.grid@) || depth_to_use == 0) ==> forall|k: Seq<Piece>|
                    k != b.grid@ ==> #[trigger] final(self).cached(k) == old(self).cached(k)
                &&& (!lost && !all_filled(b.grid@) && depth_to_use > 0) ==> final(self).searched(b.grid@, r)
            },
        decreases depth_to_use,
    {
        if let Some(a) = self.known_boards.get(&b.grid) {
            if a.depth_used >= depth_to_use {
                let r = a.duplicate();
                return r;
            }
        }
        if b.has_win(self.piece.inverse()) {
            let a = MoveAnalysis { evaluation: MoveValue::Lose(0), move_options: Vec::new(), depth_used: usize::MAX };
            self.remember(b, &a);
            return a;
        }
        if b.is_full() {
            let a = MoveAnalysis { evaluation: MoveValue::Tie(0), move_options: Vec::new(), depth_used: usize::MAX };
            self.remember(b, &a);
            return a;
        }
        if depth_to_use == 0 {
            let a = MoveAnalysis { evaluation: MoveValue::Unknown(0), move_options: available_spaces(b), depth_used: 0 };
            proof {
                lemma_open_exists(b);
            }
            self.remember(b, &a);
            return a;
        }
        let spaces = available_spaces(b);
        proof {
            lemma_open_exists(b);
            let c = choose|c: Coord| is_open(b.grid@, b.size as int, c);
            assert(spaces@.contains(c));
        }
        let mut moves: Vec<Coord> = Vec::new();
        let mut lower_all: Vec<MoveAnalysis> = Vec::new();
        let ghost n = b.size as int;
        let ghost g = b.grid@;
        let mut i: usize = 0;
        while i < spaces.len()
            invariant
                self.inv(),
                self.size == old(self).size,
                self.piece == old(self).piece,
                self.depth == old(self).depth,
                b.wf(),
                b.size == self.size,
                n == b.size,
                g == b.grid@,
                depth_to_use > 0,
                i <= spaces@.len(),
                spaces@.len() > 0,
                moves@.len() == i,
                lower_all@.len() == i,
                forall|j: int| 0 <= j < i ==> moves@[j] == spaces@[j],
                forall|j: int| 0 <= j < i ==> #[trigger] self.records_child(g, moves@[j], lower_all@[j]),
                forall|j: int| 0 <= j < i ==> (#[trigger] lower_all@[j]).depth_used >= depth_to_use - 1,
                forall|j: int|
                    0 <= j < i ==> depth_of_at_least_one(ply(#[trigger] lower_all@[j].evaluation)),
                forall|j: int|
                    0 <= j < i && ply(#[trigger] lower_all@[j].evaluation) == MoveValue::Win(1) ==> completes(
                        b.grid@,
                        b.size as int,
                        self.piece,
                        moves@[j],
                    ),
                crate::move_value::lists_open_cells(spaces@, b.grid@, b.size as int),
                self.piece != Piece::Empty,
                forall|k: Seq<Piece>| #[trigger] deepened(old(self).cached(k), self.cached(k)),
                forall|k: Seq<Piece>|
                    k != b.grid@ && count_of(k, Piece::Empty) >= count_of(b.grid@, Piece::Empty)
                        ==> #[trigger] self.cached(k) == old(self).cached(k),
                self.cached(b.grid@) == old(self).cached(b.grid@),
                !(old(self).cached(b.grid@) matches Some(c) && c.depth_used >= depth_to_use),
            decreases spaces@.len() - i,
        {
            let c = spaces[i];
            let mut child = b.duplicate();
            let _ = child.place(self.piece, c);
            child.invert();
            child.fully_standardize();
            let key = child;
            proof {
                assert(is_open(b.grid@, b.size as int, spaces@[i as int]));
                crate::board::lemma_index(c.row as int, c.col as int, b.size as int);
                crate::symmetry::lemma_child_empties(
                    b.grid@,
                    b.size as int,
                    crate::move_value::index_of(c, b.size as int),
                    self.piece,
                );
            }
            let ghost mid = *self;
            assert(key.grid@ == child_key(g, n, self.piece, c));
            let lower = self.analyze(&key, depth_to_use - 1);
            proof {
                assert forall|k: Seq<Piece>| #[trigger] deepened(old(self).cached(k), self.cached(k)) by {
                    assert(deepened(old(self).cached(k), mid.cached(k)));
                    assert(deepened(mid.cached(k), self.cached(k)));
                }
                assert(key.grid@ != b.grid@);
                assert forall|j: int| 0 <= j < i implies #[trigger] self.cached(child_key(g, n, self.piece, moves@[j]))
                    == mid.cached(child_key(g, n, self.piece, moves@[j])) by {
                    let kj = child_key(g, n, self.piece, moves@[j]);
                    assert(mid.records_child(g, moves@[j], lower_all@[j]));
                    if kj != key.grid@ {
                        assert(self.cached(kj) == mid.cached(kj));
                    }
                }
                if ply(lower.evaluation) == MoveValue::Win(1) {
                    assert(lower.evaluation == MoveValue::Lose(0));
                    crate::symmetry::lemma_child_loss_is_win(
                        b.grid@.update(crate::move_value::index_of(c, b.size as int), self.piece),
                        b.size as nat,
                        self.piece,
                    );
                }
            }
            let ghost prev = lower_all@;
            moves.push(c);
            lower_all.push(lower);
            proof {
                assert forall|j: int| 0 <= j < i + 1 implies (#[trigger] lower_all@[j]).depth_used >= depth_to_use - 1 by {
                    if j < i {
                        assert(lower_all@[j] == prev[j]);
                    }
                }
                assert forall|j: int| 0 <= j < i + 1 implies #[trigger] self.records_child(g, moves@[j], lower_all@[j]) by {
                    if j == i {
                        assert(moves@[j] == c);
                        assert(lower_all@[j] == lower);
                        assert(child_key(g, n, self.piece, c) == key.grid@);
                        assert(self.cached(key.grid@) matches Some(cc) && same(cc, lower));
                    } else {
                        assert(lower_all@[j] == prev[j]);
                        assert(mid.records_child(g, moves@[j], prev[j]));
                        assert(self.cached(child_key(g, n, self.piece, moves@[j])) == mid.cached(
                            child_key(g, n, self.piece, moves@[j]),
                        ));
                    }
                }
            }
            i = i + 1;
        }
        proof {
            assert(moves@ =~= spaces@);
            assert(moves@.no_duplicates()) by {
                assert forall|p: int, q: int| 0 <= p < moves@.len() && 0 <= q < moves@.len() && p != q implies moves@[p]
                    != moves@[q] by {
                    if p < q {
                        assert(index_of(spaces@[p], n) < index_of(spaces@[q], n));
                    } else {
                        assert(index_of(spaces@[q], n) < index_of(spaces@[p], n));
                    }
                }
            }
        }
        let a = combine_children(&moves, &lower_all);
        proof {
            assert forall|t: int| 0 <= t < a.move_options@.len() implies is_open(
                b.grid@,
                b.size as int,
                #[trigger] a.move_options@[t],
            ) by {
                let q = choose|q: int|
                    0 <= q < moves@.len() && moves@[q] == a.move_options@[t] && ply(lower_all@[q].evaluation)
                        == a.evaluation;
                assert(spaces@[q] == moves@[q]);
            }
            let w = choose|k: int| 0 <= k < lower_all@.len() && a.evaluation == ply(lower_all@[k].evaluation);
            assert(depth_of_at_least_one(ply(lower_all@[w].evaluation)));
            assert(a.move_options@.contains(moves@[w]));
            if a.evaluation == MoveValue::Win(1) {
                assert forall|t: int| 0 <= t < a.move_options@.len() implies completes(
                    b.grid@,
                    b.size as int,
                    self.piece,
                    #[trigger] a.move_options@[t],
                ) by {
                    let q = choose|q: int|
                        0 <= q < moves@.len() && moves@[q] == a.move_options@[t] && ply(lower_all@[q].evaluation)
                            == a.evaluation;
                    assert(ply(lower_all@[q].evaluation) == MoveValue::Win(1));
                }
            }
        }
        proof {
            let v = choose|k: int| 0 <= k < lower_all@.len() && a.depth_used == spec_add_one(lower_all@[k].depth_used);
            assert(lower_all@[v].depth_used >= depth_to_use - 1);
            assert(a.depth_used >= depth_to_use);
        }
        let ghost loop_end = *self;
        self.remember(b, &a);
        proof {
            lemma_searched(loop_end, *self, g, n, moves@, lower_all@, spaces@, a);
        }
        a
    }

    /// Picks a move for `player` on `game_board`: one of the best moves of
    /// the canonical position, mapped back to the board. `None` when that
    /// position has no move, being lost or full.
    pub fn choose_move(&mut self, player: Piece, game_board: &Board) -> (r: Option<Coord>)
        requires
            old(self).inv(),
            player != Piece::Empty,
            old(self).piece_spec() != Piece::Empty,
            game_board.wf(),
            game_board.size == old(self).size_spec(),
        ensures
            final(self).inv(),
            final(self).size_spec() == old(self).size_spec(),
            final(self).piece_spec() == old(self).piece_spec(),
            final(self).depth_spec() == old(self).depth_spec(),
            match r {
                Some(c) => is_open(game_board.grid@, game_board.size as int, c) && final(self).cached(
                    key_for(game_board.grid@, game_board.size as int, old(self).piece_spec(), player),
                ) is Some && lands_from(
                    game_board.grid@,
                    game_board.size as int,
                    old(self).piece_spec(),
                    player,
                    final(self).cached(
                        key_for(game_board.grid@, game_board.size as int, old(self).piece_spec(), player),
                    )->Some_0.move_options@,
                    false,
                    c,
                ),
                None => all_filled(game_board.grid@) || wins(
                    game_board.grid@,
                    game_board.size as nat,
                    inverse_of(player),
                ),
            },
            forall|k: Seq<Piece>| #[trigger] deepened(old(self).cached(k), final(self).cached(k)),
            final(self).cached(crate::ai_serial::key_for(game_board.grid@, game_board.size as int, old(self).piece_spec(), player)) is Some,
            forall|k: Seq<Piece>|
                k != crate::ai_serial::key_for(game_board.grid@, game_board.size as int, old(self).piece_spec(), player) && crate::order::count_of(k, Piece::Empty) >= crate::order::count_of(
                    crate::ai_serial::key_for(game_board.grid@, game_board.size as int, old(self).piece_spec(), player),
                    Piece::Empty,
                ) ==> #[trigger] final(self).cached(k) == old(self).cached(k),
    {
        let mut scrambled = ScrambledBoard::from_board(game_board);
        let ghost n = game_board.size as int;
        assert(scrambled.grid@ =~= initial_spaces(game_board.grid@, n));
        if player != self.piece {
            scrambled.invert();
            assert(scrambled.grid@ =~= initial_spaces(crate::board::inverted(game_board.grid@), n));
        }
        assert(scrambled.tracks(game_board.grid@));
        proof {
            if player != self.piece {
                assert(scrambled.pieces() =~= crate::board::inverted(game_board.grid@));
            }
        }
        scrambled.fully_standardize();
        assert(scrambled.tracks(game_board.grid@));
        let key = scrambled.to_board_scrambled();
        let analysis = self.analyze(&key, self.depth);
        if analysis.move_options.len() == 0 {
            proof {
                crate::symmetry::lemma_key_lost_or_full(game_board.grid@, game_board.size as nat, self.piece, player);
            }
            return None;
        }
        let chosen = choose_coord(&analysis.move_options);
        proof {
            let q = choose|q: int| 0 <= q < analysis.move_options@.len() && analysis.move_options@[q] == chosen;
            assert(is_open(key.grid@, key.size as int, analysis.move_options@[q]));
        }
        let space = scrambled.space_at(chosen);
        match space {
            Ok(s) => {
                proof {
                    crate::board::lemma_index(chosen.row as int, chosen.col as int, self.size as int);
                    let idx = chosen.row * self.size + chosen.col;
                    assert(crate::scrambled_board::fits(scrambled.grid@[idx], game_board.grid@, self.size as int));
                    assert(scrambled.grid@[idx].piece == key.grid@[idx]);
                    assert(analysis.move_options@.contains(chosen));
                    assert(scrambled.grid@ == key_spaces(game_board.grid@, n, self.piece, player));
                }
                Some(s.coord)
            },
            Err(_) => None,
        }
    }

    /// Plays this engine's move on `game_board`; the board stays as it is
    /// when there is no move.
    pub fn make_move(&mut self, game_board: &mut Board)
        requires
            old(self).inv(),
            old(self).piece_spec() != Piece::Empty,
            old(game_board).wf(),
            old(game_board).size == old(self).size_spec(),
        ensures
            final(self).inv(),
            final(self).size_spec() == old(self).size_spec(),
            final(self).piece_spec() == old(self).piece_spec(),
            final(game_board).wf(),
            final(game_board).size == old(game_board).size,
            final(game_board).grid@ == old(game_board).grid@ || exists|c: Coord|
                is_open(old(game_board).grid@, old(game_board).size as int, c) && final(game_board).grid@
                    == old(game_board).grid@.update(c.row * old(game_board).size + c.col, old(self).piece_spec()),
            !all_filled(old(game_board).grid@) && !wins(
                old(game_board).grid@,
                old(game_board).size as nat,
                inverse_of(old(self).piece_spec()),
            ) ==> exists|c: Coord|
                is_open(old(game_board).grid@, old(game_board).size as int, c) && final(game_board).grid@
                    == old(game_board).grid@.update(c.row * old(game_board).size + c.col, old(self).piece_spec()),
    {
        let p = self.piece;
        match self.choose_move(p, game_board) {
            Some(c) => {
                let _ = game_board.place(p, c);
            },
            None => {},
        }
    }
}

/// The search result over children listed in `moves`, whose stored
/// analyses in `mid` agree with `lower` and are left alone by the step to
/// `fin`, is `searched` in `fin`.
proof fn lemma_searched(
    mid: AiSerial,
    fin: AiSerial,
    g: Seq<Piece>,
    n: int,
    moves: Seq<Coord>,
    lower: Seq<MoveAnalysis>,
    spaces: Seq<Coord>,
    a: MoveAnalysis,
)
    requires
        n == mid.size,
        fin.size == mid.size,
        fin.piece == mid.piece,
        moves == spaces,
        moves.len() == lower.len(),
        moves.len() > 0,
        crate::move_value::lists_open_cells(spaces, g, n),
        forall|j: int| 0 <= j < moves.len() ==> #[trigger] mid.records_child(g, moves[j], lower[j]),
        forall|k: Seq<Piece>| k != g ==> #[trigger] fin.cached(k) == mid.cached(k),
        moves.no_duplicates() ==> a.move_options@.no_duplicates(),
        moves.no_duplicates(),
        exists|k: int| 0 <= k < lower.len() && a.evaluation == ply(#[trigger] lower[k].evaluation),
        forall|k: int| 0 <= k < lower.len() ==> !value_less(a.evaluation, ply(#[trigger] lower[k].evaluation)),
        forall|t: int|
            0 <= t < a.move_options@.len() ==> exists|k: int|
                0 <= k < moves.len() && moves[k] == #[trigger] a.move_options@[t] && ply(lower[k].evaluation)
                    == a.evaluation,
        forall|k: int| 0 <= k < moves.len() && ply(#[trigger] lower[k].evaluation) == a.evaluation
            ==> a.move_options@.contains(moves[k]),
        exists|k: int| 0 <= k < lower.len() && a.depth_used == spec_add_one(#[trigger] lower[k].depth_used),
        forall|k: int| 0 <= k < lower.len() ==> a.depth_used <= spec_add_one(#[trigger] lower[k].depth_used),
    ensures
        fin.searched(g, a),
{
    assert forall|j: int| 0 <= j < moves.len() implies #[trigger] fin.child_record(g, moves[j]) == mid.cached(
        child_key(g, n, mid.piece, moves[j]),
    )->Some_0 && fin.cached(child_key(g, n, mid.piece, moves[j])) is Some by {
        let kj = child_key(g, n, mid.piece, moves[j]);
        assert(mid.records_child(g, moves[j], lower[j]));
        if kj == g {
            assert(count_of(kj, Piece::Empty) + 1 == count_of(g, Piece::Empty));
        }
    }
    assert forall|c: Coord| #[trigger] is_open(g, n, c) implies exists|j: int| 0 <= j < moves.len() && moves[j] == c by {
        assert(spaces.contains(c));
    }
    assert forall|c: Coord| #[trigger] is_open(g, n, c) implies fin.cached(child_key(g, n, fin.piece, c)) is Some
        && !value_less(a.evaluation, ply(fin.child_record(g, c).evaluation)) && a.depth_used <= spec_add_one(
        fin.child_record(g, c).depth_used,
    ) by {
        let j = choose|j: int| 0 <= j < moves.len() && moves[j] == c;
        assert(fin.child_record(g, moves[j]) == mid.cached(child_key(g, n, mid.piece, moves[j]))->Some_0);
        assert(mid.records_child(g, moves[j], lower[j]));
    }
    let w = choose|k: int| 0 <= k < lower.len() && a.evaluation == ply(lower[k].evaluation);
    assert(mid.records_child(g, moves[w], lower[w]));
    assert(fin.child_record(g, moves[w]) == mid.cached(child_key(g, n, mid.piece, moves[w]))->Some_0);
    assert(is_open(g, n, spaces[w]));
    let v = choose|k: int| 0 <= k < lower.len() && a.depth_used == spec_add_one(lower[k].depth_used);
    assert(mid.records_child(g, moves[v], lower[v]));
    assert(fin.child_record(g, moves[v]) == mid.cached(child_key(g, n, mid.piece, moves[v]))->Some_0);
    assert(is_open(g, n, spaces[v]));
    assert forall|c: Coord| #[trigger] a.move_options@.contains(c) <==> (is_open(g, n, c) && ply(
        fin.child_record(g, c).evaluation,
    ) == a.evaluation) by {
        if a.move_options@.contains(c) {
            let t = choose|t: int| 0 <= t < a.move_options@.len() && a.move_options@[t] == c;
            let k = choose|k: int|
                0 <= k < moves.len() && moves[k] == a.move_options@[t] && ply(lower[k].evaluation) == a.evaluation;
            assert(fin.child_record(g, moves[k]) == mid.cached(child_key(g, n, mid.piece, moves[k]))->Some_0);
            assert(mid.records_child(g, moves[k], lower[k]));
            assert(is_open(g, n, spaces[k]));
        }
        if is_open(g, n, c) && ply(fin.child_record(g, c).evaluation) == a.evaluation {
            let j = choose|j: int| 0 <= j < moves.len() && moves[j] == c;
            assert(fin.child_record(g, moves[j]) == mid.cached(child_key(g, n, mid.piece, moves[j]))->Some_0);
            assert(mid.records_child(g, moves[j], lower[j]));
            assert(ply(lower[j].evaluation) == a.evaluation);
            assert(a.move_options@.contains(moves[j]));
        }
    }
}

/// The move count of `v` is at least one, so it is none of the values
/// that only end positions get.
pub open spec fn depth_of_at_least_one(v: MoveValue) -> bool {
    crate::move_value::depth_of(v) >= 1
}

/// A board that is not full has an empty cell.
pub(crate) proof fn lemma_open_exists(b: &Board)
    requires
        b.wf(),
    ensures
        !all_filled(b.grid@) ==> exists|c: Coord| is_open(b.grid@, b.size as int, c),
{
    if !all_filled(b.grid@) {
        let i = choose|i: int| 0 <= i < b.grid@.len() && b.grid@[i] != Piece::Empty == false;
        crate::board::lemma_split_index(i, b.size as int);
        let c = Coord { row: (i / (b.size as int)) as usize, col: (i % (b.size as int)) as usize };
        assert(is_open(b.grid@, b.size as int, c));
    }
}

impl AiSerial {
    /// The file this engine's analyses are kept in; with `inverted`, the
    /// file of an engine for the other piece.
    pub fn cbor_path(&self, inverted: bool) -> (r: String)
        ensures
            r@ == crate::paths::path_text(
                seq!['s', 'e', 'r', 'i', 'a', 'l'],
                self.size_spec(),
                self.piece_spec(),
                inverted,
                seq!['-', 'd'] + crate::paths::decimal(self.depth_spec() as nat) + seq!['.', 'c', 'b', 'o', 'r'],
            ),
    {
        proof {
            reveal_strlit("serial");
        }
        let tail = crate::paths::depth_tail(self.depth);
        crate::paths::strategy_path("serial", self.size, self.piece, inverted, tail.as_str())
    }
}

/// Whether every move of `options` is an empty cell of the `n`-wide grid `key`.
pub fn all_open(key: &Vec<Piece>, n: usize, options: &Vec<Coord>) -> (r: bool)
    requires
        key@.len() == n * n,
    ensures
        r == forall|i: int| 0 <= i < options@.len() ==> is_open(key@, n as int, #[trigger] options@[i]),
{
    let mut i: usize = 0;
    let len = key.len();
    while i < options.len()
        invariant
            i <= options@.len(),
            key@.len() == n * n,
            n * n <= usize::MAX,
            forall|j: int| 0 <= j < i ==> is_open(key@, n as int, #[trigger] options@[j]),
        decreases options@.len() - i,
    {
        let c = options[i];
        if c.row >= n || c.col >= n {
            return false;
        }
        proof {
            crate::board::lemma_index(c.row as int, c.col as int, n as int);
        }
        if key[c.row * n + c.col] != Piece::Empty {
            return false;
        }
        i = i + 1;
    }
    true
}

/// Whether `piece` at each move of `options`, all empty cells of `b`,
/// gives `piece` a transversal.
pub fn all_complete(b: &Board, piece: Piece, options: &Vec<Coord>) -> (r: bool)
    requires
        b.wf(),
        forall|i: int| 0 <= i < options@.len() ==> is_open(b.grid@, b.size as int, #[trigger] options@[i]),
    ensures
        r == forall|i: int|
            0 <= i < options@.len() ==> completes(b.grid@, b.size as int, piece, #[trigger] options@[i]),
{
    let mut i: usize = 0;
    while i < options.len()
        invariant
            i <= options@.len(),
            b.wf(),
            forall|j: int| 0 <= j < options@.len() ==> is_open(b.grid@, b.size as int, #[trigger] options@[j]),
            forall|j: int| 0 <= j < i ==> completes(b.grid@, b.size as int, piece, #[trigger] options@[j]),
        decreases options@.len() - i,
    {
        let mut next = b.duplicate();
        let c = options[i];
        assert(is_open(b.grid@, b.size as int, options@[i as int]));
        let _ = next.place(piece, c);
        if !next.has_win(piece) {
            return false;
        }
        i = i + 1;
    }
    true
}

/// Whether `a` is a sound analysis of the `n`-wide position `key` made for
/// `piece`.
pub fn check_sound(key: &Vec<Piece>, n: usize, piece: Piece, a: &MoveAnalysis) -> (r: bool)
    ensures
        r == sound(key@, n as int, piece, *a),
{
    let len = key.len();
    match n.checked_mul(n) {
        None => {
            return false;
        },
        Some(m) => {
            if key.len() != m {
                return false;
            }
        },
    }
    let b = Board { size: n, grid: copy_vec(key) };
    let lost = b.has_win(piece.inverse());
    let full = b.is_full();
    if !all_open(key, n, &a.move_options) {
        return false;
    }
    let finishing = a.evaluation != MoveValue::Win(1) || all_complete(&b, piece, &a.move_options);
    finishing && (a.evaluation == MoveValue::Lose(0)) == lost && (a.evaluation != MoveValue::Tie(0) || full) && (
    lost || !full || a.evaluation == MoveValue::Tie(0)) && (lost || full || a.move_options.len() > 0)
        && a.evaluation != MoveValue::Win(0)
}

impl AiSerial {
    /// Every stored position with its analysis.
    pub fn export_cache(&self) -> (r: Vec<(Vec<Piece>, MoveAnalysis)>)
        requires
            self.inv(),
        ensures
            forall|i: int|
                0 <= i < r@.len() ==> (#[trigger] self.cached(r@[i].0@) matches Some(c) && same(c, r@[i].1)),
            forall|k: Seq<Piece>|
                #[trigger] self.cached(k) is Some ==> exists|i: int| 0 <= i < r@.len() && r@[i].0@ == k,
            forall|i: int, j: int| 0 <= i < j < r@.len() ==> r@[i].0@ != r@[j].0@,
    {
        let keys = self.known_boards.stored_keys();
        let mut out: Vec<(Vec<Piece>, MoveAnalysis)> = Vec::new();
        let mut i: usize = 0;
        while i < keys.len()
            invariant
                self.known_boards.wf(),
                out@.len() == i,
                forall|t: int| 0 <= t < out@.len() ==> (#[trigger] out@[t]).0@ == keys@[t]@,
                forall|k: Seq<Piece>| #[trigger] self.cached(k) is Some ==> exists|q: int| 0 <= q < keys@.len() && keys@[q]@ == k,
                forall|q: int| 0 <= q < keys@.len() ==> self.cached(#[trigger] keys@[q]@) is Some,
                forall|p: int, q: int| 0 <= p < q < keys@.len() ==> keys@[p]@ != keys@[q]@,
                i <= keys@.len(),
                forall|j: int|
                    0 <= j < out@.len() ==> (#[trigger] self.cached(out@[j].0@) matches Some(c) && same(c, out@[j].1)),
            decreases keys@.len() - i,
        {
            match self.known_boards.get(&keys[i]) {
                Some(a) => {
                    out.push((copy_vec(&keys[i]), a.duplicate()));
                },
                None => {},
            }
            i = i + 1;
        }
        proof {
            assert forall|k: Seq<Piece>| #[trigger] self.cached(k) is Some implies exists|q: int|
                0 <= q < out@.len() && out@[q].0@ == k by {
                let q = choose|q: int| 0 <= q < keys@.len() && keys@[q]@ == k;
                assert(out@[q].0@ == k);
            }
            assert forall|t: int, u: int| 0 <= t < u < out@.len() implies out@[t].0@ != out@[u].0@ by {
                assert(out@[t].0@ == keys@[t]@ && out@[u].0@ == keys@[u]@);
            }
        }
        out
    }

    /// Stores `a` for `key` when it is a sound analysis for this engine.
    pub fn import_entry(&mut self, key: Vec<Piece>, a: MoveAnalysis) -> (r: bool)
        requires
            old(self).inv(),
        ensures
            final(self).inv(),
            final(self).size_spec() == old(self).size_spec(),
            final(self).piece_spec() == old(self).piece_spec(),
            final(self).depth_spec() == old(self).depth_spec(),
            r == sound(key@, old(self).size_spec() as int, old(self).piece_spec(), a),
            r ==> (final(self).cached(key@) matches Some(c) && same(c, a)),
            !r ==> forall|k: Seq<Piece>| #[trigger] final(self).cached(k) == old(self).cached(k),
            forall|k: Seq<Piece>| k != key@ ==> #[trigger] final(self).cached(k) == old(self).cached(k),
    {
        if !check_sound(&key, self.size, self.piece, &a) {
            return false;
        }
        let b = Board { size: self.size, grid: key };
        self.remember(&b, &a);
        true
    }

    /// Stores every sound entry of `entries`, with each position inverted
    /// first when `inverted` (entries made by an engine for the other
    /// piece); returns how many were stored.
    pub fn import_cache(&mut self, entries: Vec<(Vec<Piece>, MoveAnalysis)>, inverted: bool) -> (r: usize)
        requires
            old(self).inv(),
        ensures
            final(self).inv(),
            final(self).size_spec() == old(self).size_spec(),
            final(self).piece_spec() == old(self).piece_spec(),
            final(self).depth_spec() == old(self).depth_spec(),
            r <= entries@.len(),
            forall|i: int|
                0 <= i < entries@.len() && sound(
                    stored_key(entries@[i].0@, inverted),
                    old(self).size_spec() as int,
                    old(self).piece_spec(),
                    entries@[i].1,
                ) && (forall|j: int| 0 <= j < i ==> stored_key(entries@[j].0@, inverted) != stored_key(entries@[i].0@, inverted))
                    ==> (final(self).cached(stored_key(#[trigger] entries@[i].0@, inverted)) matches Some(c) && same(c, entries@[i].1)),
    {
        let ghost orig = entries@;
        let mut entries = entries;
        let mut stored: usize = 0;
        let ghost total = entries@.len();
        let start = entries.len();
        while entries.len() > 0
            invariant
                total == start,
                total == orig.len(),
                entries@ == orig.subrange(0, entries@.len() as int),
                self.inv(),
                self.size == old(self).size,
                self.piece == old(self).piece,
                self.depth == old(self).depth,
                stored + entries@.len() <= total,
                forall|i: int|
                    entries@.len() <= i < total && sound(
                        stored_key(orig[i].0@, inverted),
                        self.size as int,
                        self.piece,
                        orig[i].1,
                    ) && (forall|j: int| 0 <= j < i ==> stored_key(orig[j].0@, inverted) != stored_key(orig[i].0@, inverted))
                        ==> (self.cached(stored_key(#[trigger] orig[i].0@, inverted)) matches Some(c) && same(c, orig[i].1)),
            decreases entries@.len(),
        {
            let ghost m = entries@.len() - 1;
            let (key, a) = entries.pop().unwrap();
            let key = if inverted {
                Board { size: self.size, grid: key }.inverse().grid
            } else {
                key
            };
            assert(key@ == stored_key(orig[m].0@, inverted));
            let ghost before = *self;
            if self.import_entry(key, a) {
                stored = stored + 1;
            }
            proof {
                assert forall|i: int|
                    entries@.len() <= i < total && sound(
                        stored_key(orig[i].0@, inverted),
                        self.size as int,
                        self.piece,
                        orig[i].1,
                    ) && (forall|j: int| 0 <= j < i ==> stored_key(orig[j].0@, inverted) != stored_key(orig[i].0@, inverted))
                        implies (self.cached(stored_key(#[trigger] orig[i].0@, inverted)) matches Some(c) && same(c, orig[i].1)) by {
                    if i > m {
                        assert(stored_key(orig[m].0@, inverted) != stored_key(orig[i].0@, inverted));
                        assert(self.cached(stored_key(orig[i].0@, inverted)) == before.cached(stored_key(orig[i].0@, inverted)));
                    }
                }
            }
        }
        assert(entries@.len() == 0);
        stored
    }
}

} // verus!
