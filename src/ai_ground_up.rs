//! The engine that solves every position of a board size at once, from
//! full boards back to the empty one.
use crate::ai_serial::all_filled;
use crate::board::{wins, Board};
use crate::cache::Cache;
use crate::canon::copy_vec;
use crate::move_value::{available_spaces, bumped, index_of, is_open, lists_open_cells, value_less, MoveValue};
use crate::order::{count_of, rank};
use crate::random::choose_coord;
use crate::scrambled_board::ScrambledBoard;
use crate::space::{inverse_of, Coord, Piece};
use itertools::Itertools;
use std::collections::VecDeque;
use vstd::prelude::*;

verus! {

/// The table position an engine for `engine` looks up when `player` is to
/// move on `g`: inverted when the two differ, then fully canonicalized.
pub open spec fn table_key(g: Seq<Piece>, n: int, engine: Piece, player: Piece) -> Seq<Piece> {
    let seen = if player != engine {
        crate::board::inverted(g)
    } else {
        g
    };
    crate::canon::settle(seen, n, usize::MAX as nat)
}

/// The table position after `mover` plays at `c` on the `n`-wide `g`.
pub open spec fn table_child(g: Seq<Piece>, n: int, mover: Piece, c: Coord) -> Seq<Piece> {
    crate::canon::settle(g.update(crate::move_value::index_of(c, n), mover), n, usize::MAX as nat)
}

/// `v` is at least as good as `w` for the side that maximizes, or that
/// minimizes when `maximize` is false.
pub open spec fn no_worse(v: MoveValue, w: MoveValue, maximize: bool) -> bool {
    if maximize {
        !value_less(v, w)
    } else {
        !value_less(w, v)
    }
}

/// `n!`.
pub open spec fn fact(n: nat) -> nat
    decreases n,
{
    if n == 0 {
        1
    } else {
        n * fact((n - 1) as nat)
    }
}

/// The number of distinct arrangements of `a` `X`s, `b` `O`s and `c`
/// empty cells.
pub open spec fn multinomial(a: nat, b: nat, c: nat) -> nat {
    fact(a + b + c) / (fact(a) * fact(b) * fact(c))
}

/// How many `X`s, `O`s and empty cells a `size`-wide board has with
/// `num_empty` empty cells, when `starting_piece` moved first: the side
/// that moved first has as many pieces as the other or one more.
pub open spec fn layer_counts(size: nat, starting_piece: Piece, num_empty: nat) -> (nat, nat, nat) {
    let filled = (size * size - num_empty) as nat;
    if starting_piece == Piece::X {
        ((filled + 1) / 2, filled / 2, num_empty)
    } else {
        (filled / 2, (filled + 1) / 2, num_empty)
    }
}

/// The arrangements of that layer can be counted in a `usize`.
pub open spec fn layer_fits(size: nat, starting_piece: Piece, num_empty: nat) -> bool {
    let c = layer_counts(size, starting_piece, num_empty);
    multinomial(c.0, c.1, c.2) <= usize::MAX
}

/// Every layer of a `size`-wide board fits.
pub open spec fn all_layers_fit(size: nat, starting_piece: Piece) -> bool {
    forall|k: nat| k <= size * size ==> #[trigger] layer_fits(size, starting_piece, k)
}

/// Relies on num-integer's `multinomial`: the multinomial coefficient of
/// the counts, computed without overflow when the result fits.
#[verifier::external_body]
fn count_arrangements(count_x: usize, count_o: usize, count_empty: usize) -> (r: usize)
    requires
        count_x + count_o + count_empty <= usize::MAX,
        multinomial(count_x as nat, count_o as nat, count_empty as nat) <= usize::MAX,
    ensures
        r == multinomial(count_x as nat, count_o as nat, count_empty as nat),
{
    num_integer::multinomial(&[count_x, count_o, count_empty])
}

/// Relies on itertools' `tuple_windows`: every pair of neighbouring
/// entries, in order.
#[verifier::external_body]
fn neighbour_pairs(v: &VecDeque<Piece>) -> (r: Vec<(Piece, Piece)>)
    ensures
        r@.len() == if v@.len() >= 2 {
            v@.len() - 1
        } else {
            0
        },
        forall|i: int| 0 <= i < r@.len() ==> #[trigger] r@[i] == (v@[i], v@[i + 1]),
{
    v.iter().copied().tuple_windows().collect()
}

/// The first index `i`, from `from` on, at which `t[i]` ranks below
/// `t[i + 1]`, or `-1`.
pub open spec fn first_rise(t: Seq<Piece>, from: int) -> int
    decreases t.len() - from,
{
    if from < 0 || from + 1 >= t.len() {
        -1
    } else if rank(t[from]) < rank(t[from + 1]) {
        from
    } else {
        first_rise(t, from + 1)
    }
}

/// The next arrangement of a multiset of pieces: take off the head `a`;
/// at the first rise `t[i] < t[i + 1]` of the rest, put `a` back after
/// `t[i]` when it ranks above `t[i]`, else after `t[i + 1]`; with no rise,
/// put it at the end.
pub open spec fn successor(s: Seq<Piece>) -> Seq<Piece> {
    if s.len() == 0 {
        s
    } else {
        let a = s[0];
        let t = s.drop_first();
        let i = first_rise(t, 0);
        if i < 0 {
            t.push(a)
        } else if rank(a) > rank(t[i]) {
            t.insert(i + 1, a)
        } else {
            t.insert(i + 2, a)
        }
    }
}

/// `a` `X`s, then `b` `O`s, then `c` empty cells.
pub open spec fn sorted_arrangement(a: nat, b: nat, c: nat) -> Seq<Piece> {
    Seq::new(a, |i: int| Piece::X) + Seq::new(b, |i: int| Piece::O) + Seq::new(c, |i: int| Piece::Empty)
}

/// Walks through every arrangement of a fixed number of `X`s, `O`s and
/// empty cells on a square board, one per step.
#[derive(Clone, Debug)]
pub struct BoardIterator {
    size: usize,
    current_vec: VecDeque<Piece>,
    len: usize,
    boards_served: usize,
}

impl BoardIterator {
    pub closed spec fn size_spec(&self) -> usize {
        self.size
    }

    /// The arrangement the next step hands out.
    pub closed spec fn current(&self) -> Seq<Piece> {
        self.current_vec@
    }

    /// How many arrangements there are.
    pub closed spec fn total(&self) -> usize {
        self.len
    }

    /// How many arrangements were handed out.
    pub closed spec fn served(&self) -> usize {
        self.boards_served
    }

    pub closed spec fn wf(&self) -> bool {
        self.current_vec@.len() == self.size * self.size
    }

    /// The arrangements on full `board_size`-wide boards, where
    /// `starting_piece` made the first move.
    pub fn new(board_size: usize, starting_piece: Piece) -> (r: BoardIterator)
        requires
            board_size * board_size <= usize::MAX,
            layer_fits(board_size as nat, starting_piece, 0),
            starting_piece != Piece::Empty,
        ensures
            r.wf(),
            r.size_spec() == board_size,
            r.served() == 0,
            r.current() == first_arrangement(board_size as nat, starting_piece, 0),
            r.total() == multinomial(
                layer_counts(board_size as nat, starting_piece, 0).0,
                layer_counts(board_size as nat, starting_piece, 0).1,
                layer_counts(board_size as nat, starting_piece, 0).2,
            ),
    {
        Self::from_move_number(board_size, starting_piece, 0)
    }

    /// The arrangements on `board_size`-wide boards with `num_empty` empty
    /// cells, where `starting_piece` made the first move, so has as many
    /// pieces as the other or one more.
    pub fn from_move_number(board_size: usize, starting_piece: Piece, num_empty: usize) -> (r: BoardIterator)
        requires
            board_size * board_size <= usize::MAX,
            num_empty <= board_size * board_size,
            layer_fits(board_size as nat, starting_piece, num_empty as nat),
            starting_piece != Piece::Empty,
        ensures
            r.wf(),
            r.size_spec() == board_size,
            r.served() == 0,
            r.current() == first_arrangement(board_size as nat, starting_piece, num_empty as nat),
            r.total() == multinomial(
                layer_counts(board_size as nat, starting_piece, num_empty as nat).0,
                layer_counts(board_size as nat, starting_piece, num_empty as nat).1,
                layer_counts(board_size as nat, starting_piece, num_empty as nat).2,
            ),
    {
        let num_filled = board_size * board_size - num_empty;
        let (x, o) = match starting_piece {
            Piece::X => (num_filled / 2 + num_filled % 2, num_filled / 2),
            _ => (num_filled / 2, num_filled / 2 + num_filled % 2),
        };
        Self::from_counts(board_size, x, o, num_empty)
    }

    /// The arrangements of `count_x` `X`s, `count_o` `O`s and
    /// `count_empty` empty cells on a `board_size`-wide board, starting
    /// from the sorted one.
    pub fn from_counts(board_size: usize, count_x: usize, count_o: usize, count_empty: usize) -> (r: BoardIterator)
        requires
            count_x + count_o + count_empty == board_size * board_size,
            board_size * board_size <= usize::MAX,
            multinomial(count_x as nat, count_o as nat, count_empty as nat) <= usize::MAX,
        ensures
            r.wf(),
            r.size_spec() == board_size,
            r.served() == 0,
            r.total() == multinomial(count_x as nat, count_o as nat, count_empty as nat),
            r.current() == sorted_arrangement(count_x as nat, count_o as nat, count_empty as nat),
    {
        let mut v: VecDeque<Piece> = VecDeque::new();
        let mut i: usize = 0;
        while i < count_x
            invariant
                i <= count_x,
                v@ == Seq::new(i as nat, |k: int| Piece::X),
            decreases count_x - i,
        {
            v.push_back(Piece::X);
            i = i + 1;
            assert(v@ =~= Seq::new(i as nat, |k: int| Piece::X));
        }
        let ghost xs = v@;
        i = 0;
        while i < count_o
            invariant
                i <= count_o,
                v@ == xs + Seq::new(i as nat, |k: int| Piece::O),
            decreases count_o - i,
        {
            v.push_back(Piece::O);
            i = i + 1;
            assert(v@ =~= xs + Seq::new(i as nat, |k: int| Piece::O));
        }
        let ghost xos = v@;
        i = 0;
        while i < count_empty
            invariant
                i <= count_empty,
                v@ == xos + Seq::new(i as nat, |k: int| Piece::Empty),
            decreases count_empty - i,
        {
            v.push_back(Piece::Empty);
            i = i + 1;
            assert(v@ =~= xos + Seq::new(i as nat, |k: int| Piece::Empty));
        }
        let len = count_arrangements(count_x, count_o, count_empty);
        BoardIterator { size: board_size, current_vec: v, len, boards_served: 0 }
    }

    /// Steps to the next arrangement of the same multiset.
    pub fn permute(&mut self)
        ensures
            final(self).current() == successor(old(self).current()),
            final(self).size_spec() == old(self).size_spec(),
            final(self).total() == old(self).total(),
            final(self).served() == old(self).served(),
    {
        let ghost s = self.current_vec@;
        let a = match self.current_vec.pop_front() {
            Some(a) => a,
            None => {
                return;
            },
        };
        let ghost t = self.current_vec@;
        assert(t =~= s.drop_first());
        let pairs = neighbour_pairs(&self.current_vec);
        let tl = self.current_vec.len();
        let mut idx: usize = 0;
        while idx < pairs.len()
            invariant
                self.current_vec@ == t,
                tl == t.len(),
                s.len() > 0,
                t == s.drop_first(),
                a == s[0],
                s == old(self).current_vec@,
                self.size == old(self).size,
                self.len == old(self).len,
                self.boards_served == old(self).boards_served,
                idx <= pairs@.len(),
                pairs@.len() == if t.len() >= 2 {
                    t.len() - 1
                } else {
                    0
                },
                forall|i: int| 0 <= i < pairs@.len() ==> #[trigger] pairs@[i] == (t[i], t[i + 1]),
                first_rise(t, 0) == first_rise(t, idx as int),
            decreases pairs@.len() - idx,
        {
            let (b, c) = pairs[idx];
            if piece_rank(b) < piece_rank(c) {
                if piece_rank(a) > piece_rank(b) {
                    self.current_vec.insert(idx + 1, a);
                } else {
                    self.current_vec.insert(idx + 2, a);
                }
                return;
            }
            idx = idx + 1;
        }
        self.current_vec.push_back(a);
    }

    /// The next board, or `None` once every arrangement was handed out.
    pub fn next(&mut self) -> (r: Option<Board>)
        requires
            old(self).wf(),
        ensures
            final(self).wf(),
            final(self).size_spec() == old(self).size_spec(),
            final(self).total() == old(self).total(),
            old(self).served() >= old(self).total() ==> r is None && final(self).current() == old(self).current() && final(self).served() == old(self).served(),
            old(self).served() < old(self).total() ==> {
                &&& r matches Some(b) && b.wf() && b.size == old(self).size_spec() && b.grid@ == old(self).current()
                &&& final(self).current() == successor(old(self).current())
                &&& final(self).served() == old(self).served() + 1
            },
    {
        if self.boards_served >= self.len {
            return None;
        }
        let mut grid: Vec<Piece> = Vec::new();
        let mut i: usize = 0;
        while i < self.current_vec.len()
            invariant
                i <= self.current_vec@.len(),
                grid@ == self.current_vec@.subrange(0, i as int),
            decreases self.current_vec@.len() - i,
        {
            grid.push(self.current_vec[i]);
            i = i + 1;
            assert(grid@ =~= self.current_vec@.subrange(0, i as int));
        }
        assert(grid@ =~= self.current_vec@);
        let b = Board { size: self.size, grid };
        self.boards_served = self.boards_served + 1;
        self.permute();
        proof {
            lemma_successor_len(old(self).current_vec@);
        }
        Some(b)
    }
}

proof fn lemma_successor_len(s: Seq<Piece>)
    ensures
        successor(s).len() == s.len(),
{
    if s.len() > 0 {
        lemma_first_rise_range(s.drop_first(), 0);
    }
}

proof fn lemma_first_rise_range(t: Seq<Piece>, from: int)
    requires
        0 <= from,
    ensures
        first_rise(t, from) == -1 || (from <= first_rise(t, from) && first_rise(t, from) + 1 < t.len()),
    decreases t.len() - from,
{
    if from + 1 < t.len() && !(rank(t[from]) < rank(t[from + 1])) {
        lemma_first_rise_range(t, from + 1);
    }
}

/// The arrangement `j` steps after `s`.
pub open spec fn nth_arrangement(s: Seq<Piece>, j: nat) -> Seq<Piece>
    decreases j,
{
    if j == 0 {
        s
    } else {
        successor(nth_arrangement(s, (j - 1) as nat))
    }
}

/// `g` is a canonical arrangement that the layer with `k` empty cells of a
/// `size`-wide board, where `piece` moved first, hands out.
pub open spec fn enumerated(g: Seq<Piece>, size: nat, piece: Piece, k: nat, j: nat) -> bool {
    let c = layer_counts(size, piece, k);
    &&& k <= size * size
    &&& j < multinomial(c.0, c.1, c.2)
    &&& g == nth_arrangement(first_arrangement(size, piece, k), j)
    &&& crate::canon::is_standard_grid(g, size as int)
}

/// The sorted arrangement on a `size`-wide board with `num_empty` empty
/// cells after `starting_piece` moved first.
pub open spec fn first_arrangement(size: nat, starting_piece: Piece, num_empty: nat) -> Seq<Piece> {
    let c = layer_counts(size, starting_piece, num_empty);
    sorted_arrangement(c.0, c.1, c.2)
}

fn piece_rank(p: Piece) -> (r: u8)
    ensures
        r == rank(p),
{
    match p {
        Piece::X => 0,
        Piece::O => 1,
        Piece::Empty => 2,
    }
}

/// What the exhaustive engine stores for a position: its outcome for
/// the engine's piece and every move that reaches it.
#[derive(Debug)]
pub struct MoveAnalysis {
    pub evaluation: MoveValue,
    pub move_options: Vec<Coord>,
}

/// A stored analysis of the `n`-wide position `k` for `piece`: its moves
/// are empty cells; `Win(0)` means `piece` holds a transversal, `Lose(0)`
/// that its opponent does, and `Tie(0)` that the board is full.
pub open spec fn table_entry_ok(k: Seq<Piece>, n: int, piece: Piece, a: MoveAnalysis) -> bool {
    &&& k.len() == n * n
    &&& forall|i: int| 0 <= i < a.move_options@.len() ==> is_open(k, n, #[trigger] a.move_options@[i])
    &&& a.evaluation == MoveValue::Win(0) ==> crate::board::wins(k, n as nat, piece)
    &&& a.evaluation == MoveValue::Lose(0) ==> crate::board::wins(k, n as nat, crate::space::inverse_of(piece))
    &&& a.evaluation == MoveValue::Tie(0) ==> crate::ai_serial::all_filled(k)
    &&& !terminal_value(a.evaluation) ==> a.move_options@.len() > 0
}

/// `Win(0)`, `Lose(0)` or `Tie(0)`: the value of a position already decided.
pub open spec fn terminal_value(v: MoveValue) -> bool {
    v == MoveValue::Win(0) || v == MoveValue::Lose(0) || v == MoveValue::Tie(0)
}

/// An engine that solves every canonical position of its board size,
/// layer by layer from full boards back to the empty one, assuming its own
/// piece moved first.
pub struct AiGroundUp {
    size: usize,
    piece: Piece,
    known_boards: Cache<MoveAnalysis>,
}

impl AiGroundUp {
    pub closed spec fn size_spec(&self) -> usize {
        self.size
    }

    pub closed spec fn piece_spec(&self) -> Piece {
        self.piece
    }

    /// The analysis stored for position `k`, if any.
    pub closed spec fn cached(&self, k: Seq<Piece>) -> Option<MoveAnalysis> {
        self.known_boards.lookup(k)
    }

    /// `a` is what solving `g`, whose last move `last_mover` made, gives
    /// against this table: with `mover` the side to move, the best for
    /// `mover` (highest when it is this engine's piece, lowest otherwise) of
    /// the stored values one move further on, each one move later; exactly
    /// the moves reaching it; or, when no move reaches a stored position,
    /// `Unknown(0)` with every empty cell.
    pub open spec fn settled_in(&self, g: Seq<Piece>, last_mover: Piece, a: MoveAnalysis) -> bool {
        let n = self.size_spec() as int;
        let mover = inverse_of(last_mover);
        let maximize = mover == self.piece_spec();
        &&& (exists|c: Coord| is_open(g, n, c) && self.cached(table_child(g, n, mover, c)) is Some) ==> {
            &&& exists|c: Coord|
                is_open(g, n, c) && self.cached(table_child(g, n, mover, c)) is Some && a.evaluation == bumped(
                    self.cached(table_child(g, n, mover, c))->Some_0.evaluation,
                )
            &&& forall|c: Coord|
                #[trigger] is_open(g, n, c) && self.cached(table_child(g, n, mover, c)) is Some ==> no_worse(
                    a.evaluation,
                    bumped(self.cached(table_child(g, n, mover, c))->Some_0.evaluation),
                    maximize,
                )
            &&& forall|c: Coord|
                #[trigger] a.move_options@.contains(c) <==> (is_open(g, n, c) && self.cached(table_child(g, n, mover, c))
                    is Some && bumped(self.cached(table_child(g, n, mover, c))->Some_0.evaluation) == a.evaluation)
        }
        &&& !(exists|c: Coord| is_open(g, n, c) && self.cached(table_child(g, n, mover, c)) is Some) ==> a.evaluation
            == MoveValue::Unknown(0) && lists_open_cells(a.move_options@, g, n)
    }

    /// Position `g` of the layer whose last move `last_mover` made is stored,
    /// decided by who won or filled the board, or else solved against the
    /// positions one move further on now in the table.
    pub open spec fn layer_entry(&self, g: Seq<Piece>, last_mover: Piece) -> bool {
        &&& self.cached(g) is Some
        &&& (!wins(g, self.size_spec() as nat, last_mover) && !all_filled(g)) ==> self.settled_in(
            g,
            last_mover,
            self.cached(g)->Some_0,
        )
    }

    pub closed spec fn inv(&self) -> bool {
        self.known_boards.wf() && forall|k: Seq<Piece>|
            #[trigger] self.known_boards.lookup(k) is Some ==> table_entry_ok(
                k,
                self.size as int,
                self.piece,
                self.known_boards.lookup(k)->Some_0,
            )
    }

    pub fn new(size: usize, piece: Piece) -> (r: AiGroundUp)
        ensures
            r.inv(),
            r.size_spec() == size,
            r.piece_spec() == piece,
            forall|k: Seq<Piece>| #[trigger] r.cached(k) is None,
    {
        AiGroundUp { size, piece, known_boards: Cache::new() }
    }

    pub fn piece(&self) -> (r: Piece)
        ensures
            r == self.piece_spec(),
    {
        self.piece
    }

    /// The stored analysis of canonical position `key`, solving the whole
    /// board size first when it is not stored; `None` when the table has
    /// no such position.
    pub fn analyze(&mut self, key: &Board) -> (r: Option<MoveAnalysis>)
        requires
            old(self).inv(),
            old(self).size_spec() * old(self).size_spec() <= usize::MAX,
            all_layers_fit(old(self).size_spec() as nat, old(self).piece_spec()),
            old(self).piece_spec() != Piece::Empty,
        ensures
            final(self).inv(),
            final(self).size_spec() == old(self).size_spec(),
            final(self).piece_spec() == old(self).piece_spec(),
            old(self).cached(key.grid@) is Some ==> final(self).cached(key.grid@) == old(self).cached(key.grid@),
            match r {
                Some(a) => final(self).cached(key.grid@) matches Some(c) && c.evaluation == a.evaluation
                    && c.move_options@ == a.move_options@ && table_entry_ok(
                    key.grid@,
                    old(self).size_spec() as int,
                    old(self).piece_spec(),
                    a,
                ),
                None => final(self).cached(key.grid@) is None,
            },
            (exists|k: nat, j: nat|
                #[trigger] enumerated(key.grid@, old(self).size_spec() as nat, old(self).piece_spec(), k, j)) ==> r is Some,
            forall|k: nat, j: nat|
                old(self).cached(key.grid@) is None && #[trigger] enumerated(
                    key.grid@,
                    old(self).size_spec() as nat,
                    old(self).piece_spec(),
                    k,
                    j,
                ) ==> final(self).layer_entry(key.grid@, last_mover_of(old(self).size_spec() as nat, old(self).piece_spec(), k)),
    {
        if self.known_boards.get(&key.grid).is_none() {
            self.build_strategy();
        }
        match self.known_boards.get(&key.grid) {
            Some(a) => Some(MoveAnalysis { evaluation: a.evaluation, move_options: copy_vec(&a.move_options) }),
            None => None,
        }
    }

    fn store(&mut self, b: &Board, a: MoveAnalysis)
        requires
            old(self).inv(),
            table_entry_ok(b.grid@, old(self).size as int, old(self).piece, a),
        ensures
            final(self).inv(),
            final(self).size == old(self).size,
            final(self).piece == old(self).piece,
            final(self).cached(b.grid@) == Some(a),
            forall|k: Seq<Piece>| k != b.grid@ ==> #[trigger] final(self).cached(k) == old(self).cached(k),
    {
        self.known_boards.insert(copy_vec(&b.grid), a);
        proof {
            assert forall|k: Seq<Piece>| #[trigger] self.known_boards.lookup(k) is Some implies table_entry_ok(
                k,
                self.size as int,
                self.piece,
                self.known_boards.lookup(k)->Some_0,
            ) by {
                if k != b.grid@ {
                    assert(old(self).known_boards.lookup(k) == self.known_boards.lookup(k));
                }
            }
        }
    }

    /// Solves every canonical position: full boards by who holds a
    /// transversal, then each layer with one more empty cell from the layer
    /// before, the side to move taking its best outcome. Outcomes are for
    /// this engine's piece; each move adds one to the move count. A
    /// position whose last mover already holds a transversal is settled. A
    /// move whose position is missing from the layer before is passed over.
    fn build_strategy(&mut self)
        requires
            old(self).inv(),
            old(self).size * old(self).size <= usize::MAX,
            all_layers_fit(old(self).size as nat, old(self).piece),
            old(self).piece != Piece::Empty,
        ensures
            final(self).inv(),
            final(self).size == old(self).size,
            final(self).piece == old(self).piece,
            forall|k: Seq<Piece>| old(self).cached(k) is Some ==> #[trigger] final(self).cached(k) is Some,
            forall|g: Seq<Piece>, k: nat, j: nat|
                #[trigger] enumerated(g, old(self).size as nat, old(self).piece, k, j) ==> final(self).cached(g) is Some,
            forall|g: Seq<Piece>, k: nat, j: nat|
                #[trigger] enumerated(g, old(self).size as nat, old(self).piece, k, j) ==> final(self).layer_entry(
                    g,
                    last_mover_of(old(self).size as nat, old(self).piece, k),
                ),
    {
        let n = self.size;
        let starting_piece = self.piece;
        let mut current_piece = if n % 2 == 0 {
            self.piece.inverse()
        } else {
            self.piece
        };
        let mut num_empty: usize = 0;
        proof {
            lemma_last_mover(n as nat, starting_piece, 0);
        }
        while num_empty <= n * n
            invariant
                self.inv(),
                self.size == n,
                self.piece == starting_piece,
                starting_piece != Piece::Empty,
                n * n <= usize::MAX,
                all_layers_fit(n as nat, starting_piece),
                current_piece != Piece::Empty,
                current_piece == starting_piece || current_piece == inverse_of(starting_piece),
                forall|k: Seq<Piece>| old(self).cached(k) is Some ==> #[trigger] self.cached(k) is Some,
                num_empty <= n * n,
                forall|g: Seq<Piece>, k: nat, j: nat|
                    k < num_empty && #[trigger] enumerated(g, n as nat, starting_piece, k, j) ==> self.layer_entry(
                        g,
                        last_mover_of(n as nat, starting_piece, k),
                    ),
                current_piece == last_mover_of(n as nat, starting_piece, num_empty as nat),
            ensures
                self.inv(),
                self.size == n,
                self.piece == starting_piece,
                forall|k: Seq<Piece>| old(self).cached(k) is Some ==> #[trigger] self.cached(k) is Some,
                forall|g: Seq<Piece>, k: nat, j: nat|
                    #[trigger] enumerated(g, n as nat, starting_piece, k, j) ==> self.layer_entry(
                        g,
                        last_mover_of(n as nat, starting_piece, k),
                    ),
            decreases n * n + 1 - num_empty,
        {
            proof {
                lemma_last_mover(n as nat, starting_piece, num_empty as nat);
            }
            assert(layer_fits(n as nat, starting_piece, num_empty as nat));
            let mut boards = BoardIterator::from_move_number(n, starting_piece, num_empty);
            loop
                invariant
                    boards.served() <= boards.total(),
                    self.inv(),
                    self.size == n,
                    self.piece == starting_piece,
                    boards.wf(),
                    boards.size_spec() == n,
                    n * n <= usize::MAX,
                    current_piece != Piece::Empty,
                    current_piece == starting_piece || current_piece == inverse_of(starting_piece),
                    forall|k: Seq<Piece>| old(self).cached(k) is Some ==> #[trigger] self.cached(k) is Some,
                    num_empty <= n * n,
                    forall|g: Seq<Piece>, k: nat, j: nat|
                        k < num_empty && #[trigger] enumerated(g, n as nat, starting_piece, k, j) ==> self.layer_entry(
                            g,
                            last_mover_of(n as nat, starting_piece, k),
                        ),
                    current_piece == last_mover_of(n as nat, starting_piece, num_empty as nat),
                    boards.current() == nth_arrangement(first_arrangement(n as nat, starting_piece, num_empty as nat), boards.served() as nat),
                    boards.total() == multinomial(
                        layer_counts(n as nat, starting_piece, num_empty as nat).0,
                        layer_counts(n as nat, starting_piece, num_empty as nat).1,
                        layer_counts(n as nat, starting_piece, num_empty as nat).2,
                    ),
                    forall|g: Seq<Piece>, j: nat|
                        j < boards.served() && #[trigger] enumerated(g, n as nat, starting_piece, num_empty as nat, j)
                            ==> self.layer_entry(g, current_piece),
                ensures
                    boards.served() >= boards.total(),
                decreases boards.total() - boards.served(),
            {
                let ghost served = boards.served();
                let ghost before = *self;
                let b = match boards.next() {
                    Some(b) => b,
                    None => {
                        break;
                    },
                };
                let scrambled = ScrambledBoard::from_board(&b);
                let standard = scrambled.is_standard();
                if standard {
                    self.settle_position(&b, current_piece);
                }
                proof {
                    let bg = b.grid@;
                    if standard {
                        assert(enumerated(bg, n as nat, starting_piece, num_empty as nat, served as nat));
                        lemma_enumerated_empties(bg, n as nat, starting_piece, num_empty as nat, served as nat);
                        lemma_entry_new(before, *self, bg, current_piece);
                    }
                    assert forall|g: Seq<Piece>, j: nat|
                        j < boards.served() && #[trigger] enumerated(g, n as nat, starting_piece, num_empty as nat, j)
                            implies self.layer_entry(g, current_piece) by {
                        lemma_enumerated_empties(g, n as nat, starting_piece, num_empty as nat, j);
                        if j < served {
                            assert(before.layer_entry(g, current_piece));
                            if standard && g != bg {
                                lemma_entry_kept(before, *self, g, current_piece, bg);
                            }
                        } else {
                            assert(g == bg);
                        }
                    }
                    assert forall|g: Seq<Piece>, k: nat, j: nat|
                        k < num_empty && #[trigger] enumerated(g, n as nat, starting_piece, k, j) implies self.layer_entry(
                            g,
                            last_mover_of(n as nat, starting_piece, k),
                        ) by {
                        assert(before.layer_entry(g, last_mover_of(n as nat, starting_piece, k)));
                        lemma_enumerated_empties(g, n as nat, starting_piece, k, j);
                        lemma_last_mover(n as nat, starting_piece, k);
                        if standard {
                            lemma_enumerated_empties(bg, n as nat, starting_piece, num_empty as nat, served as nat);
                            lemma_entry_kept(before, *self, g, last_mover_of(n as nat, starting_piece, k), bg);
                        }
                    }
                }
            }
            proof {
                assert forall|g: Seq<Piece>, k: nat, j: nat|
                    k < num_empty + 1 && #[trigger] enumerated(g, n as nat, starting_piece, k, j) implies self.layer_entry(
                        g,
                        last_mover_of(n as nat, starting_piece, k),
                    ) by {
                    if k == num_empty {
                        assert(j < boards.served());
                    }
                }
            }
            if num_empty == n * n {
                break;
            }
            num_empty = num_empty + 1;
            current_piece = current_piece.inverse();
            proof {
                lemma_last_mover(n as nat, starting_piece, num_empty as nat);
            }
        }
    }

    /// Solves canonical position `b`, whose last move was made by
    /// `last_mover`, from the stored positions one move further on.
    fn settle_position(&mut self, b: &Board, last_mover: Piece)
        requires
            old(self).inv(),
            b.wf(),
            b.size == old(self).size,
            last_mover != Piece::Empty,
            last_mover == old(self).piece || last_mover == inverse_of(old(self).piece),
        ensures
            final(self).cached(b.grid@) is Some,
            final(self).inv(),
            final(self).size == old(self).size,
            final(self).piece == old(self).piece,
            forall|k: Seq<Piece>| old(self).cached(k) is Some ==> #[trigger] final(self).cached(k) is Some,
            forall|k: Seq<Piece>| k != b.grid@ ==> #[trigger] final(self).cached(k) == old(self).cached(k),
            !wins(b.grid@, b.size as nat, last_mover) && !all_filled(b.grid@) ==> old(self).settled_in(
                b.grid@,
                last_mover,
                final(self).cached(b.grid@)->Some_0,
            ),
    {
        if b.has_win(last_mover) {
            let evaluation = if last_mover == self.piece {
                MoveValue::Win(0)
            } else {
                MoveValue::Lose(0)
            };
            self.store(b, MoveAnalysis { evaluation, move_options: Vec::new() });
            return;
        }
        if b.is_full() {
            self.store(b, MoveAnalysis { evaluation: MoveValue::Tie(0), move_options: Vec::new() });
            return;
        }
        let mover = last_mover.inverse();
        let spaces = available_spaces(b);
        let mut moves: Vec<Coord> = Vec::new();
        let mut evals: Vec<MoveValue> = Vec::new();
        let ghost n = b.size as int;
        let ghost g = b.grid@;
        let ghost mut origin: Seq<int> = Seq::empty();
        let mut i: usize = 0;
        while i < spaces.len()
            invariant
                *self == *old(self),
                n == b.size,
                g == b.grid@,
                origin.len() == moves@.len(),
                forall|t: int|
                    0 <= t < moves@.len() ==> 0 <= #[trigger] origin[t] < i && spaces@[origin[t]] == moves@[t]
                        && self.cached(table_child(g, n, mover, moves@[t])) is Some && evals@[t] == bumped(
                        self.cached(table_child(g, n, mover, moves@[t]))->Some_0.evaluation,
                    ),
                forall|q: int|
                    0 <= q < i && self.cached(table_child(g, n, mover, #[trigger] spaces@[q])) is Some ==> moves@.contains(
                        spaces@[q],
                    ),
                self.inv(),
                b.wf(),
                b.size == self.size,
                i <= spaces@.len(),
                moves@.len() == evals@.len(),
                crate::move_value::lists_open_cells(spaces@, b.grid@, b.size as int),
                forall|t: int| 0 <= t < moves@.len() ==> is_open(b.grid@, b.size as int, #[trigger] moves@[t]),
                forall|t: int| 0 <= t < evals@.len() ==> crate::ai_serial::depth_of_at_least_one(#[trigger] evals@[t]),
            decreases spaces@.len() - i,
        {
            let c = spaces[i];
            let mut next = b.duplicate();
            proof {
                assert(is_open(b.grid@, b.size as int, spaces@[i as int]));
            }
            let _ = next.place(mover, c);
            next.fully_standardize();
            assert(next.grid@ == table_child(g, n, mover, c));
            let ghost before = moves@;
            match self.known_boards.get(&next.grid) {
                Some(a) => {
                    moves.push(c);
                    evals.push(a.evaluation.increment());
                    proof {
                        origin = origin.push(i as int);
                        assert forall|q: int|
                            0 <= q < i + 1 && self.cached(table_child(g, n, mover, #[trigger] spaces@[q])) is Some
                                implies moves@.contains(spaces@[q]) by {
                            if q == i {
                                assert(moves@[moves@.len() - 1] == spaces@[q]);
                            } else {
                                let w = choose|w: int| 0 <= w < before.len() && before[w] == spaces@[q];
                                assert(moves@[w] == spaces@[q]);
                            }
                        }
                    }
                },
                None => {},
            }
            i = i + 1;
        }
        if evals.len() == 0 {
            proof {
                crate::ai_serial::lemma_open_exists(b);
                let c = choose|c: Coord| is_open(b.grid@, b.size as int, c);
                assert(spaces@.contains(c));
                assert forall|c: Coord| is_open(b.grid@, n, c) implies !(old(self).cached(table_child(g, n, mover, c)) is Some) by {
                    if old(self).cached(table_child(g, n, mover, c)) is Some {
                        assert(spaces@.contains(c));
                        let q = choose|q: int| 0 <= q < spaces@.len() && spaces@[q] == c;
                        assert(moves@.contains(spaces@[q]));
                    }
                }
            }
            self.store(b, MoveAnalysis { evaluation: MoveValue::Unknown(0), move_options: spaces });
            return;
        }
        let maximize = mover == self.piece;
        let mut best = evals[0];
        let mut j: usize = 1;
        while j < evals.len()
            invariant
                1 <= j <= evals@.len(),
                exists|t: int| 0 <= t < j && evals@[t] == best,
                forall|t: int| 0 <= t < j ==> no_worse(best, #[trigger] evals@[t], maximize),
                crate::ai_serial::depth_of_at_least_one(best),
                forall|t: int| 0 <= t < evals@.len() ==> crate::ai_serial::depth_of_at_least_one(#[trigger] evals@[t]),
            decreases evals@.len() - j,
        {
            let order = evals[j].cmp(&best);
            if (maximize && matches!(order, std::cmp::Ordering::Greater)) || (!maximize && matches!(
                order,
                std::cmp::Ordering::Less,
            )) {
                best = evals[j];
            }
            j = j + 1;
        }
        let mut options: Vec<Coord> = Vec::new();
        let mut k: usize = 0;
        while k < evals.len()
            invariant
                k <= evals@.len(),
                evals@.len() == moves@.len(),
                forall|t: int| 0 <= t < moves@.len() ==> is_open(b.grid@, b.size as int, #[trigger] moves@[t]),
                forall|t: int| 0 <= t < options@.len() ==> is_open(b.grid@, b.size as int, #[trigger] options@[t]),
                (exists|t: int| 0 <= t < k && evals@[t] == best) ==> options@.len() > 0,
                forall|c: Coord|
                    #[trigger] options@.contains(c) ==> exists|t: int| 0 <= t < k && moves@[t] == c && evals@[t] == best,
                forall|t: int| 0 <= t < k && #[trigger] evals@[t] == best ==> options@.contains(moves@[t]),
            decreases evals@.len() - k,
        {
            if evals[k] == best {
                let ghost before = options@;
                options.push(moves[k]);
                proof {
                    assert forall|c: Coord| #[trigger] options@.contains(c) implies exists|t: int|
                        0 <= t < k + 1 && moves@[t] == c && evals@[t] == best by {
                        if c != moves@[k as int] {
                            let w = choose|w: int| 0 <= w < options@.len() && options@[w] == c;
                            assert(before.contains(c)) by {
                                assert(before[w] == c);
                            }
                        }
                    }
                    assert forall|t: int| 0 <= t < k + 1 && #[trigger] evals@[t] == best implies options@.contains(moves@[t]) by {
                        if t == k {
                            assert(options@[options@.len() - 1] == moves@[t]);
                        } else {
                            let w = choose|w: int| 0 <= w < before.len() && before[w] == moves@[t];
                            assert(options@[w] == moves@[t]);
                        }
                    }
                }
            }
            k = k + 1;
        }
        proof {
            let t0 = choose|t: int| 0 <= t < evals@.len() && evals@[t] == best;
            assert(is_open(b.grid@, n, spaces@[origin[t0]]));
            assert(is_open(b.grid@, n, moves@[t0]) && old(self).cached(table_child(g, n, mover, moves@[t0])) is Some);
            assert forall|c: Coord|
                #[trigger] is_open(b.grid@, n, c) && old(self).cached(table_child(g, n, mover, c)) is Some implies no_worse(
                    best,
                    bumped(old(self).cached(table_child(g, n, mover, c))->Some_0.evaluation),
                    maximize,
                ) by {
                assert(spaces@.contains(c));
                let q = choose|q: int| 0 <= q < spaces@.len() && spaces@[q] == c;
                assert(moves@.contains(spaces@[q]));
                let t = choose|t: int| 0 <= t < moves@.len() && moves@[t] == c;
                assert(spaces@[origin[t]] == moves@[t]);
                assert(evals@[t] == bumped(old(self).cached(table_child(g, n, mover, c))->Some_0.evaluation));
                assert(no_worse(best, evals@[t], maximize));
            }
            assert forall|c: Coord| #[trigger] options@.contains(c) <==> (is_open(b.grid@, n, c) && old(self).cached(
                table_child(g, n, mover, c),
            ) is Some && bumped(old(self).cached(table_child(g, n, mover, c))->Some_0.evaluation) == best) by {
                if options@.contains(c) {
                    let t = choose|t: int| 0 <= t < evals@.len() && moves@[t] == c && evals@[t] == best;
                    assert(is_open(b.grid@, n, spaces@[origin[t]]));
                }
                if is_open(b.grid@, n, c) && old(self).cached(table_child(g, n, mover, c)) is Some && bumped(
                    old(self).cached(table_child(g, n, mover, c))->Some_0.evaluation,
                ) == best {
                    assert(spaces@.contains(c));
                    let q = choose|q: int| 0 <= q < spaces@.len() && spaces@[q] == c;
                    assert(moves@.contains(spaces@[q]));
                    let t = choose|t: int| 0 <= t < moves@.len() && moves@[t] == c;
                    assert(spaces@[origin[t]] == moves@[t]);
                    assert(evals@[t] == best);
                }
            }
        }
        self.store(b, MoveAnalysis { evaluation: best, move_options: options });
    }

    /// Picks a move for `piece_to_play` on `game_board` from the table: one
    /// of the best moves of the canonical position, mapped back to the
    /// board. `None` when the table has no move there.
    pub fn choose_move(&mut self, piece_to_play: Piece, game_board: &Board) -> (r: Option<Coord>)
        requires
            old(self).inv(),
            game_board.wf(),
            game_board.size == old(self).size_spec(),
            old(self).size_spec() * old(self).size_spec() <= usize::MAX,
            all_layers_fit(old(self).size_spec() as nat, old(self).piece_spec()),
            old(self).piece_spec() != Piece::Empty,
        ensures
            final(self).inv(),
            final(self).size_spec() == old(self).size_spec(),
            final(self).piece_spec() == old(self).piece_spec(),
            r matches Some(c) ==> is_open(game_board.grid@, game_board.size as int, c),
            r is None ==> {
                let k = table_key(game_board.grid@, game_board.size as int, old(self).piece_spec(), piece_to_play);
                ||| !(exists|e: nat, j: nat|
                    #[trigger] enumerated(k, game_board.size as nat, old(self).piece_spec(), e, j))
                ||| (final(self).cached(k) is Some && terminal_value(final(self).cached(k)->Some_0.evaluation))
            },
    {
        let mut scrambled = ScrambledBoard::from_board(game_board);
        if piece_to_play != self.piece {
            scrambled.invert();
        }
        assert(scrambled.tracks(game_board.grid@));
        proof {
            if piece_to_play != self.piece {
                assert(scrambled.pieces() =~= crate::board::inverted(game_board.grid@));
            }
        }
        scrambled.fully_standardize();
        assert(scrambled.tracks(game_board.grid@));
        let key = scrambled.to_board_scrambled();
        let analysis = match self.analyze(&key) {
            Some(a) => a,
            None => {
                return None;
            },
        };
        if analysis.move_options.len() == 0 {
            return None;
        }
        let chosen = choose_coord(&analysis.move_options);
        proof {
            let q = choose|q: int| 0 <= q < analysis.move_options@.len() && analysis.move_options@[q] == chosen;
            let c = self.cached(key.grid@)->Some_0;
            assert(table_entry_ok(key.grid@, self.size as int, self.piece, c));
            assert(is_open(key.grid@, key.size as int, c.move_options@[q]));
        }
        match scrambled.space_at(chosen) {
            Ok(s) => {
                proof {
                    crate::board::lemma_index(chosen.row as int, chosen.col as int, self.size as int);
                    let idx = chosen.row * self.size + chosen.col;
                    assert(crate::scrambled_board::fits(scrambled.grid@[idx], game_board.grid@, self.size as int));
                    assert(scrambled.grid@[idx].piece == key.grid@[idx]);
                }
                Some(s.coord)
            },
            Err(_) => None,
        }
    }

    /// Plays this engine's move on `game_board`; the board stays as it is
    /// when the table has no move.
    pub fn make_move(&mut self, game_board: &mut Board)
        requires
            old(self).inv(),
            old(game_board).wf(),
            old(game_board).size == old(self).size_spec(),
            old(self).size_spec() * old(self).size_spec() <= usize::MAX,
            all_layers_fit(old(self).size_spec() as nat, old(self).piece_spec()),
            old(self).piece_spec() != Piece::Empty,
        ensures
            final(self).inv(),
            final(self).size_spec() == old(self).size_spec(),
            final(self).piece_spec() == old(self).piece_spec(),
            final(game_board).wf(),
            final(game_board).size == old(game_board).size,
            final(game_board).grid@ == old(game_board).grid@ || exists|c: Coord|
                is_open(old(game_board).grid@, old(game_board).size as int, c) && final(game_board).grid@
                    == old(game_board).grid@.update(c.row * old(game_board).size + c.col, old(self).piece_spec()),
            (exists|e: nat, k: nat|
                #[trigger] enumerated(
                    table_key(old(game_board).grid@, old(game_board).size as int, old(self).piece_spec(), old(self).piece_spec()),
                    old(game_board).size as nat,
                    old(self).piece_spec(),
                    e,
                    k,
                )) && !terminal_value(
                final(self).cached(
                    table_key(old(game_board).grid@, old(game_board).size as int, old(self).piece_spec(), old(self).piece_spec()),
                )->Some_0.evaluation,
            ) ==> exists|c: Coord|
                is_open(old(game_board).grid@, old(game_board).size as int, c) && final(game_board).grid@
                    == old(game_board).grid@.update(c.row * old(game_board).size + c.col, old(self).piece_spec()),
    {
        let p = self.piece;
        match self.choose_move(p, game_board) {
            Some(c) => {
                let _ = game_board.place(p, c);
            },
            None => {},
        }
    }
}

impl AiGroundUp {
    /// The file this engine's analyses are kept in; with `inverted`, the
    /// file of an engine for the other piece.
    pub fn cbor_path(&self, inverted: bool) -> (r: String)
        ensures
            r@ == crate::paths::path_text(
                seq!['g', 'r', 'o', 'u', 'n', 'd', '-', 'u', 'p'],
                self.size_spec(),
                self.piece_spec(),
                inverted,
                seq!['.', 'c', 'b', 'o', 'r'],
            ),
    {
        proof {
            reveal_strlit("ground-up");
            reveal_strlit(".cbor");
        }
        crate::paths::strategy_path("ground-up", self.size, self.piece, inverted, ".cbor")
    }
}

impl AiGroundUp {
    /// Every stored position with its analysis.
    pub fn export_cache(&self) -> (r: Vec<(Vec<Piece>, MoveAnalysis)>)
        requires
            self.inv(),
        ensures
            forall|i: int|
                0 <= i < r@.len() ==> (#[trigger] self.cached(r@[i].0@) matches Some(c) && c.evaluation == r@[i].1.evaluation && c.move_options@ == r@[i].1.move_options@),
            forall|k: Seq<Piece>|
                #[trigger] self.cached(k) is Some ==> exists|i: int| 0 <= i < r@.len() && r@[i].0@ == k,
            forall|i: int, j: int| 0 <= i < j < r@.len() ==> r@[i].0@ != r@[j].0@,
    {
        let keys = self.known_boards.stored_keys();
        let mut out: Vec<(Vec<Piece>, MoveAnalysis)> = Vec::new();
        let mut i: usize = 0;
        while i < keys.len()
            invariant
                self.known_boards.wf(),
                out@.len() == i,
                forall|t: int| 0 <= t < out@.len() ==> (#[trigger] out@[t]).0@ == keys@[t]@,
                forall|k: Seq<Piece>| #[trigger] self.cached(k) is Some ==> exists|q: int| 0 <= q < keys@.len() && keys@[q]@ == k,
                forall|q: int| 0 <= q < keys@.len() ==> self.cached(#[trigger] keys@[q]@) is Some,
                forall|p: int, q: int| 0 <= p < q < keys@.len() ==> keys@[p]@ != keys@[q]@,
                i <= keys@.len(),
                forall|j: int|
                    0 <= j < out@.len() ==> (#[trigger] self.cached(out@[j].0@) matches Some(c) && c.evaluation == out@[j].1.evaluation && c.move_options@ == out@[j].1.move_options@),
            decreases keys@.len() - i,
        {
            match self.known_boards.get(&keys[i]) {
                Some(a) => {
                    out.push((copy_vec(&keys[i]), MoveAnalysis { evaluation: a.evaluation, move_options: copy_vec(&a.move_options) }));
                },
                None => {},
            }
            i = i + 1;
        }
        proof {
            assert forall|k: Seq<Piece>| #[trigger] self.cached(k) is Some implies exists|q: int|
                0 <= q < out@.len() && out@[q].0@ == k by {
                let q = choose|q: int| 0 <= q < keys@.len() && keys@[q]@ == k;
                assert(out@[q].0@ == k);
            }
            assert forall|t: int, u: int| 0 <= t < u < out@.len() implies out@[t].0@ != out@[u].0@ by {
                assert(out@[t].0@ == keys@[t]@ && out@[u].0@ == keys@[u]@);
            }
        }
        out
    }

    /// Stores `a` for `key` when it is a sound analysis for this engine.
    pub fn import_entry(&mut self, key: Vec<Piece>, a: MoveAnalysis) -> (r: bool)
        requires
            old(self).inv(),
        ensures
            final(self).inv(),
            final(self).size_spec() == old(self).size_spec(),
            final(self).piece_spec() == old(self).piece_spec(),
            r == table_entry_ok(key@, old(self).size_spec() as int, old(self).piece_spec(), a),
            r ==> (final(self).cached(key@) matches Some(c) && c.evaluation == a.evaluation && c.move_options@ == a.move_options@),
            !r ==> forall|k: Seq<Piece>| #[trigger] final(self).cached(k) == old(self).cached(k),
            forall|k: Seq<Piece>| k != key@ ==> #[trigger] final(self).cached(k) == old(self).cached(k),
    {
        if !check_entry(&key, self.size, self.piece, &a) {
            return false;
        }
        let b = Board { size: self.size, grid: key };
        self.store(&b, a);
        true
    }

    /// Stores every sound entry of `entries`, with each position inverted
    /// first when `inverted` (entries made by an engine for the other
    /// piece); returns how many were stored.
    pub fn import_cache(&mut self, entries: Vec<(Vec<Piece>, MoveAnalysis)>, inverted: bool) -> (r: usize)
        requires
            old(self).inv(),
        ensures
            final(self).inv(),
            final(self).size_spec() == old(self).size_spec(),
            final(self).piece_spec() == old(self).piece_spec(),
            r <= entries@.len(),
            forall|i: int|
                0 <= i < entries@.len() && table_entry_ok(
                    crate::ai_serial::stored_key(entries@[i].0@, inverted),
                    old(self).size_spec() as int,
                    old(self).piece_spec(),
                    entries@[i].1,
                ) && (forall|j: int|
                    0 <= j < i ==> crate::ai_serial::stored_key(entries@[j].0@, inverted) != crate::ai_serial::stored_key(
                        entries@[i].0@,
                        inverted,
                    )) ==> (final(self).cached(crate::ai_serial::stored_key(#[trigger] entries@[i].0@, inverted)) matches Some(c) && c.evaluation == entries@[i].1.evaluation && c.move_options@ == entries@[i].1.move_options@),
    {
        let ghost orig = entries@;
        let mut entries = entries;
        let mut stored: usize = 0;
        let ghost total = entries@.len();
        let start = entries.len();
        while entries.len() > 0
            invariant
                total == start,
                self.inv(),
                self.size_spec() == old(self).size_spec(),
                self.piece_spec() == old(self).piece_spec(),
                total == orig.len(),
                entries@ == orig.subrange(0, entries@.len() as int),
                forall|i: int|
                    entries@.len() <= i < total && table_entry_ok(
                        crate::ai_serial::stored_key(orig[i].0@, inverted),
                        self.size_spec() as int,
                        self.piece_spec(),
                        orig[i].1,
                    ) && (forall|j: int|
                        0 <= j < i ==> crate::ai_serial::stored_key(orig[j].0@, inverted) != crate::ai_serial::stored_key(
                            orig[i].0@,
                            inverted,
                        )) ==> (self.cached(crate::ai_serial::stored_key(#[trigger] orig[i].0@, inverted)) matches Some(c) && c.evaluation == orig[i].1.evaluation && c.move_options@ == orig[i].1.move_options@),
                stored + entries@.len() <= total,
            decreases entries@.len(),
        {
            let ghost m = entries@.len() - 1;
            let (key, a) = entries.pop().unwrap();
            let key = if inverted {
                Board { size: self.size, grid: key }.inverse().grid
            } else {
                key
            };
            assert(key@ == crate::ai_serial::stored_key(orig[m].0@, inverted));
            let ghost before = *self;
            if self.import_entry(key, a) {
                stored = stored + 1;
            }
            proof {
                assert forall|i: int|
                    entries@.len() <= i < total && table_entry_ok(
                        crate::ai_serial::stored_key(orig[i].0@, inverted),
                        self.size_spec() as int,
                        self.piece_spec(),
                        orig[i].1,
                    ) && (forall|j: int|
                        0 <= j < i ==> crate::ai_serial::stored_key(orig[j].0@, inverted) != crate::ai_serial::stored_key(
                            orig[i].0@,
                            inverted,
                        )) implies (self.cached(crate::ai_serial::stored_key(#[trigger] orig[i].0@, inverted)) matches Some(c) && c.evaluation == orig[i].1.evaluation && c.move_options@ == orig[i].1.move_options@) by {
                    if i > m {
                        assert(crate::ai_serial::stored_key(orig[m].0@, inverted) != crate::ai_serial::stored_key(orig[i].0@, inverted));
                        assert(self.cached(crate::ai_serial::stored_key(orig[i].0@, inverted)) == before.cached(
                            crate::ai_serial::stored_key(orig[i].0@, inverted),
                        ));
                    }
                }
            }
        }
        stored
    }
}

/// Whether the moves of `a` are empty cells of the `n`-wide position `key`.
pub fn check_entry(key: &Vec<Piece>, n: usize, piece: Piece, a: &MoveAnalysis) -> (r: bool)
    ensures
        r == table_entry_ok(key@, n as int, piece, *a),
{
    let len = key.len();
    match n.checked_mul(n) {
        None => {
            return false;
        },
        Some(m) => {
            if key.len() != m {
                return false;
            }
        },
    }
    if !crate::ai_serial::all_open(key, n, &a.move_options) {
        return false;
    }
    let b = Board { size: n, grid: copy_vec(key) };
    let terminal = a.evaluation == MoveValue::Win(0) || a.evaluation == MoveValue::Lose(0) || a.evaluation
        == MoveValue::Tie(0);
    (a.evaluation != MoveValue::Win(0) || b.has_win(piece)) && (a.evaluation != MoveValue::Lose(0) || b.has_win(
        piece.inverse(),
    )) && (a.evaluation != MoveValue::Tie(0) || b.is_full()) && (terminal || a.move_options.len() > 0)
}

/// Inserting `a` anywhere adds one `p` when `a` is `p`.
proof fn lemma_count_insert(x: Seq<Piece>, j: int, a: Piece, p: Piece)
    requires
        0 <= j <= x.len(),
    ensures
        count_of(x.insert(j, a), p) == count_of(x, p) + if a == p {
            1nat
        } else {
            0nat
        },
    decreases x.len(),
{
    if j == x.len() {
        assert(x.insert(j, a) =~= x.push(a));
        assert(x.push(a).drop_last() =~= x);
    } else {
        assert(x.insert(j, a).drop_last() =~= x.drop_last().insert(j, a));
        lemma_count_insert(x.drop_last(), j, a, p);
    }
}

/// The next arrangement holds each piece as often.
proof fn lemma_count_successor(s: Seq<Piece>, p: Piece)
    ensures
        count_of(successor(s), p) == count_of(s, p),
        successor(s).len() == s.len(),
{
    lemma_successor_len(s);
    if s.len() > 0 {
        let t = s.drop_first();
        assert(s =~= t.insert(0, s[0]));
        lemma_count_insert(t, 0, s[0], p);
        lemma_first_rise_range(t, 0);
        let i = first_rise(t, 0);
        if i < 0 {
            lemma_count_insert(t, t.len() as int, s[0], p);
            assert(t.insert(t.len() as int, s[0]) =~= t.push(s[0]));
        } else if rank(s[0]) > rank(t[i]) {
            lemma_count_insert(t, i + 1, s[0], p);
        } else {
            lemma_count_insert(t, i + 2, s[0], p);
        }
    }
}

/// Every arrangement a layer hands out holds each piece as often as the
/// first.
proof fn lemma_count_nth(s: Seq<Piece>, j: nat, p: Piece)
    ensures
        count_of(nth_arrangement(s, j), p) == count_of(s, p),
        nth_arrangement(s, j).len() == s.len(),
    decreases j,
{
    if j > 0 {
        lemma_count_nth(s, (j - 1) as nat, p);
        lemma_count_successor(nth_arrangement(s, (j - 1) as nat), p);
    }
}

proof fn lemma_count_none(s: Seq<Piece>, p: Piece)
    requires
        forall|i: int| 0 <= i < s.len() ==> s[i] != p,
    ensures
        count_of(s, p) == 0,
    decreases s.len(),
{
    if s.len() > 0 {
        lemma_count_none(s.drop_last(), p);
    }
}

/// The sorted arrangement has `e` empty cells.
proof fn lemma_count_sorted(x: nat, o: nat, e: nat)
    ensures
        count_of(sorted_arrangement(x, o, e), Piece::Empty) == e,
        sorted_arrangement(x, o, e).len() == x + o + e,
    decreases e,
{
    if e == 0 {
        lemma_count_none(sorted_arrangement(x, o, e), Piece::Empty);
    } else {
        lemma_count_sorted(x, o, (e - 1) as nat);
        assert(sorted_arrangement(x, o, e).drop_last() =~= sorted_arrangement(x, o, (e - 1) as nat));
    }
}

/// A position that a layer hands out has that layer's number of empty cells.
pub proof fn lemma_enumerated_empties(g: Seq<Piece>, size: nat, piece: Piece, k: nat, j: nat)
    requires
        enumerated(g, size, piece, k, j),
    ensures
        count_of(g, Piece::Empty) == k,
        g.len() == size * size,
{
    let c = layer_counts(size, piece, k);
    lemma_count_sorted(c.0, c.1, c.2);
    lemma_count_nth(first_arrangement(size, piece, k), j, Piece::Empty);
    assert(c.0 + c.1 + c.2 == size * size);
}

/// Who made the last move on a `size`-wide position with `k` empty cells,
/// when `piece` moved first.
pub open spec fn last_mover_of(size: nat, piece: Piece, k: nat) -> Piece {
    if ((size * size - k) as int) % 2 == 1 {
        piece
    } else {
        inverse_of(piece)
    }
}

/// `settled_in` depends only on the stored positions one move further on.
proof fn lemma_settled_frame(s1: AiGroundUp, s2: AiGroundUp, g: Seq<Piece>, last_mover: Piece, a: MoveAnalysis)
    requires
        s1.size == s2.size,
        s1.piece == s2.piece,
        forall|c: Coord|
            #[trigger] is_open(g, s1.size as int, c) ==> s1.cached(table_child(g, s1.size as int, inverse_of(last_mover), c))
                == s2.cached(table_child(g, s1.size as int, inverse_of(last_mover), c)),
        s1.settled_in(g, last_mover, a),
    ensures
        s2.settled_in(g, last_mover, a),
{
    let n = s1.size as int;
    let mover = inverse_of(last_mover);
    if exists|c: Coord| is_open(g, n, c) && s2.cached(table_child(g, n, mover, c)) is Some {
        let c0 = choose|c: Coord| is_open(g, n, c) && s2.cached(table_child(g, n, mover, c)) is Some;
        assert(s1.cached(table_child(g, n, mover, c0)) is Some);
        let c1 = choose|c: Coord|
            is_open(g, n, c) && s1.cached(table_child(g, n, mover, c)) is Some && a.evaluation == bumped(
                s1.cached(table_child(g, n, mover, c))->Some_0.evaluation,
            );
        assert(s2.cached(table_child(g, n, mover, c1)) == s1.cached(table_child(g, n, mover, c1)));
        assert forall|c: Coord| #[trigger] a.move_options@.contains(c) <==> (is_open(g, n, c) && s2.cached(
            table_child(g, n, mover, c),
        ) is Some && bumped(s2.cached(table_child(g, n, mover, c))->Some_0.evaluation) == a.evaluation) by {
            if is_open(g, n, c) {
                assert(s2.cached(table_child(g, n, mover, c)) == s1.cached(table_child(g, n, mover, c)));
            }
        }
    } else {
        if exists|c: Coord| is_open(g, n, c) && s1.cached(table_child(g, n, mover, c)) is Some {
            let c0 = choose|c: Coord| is_open(g, n, c) && s1.cached(table_child(g, n, mover, c)) is Some;
            assert(s2.cached(table_child(g, n, mover, c0)) is Some);
        }
    }
}

/// Storing position `bg` leaves the entry of any other position `g` with
/// no more empty cells than `bg` as it was.
proof fn lemma_entry_kept(s1: AiGroundUp, s2: AiGroundUp, g: Seq<Piece>, last_mover: Piece, bg: Seq<Piece>)
    requires
        s1.size == s2.size,
        s1.piece == s2.piece,
        g.len() == s1.size * s1.size,
        g != bg,
        inverse_of(last_mover) != Piece::Empty,
        forall|k: Seq<Piece>| k != bg ==> #[trigger] s2.cached(k) == s1.cached(k),
        count_of(bg, Piece::Empty) >= count_of(g, Piece::Empty),
        s1.layer_entry(g, last_mover),
    ensures
        s2.layer_entry(g, last_mover),
{
    let n = s1.size as int;
    let mover = inverse_of(last_mover);
    assert(s2.cached(g) == s1.cached(g));
    assert forall|c: Coord| #[trigger] is_open(g, n, c) implies s1.cached(table_child(g, n, mover, c)) == s2.cached(
        table_child(g, n, mover, c),
    ) by {
        crate::board::lemma_index(c.row as int, c.col as int, n);
        crate::symmetry::lemma_placed_empties(g, n, index_of(c, n), mover);
    }
    if !wins(g, s1.size as nat, last_mover) && !all_filled(g) {
        lemma_settled_frame(s1, s2, g, last_mover, s1.cached(g)->Some_0);
    }
}

/// The entry `settle_position` makes for `b` is solved against the table
/// as it stands after the store.
proof fn lemma_entry_new(s1: AiGroundUp, s2: AiGroundUp, g: Seq<Piece>, last_mover: Piece)
    requires
        s1.size == s2.size,
        s1.piece == s2.piece,
        g.len() == s1.size * s1.size,
        inverse_of(last_mover) != Piece::Empty,
        forall|k: Seq<Piece>| k != g ==> #[trigger] s2.cached(k) == s1.cached(k),
        s2.cached(g) is Some,
        !wins(g, s1.size as nat, last_mover) && !all_filled(g) ==> s1.settled_in(g, last_mover, s2.cached(g)->Some_0),
    ensures
        s2.layer_entry(g, last_mover),
{
    let n = s1.size as int;
    let mover = inverse_of(last_mover);
    assert forall|c: Coord| #[trigger] is_open(g, n, c) implies s1.cached(table_child(g, n, mover, c)) == s2.cached(
        table_child(g, n, mover, c),
    ) by {
        crate::board::lemma_index(c.row as int, c.col as int, n);
        crate::symmetry::lemma_placed_empties(g, n, index_of(c, n), mover);
    }
    if !wins(g, s1.size as nat, last_mover) && !all_filled(g) {
        lemma_settled_frame(s1, s2, g, last_mover, s2.cached(g)->Some_0);
    }
}

/// Who moved last alternates from layer to layer, starting on full boards
/// with the side that placed the last piece; it is never `Empty`.
proof fn lemma_last_mover(size: nat, piece: Piece, k: nat)
    requires
        piece != Piece::Empty,
        k <= size * size,
    ensures
        k == 0 ==> last_mover_of(size, piece, k) == (if size % 2 == 0 {
            inverse_of(piece)
        } else {
            piece
        }),
        k > 0 ==> last_mover_of(size, piece, k) == inverse_of(last_mover_of(size, piece, (k - 1) as nat)),
        last_mover_of(size, piece, k) == piece || last_mover_of(size, piece, k) == inverse_of(piece),
        inverse_of(last_mover_of(size, piece, k)) != Piece::Empty,
{
    let q = size / 2;
    let r = size % 2;
    assert(size == 2 * q + r);
    assert(size * size == 4 * q * q + 4 * q * r + r * r) by (nonlinear_arith)
        requires
            size == 2 * q + r,
    ;
    let m = 2 * q * q + 2 * q * r;
    assert(r * r == r) by {
        assert(r == 0 || r == 1);
    }
    assert(size * size == 2 * m + r) by (nonlinear_arith)
        requires
            size * size == 4 * q * q + 4 * q * r + r * r,
            r * r == r,
            m == 2 * q * q + 2 * q * r,
    ;
    vstd::arithmetic::div_mod::lemma_fundamental_div_mod_converse((size * size) as int, 2, m as int, r as int);
    if k > 0 {
        assert(((size * size - k) as int) % 2 != ((size * size - (k - 1)) as int) % 2);
    }
}

} // verus!
