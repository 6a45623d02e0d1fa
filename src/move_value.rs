//! Evaluations of positions and the analyses the engines store.
use crate::board::{Board, lemma_index};
use crate::space::{Coord, Piece};
use std::cmp::Ordering;
use vstd::prelude::*;

verus! {

/// The outcome of a position for the side to move, with the number of
/// moves until that outcome is settled.
#[derive(Clone, Copy, Debug, PartialEq, Eq, Structural)]
pub enum MoveValue {
    Lose(u8),
    Tie(u8),
    Unknown(u8),
    Win(u8),
}

/// The move count of an evaluation.
pub open spec fn depth_of(v: MoveValue) -> u8 {
    match v {
        MoveValue::Lose(n) => n,
        MoveValue::Tie(n) => n,
        MoveValue::Unknown(n) => n,
        MoveValue::Win(n) => n,
    }
}

/// Where an evaluation ranks: by outcome first (`Lose` < `Unknown` < `Tie`
/// < `Win`), then by move count: upwards for `Lose` and `Tie`, downwards
/// for `Unknown` and `Win`.
pub open spec fn score(v: MoveValue) -> (int, int) {
    match v {
        MoveValue::Lose(n) => (0, n as int),
        MoveValue::Unknown(n) => (1, -(n as int)),
        MoveValue::Tie(n) => (2, n as int),
        MoveValue::Win(n) => (3, -(n as int)),
    }
}

/// `a` ranks strictly below `b`.
pub open spec fn value_less(a: MoveValue, b: MoveValue) -> bool {
    score(a).0 < score(b).0 || (score(a).0 == score(b).0 && score(a).1 < score(b).1)
}

/// The evaluation seen from the other side: `Lose` and `Win` swap.
pub open spec fn flipped(v: MoveValue) -> MoveValue {
    match v {
        MoveValue::Lose(n) => MoveValue::Win(n),
        MoveValue::Win(n) => MoveValue::Lose(n),
        other => other,
    }
}

/// One more move until the outcome, held at `u8::MAX`.
pub open spec fn bumped(v: MoveValue) -> MoveValue {
    let m = if depth_of(v) < 255 {
        (depth_of(v) + 1) as u8
    } else {
        255u8
    };
    match v {
        MoveValue::Lose(_) => MoveValue::Lose(m),
        MoveValue::Tie(_) => MoveValue::Tie(m),
        MoveValue::Unknown(_) => MoveValue::Unknown(m),
        MoveValue::Win(_) => MoveValue::Win(m),
    }
}

/// The evaluation of a move whose resulting position the opponent, to
/// move there, evaluates as `v`.
pub open spec fn ply(v: MoveValue) -> MoveValue {
    bumped(flipped(v))
}

impl MoveValue {
    pub fn depth(&self) -> (r: u8)
        ensures
            r == depth_of(*self),
    {
        match *self {
            MoveValue::Lose(v) => v,
            MoveValue::Tie(v) => v,
            MoveValue::Unknown(v) => v,
            MoveValue::Win(v) => v,
        }
    }

    /// Ranks two evaluations.
    pub fn cmp(&self, other: &MoveValue) -> (r: Ordering)
        ensures
            r == Ordering::Less <==> value_less(*self, *other),
            r == Ordering::Greater <==> value_less(*other, *self),
            r == Ordering::Equal <==> *self == *other,
    {
        let a = self.class();
        let b = other.class();
        if a < b {
            return Ordering::Less;
        }
        if a > b {
            return Ordering::Greater;
        }
        let v = self.depth();
        let w = other.depth();
        if v == w {
            return Ordering::Equal;
        }
        let upward = a == 0 || a == 2;
        if (v < w) == upward {
            Ordering::Less
        } else {
            Ordering::Greater
        }
    }

    fn class(&self) -> (r: u8)
        ensures
            r == score(*self).0,
    {
        match self {
            MoveValue::Lose(_) => 0,
            MoveValue::Unknown(_) => 1,
            MoveValue::Tie(_) => 2,
            MoveValue::Win(_) => 3,
        }
    }

    /// The evaluation seen from the other side.
    pub fn invert(&self) -> (r: MoveValue)
        ensures
            r == flipped(*self),
    {
        match *self {
            MoveValue::Lose(v) => MoveValue::Win(v),
            MoveValue::Win(v) => MoveValue::Lose(v),
            other => other,
        }
    }

    /// One more move until the outcome.
    pub fn increment(&self) -> (r: MoveValue)
        ensures
            r == bumped(*self),
    {
        let m = self.depth().saturating_add(1);
        match *self {
            MoveValue::Lose(_) => MoveValue::Lose(m),
            MoveValue::Tie(_) => MoveValue::Tie(m),
            MoveValue::Unknown(_) => MoveValue::Unknown(m),
            MoveValue::Win(_) => MoveValue::Win(m),
        }
    }
}

/// What an engine knows of a position: its evaluation, every move that
/// reaches it, and the search depth the evaluation is certain to.
#[derive(Debug)]
pub struct MoveAnalysis {
    pub evaluation: MoveValue,
    pub move_options: Vec<Coord>,
    pub depth_used: usize,
}

impl MoveAnalysis {
    /// A copy of this analysis.
    pub fn duplicate(&self) -> (r: MoveAnalysis)
        ensures
            r.evaluation == self.evaluation,
            r.move_options@ == self.move_options@,
            r.depth_used == self.depth_used,
    {
        MoveAnalysis {
            evaluation: self.evaluation,
            move_options: crate::canon::copy_vec(&self.move_options),
            depth_used: self.depth_used,
        }
    }
}

/// Row-major index of a coordinate on an `n`-wide board.
pub open spec fn index_of(c: Coord, n: int) -> int {
    c.row * n + c.col
}

/// `c` is an empty cell of the `n`-wide grid `g`.
pub open spec fn is_open(g: Seq<Piece>, n: int, c: Coord) -> bool {
    c.row < n && c.col < n && g[index_of(c, n)] == Piece::Empty
}

/// `v` lists every empty cell of `g` once, in row-major order.
pub open spec fn lists_open_cells(v: Seq<Coord>, g: Seq<Piece>, n: int) -> bool {
    &&& forall|i: int| 0 <= i < v.len() ==> is_open(g, n, #[trigger] v[i])
    &&& forall|i: int, j: int| 0 <= i < j < v.len() ==> index_of(v[i], n) < index_of(v[j], n)
    &&& forall|c: Coord| #[trigger] is_open(g, n, c) ==> v.contains(c)
}

/// The empty cells of a board, row by row.
pub fn available_spaces(b: &Board) -> (r: Vec<Coord>)
    requires
        b.wf(),
    ensures
        lists_open_cells(r@, b.grid@, b.size as int),
{
    let n = b.size;
    let mut result: Vec<Coord> = Vec::new();
    let mut row: usize = 0;
    while row < n
        invariant
            row <= n,
            n == b.size,
            b.wf(),
            forall|i: int| 0 <= i < result@.len() ==> is_open(b.grid@, n as int, #[trigger] result@[i]),
            forall|i: int| 0 <= i < result@.len() ==> (#[trigger] result@[i]).row < row,
            forall|i: int, j: int|
                0 <= i < j < result@.len() ==> index_of(result@[i], n as int) < index_of(result@[j], n as int),
            forall|c: Coord| #[trigger] is_open(b.grid@, n as int, c) && c.row < row ==> result@.contains(c),
        decreases n - row,
    {
        let mut col: usize = 0;
        while col < n
            invariant
                row < n,
                col <= n,
                n == b.size,
                b.wf(),
                forall|i: int| 0 <= i < result@.len() ==> is_open(b.grid@, n as int, #[trigger] result@[i]),
                forall|i: int|
                    0 <= i < result@.len() ==> (#[trigger] result@[i]).row < row || (result@[i].row == row
                        && result@[i].col < col),
                forall|i: int, j: int|
                    0 <= i < j < result@.len() ==> index_of(result@[i], n as int) < index_of(result@[j], n as int),
                forall|c: Coord|
                    #[trigger] is_open(b.grid@, n as int, c) && (c.row < row || (c.row == row && c.col < col))
                        ==> result@.contains(c),
            decreases n - col,
        {
            let c = Coord { row, col };
            proof {
                lemma_index(row as int, col as int, n as int);
                assert forall|i: int| 0 <= i < result@.len() implies index_of(result@[i], n as int) < index_of(c, n as int) by {
                    let d = result@[i];
                    lemma_index(d.row as int, d.col as int, n as int);
                    if d.row < row {
                        assert(d.row * n + n <= row * n) by (nonlinear_arith)
                            requires d.row < row;
                    }
                }
            }
            if matches!(b.piece_at(c), Ok(Piece::Empty)) {
                let ghost before = result@;
                result.push(c);
                proof {
                    assert forall|d: Coord|
                        #[trigger] is_open(b.grid@, n as int, d) && (d.row < row || (d.row == row && d.col < col + 1))
                            implies result@.contains(d) by {
                        if d == c {
                            assert(result@[result@.len() - 1] == c);
                        } else {
                            let k = choose|k: int| 0 <= k < before.len() && before[k] == d;
                            assert(result@[k] == d);
                        }
                    }
                }
            } else {
                proof {
                    assert forall|d: Coord|
                        #[trigger] is_open(b.grid@, n as int, d) && (d.row < row || (d.row == row && d.col < col + 1))
                            implies result@.contains(d) by {
                        if d == c {
                            assert(false);
                        }
                    }
                }
            }
            col = col + 1;
        }
        row = row + 1;
    }
    result
}

} // verus!
