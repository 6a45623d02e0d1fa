use crate::canon::{grid_is_standard, is_standard_grid, settle, standardized_grid, transpose_vec, transposed_seq};
use crate::order::{compare_rows, row_order};
use crate::scrambled_board::{lemma_standardized_bare, ScrambledBoard};
use crate::space::{inverse_of, Coord, Piece};
use crate::paths::{decimal, decimal_text};
use std::cmp::Ordering;
use vstd::string::StringExecFns;
use vstd::prelude::*;

verus! {

/// Why a coordinate cannot be used on a board.
#[derive(Clone, Copy, Debug, PartialEq, Eq, Structural)]
pub enum GridError {
    RowIndexOutOfBounds { idx_found: usize, board_size: usize },
    ColIndexOutOfBounds { idx_found: usize, board_size: usize },
    SpaceOccupied(Coord),
}

impl GridError {
    /// The error in words.
    pub fn message(&self) -> (r: String)
        ensures
            r@ == error_text(*self),
    {
        proof {
            reveal_strlit("Found row index ");
            reveal_strlit("Found col index ");
            reveal_strlit(", but board is of size ");
            reveal_strlit("Space at row ");
            reveal_strlit(", col ");
            reveal_strlit(" already occupied");
        }
        match self {
            GridError::RowIndexOutOfBounds { idx_found, board_size } => {
                let mut s = String::from_str("Found row index ");
                s.append(decimal_text(*idx_found).as_str());
                s.append(", but board is of size ");
                s.append(decimal_text(*board_size).as_str());
                s
            },
            GridError::ColIndexOutOfBounds { idx_found, board_size } => {
                let mut s = String::from_str("Found col index ");
                s.append(decimal_text(*idx_found).as_str());
                s.append(", but board is of size ");
                s.append(decimal_text(*board_size).as_str());
                s
            },
            GridError::SpaceOccupied(c) => {
                let mut s = String::from_str("Space at row ");
                s.append(decimal_text(c.row).as_str());
                s.append(", col ");
                s.append(decimal_text(c.col).as_str());
                s.append(" already occupied");
                s
            },
        }
    }
}

/// The words for an error.
pub open spec fn error_text(e: GridError) -> Seq<char> {
    match e {
        GridError::RowIndexOutOfBounds { idx_found, board_size } => "Found row index "@ + decimal(
            idx_found as nat,
        ) + ", but board is of size "@ + decimal(board_size as nat),
        GridError::ColIndexOutOfBounds { idx_found, board_size } => "Found col index "@ + decimal(
            idx_found as nat,
        ) + ", but board is of size "@ + decimal(board_size as nat),
        GridError::SpaceOccupied(c) => "Space at row "@ + decimal(c.row as nat) + ", col "@ + decimal(
            c.col as nat,
        ) + " already occupied"@,
    }
}

/// The cell at row `r`, column `c` of a row-major grid of width `n`.
pub open spec fn cell_of(g: Seq<Piece>, n: int, r: int, c: int) -> Piece {
    g[r * n + c]
}

/// Every cell with `X` and `O` swapped.
pub open spec fn inverted(g: Seq<Piece>) -> Seq<Piece> {
    g.map_values(|p: Piece| inverse_of(p))
}

/// The grid reflected in its main diagonal.
pub open spec fn transposed_grid(g: Seq<Piece>, n: int) -> Seq<Piece> {
    Seq::new(g.len(), |i: int| g[(i % n) * n + i / n])
}

/// The indices `0, 1, ..., n - 1`.
pub open spec fn indices(n: nat) -> Seq<usize> {
    Seq::new(n, |i: int| i as usize)
}

/// `f` gives row `rows[k]` the column `cols[f[k]]`, whose cell holds `p`,
/// and no two rows share an index into `cols`.
pub open spec fn assigns(g: Seq<Piece>, n: int, p: Piece, rows: Seq<usize>, cols: Seq<usize>, f: Seq<int>) -> bool {
    &&& f.len() == rows.len()
    &&& forall|k: int|
        0 <= k < f.len() ==> 0 <= #[trigger] f[k] < cols.len() && cell_of(g, n, rows[k] as int, cols[f[k]] as int) == p
    &&& forall|k: int, l: int| 0 <= k < l < f.len() ==> f[k] != f[l]
}

/// Rows `rows` can each be given a distinct column out of `cols` whose cell
/// in that row holds `p`.
pub open spec fn matchable(g: Seq<Piece>, n: int, p: Piece, rows: Seq<usize>, cols: Seq<usize>) -> bool {
    exists|f: Seq<int>| assigns(g, n, p, rows, cols, f)
}

/// A matching of the rows after the first, over `cols` without its `i`-th
/// entry, extends to all rows when the first row takes that entry.
pub proof fn lemma_matchable_extend(g: Seq<Piece>, n: int, p: Piece, rows: Seq<usize>, cols: Seq<usize>, i: int)
    requires
        rows.len() > 0,
        0 <= i < cols.len(),
        cell_of(g, n, rows[0] as int, cols[i] as int) == p,
        matchable(g, n, p, rows.drop_first(), cols.remove(i)),
    ensures
        matchable(g, n, p, rows, cols),
{
    let h = choose|h: Seq<int>| assigns(g, n, p, rows.drop_first(), cols.remove(i), h);
    let f = seq![i].add(h.map_values(|j: int| if j < i { j } else { j + 1 }));
    assert forall|k: int| 0 <= k < f.len() implies 0 <= #[trigger] f[k] < cols.len() && cell_of(
        g,
        n,
        rows[k] as int,
        cols[f[k]] as int,
    ) == p by {
        if k > 0 {
            assert(f[k] == (if h[k - 1] < i { h[k - 1] } else { h[k - 1] + 1 }));
            assert(0 <= h[k - 1] < cols.len() - 1);
            assert(cols.remove(i)[h[k - 1]] == cols[f[k]]);
            assert(rows.drop_first()[k - 1] == rows[k]);
        }
    }
    assert forall|k: int, l: int| 0 <= k < l < f.len() implies f[k] != f[l] by {
        if k > 0 {
            assert(h[k - 1] != h[l - 1]);
        } else {
            assert(0 <= h[l - 1]);
        }
    }
    assert(assigns(g, n, p, rows, cols, f));
}

/// A matching of all rows gives the first row a column with `p`, and the
/// other rows a matching over the columns that remain.
pub proof fn lemma_matchable_shrink(g: Seq<Piece>, n: int, p: Piece, rows: Seq<usize>, cols: Seq<usize>, f: Seq<int>)
    requires
        rows.len() > 0,
        assigns(g, n, p, rows, cols, f),
    ensures
        0 <= f[0] < cols.len(),
        cell_of(g, n, rows[0] as int, cols[f[0]] as int) == p,
        matchable(g, n, p, rows.drop_first(), cols.remove(f[0])),
{
    let i = f[0];
    let h = f.drop_first().map_values(|j: int| if j < i { j } else { j - 1 });
    assert forall|k: int| 0 <= k < h.len() implies 0 <= #[trigger] h[k] < cols.remove(i).len() && cell_of(
        g,
        n,
        rows.drop_first()[k] as int,
        cols.remove(i)[h[k]] as int,
    ) == p by {
        assert(f[k + 1] != f[0]);
        assert(0 <= f[k + 1] < cols.len());
    }
    assert forall|k: int, l: int| 0 <= k < l < h.len() implies h[k] != h[l] by {
        assert(f[k + 1] != f[l + 1]);
        assert(f[k + 1] != f[0]);
        assert(f[l + 1] != f[0]);
    }
    assert(assigns(g, n, p, rows.drop_first(), cols.remove(i), h));
}

/// `p` holds a transversal: every row can be matched to a distinct column
/// whose cell in that row holds `p`.
pub open spec fn wins(g: Seq<Piece>, n: nat, p: Piece) -> bool {
    matchable(g, n as int, p, indices(n), indices(n))
}

/// Row `r`, column `c` of an `n`-wide grid sits at `r * n + c`, inside the grid.
pub proof fn lemma_index(r: int, c: int, n: int)
    requires
        0 <= r < n,
        0 <= c < n,
    ensures
        0 <= r * n + c < n * n,
        (r * n + c) / n == r,
        (r * n + c) % n == c,
        r * n + n <= n * n,
{
    assert(0 <= r * n + c < n * n) by (nonlinear_arith)
        requires
            0 <= r < n,
            0 <= c < n,
    ;
    assert(r * n + n <= n * n) by (nonlinear_arith)
        requires
            0 <= r < n,
    ;
    vstd::arithmetic::div_mod::lemma_fundamental_div_mod_converse(r * n + c, n, r, c);
}

/// An index `i` of an `n * n` grid is row `i / n`, column `i % n`.
pub proof fn lemma_split_index(i: int, n: int)
    requires
        0 <= n,
        0 <= i < n * n,
    ensures
        0 <= i / n < n,
        0 <= i % n < n,
        (i / n) * n + i % n == i,
{
    assert(n > 0) by (nonlinear_arith)
        requires
            0 <= n,
            0 <= i < n * n,
    ;
    vstd::arithmetic::div_mod::lemma_fundamental_div_mod(i, n);
    vstd::arithmetic::div_mod::lemma_div_pos_is_pos(i, n);
    vstd::arithmetic::div_mod::lemma_mod_pos_bound(i, n);
    let q = i / n;
    let m = i % n;
    assert(q * n + m == i) by (nonlinear_arith)
        requires
            i == n * q + m,
    ;
    assert(q < n) by (nonlinear_arith)
        requires
            q * n + m == i,
            i < n * n,
            0 <= m,
            n > 0,
    ;
}

/// A square grid of cells, stored row by row.
#[derive(Clone, Debug, PartialEq, Eq, Hash)]
pub struct Board {
    pub size: usize,
    pub grid: Vec<Piece>,
}

impl Board {
    /// The grid holds exactly `size * size` cells.
    pub open spec fn wf(&self) -> bool {
        self.grid@.len() == self.size * self.size
    }

    pub open spec fn cell(&self, r: int, c: int) -> Piece {
        cell_of(self.grid@, self.size as int, r, c)
    }

    pub fn new(size: usize) -> (r: Board)
        requires
            size * size <= usize::MAX,
        ensures
            r.wf(),
            r.size == size,
            forall|i: int| 0 <= i < r.grid@.len() ==> r.grid@[i] == Piece::Empty,
    {
        let n: usize = size * size;
        let mut grid: Vec<Piece> = Vec::new();
        let mut i: usize = 0;
        while i < n
            invariant
                i <= n,
                grid@.len() == i,
                forall|j: int| 0 <= j < i ==> grid@[j] == Piece::Empty,
            decreases n - i,
        {
            grid.push(Piece::Empty);
            i = i + 1;
        }
        Board { size, grid }
    }

    /// A copy of this board.
    pub fn duplicate(&self) -> (r: Board)
        ensures
            r.size == self.size,
            r.grid@ == self.grid@,
    {
        let mut grid: Vec<Piece> = Vec::new();
        let mut i: usize = 0;
        while i < self.grid.len()
            invariant
                i <= self.grid@.len(),
                grid@ == self.grid@.subrange(0, i as int),
            decreases self.grid@.len() - i,
        {
            grid.push(self.grid[i]);
            i = i + 1;
            assert(grid@ =~= self.grid@.subrange(0, i as int));
        }
        assert(grid@ =~= self.grid@);
        Board { size: self.size, grid }
    }

    fn flat_index(&self, c: Coord) -> (r: usize)
        requires
            self.wf(),
            c.row < self.size,
            c.col < self.size,
        ensures
            r == c.row * self.size + c.col,
            r < self.grid@.len(),
    {
        let len = self.grid.len();
        proof {
            lemma_index(c.row as int, c.col as int, self.size as int);
            assert(c.row * self.size <= c.row * self.size + c.col);
        }
        c.row * self.size + c.col
    }

    pub fn piece_at(&self, c: Coord) -> (r: Result<Piece, GridError>)
        requires
            self.wf(),
        ensures
            c.row >= self.size ==> r == Err::<Piece, GridError>(
                GridError::RowIndexOutOfBounds { idx_found: c.row, board_size: self.size },
            ),
            c.row < self.size && c.col >= self.size ==> r == Err::<Piece, GridError>(
                GridError::ColIndexOutOfBounds { idx_found: c.col, board_size: self.size },
            ),
            c.row < self.size && c.col < self.size ==> r == Ok::<Piece, GridError>(
                self.cell(c.row as int, c.col as int),
            ),
    {
        if c.row >= self.size {
            Err(GridError::RowIndexOutOfBounds { idx_found: c.row, board_size: self.size })
        } else if c.col >= self.size {
            Err(GridError::ColIndexOutOfBounds { idx_found: c.col, board_size: self.size })
        } else {
            let idx = self.flat_index(c);
            Ok(self.grid[idx])
        }
    }

    pub fn place(&mut self, p: Piece, c: Coord) -> (r: Result<(), GridError>)
        requires
            old(self).wf(),
        ensures
            final(self).wf(),
            final(self).size == old(self).size,
            c.row >= old(self).size ==> r == Err::<(), GridError>(
                GridError::RowIndexOutOfBounds { idx_found: c.row, board_size: old(self).size },
            ),
            c.row < old(self).size && c.col >= old(self).size ==> r == Err::<(), GridError>(
                GridError::ColIndexOutOfBounds { idx_found: c.col, board_size: old(self).size },
            ),
            c.row < old(self).size && c.col < old(self).size && old(self).cell(
                c.row as int,
                c.col as int,
            ) != Piece::Empty ==> r == Err::<(), GridError>(GridError::SpaceOccupied(c)),
            r.is_err() ==> final(self).grid@ == old(self).grid@,
            r.is_ok() <==> (c.row < old(self).size && c.col < old(self).size && old(self).cell(
                c.row as int,
                c.col as int,
            ) == Piece::Empty),
            r.is_ok() ==> final(self).grid@ == old(self).grid@.update(
                c.row * old(self).size + c.col,
                p,
            ),
    {
        match self.piece_at(c) {
            Err(e) => Err(e),
            Ok(q) => {
                if q != Piece::Empty {
                    Err(GridError::SpaceOccupied(c))
                } else {
                    let idx = self.flat_index(c);
                    self.grid.set(idx, p);
                    Ok(())
                }
            },
        }
    }

    pub fn is_full(&self) -> (r: bool)
        ensures
            r == (forall|i: int| 0 <= i < self.grid@.len() ==> self.grid@[i] != Piece::Empty),
    {
        let mut i: usize = 0;
        while i < self.grid.len()
            invariant
                i <= self.grid@.len(),
                forall|j: int| 0 <= j < i ==> self.grid@[j] != Piece::Empty,
            decreases self.grid@.len() - i,
        {
            if self.grid[i] == Piece::Empty {
                return false;
            }
            i = i + 1;
        }
        true
    }

    pub fn invert(&mut self)
        ensures
            final(self).size == old(self).size,
            final(self).grid@ == inverted(old(self).grid@),
    {
        let mut i: usize = 0;
        while i < self.grid.len()
            invariant
                self.size == old(self).size,
                self.grid@.len() == old(self).grid@.len(),
                i <= self.grid@.len(),
                forall|j: int| 0 <= j < i ==> self.grid@[j] == inverse_of(old(self).grid@[j]),
                forall|j: int| i <= j < self.grid@.len() ==> self.grid@[j] == old(self).grid@[j],
            decreases self.grid@.len() - i,
        {
            let q = self.grid[i].inverse();
            self.grid.set(i, q);
            i = i + 1;
        }
        assert(self.grid@ =~= inverted(old(self).grid@));
    }

    pub fn inverse(&self) -> (r: Board)
        ensures
            r.size == self.size,
            r.grid@ == inverted(self.grid@),
    {
        let mut b = self.duplicate();
        b.invert();
        b
    }

    pub fn has_win(&self, piece: Piece) -> (r: bool)
        requires
            self.wf(),
        ensures
            r == wins(self.grid@, self.size as nat, piece),
    {
        let rows = index_list(self.size);
        let cols = index_list(self.size);
        self.has_win_recursive(piece, &rows, &cols)
    }

    fn has_win_recursive(&self, possible_winner: Piece, remaining_rows: &Vec<usize>, remaining_cols: &Vec<usize>) -> (r: bool)
        requires
            self.wf(),
            forall|i: int| 0 <= i < remaining_rows@.len() ==> remaining_rows@[i] < self.size,
            forall|i: int| 0 <= i < remaining_cols@.len() ==> remaining_cols@[i] < self.size,
        ensures
            r == matchable(self.grid@, self.size as int, possible_winner, remaining_rows@, remaining_cols@),
        decreases remaining_rows@.len(),
    {
        if remaining_rows.len() == 0 {
            assert(assigns(self.grid@, self.size as int, possible_winner, remaining_rows@, remaining_cols@, Seq::<int>::empty()));
            return true;
        }
        let row = remaining_rows[0];
        let mut rest: Vec<usize> = Vec::new();
        let mut k: usize = 1;
        while k < remaining_rows.len()
            invariant
                1 <= k <= remaining_rows@.len(),
                rest@ == remaining_rows@.subrange(1, k as int),
            decreases remaining_rows@.len() - k,
        {
            rest.push(remaining_rows[k]);
            k = k + 1;
            assert(rest@ =~= remaining_rows@.subrange(1, k as int));
        }
        assert(rest@ =~= remaining_rows@.drop_first());
        let ghost g = self.grid@;
        let ghost n = self.size as int;
        let mut i: usize = 0;
        while i < remaining_cols.len()
            invariant
                i <= remaining_cols@.len(),
                remaining_rows@.len() > 0,
                rest@ == remaining_rows@.drop_first(),
                row == remaining_rows@[0],
                row < self.size,
                self.wf(),
                g == self.grid@,
                n == self.size,
                forall|j: int| 0 <= j < remaining_cols@.len() ==> remaining_cols@[j] < self.size,
                forall|j: int| 0 <= j < rest@.len() ==> rest@[j] < self.size,
                forall|j: int|
                    0 <= j < i ==> !(cell_of(g, n, row as int, remaining_cols@[j] as int) == possible_winner
                        && #[trigger] matchable(g, n, possible_winner, rest@, remaining_cols@.remove(j))),
            decreases remaining_cols@.len() - i,
        {
            let col = remaining_cols[i];
            let idx = self.flat_index(Coord { row, col });
            if self.grid[idx] == possible_winner {
                let mut cols = copy_indices(remaining_cols);
                cols.remove(i);
                if self.has_win_recursive(possible_winner, &rest, &cols) {
                    assert(rest@ == remaining_rows@.drop_first());
                    proof {
                        lemma_matchable_extend(g, n, possible_winner, remaining_rows@, remaining_cols@, i as int);
                    }
                    return true;
                }
            }
            i = i + 1;
        }
        proof {
            if matchable(g, n, possible_winner, remaining_rows@, remaining_cols@) {
                let f = choose|f: Seq<int>| assigns(g, n, possible_winner, remaining_rows@, remaining_cols@, f);
                lemma_matchable_shrink(g, n, possible_winner, remaining_rows@, remaining_cols@, f);
                assert(!(cell_of(g, n, row as int, remaining_cols@[f[0]] as int) == possible_winner
                    && matchable(g, n, possible_winner, rest@, remaining_cols@.remove(f[0]))));
            }
        }
        false
    }
}

impl Board {
    pub fn transpose(&mut self)
        requires
            old(self).wf(),
        ensures
            final(self).wf(),
            final(self).size == old(self).size,
            final(self).grid@ == transposed_seq(old(self).grid@, old(self).size as int),
    {
        self.grid = transpose_vec(&self.grid, self.size);
    }

    pub fn transposed(&self) -> (r: Board)
        requires
            self.wf(),
        ensures
            r.wf(),
            r.size == self.size,
            r.grid@ == transposed_seq(self.grid@, self.size as int),
    {
        Board { size: self.size, grid: transpose_vec(&self.grid, self.size) }
    }

    /// One round of canonicalization: sort the rows by key, transpose, sort
    /// the rows again, and keep the smaller of that and its transpose.
    pub fn standardize(&mut self)
        requires
            old(self).wf(),
        ensures
            final(self).wf(),
            final(self).size == old(self).size,
            final(self).grid@ == standardized_grid(old(self).grid@, old(self).size as int),
    {
        let mut s = ScrambledBoard::from_board(self);
        let ghost g0 = s.grid@;
        proof {
            lemma_standardized_bare(g0, self.size as int);
        }
        s.standardize();
        self.grid = s.bare_grid();
    }

    /// Repeats `standardize` until the board is in canonical form.
    pub fn fully_standardize(&mut self)
        requires
            old(self).wf(),
        ensures
            final(self).wf(),
            final(self).size == old(self).size,
            final(self).grid@ == settle(old(self).grid@, old(self).size as int, usize::MAX as nat),
    {
        let mut rounds: usize = 0;
        while rounds < usize::MAX && !self.is_standard()
            invariant
                self.wf(),
                self.size == old(self).size,
                settle(self.grid@, self.size as int, (usize::MAX - rounds) as nat) == settle(
                    old(self).grid@,
                    self.size as int,
                    usize::MAX as nat,
                ),
            decreases usize::MAX - rounds,
        {
            self.standardize();
            rounds = rounds + 1;
        }
    }

    /// Whether the board is in canonical form: rows in key order, not above
    /// its transpose, and the rows of its transpose in key order.
    pub fn is_standard(&self) -> (r: bool)
        requires
            self.wf(),
        ensures
            r == is_standard_grid(self.grid@, self.size as int),
    {
        grid_is_standard(&self.grid, self.size)
    }

    /// Compares two rows of one length by their keys: `O` count, `X` count,
    /// `O` bitmask, `X` bitmask.
    pub fn row_cmp(left: &[Piece], right: &[Piece]) -> (r: Ordering)
        requires
            left@.len() == right@.len(),
        ensures
            r == row_order(left@, right@),
    {
        compare_rows(left, right)
    }
}

/// The vector `0, 1, ..., n - 1`.
fn index_list(n: usize) -> (r: Vec<usize>)
    ensures
        r@ == indices(n as nat),
{
    let mut v: Vec<usize> = Vec::new();
    let mut i: usize = 0;
    while i < n
        invariant
            i <= n,
            v@ == indices(i as nat),
        decreases n - i,
    {
        v.push(i);
        i = i + 1;
        assert(v@ =~= indices(i as nat));
    }
    v
}

fn copy_indices(v: &Vec<usize>) -> (r: Vec<usize>)
    ensures
        r@ == v@,
{
    let mut out: Vec<usize> = Vec::new();
    let mut i: usize = 0;
    while i < v.len()
        invariant
            i <= v@.len(),
            out@ == v@.subrange(0, i as int),
        decreases v@.len() - i,
    {
        out.push(v[i]);
        i = i + 1;
        assert(out@ =~= v@.subrange(0, i as int));
    }
    assert(out@ =~= v@);
    out
}

} // verus!
