use crate::board::{lemma_index, lemma_split_index, Board, GridError};
use crate::canon::{
    copy_vec, grid_is_standard, is_standard_grid, lemma_pass_bare, lemma_sort_from, lemma_sort_len, rows_of,
    settle, sort_grid, sort_space_pass, sort_space_rows, standardized_grid, standardized_spaces, transpose_vec,
    transposed_seq,
};
use crate::order::{
    bare, compare_rows, count_in, count_of, lex_cmp, lex_less, mask_in, mask_of, pieces_of, row_order,
};
use crate::space::{inverse_of, Coord, Piece, Space};
use std::cmp::Ordering;
use vstd::prelude::*;

verus! {

/// Space `x` lies on an `n`-wide board `b` and holds the piece there, or
/// its inverse.
pub open spec fn fits(x: Space, b: Seq<Piece>, n: int) -> bool {
    &&& x.coord.row < n
    &&& x.coord.col < n
    &&& (x.piece == b[x.coord.row * n + x.coord.col] || x.piece == inverse_of(
        b[x.coord.row * n + x.coord.col],
    ))
}

/// Every space of `g` fits board `b`.
pub open spec fn all_fit(g: Seq<Space>, b: Seq<Piece>, n: int) -> bool {
    forall|i: int| 0 <= i < g.len() ==> fits(#[trigger] g[i], b, n)
}

proof fn lemma_transpose_fit(g: Seq<Space>, b: Seq<Piece>, n: int)
    requires
        n >= 0,
        g.len() == n * n,
        all_fit(g, b, n),
    ensures
        all_fit(transposed_seq(g, n), b, n),
        transposed_seq(g, n).len() == n * n,
{
    assert forall|i: int| 0 <= i < n * n implies fits(#[trigger] transposed_seq(g, n)[i], b, n) by {
        lemma_split_index(i, n);
        lemma_index(i % n, i / n, n);
    }
}

proof fn lemma_pass_fit(g: Seq<Space>, b: Seq<Piece>, n: int)
    requires
        n >= 0,
        g.len() == n * n,
        all_fit(g, b, n),
    ensures
        all_fit(sort_space_pass(g, n), b, n),
        sort_space_pass(g, n).len() == n * n,
{
    let rs = rows_of(g, n);
    lemma_sort_len(rs);
    lemma_sort_from(rs);
    lemma_pass_bare(g, n);
    let ss = sort_space_rows(rs);
    assert forall|i: int| 0 <= i < n * n implies fits(#[trigger] sort_space_pass(g, n)[i], b, n) by {
        lemma_split_index(i, n);
        let j = choose|j: int| 0 <= j < rs.len() && ss[i / n] == rs[j];
        lemma_index(j, 0, n);
        lemma_index(j, i % n, n);
        assert(sort_space_pass(g, n)[i] == g[j * n + i % n]);
    }
}

proof fn lemma_standardized_fit(g: Seq<Space>, b: Seq<Piece>, n: int)
    requires
        n >= 0,
        g.len() == n * n,
        all_fit(g, b, n),
    ensures
        all_fit(standardized_spaces(g, n), b, n),
        standardized_spaces(g, n).len() == n * n,
{
    lemma_pass_fit(g, b, n);
    let a1 = sort_space_pass(g, n);
    lemma_transpose_fit(a1, b, n);
    let t1 = transposed_seq(a1, n);
    lemma_pass_fit(t1, b, n);
    let a = sort_space_pass(t1, n);
    lemma_transpose_fit(a, b, n);
}

/// Every space of `g` carries a coordinate of an `n`-wide board, and no
/// two carry the same one.
pub open spec fn coords_ok(g: Seq<Space>, n: int) -> bool {
    &&& forall|i: int| 0 <= i < g.len() ==> (#[trigger] g[i]).coord.row < n && g[i].coord.col < n
    &&& crate::canon::coords_distinct(g)
}

proof fn lemma_transpose_coords(g: Seq<Space>, n: int)
    requires
        n >= 0,
        g.len() == n * n,
        coords_ok(g, n),
    ensures
        coords_ok(transposed_seq(g, n), n),
{
    assert forall|i: int| 0 <= i < n * n implies (#[trigger] transposed_seq(g, n)[i]).coord.row < n
        && transposed_seq(g, n)[i].coord.col < n by {
        lemma_split_index(i, n);
        lemma_index(i % n, i / n, n);
    }
    crate::canon::lemma_transpose_distinct(g, n);
}

proof fn lemma_pass_coords(g: Seq<Space>, n: int)
    requires
        n >= 0,
        g.len() == n * n,
        coords_ok(g, n),
    ensures
        coords_ok(sort_space_pass(g, n), n),
        sort_space_pass(g, n).len() == n * n,
{
    let rs = rows_of(g, n);
    lemma_sort_len(rs);
    lemma_sort_from(rs);
    lemma_pass_bare(g, n);
    let ss = sort_space_rows(rs);
    assert forall|i: int| 0 <= i < n * n implies (#[trigger] sort_space_pass(g, n)[i]).coord.row < n
        && sort_space_pass(g, n)[i].coord.col < n by {
        lemma_split_index(i, n);
        let j = choose|j: int| 0 <= j < rs.len() && ss[i / n] == rs[j];
        lemma_index(j, 0, n);
        lemma_index(j, i % n, n);
        assert(sort_space_pass(g, n)[i] == g[j * n + i % n]);
    }
    crate::canon::lemma_pass_distinct(g, n);
}

/// One round of canonicalization keeps every coordinate on the board and
/// distinct.
pub proof fn lemma_standardized_coords(g: Seq<Space>, n: int)
    requires
        n >= 0,
        g.len() == n * n,
        coords_ok(g, n),
    ensures
        coords_ok(standardized_spaces(g, n), n),
{
    lemma_pass_coords(g, n);
    let a1 = sort_space_pass(g, n);
    lemma_transpose_coords(a1, n);
    let t1 = transposed_seq(a1, n);
    lemma_pass_coords(t1, n);
    let a = sort_space_pass(t1, n);
    lemma_transpose_coords(a, n);
}

proof fn lemma_transpose_bare(g: Seq<Space>, n: int)
    requires
        n >= 0,
        g.len() == n * n,
    ensures
        bare(transposed_seq(g, n)) == transposed_seq(bare(g), n),
{
    assert forall|i: int| 0 <= i < n * n implies bare(transposed_seq(g, n))[i] == transposed_seq(bare(g), n)[i] by {
        lemma_split_index(i, n);
        lemma_index(i % n, i / n, n);
    }
    assert(bare(transposed_seq(g, n)) =~= transposed_seq(bare(g), n));
}

/// The pieces of a canonicalized grid of spaces are the canonicalized pieces.
pub proof fn lemma_standardized_bare(g: Seq<Space>, n: int)
    requires
        n >= 0,
        g.len() == n * n,
    ensures
        bare(standardized_spaces(g, n)) == standardized_grid(bare(g), n),
        standardized_spaces(g, n).len() == n * n,
{
    lemma_pass_bare(g, n);
    let a1 = sort_space_pass(g, n);
    lemma_transpose_bare(a1, n);
    let t1 = transposed_seq(a1, n);
    lemma_pass_bare(t1, n);
    let a = sort_space_pass(t1, n);
    lemma_transpose_bare(a, n);
}

/// A board whose spaces carry the coordinates they had on the board they
/// were taken from, so that a position reached by reordering rows and
/// columns can be mapped back.
#[derive(Clone, Debug)]
pub struct ScrambledBoard {
    pub size: usize,
    pub grid: Vec<Space>,
}

impl ScrambledBoard {
    pub open spec fn wf(&self) -> bool {
        self.grid@.len() == self.size * self.size
    }

    /// The pieces, in this board's own layout.
    pub open spec fn pieces(&self) -> Seq<Piece> {
        bare(self.grid@)
    }

    /// The coordinates the spaces carry are cells of the board, each carried
    /// once.
    pub open spec fn coords_valid(&self) -> bool {
        coords_ok(self.grid@, self.size as int)
    }

    /// Every space lies on `b` and holds the piece of `b` there, or its inverse.
    pub open spec fn tracks(&self, b: Seq<Piece>) -> bool {
        all_fit(self.grid@, b, self.size as int)
    }

    pub fn from_board(b: &Board) -> (r: ScrambledBoard)
        requires
            b.wf(),
        ensures
            r.wf(),
            r.size == b.size,
            r.pieces() == b.grid@,
            r.tracks(b.grid@),
            r.coords_valid(),
            forall|i: int|
                0 <= i < r.grid@.len() ==> (#[trigger] r.grid@[i]).coord.row == i / (b.size as int)
                    && r.grid@[i].coord.col == i % (b.size as int),
    {
        let n = b.size;
        let mut grid: Vec<Space> = Vec::new();
        let mut r: usize = 0;
        let len = b.grid.len();
        while r < n
            invariant
                r <= n,
                b.wf(),
                n == b.size,
                grid@.len() == r * n,
                r * n <= n * n,
                n * n <= usize::MAX,
                forall|i: int| 0 <= i < grid@.len() ==> (#[trigger] grid@[i]).piece == b.grid@[i],
                forall|i: int|
                    0 <= i < grid@.len() ==> (#[trigger] grid@[i]).coord.row == i / (n as int)
                        && grid@[i].coord.col == i % (n as int),
            decreases n - r,
        {
            let mut c: usize = 0;
            proof {
                lemma_index(r as int, 0, n as int);
            }
            while c < n
                invariant
                    r < n,
                    c <= n,
                    b.wf(),
                    n == b.size,
                    r * n + n <= n * n,
                    n * n <= usize::MAX,
                    grid@.len() == r * n + c,
                    forall|i: int| 0 <= i < grid@.len() ==> (#[trigger] grid@[i]).piece == b.grid@[i],
                    forall|i: int|
                        0 <= i < grid@.len() ==> (#[trigger] grid@[i]).coord.row == i / (n as int)
                            && grid@[i].coord.col == i % (n as int),
                decreases n - c,
            {
                proof {
                    lemma_index(r as int, c as int, n as int);
                }
                grid.push(Space { piece: b.grid[r * n + c], coord: Coord { row: r, col: c } });
                c = c + 1;
            }
            assert(r * n + n == (r + 1) * n) by (nonlinear_arith);
            r = r + 1;
        }
        let s = ScrambledBoard { size: n, grid };
        assert(s.pieces() =~= b.grid@);
        assert forall|i: int| 0 <= i < s.grid@.len() implies fits(#[trigger] s.grid@[i], b.grid@, n as int) by {
            lemma_split_index(i, n as int);
        }
        assert forall|i: int, j: int| 0 <= i < j < s.grid@.len() implies s.grid@[i].coord != s.grid@[j].coord by {
            lemma_split_index(i, n as int);
            lemma_split_index(j, n as int);
        }
        s
    }

    /// The pieces in this board's own layout.
    pub fn bare_grid(&self) -> (r: Vec<Piece>)
        ensures
            r@ == self.pieces(),
    {
        pieces_of(self.grid.as_slice())
    }

    /// The board in this board's own layout.
    pub fn to_board_scrambled(&self) -> (r: Board)
        requires
            self.wf(),
        ensures
            r.wf(),
            r.size == self.size,
            r.grid@ == self.pieces(),
    {
        Board { size: self.size, grid: self.bare_grid() }
    }

    /// The board with every piece put back at the coordinate it carries.
    pub fn to_original_board(&self) -> (r: Board)
        requires
            self.wf(),
            self.coords_valid(),
        ensures
            r.wf(),
            r.size == self.size,
            forall|i: int|
                0 <= i < self.grid@.len() ==> r.cell(
                    (#[trigger] self.grid@[i]).coord.row as int,
                    self.grid@[i].coord.col as int,
                ) == self.grid@[i].piece,
    {
        let n = self.size;
        let len = self.grid.len();
        let mut b = Board::new(n);
        let mut i: usize = 0;
        while i < self.grid.len()
            invariant
                self.wf(),
                n == self.size,
                b.wf(),
                b.size == n,
                i <= self.grid@.len(),
                self.coords_valid(),
                forall|k: int|
                    0 <= k < i ==> b.cell(
                        (#[trigger] self.grid@[k]).coord.row as int,
                        self.grid@[k].coord.col as int,
                    ) == self.grid@[k].piece,
            decreases self.grid@.len() - i,
        {
            let s = self.grid[i];
            proof {
                lemma_index(s.coord.row as int, s.coord.col as int, n as int);
            }
            b.grid.set(s.coord.row * n + s.coord.col, s.piece);
            proof {
                assert forall|k: int| 0 <= k < i + 1 implies b.cell(
                    (#[trigger] self.grid@[k]).coord.row as int,
                    self.grid@[k].coord.col as int,
                ) == self.grid@[k].piece by {
                    if k < i {
                        let ck = self.grid@[k].coord;
                        assert(ck != s.coord);
                        lemma_index(ck.row as int, ck.col as int, n as int);
                        if ck.row * n + ck.col == s.coord.row * n + s.coord.col {
                            assert(ck.row == s.coord.row);
                            assert(ck.col == s.coord.col);
                        }
                    }
                }
            }
            i = i + 1;
        }
        b
    }

    /// The board with every piece put back at the coordinate it carries.
    pub fn to_board(&self) -> (r: Board)
        requires
            self.wf(),
            self.coords_valid(),
        ensures
            r.wf(),
            r.size == self.size,
            forall|i: int|
                0 <= i < self.grid@.len() ==> r.cell(
                    (#[trigger] self.grid@[i]).coord.row as int,
                    self.grid@[i].coord.col as int,
                ) == self.grid@[i].piece,
    {
        self.to_original_board()
    }

    /// The spaces, row by row in this board's own layout.
    pub fn spaces(&self) -> (r: &[Space])
        ensures
            r@ == self.grid@,
    {
        self.grid.as_slice()
    }

    pub fn space_at(&self, c: Coord) -> (r: Result<Space, GridError>)
        requires
            self.wf(),
        ensures
            c.row >= self.size ==> r == Err::<Space, GridError>(
                GridError::RowIndexOutOfBounds { idx_found: c.row, board_size: self.size },
            ),
            c.row < self.size && c.col >= self.size ==> r == Err::<Space, GridError>(
                GridError::ColIndexOutOfBounds { idx_found: c.col, board_size: self.size },
            ),
            c.row < self.size && c.col < self.size ==> r == Ok::<Space, GridError>(
                self.grid@[c.row * self.size + c.col],
            ),
    {
        if c.row >= self.size {
            return Err(GridError::RowIndexOutOfBounds { idx_found: c.row, board_size: self.size });
        }
        if c.col >= self.size {
            return Err(GridError::ColIndexOutOfBounds { idx_found: c.col, board_size: self.size });
        }
        let len = self.grid.len();
        proof {
            lemma_index(c.row as int, c.col as int, self.size as int);
        }
        Ok(self.grid[c.row * self.size + c.col])
    }

    pub fn piece_at(&self, c: Coord) -> (r: Result<Piece, GridError>)
        requires
            self.wf(),
        ensures
            c.row >= self.size ==> r == Err::<Piece, GridError>(
                GridError::RowIndexOutOfBounds { idx_found: c.row, board_size: self.size },
            ),
            c.row < self.size && c.col >= self.size ==> r == Err::<Piece, GridError>(
                GridError::ColIndexOutOfBounds { idx_found: c.col, board_size: self.size },
            ),
            c.row < self.size && c.col < self.size ==> r == Ok::<Piece, GridError>(
                self.grid@[c.row * self.size + c.col].piece,
            ),
    {
        match self.space_at(c) {
            Ok(s) => Ok(s.piece),
            Err(e) => Err(e),
        }
    }

    /// Puts `p` on the empty space at `c` of this board's own layout.
    pub fn place(&mut self, p: Piece, c: Coord) -> (r: Result<(), GridError>)
        requires
            old(self).wf(),
        ensures
            final(self).wf(),
            final(self).size == old(self).size,
            c.row >= old(self).size ==> r == Err::<(), GridError>(
                GridError::RowIndexOutOfBounds { idx_found: c.row, board_size: old(self).size },
            ),
            c.row < old(self).size && c.col >= old(self).size ==> r == Err::<(), GridError>(
                GridError::ColIndexOutOfBounds { idx_found: c.col, board_size: old(self).size },
            ),
            c.row < old(self).size && c.col < old(self).size && old(self).grid@[c.row * old(self).size
                + c.col].piece != Piece::Empty ==> r == Err::<(), GridError>(GridError::SpaceOccupied(c)),
            r.is_err() ==> final(self).grid@ == old(self).grid@,
            r.is_ok() <==> (c.row < old(self).size && c.col < old(self).size && old(self).grid@[c.row
                * old(self).size + c.col].piece == Piece::Empty),
            r.is_ok() ==> final(self).grid@ == old(self).grid@.update(
                c.row * old(self).size + c.col,
                Space { piece: p, coord: old(self).grid@[c.row * old(self).size + c.col].coord },
            ),
            old(self).coords_valid() ==> final(self).coords_valid(),
    {
        let len = self.grid.len();
        match self.space_at(c) {
            Err(e) => Err(e),
            Ok(s) => {
                if s.piece != Piece::Empty {
                    Err(GridError::SpaceOccupied(c))
                } else {
                    proof {
                        lemma_index(c.row as int, c.col as int, self.size as int);
                    }
                    self.grid.set(c.row * self.size + c.col, Space { piece: p, coord: s.coord });
                    proof {
                        if old(self).coords_valid() {
                            assert forall|a: int, d: int| 0 <= a < d < self.grid@.len() implies self.grid@[a].coord
                                != self.grid@[d].coord by {
                                assert(old(self).grid@[a].coord != old(self).grid@[d].coord);
                            }
                        }
                    }
                    Ok(())
                }
            },
        }
    }

    pub fn transpose(&mut self)
        requires
            old(self).wf(),
        ensures
            final(self).wf(),
            final(self).size == old(self).size,
            final(self).grid@ == transposed_seq(old(self).grid@, old(self).size as int),
            forall|b: Seq<Piece>| old(self).tracks(b) ==> #[trigger] final(self).tracks(b),
            old(self).coords_valid() ==> final(self).coords_valid(),
    {
        let t = transpose_vec(&self.grid, self.size);
        self.grid = t;
        proof {
            if old(self).coords_valid() {
                lemma_transpose_coords(old(self).grid@, self.size as int);
            }
            assert forall|b: Seq<Piece>| old(self).tracks(b) implies #[trigger] self.tracks(b) by {
                lemma_transpose_fit(old(self).grid@, b, self.size as int);
            }
        }
    }

    pub fn transposed(&self) -> (r: ScrambledBoard)
        requires
            self.wf(),
        ensures
            r.wf(),
            r.size == self.size,
            r.grid@ == transposed_seq(self.grid@, self.size as int),
            self.coords_valid() ==> r.coords_valid(),
    {
        proof {
            if self.coords_valid() {
                lemma_transpose_coords(self.grid@, self.size as int);
            }
        }
        ScrambledBoard { size: self.size, grid: transpose_vec(&self.grid, self.size) }
    }

    pub fn invert(&mut self)
        ensures
            final(self).size == old(self).size,
            final(self).grid@.len() == old(self).grid@.len(),
            forall|i: int|
                0 <= i < final(self).grid@.len() ==> #[trigger] final(self).grid@[i] == (Space {
                    piece: inverse_of(old(self).grid@[i].piece),
                    coord: old(self).grid@[i].coord,
                }),
            forall|b: Seq<Piece>| old(self).tracks(b) ==> #[trigger] final(self).tracks(b),
            old(self).coords_valid() ==> final(self).coords_valid(),
    {
        let mut i: usize = 0;
        while i < self.grid.len()
            invariant
                self.size == old(self).size,
                self.grid@.len() == old(self).grid@.len(),
                i <= self.grid@.len(),
                forall|j: int|
                    0 <= j < i ==> #[trigger] self.grid@[j] == (Space {
                        piece: inverse_of(old(self).grid@[j].piece),
                        coord: old(self).grid@[j].coord,
                    }),
                forall|j: int| i <= j < self.grid@.len() ==> self.grid@[j] == old(self).grid@[j],
            decreases self.grid@.len() - i,
        {
            let s = self.grid[i];
            self.grid.set(i, Space { piece: s.piece.inverse(), coord: s.coord });
            i = i + 1;
        }
        proof {
            if old(self).coords_valid() {
                assert forall|a: int, c: int| 0 <= a < c < self.grid@.len() implies self.grid@[a].coord
                    != self.grid@[c].coord by {
                    assert(old(self).grid@[a].coord != old(self).grid@[c].coord);
                }
            }
            assert forall|b: Seq<Piece>| old(self).tracks(b) implies #[trigger] self.tracks(b) by {
                assert forall|j: int| 0 <= j < self.grid@.len() implies fits(#[trigger] self.grid@[j], b, self.size as int) by {
                    assert(fits(old(self).grid@[j], b, self.size as int));
                }
            }
        }
    }

    pub fn inverse(&self) -> (r: ScrambledBoard)
        ensures
            r.size == self.size,
            r.grid@.len() == self.grid@.len(),
            forall|i: int|
                0 <= i < r.grid@.len() ==> #[trigger] r.grid@[i] == (Space {
                    piece: inverse_of(self.grid@[i].piece),
                    coord: self.grid@[i].coord,
                }),
            self.coords_valid() ==> r.coords_valid(),
    {
        let mut s = self.duplicate();
        s.invert();
        s
    }

    /// A copy of this board.
    pub fn duplicate(&self) -> (r: ScrambledBoard)
        ensures
            r.size == self.size,
            r.grid@ == self.grid@,
            self.coords_valid() ==> r.coords_valid(),
    {
        ScrambledBoard { size: self.size, grid: copy_vec(&self.grid) }
    }
}

impl ScrambledBoard {
    /// One round of canonicalization: sort the rows by key, transpose, sort
    /// the rows again, and keep the smaller of that and its transpose.
    pub fn standardize(&mut self)
        requires
            old(self).wf(),
        ensures
            final(self).wf(),
            final(self).size == old(self).size,
            final(self).grid@ == standardized_spaces(old(self).grid@, old(self).size as int),
            final(self).pieces() == standardized_grid(old(self).pieces(), old(self).size as int),
            forall|b: Seq<Piece>| old(self).tracks(b) ==> #[trigger] final(self).tracks(b),
            old(self).coords_valid() ==> final(self).coords_valid(),
    {
        let n = self.size;
        let a = sort_grid(&self.grid, n);
        let t = transpose_vec(&a, n);
        let a2 = sort_grid(&t, n);
        let t2 = transpose_vec(&a2, n);
        let pa = pieces_of(a2.as_slice());
        let pt = pieces_of(t2.as_slice());
        if matches!(lex_cmp(&pt, &pa), Ordering::Less) {
            self.grid = t2;
        } else {
            self.grid = a2;
        }
        proof {
            if old(self).coords_valid() {
                lemma_standardized_coords(old(self).grid@, n as int);
            }
            lemma_standardized_bare(old(self).grid@, n as int);
            assert forall|b: Seq<Piece>| old(self).tracks(b) implies #[trigger] self.tracks(b) by {
                lemma_standardized_fit(old(self).grid@, b, n as int);
            }
        }
    }

    /// A copy of this board after one round of canonicalization.
    pub fn standardized(&self) -> (r: ScrambledBoard)
        requires
            self.wf(),
        ensures
            r.wf(),
            r.size == self.size,
            r.grid@ == standardized_spaces(self.grid@, self.size as int),
            r.pieces() == standardized_grid(self.pieces(), self.size as int),
            forall|b: Seq<Piece>| self.tracks(b) ==> #[trigger] r.tracks(b),
            self.coords_valid() ==> r.coords_valid(),
    {
        let mut s = self.duplicate();
        s.standardize();
        s
    }

    /// This board after one round of canonicalization.
    pub fn into_standardized(self) -> (r: ScrambledBoard)
        requires
            self.wf(),
        ensures
            r.wf(),
            r.size == self.size,
            r.grid@ == standardized_spaces(self.grid@, self.size as int),
            r.pieces() == standardized_grid(self.pieces(), self.size as int),
            forall|b: Seq<Piece>| self.tracks(b) ==> #[trigger] r.tracks(b),
            self.coords_valid() ==> r.coords_valid(),
    {
        let mut s = self;
        s.standardize();
        s
    }

    /// Whether the pieces are in canonical form.
    pub fn is_standard(&self) -> (r: bool)
        requires
            self.wf(),
        ensures
            r == is_standard_grid(self.pieces(), self.size as int),
    {
        let g = self.bare_grid();
        grid_is_standard(&g, self.size)
    }

    /// Repeats `standardize` until the pieces are in canonical form.
    pub fn fully_standardize(&mut self)
        requires
            old(self).wf(),
        ensures
            final(self).wf(),
            final(self).size == old(self).size,
            final(self).pieces() == settle(old(self).pieces(), old(self).size as int, usize::MAX as nat),
            final(self).grid@ == crate::canon::settle_spaces(old(self).grid@, old(self).size as int, usize::MAX as nat),
            forall|b: Seq<Piece>| old(self).tracks(b) ==> #[trigger] final(self).tracks(b),
            old(self).coords_valid() ==> final(self).coords_valid(),
    {
        let mut rounds: usize = 0;
        while rounds < usize::MAX && !self.is_standard()
            invariant
                self.wf(),
                self.size == old(self).size,
                crate::canon::settle_spaces(self.grid@, self.size as int, (usize::MAX - rounds) as nat)
                    == crate::canon::settle_spaces(old(self).grid@, self.size as int, usize::MAX as nat),
                settle(self.pieces(), self.size as int, (usize::MAX - rounds) as nat) == settle(
                    old(self).pieces(),
                    self.size as int,
                    usize::MAX as nat,
                ),
                forall|b: Seq<Piece>| old(self).tracks(b) ==> #[trigger] self.tracks(b),
                old(self).coords_valid() ==> self.coords_valid(),
            decreases usize::MAX - rounds,
        {
            self.standardize();
            rounds = rounds + 1;
        }
    }
}

/// Compares two rows of spaces of one length by the keys of their pieces.
pub fn row_cmp(left: &[Space], right: &[Space]) -> (r: Ordering)
    requires
        left@.len() == right@.len(),
    ensures
        r == row_order(bare(left@), bare(right@)),
{
    let l = pieces_of(left);
    let rt = pieces_of(right);
    compare_rows(l.as_slice(), rt.as_slice())
}

/// Compares the pieces of two rows of one length in lexicographic order.
pub fn bare_row_cmp(left: &[Space], right: &[Space]) -> (r: Ordering)
    requires
        left@.len() == right@.len(),
    ensures
        r == Ordering::Less <==> lex_less(bare(left@), bare(right@)),
        r == Ordering::Greater <==> lex_less(bare(right@), bare(left@)),
        r == Ordering::Equal <==> bare(left@) == bare(right@),
{
    let l = pieces_of(left);
    let rt = pieces_of(right);
    lex_cmp(&l, &rt)
}

/// How many spaces of `row` hold `p`.
pub fn count(row: &[Space], p: Piece) -> (r: usize)
    ensures
        r == count_of(bare(row@), p),
{
    let v = pieces_of(row);
    count_in(v.as_slice(), p)
}

/// The bitmask of the positions of `p` in `row`: `2^i` for each index `i`
/// whose space holds `p`.
pub fn weight_positions(row: &[Space], p: Piece) -> (r: u64)
    requires
        row@.len() < 64,
    ensures
        r == mask_of(bare(row@), p),
{
    let v = pieces_of(row);
    mask_in(v.as_slice(), p)
}

} // verus!
