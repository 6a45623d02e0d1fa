//! Sorting the rows of a grid and reflecting it: the steps of one round of
//! canonicalization, over grids of spaces and over grids of pieces.
use crate::board::{lemma_index, lemma_split_index};
use crate::order::{bare, compare_rows, lex_cmp, lex_less, pieces_of, row_key, key_less};
use crate::space::{Piece, Space};
use std::cmp::Ordering;
use vstd::prelude::*;

verus! {

/// The rows of a row-major grid of width `n`.
pub open spec fn rows_of<T>(g: Seq<T>, n: int) -> Seq<Seq<T>> {
    Seq::new(n as nat, |r: int| g.subrange(r * n, r * n + n))
}

/// Rows of width `n` laid end to end.
pub open spec fn join<T>(rows: Seq<Seq<T>>, n: int) -> Seq<T> {
    Seq::new((rows.len() * n) as nat, |i: int| rows[i / n][i % n])
}

/// A grid of width `n` reflected in its main diagonal.
pub open spec fn transposed_seq<T>(g: Seq<T>, n: int) -> Seq<T> {
    Seq::new(g.len(), |i: int| g[(i % n) * n + i / n])
}

/// The views of a sequence of vectors.
pub open spec fn views<T>(v: Seq<Vec<T>>) -> Seq<Seq<T>> {
    v.map_values(|x: Vec<T>| x@)
}

/// Inserts row `x` into rows `t`, after every row whose key is not above its own.
pub open spec fn insert_row(t: Seq<Seq<Piece>>, x: Seq<Piece>) -> Seq<Seq<Piece>>
    decreases t.len(),
{
    if t.len() == 0 {
        seq![x]
    } else if key_less(row_key(x), row_key(t.last())) {
        insert_row(t.drop_last(), x).push(t.last())
    } else {
        t.push(x)
    }
}

/// Rows sorted by key, by insertion; rows with equal keys keep their order.
pub open spec fn sort_rows(s: Seq<Seq<Piece>>) -> Seq<Seq<Piece>>
    decreases s.len(),
{
    if s.len() == 0 {
        s
    } else {
        insert_row(sort_rows(s.drop_last()), s.last())
    }
}

/// `insert_row` over rows of spaces, keyed by their pieces.
pub open spec fn insert_space_row(t: Seq<Seq<Space>>, x: Seq<Space>) -> Seq<Seq<Space>>
    decreases t.len(),
{
    if t.len() == 0 {
        seq![x]
    } else if key_less(row_key(bare(x)), row_key(bare(t.last()))) {
        insert_space_row(t.drop_last(), x).push(t.last())
    } else {
        t.push(x)
    }
}

/// `sort_rows` over rows of spaces, keyed by their pieces.
pub open spec fn sort_space_rows(s: Seq<Seq<Space>>) -> Seq<Seq<Space>>
    decreases s.len(),
{
    if s.len() == 0 {
        s
    } else {
        insert_space_row(sort_space_rows(s.drop_last()), s.last())
    }
}

/// The grid with its rows sorted by key.
pub open spec fn sort_pass(g: Seq<Piece>, n: int) -> Seq<Piece> {
    join(sort_rows(rows_of(g, n)), n)
}

/// One round of canonicalization: sort the rows, transpose, sort the rows
/// again, and keep the smaller of the result and its transpose.
pub open spec fn standardized_grid(g: Seq<Piece>, n: int) -> Seq<Piece> {
    let a = sort_pass(transposed_seq(sort_pass(g, n), n), n);
    let t = transposed_seq(a, n);
    if lex_less(t, a) {
        t
    } else {
        a
    }
}

/// The rows of a grid are in key order.
pub open spec fn rows_sorted(g: Seq<Piece>, n: int) -> bool {
    forall|r: int|
        0 <= r < n - 1 ==> !#[trigger] key_less(
            row_key(rows_of(g, n)[r + 1]),
            row_key(rows_of(g, n)[r]),
        )
}

/// A grid is canonical: its rows are sorted, it is not above its transpose,
/// and the rows of its transpose are sorted.
pub open spec fn is_standard_grid(g: Seq<Piece>, n: int) -> bool {
    rows_sorted(g, n) && !lex_less(transposed_seq(g, n), g) && rows_sorted(transposed_seq(g, n), n)
}

/// `sort_pass` over spaces.
pub open spec fn sort_space_pass(g: Seq<Space>, n: int) -> Seq<Space> {
    join(sort_space_rows(rows_of(g, n)), n)
}

/// `standardized_grid` over spaces, each carrying its coordinate along.
pub open spec fn standardized_spaces(g: Seq<Space>, n: int) -> Seq<Space> {
    let a = sort_space_pass(transposed_seq(sort_space_pass(g, n), n), n);
    let t = transposed_seq(a, n);
    if lex_less(bare(t), bare(a)) {
        t
    } else {
        a
    }
}

proof fn lemma_insert_bare(t: Seq<Seq<Space>>, x: Seq<Space>)
    ensures
        insert_space_row(t, x).map_values(|r: Seq<Space>| bare(r)) == insert_row(
            t.map_values(|r: Seq<Space>| bare(r)),
            bare(x),
        ),
    decreases t.len(),
{
    let bt = t.map_values(|r: Seq<Space>| bare(r));
    if t.len() == 0 {
        assert(insert_space_row(t, x).map_values(|r: Seq<Space>| bare(r)) =~= seq![bare(x)]);
    } else {
        assert(bt.drop_last() =~= t.drop_last().map_values(|r: Seq<Space>| bare(r)));
        assert(bt.last() == bare(t.last()));
        if key_less(row_key(bare(x)), row_key(bare(t.last()))) {
            lemma_insert_bare(t.drop_last(), x);
            assert(insert_space_row(t, x).map_values(|r: Seq<Space>| bare(r)) =~= insert_space_row(
                t.drop_last(),
                x,
            ).map_values(|r: Seq<Space>| bare(r)).push(bare(t.last())));
        } else {
            assert(t.push(x).map_values(|r: Seq<Space>| bare(r)) =~= bt.push(bare(x)));
        }
    }
}

proof fn lemma_sort_bare(s: Seq<Seq<Space>>)
    ensures
        sort_space_rows(s).map_values(|r: Seq<Space>| bare(r)) == sort_rows(
            s.map_values(|r: Seq<Space>| bare(r)),
        ),
    decreases s.len(),
{
    let bs = s.map_values(|r: Seq<Space>| bare(r));
    if s.len() == 0 {
        assert(sort_space_rows(s).map_values(|r: Seq<Space>| bare(r)) =~= bs);
    } else {
        lemma_sort_bare(s.drop_last());
        assert(bs.drop_last() =~= s.drop_last().map_values(|r: Seq<Space>| bare(r)));
        lemma_insert_bare(sort_space_rows(s.drop_last()), s.last());
    }
}

pub(crate) proof fn lemma_pass_bare(g: Seq<Space>, n: int)
    requires
        n >= 0,
        g.len() == n * n,
    ensures
        bare(sort_space_pass(g, n)) == sort_pass(bare(g), n),
        sort_space_pass(g, n).len() == n * n,
{
    let rs = rows_of(g, n);
    let brs = rs.map_values(|r: Seq<Space>| bare(r));
    assert(brs =~= rows_of(bare(g), n)) by {
        assert forall|r: int| 0 <= r < n implies #[trigger] brs[r] =~= rows_of(bare(g), n)[r] by {
            lemma_index(r, 0, n);
        }
    }
    lemma_sort_bare(rs);
    lemma_sort_len(rs);
    lemma_sort_from(rs);
    let ss = sort_space_rows(rs);
    assert forall|i: int| 0 <= i < n * n implies 0 <= #[trigger] (i / n) < n && ss[i / n].len() == n by {
        lemma_split_index(i, n);
        let j = choose|j: int| 0 <= j < rs.len() && ss[i / n] == rs[j];
        lemma_index(j, 0, n);
    }
    assert forall|i: int| 0 <= i < n * n implies bare(join(ss, n))[i] == join(
        ss.map_values(|r: Seq<Space>| bare(r)),
        n,
    )[i] by {
        lemma_split_index(i, n);
        assert(0 <= i / n < n && ss[i / n].len() == n);
    }
    assert(bare(join(ss, n)) =~= join(ss.map_values(|r: Seq<Space>| bare(r)), n));
}

/// Sorting keeps the number of rows.
pub proof fn lemma_sort_len(s: Seq<Seq<Space>>)
    ensures
        sort_space_rows(s).len() == s.len(),
    decreases s.len(),
{
    if s.len() > 0 {
        lemma_sort_len(s.drop_last());
        lemma_insert_len(sort_space_rows(s.drop_last()), s.last());
    }
}

proof fn lemma_insert_len(t: Seq<Seq<Space>>, x: Seq<Space>)
    ensures
        insert_space_row(t, x).len() == t.len() + 1,
    decreases t.len(),
{
    if t.len() > 0 {
        lemma_insert_len(t.drop_last(), x);
    }
}

/// Every row that insertion produces is `x` or a row of `t`.
proof fn lemma_insert_from(t: Seq<Seq<Space>>, x: Seq<Space>)
    ensures
        forall|i: int|
            0 <= i < insert_space_row(t, x).len() ==> #[trigger] insert_space_row(t, x)[i] == x || exists|
                j: int,
            |
                0 <= j < t.len() && insert_space_row(t, x)[i] == t[j],
    decreases t.len(),
{
    lemma_insert_len(t, x);
    if t.len() > 0 && key_less(row_key(bare(x)), row_key(bare(t.last()))) {
        lemma_insert_from(t.drop_last(), x);
        lemma_insert_len(t.drop_last(), x);
        assert forall|i: int| 0 <= i < insert_space_row(t, x).len() implies #[trigger] insert_space_row(
            t,
            x,
        )[i] == x || exists|j: int| 0 <= j < t.len() && insert_space_row(t, x)[i] == t[j] by {
            if i == t.len() {
                assert(insert_space_row(t, x)[i] == t[t.len() - 1]);
            } else {
                let r = insert_space_row(t.drop_last(), x)[i];
                assert(insert_space_row(t, x)[i] == r);
                if r != x {
                    let j = choose|j: int| 0 <= j < t.drop_last().len() && r == t.drop_last()[j];
                    assert(r == t[j]);
                }
            }
        }
    } else if t.len() > 0 {
        assert forall|i: int| 0 <= i < insert_space_row(t, x).len() implies #[trigger] insert_space_row(
            t,
            x,
        )[i] == x || exists|j: int| 0 <= j < t.len() && insert_space_row(t, x)[i] == t[j] by {
            if i < t.len() {
                assert(insert_space_row(t, x)[i] == t[i]);
            }
        }
    }
}

/// Every row that sorting produces is a row of the input.
pub proof fn lemma_sort_from(s: Seq<Seq<Space>>)
    ensures
        forall|i: int|
            0 <= i < sort_space_rows(s).len() ==> exists|j: int|
                0 <= j < s.len() && #[trigger] sort_space_rows(s)[i] == s[j],
    decreases s.len(),
{
    lemma_sort_len(s);
    if s.len() > 0 {
        let t = sort_space_rows(s.drop_last());
        lemma_sort_from(s.drop_last());
        lemma_insert_from(t, s.last());
        assert forall|i: int| 0 <= i < sort_space_rows(s).len() implies exists|j: int|
            0 <= j < s.len() && #[trigger] sort_space_rows(s)[i] == s[j] by {
            let r = sort_space_rows(s)[i];
            if r == s.last() {
                assert(r == s[s.len() - 1]);
            } else {
                let j = choose|j: int| 0 <= j < t.len() && r == t[j];
                let k = choose|k: int| 0 <= k < s.drop_last().len() && t[j] == s.drop_last()[k];
                assert(r == s[k]);
            }
        }
    }
}

/// Splits a grid of width `n` into its rows.
pub fn split_rows(g: &Vec<Space>, n: usize) -> (r: Vec<Vec<Space>>)
    requires
        g@.len() == n * n,
    ensures
        views(r@) == rows_of(g@, n as int),
        forall|i: int| 0 <= i < r@.len() ==> (#[trigger] r@[i])@.len() == n,
{
    let mut rows: Vec<Vec<Space>> = Vec::new();
    let mut i: usize = 0;
    let glen = g.len();
    while i < n
        invariant
            i <= n,
            g@.len() == n * n,
            n * n <= usize::MAX,
            rows@.len() == i,
            forall|k: int| 0 <= k < i ==> (#[trigger] rows@[k])@.len() == n,
            forall|k: int| 0 <= k < i ==> (#[trigger] rows@[k])@ == rows_of(g@, n as int)[k],
        decreases n - i,
    {
        let mut row: Vec<Space> = Vec::new();
        let mut j: usize = 0;
        proof {
            lemma_index(i as int, 0, n as int);
        }
        while j < n
            invariant
                i < n,
                j <= n,
                g@.len() == n * n,
                n * n <= usize::MAX,
                i * n + n <= n * n,
                row@ == g@.subrange(i * n, i * n + j),
            decreases n - j,
        {
            row.push(g[i * n + j]);
            j = j + 1;
            assert(row@ =~= g@.subrange(i * n, i * n + j));
        }
        rows.push(row);
        i = i + 1;
    }
    assert(views(rows@) =~= rows_of(g@, n as int));
    rows
}

/// Lays rows of width `n` end to end.
pub fn join_rows(rows: &Vec<Vec<Space>>, n: usize) -> (r: Vec<Space>)
    requires
        rows@.len() == n,
        forall|i: int| 0 <= i < rows@.len() ==> (#[trigger] rows@[i])@.len() == n,
    ensures
        r@ == join(views(rows@), n as int),
        r@.len() == n * n,
{
    let mut g: Vec<Space> = Vec::new();
    let mut i: usize = 0;
    while i < n
        invariant
            i <= n,
            rows@.len() == n,
            forall|k: int| 0 <= k < rows@.len() ==> (#[trigger] rows@[k])@.len() == n,
            g@.len() == i * n,
            forall|k: int| 0 <= k < i * n ==> g@[k] == #[trigger] views(rows@)[k / (n as int)][k % (n as int)],
        decreases n - i,
    {
        let mut j: usize = 0;
        proof {
            lemma_index(i as int, 0, n as int);
        }
        while j < n
            invariant
                i < n,
                j <= n,
                rows@.len() == n,
                forall|k: int| 0 <= k < rows@.len() ==> (#[trigger] rows@[k])@.len() == n,
                i * n + n <= n * n,
                g@.len() == i * n + j,
                forall|k: int| 0 <= k < i * n + j ==> g@[k] == #[trigger] views(rows@)[k / (n as int)][k % (n as int)],
            decreases n - j,
        {
            proof {
                lemma_index(i as int, j as int, n as int);
            }
            g.push(rows[i][j]);
            j = j + 1;
        }
        assert(i * n + n == (i + 1) * n) by (nonlinear_arith);
        i = i + 1;
    }
    assert(g@ =~= join(views(rows@), n as int));
    g
}

/// The grid of width `n` reflected in its main diagonal.
pub fn transpose_vec<T: Copy>(g: &Vec<T>, n: usize) -> (r: Vec<T>)
    requires
        g@.len() == n * n,
    ensures
        r@ == transposed_seq(g@, n as int),
{
    let mut t: Vec<T> = Vec::new();
    let mut i: usize = 0;
    let glen = g.len();
    while i < n
        invariant
            i <= n,
            g@.len() == n * n,
            n * n <= usize::MAX,
            t@.len() == i * n,
            forall|k: int| 0 <= k < i * n ==> t@[k] == #[trigger] transposed_seq(g@, n as int)[k],
            i * n <= n * n,
        decreases n - i,
    {
        let mut j: usize = 0;
        proof {
            lemma_index(i as int, 0, n as int);
        }
        while j < n
            invariant
                i < n,
                j <= n,
                g@.len() == n * n,
                n * n <= usize::MAX,
                i * n + n <= n * n,
                t@.len() == i * n + j,
                forall|k: int| 0 <= k < i * n + j ==> t@[k] == #[trigger] transposed_seq(g@, n as int)[k],
            decreases n - j,
        {
            proof {
                lemma_index(i as int, j as int, n as int);
                lemma_index(j as int, i as int, n as int);
            }
            t.push(g[j * n + i]);
            j = j + 1;
        }
        assert(i * n + n == (i + 1) * n) by (nonlinear_arith);
        i = i + 1;
    }
    assert(t@ =~= transposed_seq(g@, n as int));
    t
}

/// Inserts `x` after every row whose key is not above its own.
fn insert_sorted(t: Vec<Vec<Space>>, x: Vec<Space>) -> (r: Vec<Vec<Space>>)
    requires
        forall|i: int| 0 <= i < t@.len() ==> (#[trigger] t@[i])@.len() == x@.len(),
    ensures
        views(r@) == insert_space_row(views(t@), x@),
        forall|i: int| 0 <= i < r@.len() ==> (#[trigger] r@[i])@.len() == x@.len(),
    decreases t@.len(),
{
    let mut t = t;
    if t.len() == 0 {
        let mut r: Vec<Vec<Space>> = Vec::new();
        r.push(x);
        assert(views(r@) =~= seq![x@]);
        return r;
    }
    let ghost vt = views(t@);
    let last = t.pop().unwrap();
    assert(views(t@) =~= vt.drop_last());
    let px = pieces_of(x.as_slice());
    let pl = pieces_of(last.as_slice());
    if matches!(compare_rows(px.as_slice(), pl.as_slice()), Ordering::Less) {
        let mut r = insert_sorted(t, x);
        r.push(last);
        assert(views(r@) =~= insert_space_row(vt.drop_last(), x@).push(last@));
        r
    } else {
        t.push(last);
        t.push(x);
        assert(views(t@) =~= vt.push(x@));
        t
    }
}

/// Sorts rows by key, keeping rows with equal keys in their order.
fn sort_space_vec(rows: Vec<Vec<Space>>, width: Ghost<nat>) -> (r: Vec<Vec<Space>>)
    requires
        forall|i: int| 0 <= i < rows@.len() ==> (#[trigger] rows@[i])@.len() == width@,
    ensures
        views(r@) == sort_space_rows(views(rows@)),
        forall|i: int| 0 <= i < r@.len() ==> (#[trigger] r@[i])@.len() == width@,
    decreases rows@.len(),
{
    let mut rows = rows;
    if rows.len() == 0 {
        return rows;
    }
    let ghost vr = views(rows@);
    let last = rows.pop().unwrap();
    assert(views(rows@) =~= vr.drop_last());
    let sorted = sort_space_vec(rows, width);
    insert_sorted(sorted, last)
}

/// The grid of width `n` with its rows sorted by key.
pub fn sort_grid(g: &Vec<Space>, n: usize) -> (r: Vec<Space>)
    requires
        g@.len() == n * n,
    ensures
        r@ == sort_space_pass(g@, n as int),
        r@.len() == n * n,
{
    let rows = split_rows(g, n);
    let sorted = sort_space_vec(rows, Ghost(n as nat));
    proof {
        lemma_sort_len(views(rows@));
    }
    join_rows(&sorted, n)
}

} // verus!

verus! {

/// A copy of a vector.
pub fn copy_vec<T: Copy>(v: &Vec<T>) -> (r: Vec<T>)
    ensures
        r@ == v@,
{
    let mut out: Vec<T> = Vec::new();
    let mut i: usize = 0;
    while i < v.len()
        invariant
            i <= v@.len(),
            out@ == v@.subrange(0, i as int),
        decreases v@.len() - i,
    {
        out.push(v[i]);
        i = i + 1;
        assert(out@ =~= v@.subrange(0, i as int));
    }
    assert(out@ =~= v@);
    out
}

} // verus!

verus! {

/// Applies `standardized_grid` until the grid is canonical, at most `fuel` times.
pub open spec fn settle(g: Seq<Piece>, n: int, fuel: nat) -> Seq<Piece>
    decreases fuel,
{
    if is_standard_grid(g, n) || fuel == 0 {
        g
    } else {
        settle(standardized_grid(g, n), n, (fuel - 1) as nat)
    }
}

/// Row `r` of a grid of width `n`.
fn row_at(g: &Vec<Piece>, n: usize, r: usize) -> (out: Vec<Piece>)
    requires
        g@.len() == n * n,
        r < n,
    ensures
        out@ == rows_of(g@, n as int)[r as int],
{
    let len = g.len();
    proof {
        lemma_index(r as int, 0, n as int);
    }
    let mut v: Vec<Piece> = Vec::new();
    let mut j: usize = 0;
    while j < n
        invariant
            r < n,
            j <= n,
            g@.len() == n * n,
            n * n <= usize::MAX,
            r * n + n <= n * n,
            v@ == g@.subrange(r * n, r * n + j),
        decreases n - j,
    {
        v.push(g[r * n + j]);
        j = j + 1;
        assert(v@ =~= g@.subrange(r * n, r * n + j));
    }
    v
}

/// Whether the rows of a grid of width `n` are in key order.
pub fn rows_in_order(g: &Vec<Piece>, n: usize) -> (out: bool)
    requires
        g@.len() == n * n,
    ensures
        out == rows_sorted(g@, n as int),
{
    if n == 0 {
        return true;
    }
    let mut r: usize = 0;
    while r + 1 < n
        invariant
            n > 0,
            r + 1 <= n,
            g@.len() == n * n,
            forall|k: int|
                0 <= k < r ==> !#[trigger] key_less(
                    row_key(rows_of(g@, n as int)[k + 1]),
                    row_key(rows_of(g@, n as int)[k]),
                ),
        decreases n - r,
    {
        let a = row_at(g, n, r);
        let b = row_at(g, n, r + 1);
        proof {
            lemma_index(r as int, 0, n as int);
            lemma_index(r + 1, 0, n as int);
        }
        if matches!(compare_rows(a.as_slice(), b.as_slice()), Ordering::Greater) {
            assert(key_less(row_key(b@), row_key(a@)));
            assert(key_less(row_key(rows_of(g@, n as int)[r + 1]), row_key(rows_of(g@, n as int)[r as int])));
            return false;
        }
        r = r + 1;
    }
    true
}

/// Whether a grid of width `n` is canonical.
pub fn grid_is_standard(g: &Vec<Piece>, n: usize) -> (out: bool)
    requires
        g@.len() == n * n,
    ensures
        out == is_standard_grid(g@, n as int),
{
    if !rows_in_order(g, n) {
        return false;
    }
    let t = transpose_vec(g, n);
    if matches!(lex_cmp(&t, g), Ordering::Less) {
        return false;
    }
    rows_in_order(&t, n)
}

} // verus!

verus! {

/// Whether two piece sequences are equal.
pub fn same_pieces(a: &Vec<Piece>, b: &Vec<Piece>) -> (r: bool)
    ensures
        r == (a@ == b@),
{
    if a.len() != b.len() {
        return false;
    }
    matches!(lex_cmp(a, b), Ordering::Equal)
}

} // verus!

verus! {

/// Sorting the rows keeps the length of the grid.
pub proof fn lemma_sort_len_pieces(g: Seq<Piece>, n: int)
    requires
        n >= 0,
        g.len() == n * n,
    ensures
        sort_pass(g, n).len() == n * n,
{
    lemma_sort_rows_len(rows_of(g, n));
}

proof fn lemma_sort_rows_len(s: Seq<Seq<Piece>>)
    ensures
        sort_rows(s).len() == s.len(),
    decreases s.len(),
{
    if s.len() > 0 {
        lemma_sort_rows_len(s.drop_last());
        lemma_insert_row_len(sort_rows(s.drop_last()), s.last());
    }
}

proof fn lemma_insert_row_len(t: Seq<Seq<Piece>>, x: Seq<Piece>)
    ensures
        insert_row(t, x).len() == t.len() + 1,
    decreases t.len(),
{
    if t.len() > 0 {
        lemma_insert_row_len(t.drop_last(), x);
    }
}

} // verus!

verus! {

proof fn lemma_insert_space_shape(t: Seq<Seq<Space>>, x: Seq<Space>) -> (j: int)
    ensures
        0 <= j <= t.len(),
        insert_space_row(t, x) == t.subrange(0, j).push(x) + t.subrange(j, t.len() as int),
    decreases t.len(),
{
    if t.len() == 0 {
        assert(insert_space_row(t, x) =~= t.subrange(0, 0).push(x) + t.subrange(0, 0));
        0
    } else if key_less(row_key(bare(x)), row_key(bare(t.last()))) {
        let j = lemma_insert_space_shape(t.drop_last(), x);
        assert(insert_space_row(t, x) =~= t.subrange(0, j).push(x) + t.subrange(j, t.len() as int));
        j
    } else {
        assert(insert_space_row(t, x) =~= t.subrange(0, t.len() as int).push(x) + t.subrange(
            t.len() as int,
            t.len() as int,
        ));
        t.len() as int
    }
}

/// Sorting rows of spaces rearranges them: row `i` of the result is row
/// `pi[i]` of the input, for an injective `pi`.
pub proof fn lemma_sort_space_perm(s: Seq<Seq<Space>>) -> (pi: Seq<int>)
    ensures
        pi.len() == s.len(),
        sort_space_rows(s).len() == s.len(),
        forall|i: int| 0 <= i < s.len() ==> 0 <= #[trigger] pi[i] < s.len() && sort_space_rows(s)[i] == s[pi[i]],
        forall|i: int, j: int| 0 <= i < j < s.len() ==> pi[i] != pi[j],
    decreases s.len(),
{
    if s.len() == 0 {
        Seq::empty()
    } else {
        let rest = s.drop_last();
        let inner = lemma_sort_space_perm(rest);
        let t = sort_space_rows(rest);
        let j = lemma_insert_space_shape(t, s.last());
        let m = s.len() - 1;
        let pi = Seq::new(s.len(), |i: int| if i < j { inner[i] } else if i == j { m } else { inner[i - 1] });
        assert forall|i: int| 0 <= i < s.len() implies 0 <= #[trigger] pi[i] < s.len() && sort_space_rows(s)[i] == s[pi[i]] by {
            if i < j {
                assert(sort_space_rows(s)[i] == t[i]);
                assert(rest[inner[i]] == s[inner[i]]);
            } else if i > j {
                assert(sort_space_rows(s)[i] == t[i - 1]);
                assert(rest[inner[i - 1]] == s[inner[i - 1]]);
            }
        }
        assert forall|a: int, b: int| 0 <= a < b < s.len() implies pi[a] != pi[b] by {
            if a < j && b < j {
                assert(inner[a] != inner[b]);
            } else if a < j && b > j {
                assert(inner[a] != inner[b - 1]);
            } else if a > j && b > j {
                assert(inner[a - 1] != inner[b - 1]);
            } else if a == j {
                assert(0 <= inner[b - 1] < m);
            } else {
                assert(0 <= inner[a] < m);
            }
        }
        pi
    }
}

/// The spaces of `g` carry pairwise distinct coordinates.
pub open spec fn coords_distinct(g: Seq<Space>) -> bool {
    forall|i: int, j: int| 0 <= i < j < g.len() ==> g[i].coord != g[j].coord
}

/// Transposing keeps coordinates distinct.
pub proof fn lemma_transpose_distinct(g: Seq<Space>, n: int)
    requires
        n >= 0,
        g.len() == n * n,
        coords_distinct(g),
    ensures
        coords_distinct(transposed_seq(g, n)),
{
    let t = transposed_seq(g, n);
    assert forall|i: int, j: int| 0 <= i < j < t.len() implies t[i].coord != t[j].coord by {
        lemma_split_index(i, n);
        lemma_split_index(j, n);
        let a = (i % n) * n + i / n;
        let b = (j % n) * n + j / n;
        lemma_index(i % n, i / n, n);
        lemma_index(j % n, j / n, n);
        if a == b {
            assert(i % n == j % n && i / n == j / n);
        }
        if a < b {
            assert(g[a].coord != g[b].coord);
        } else if b < a {
            assert(g[b].coord != g[a].coord);
        }
    }
}

/// Sorting the rows keeps coordinates distinct.
pub proof fn lemma_pass_distinct(g: Seq<Space>, n: int)
    requires
        n >= 0,
        g.len() == n * n,
        coords_distinct(g),
    ensures
        coords_distinct(sort_space_pass(g, n)),
{
    let rs = rows_of(g, n);
    let pi = lemma_sort_space_perm(rs);
    lemma_pass_bare(g, n);
    let h = sort_space_pass(g, n);
    assert forall|i: int| 0 <= i < n * n implies 0 <= #[trigger] (pi[i / n] * n + i % n) < n * n && h[i] == g[pi[i / n]
        * n + i % n] by {
        lemma_split_index(i, n);
        assert(0 <= pi[i / n] < n);
        lemma_index(pi[i / n], i % n, n);
        lemma_index(pi[i / n], 0, n);
        assert(sort_space_rows(rs)[i / n] == rs[pi[i / n]]);
    }
    assert forall|i: int, j: int| 0 <= i < j < h.len() implies h[i].coord != h[j].coord by {
        lemma_split_index(i, n);
        lemma_split_index(j, n);
        let a = pi[i / n] * n + i % n;
        let b = pi[j / n] * n + j % n;
        assert(0 <= pi[i / n] < n && 0 <= pi[j / n] < n);
        lemma_index(pi[i / n], i % n, n);
        lemma_index(pi[j / n], j % n, n);
        if a == b {
            assert(pi[i / n] == pi[j / n] && i % n == j % n);
            if i / n < j / n {
                assert(pi[i / n] != pi[j / n]);
            } else if j / n < i / n {
                assert(pi[j / n] != pi[i / n]);
            }
        }
        if a < b {
            assert(g[a].coord != g[b].coord);
        } else if b < a {
            assert(g[b].coord != g[a].coord);
        }
    }
}

/// One round of canonicalization keeps coordinates distinct.
pub proof fn lemma_standardized_distinct(g: Seq<Space>, n: int)
    requires
        n >= 0,
        g.len() == n * n,
        coords_distinct(g),
    ensures
        coords_distinct(standardized_spaces(g, n)),
{
    lemma_pass_bare(g, n);
    lemma_pass_distinct(g, n);
    let a1 = sort_space_pass(g, n);
    lemma_transpose_distinct(a1, n);
    let t1 = transposed_seq(a1, n);
    lemma_pass_bare(t1, n);
    lemma_pass_distinct(t1, n);
    let a = sort_space_pass(t1, n);
    lemma_transpose_distinct(a, n);
}

} // verus!

verus! {

/// `settle` over spaces: one round of canonicalization after another,
/// each cell carrying its coordinate along, until the pieces are canonical
/// or `fuel` rounds are spent.
pub open spec fn settle_spaces(g: Seq<Space>, n: int, fuel: nat) -> Seq<Space>
    decreases fuel,
{
    if is_standard_grid(bare(g), n) || fuel == 0 {
        g
    } else {
        settle_spaces(standardized_spaces(g, n), n, (fuel - 1) as nat)
    }
}

} // verus!
