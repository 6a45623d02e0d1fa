//! Transversals survive the symmetries used in canonicalization: a
//! transversal of a canonicalized grid is one of the grid itself.
use crate::board::{assigns, cell_of, indices, inverted, lemma_index, wins};
use crate::canon::{insert_row, rows_of, settle, sort_pass, sort_rows, standardized_grid, transposed_seq};
use crate::space::{inverse_of, Piece};
use vstd::prelude::*;
use vstd::set_lib::{lemma_int_range, lemma_map_size, lemma_subset_equality, set_int_range};

verus! {

/// Cells `(rs[k], cs[k])`, `n` of them, all holding `p`, no two in one
/// row or one column.
pub open spec fn transversal_cells(g: Seq<Piece>, n: int, p: Piece, rs: Seq<int>, cs: Seq<int>) -> bool {
    &&& rs.len() == n
    &&& cs.len() == n
    &&& forall|k: int|
        0 <= k < n ==> 0 <= #[trigger] rs[k] < n && 0 <= cs[k] < n && g[rs[k] * n + cs[k]] == p
    &&& forall|k: int, l: int| 0 <= k < l < n ==> rs[k] != rs[l] && cs[k] != cs[l]
}

/// `g` has a transversal of `p`, as a set of cells.
pub open spec fn has_transversal(g: Seq<Piece>, n: int, p: Piece) -> bool {
    exists|rs: Seq<int>, cs: Seq<int>| transversal_cells(g, n, p, rs, cs)
}

proof fn lemma_wins_to_cells(g: Seq<Piece>, n: nat, p: Piece)
    requires
        n <= usize::MAX,
        g.len() == n * n,
        wins(g, n, p),
    ensures
        has_transversal(g, n as int, p),
{
    let f = choose|f: Seq<int>| assigns(g, n as int, p, indices(n), indices(n), f);
    let rs = Seq::new(n, |k: int| k);
    assert forall|k: int| 0 <= k < n implies 0 <= #[trigger] rs[k] < n && 0 <= f[k] < n && g[rs[k] * n + f[k]] == p by {
        assert(0 <= f[k] < n);
        lemma_index(k, f[k], n as int);
        assert(indices(n)[k] as int == k);
        assert(indices(n)[f[k]] as int == f[k]);
        assert(crate::board::cell_of(g, n as int, indices(n)[k] as int, indices(n)[f[k]] as int) == p);
    }
    assert(transversal_cells(g, n as int, p, rs, f));
}

proof fn lemma_cells_to_wins(g: Seq<Piece>, n: nat, p: Piece)
    requires
        n <= usize::MAX,
        has_transversal(g, n as int, p),
    ensures
        wins(g, n, p),
{
    let (rs, cs) = choose|rs: Seq<int>, cs: Seq<int>| transversal_cells(g, n as int, p, rs, cs);
    let range = set_int_range(0, n as int);
    let pick = |k: int| rs[k];
    lemma_int_range(0, n as int);
    let image = range.map(pick);
    assert(vstd::relations::injective_on(pick, range)) by {
        assert forall|a: int, b: int| range.contains(a) && range.contains(b) && #[trigger] pick(a) == #[trigger] pick(b) implies a == b by {
            if a < b {
                assert(rs[a] != rs[b]);
            } else if b < a {
                assert(rs[b] != rs[a]);
            }
        }
    }
    lemma_map_size(range, image, pick);
    assert(image.subset_of(range)) by {
        assert forall|r: int| image.contains(r) implies range.contains(r) by {
            let k = choose|k: int| range.contains(k) && pick(k) == r;
            assert(0 <= rs[k] < n);
        }
    }
    lemma_subset_equality(image, range);
    let f = Seq::new(n, |r: int| cs[owner_of(rs, n as int, r)]);
    assert forall|r: int| 0 <= r < n implies 0 <= #[trigger] owner_of(rs, n as int, r) < n && rs[owner_of(rs, n as int, r)] == r by {
        assert(range.contains(r));
        assert(image.contains(r));
        let k = choose|k: int| range.contains(k) && pick(k) == r;
        assert(0 <= k < n && rs[k] == r);
    }
    assert forall|k: int|
        0 <= k < f.len() implies 0 <= #[trigger] f[k] < indices(n).len() && crate::board::cell_of(
            g,
            n as int,
            indices(n)[k] as int,
            indices(n)[f[k]] as int,
        ) == p by {
        assert(0 <= owner_of(rs, n as int, k) < n && rs[owner_of(rs, n as int, k)] == k);
        assert(0 <= cs[owner_of(rs, n as int, k)] < n);
        assert(indices(n)[k] as int == k);
        assert(f[k] == cs[owner_of(rs, n as int, k)]);
        assert(indices(n)[f[k]] as int == f[k]);
    }
    assert forall|k: int, l: int| 0 <= k < l < f.len() implies f[k] != f[l] by {
        let a = owner_of(rs, n as int, k);
        let b = owner_of(rs, n as int, l);
        assert(0 <= a < n && rs[a] == k);
        assert(0 <= b < n && rs[b] == l);
        if a < b {
            assert(cs[a] != cs[b]);
        } else if b < a {
            assert(cs[b] != cs[a]);
        }
    }
    assert(assigns(g, n as int, p, indices(n), indices(n), f));
}

/// The index of the cell in row `r`.
spec fn owner_of(rs: Seq<int>, n: int, r: int) -> int {
    choose|k: int| 0 <= k < n && rs[k] == r
}

proof fn lemma_cells_transpose(g: Seq<Piece>, n: int, p: Piece)
    requires
        n >= 0,
        g.len() == n * n,
        has_transversal(transposed_seq(g, n), n, p),
    ensures
        has_transversal(g, n, p),
{
    let (rs, cs) = choose|rs: Seq<int>, cs: Seq<int>| transversal_cells(transposed_seq(g, n), n, p, rs, cs);
    assert forall|k: int| 0 <= k < n implies 0 <= #[trigger] cs[k] < n && 0 <= rs[k] < n && g[cs[k] * n + rs[k]] == p by {
        assert(0 <= rs[k] < n && 0 <= cs[k] < n);
        lemma_index(rs[k], cs[k], n);
        lemma_index(cs[k], rs[k], n);
    }
    assert forall|k: int, l: int| 0 <= k < l < n implies cs[k] != cs[l] && rs[k] != rs[l] by {}
    assert(transversal_cells(g, n, p, cs, rs));
}

proof fn lemma_cells_rows(h: Seq<Piece>, g: Seq<Piece>, n: int, p: Piece, pi: Seq<int>)
    requires
        n >= 0,
        pi.len() == n,
        forall|i: int| 0 <= i < n ==> 0 <= #[trigger] pi[i] < n,
        forall|i: int, j: int| 0 <= i < j < n ==> pi[i] != pi[j],
        forall|i: int, c: int| 0 <= i < n && 0 <= c < n ==> #[trigger] cell_of(h, n, i, c) == cell_of(g, n, pi[i], c),
        has_transversal(h, n, p),
    ensures
        has_transversal(g, n, p),
{
    let (rs, cs) = choose|rs: Seq<int>, cs: Seq<int>| transversal_cells(h, n, p, rs, cs);
    let rs2 = Seq::new(n as nat, |k: int| pi[rs[k]]);
    assert forall|k: int| 0 <= k < n implies 0 <= #[trigger] rs2[k] < n && 0 <= cs[k] < n && g[rs2[k] * n + cs[k]] == p by {
        assert(0 <= rs[k] < n && 0 <= cs[k] < n && h[rs[k] * n + cs[k]] == p);
        assert(cell_of(h, n, rs[k], cs[k]) == cell_of(g, n, pi[rs[k]], cs[k]));
    }
    assert forall|k: int, l: int| 0 <= k < l < n implies rs2[k] != rs2[l] && cs[k] != cs[l] by {
        assert(rs[k] != rs[l]);
        assert(0 <= rs[k] < n && 0 <= rs[l] < n);
        if rs[k] < rs[l] {
            assert(pi[rs[k]] != pi[rs[l]]);
        } else {
            assert(pi[rs[l]] != pi[rs[k]]);
        }
    }
    assert(transversal_cells(g, n, p, rs2, cs));
}

proof fn lemma_cells_inverted(g: Seq<Piece>, n: int, p: Piece)
    requires
        g.len() == n * n,
        has_transversal(inverted(g), n, inverse_of(p)),
    ensures
        has_transversal(g, n, p),
{
    let (rs, cs) = choose|rs: Seq<int>, cs: Seq<int>| transversal_cells(inverted(g), n, inverse_of(p), rs, cs);
    assert forall|k: int| 0 <= k < n implies 0 <= #[trigger] rs[k] < n && 0 <= cs[k] < n && g[rs[k] * n + cs[k]] == p by {
        lemma_index(rs[k], cs[k], n);
    }
    assert(transversal_cells(g, n, p, rs, cs));
}

/// Insertion puts `x` at one place and keeps the other rows in order.
proof fn lemma_insert_shape(t: Seq<Seq<Piece>>, x: Seq<Piece>) -> (j: int)
    ensures
        0 <= j <= t.len(),
        insert_row(t, x) == t.subrange(0, j).push(x) + t.subrange(j, t.len() as int),
    decreases t.len(),
{
    if t.len() == 0 {
        assert(insert_row(t, x) =~= t.subrange(0, 0).push(x) + t.subrange(0, 0));
        0
    } else if crate::order::key_less(crate::order::row_key(x), crate::order::row_key(t.last())) {
        let j = lemma_insert_shape(t.drop_last(), x);
        assert(insert_row(t, x) =~= t.subrange(0, j).push(x) + t.subrange(j, t.len() as int));
        j
    } else {
        assert(insert_row(t, x) =~= t.subrange(0, t.len() as int).push(x) + t.subrange(t.len() as int, t.len() as int));
        t.len() as int
    }
}

/// Sorting rearranges the rows: row `i` of the result is row `pi[i]` of
/// the input, for an injective `pi`.
proof fn lemma_sort_perm(s: Seq<Seq<Piece>>) -> (pi: Seq<int>)
    ensures
        pi.len() == s.len(),
        sort_rows(s).len() == s.len(),
        forall|i: int| 0 <= i < s.len() ==> 0 <= #[trigger] pi[i] < s.len() && sort_rows(s)[i] == s[pi[i]],
        forall|i: int, j: int| 0 <= i < j < s.len() ==> pi[i] != pi[j],
    decreases s.len(),
{
    if s.len() == 0 {
        Seq::empty()
    } else {
        let rest = s.drop_last();
        let inner = lemma_sort_perm(rest);
        let t = sort_rows(rest);
        let j = lemma_insert_shape(t, s.last());
        let m = s.len() - 1;
        let pi = Seq::new(s.len(), |i: int| if i < j { inner[i] } else if i == j { m } else { inner[i - 1] });
        assert forall|i: int| 0 <= i < s.len() implies 0 <= #[trigger] pi[i] < s.len() && sort_rows(s)[i] == s[pi[i]] by {
            if i < j {
                assert(sort_rows(s)[i] == t[i]);
                assert(rest[inner[i]] == s[inner[i]]);
            } else if i > j {
                assert(sort_rows(s)[i] == t[i - 1]);
                assert(rest[inner[i - 1]] == s[inner[i - 1]]);
            }
        }
        assert forall|a: int, b: int| 0 <= a < b < s.len() implies pi[a] != pi[b] by {
            if a < j && b < j {
                assert(inner[a] != inner[b]);
            } else if a < j && b > j {
                assert(inner[a] != inner[b - 1]);
            } else if a > j && b > j {
                assert(inner[a - 1] != inner[b - 1]);
            } else if a == j {
                assert(0 <= inner[b - 1] < m);
            } else {
                assert(0 <= inner[a] < m);
            }
        }
        pi
    }
}

proof fn lemma_cells_sort_pass(g: Seq<Piece>, n: int, p: Piece)
    requires
        n >= 0,
        g.len() == n * n,
        has_transversal(sort_pass(g, n), n, p),
    ensures
        has_transversal(g, n, p),
{
    let rs = rows_of(g, n);
    let pi = lemma_sort_perm(rs);
    let h = sort_pass(g, n);
    assert forall|i: int, c: int| 0 <= i < n && 0 <= c < n implies #[trigger] cell_of(h, n, i, c) == cell_of(g, n, pi[i], c) by {
        lemma_index(i, c, n);
        assert(0 <= pi[i] < n);
        lemma_index(pi[i], c, n);
        lemma_index(pi[i], 0, n);
        assert(sort_rows(rs)[i] == rs[pi[i]]);
        assert(rs[pi[i]][c] == g[pi[i] * n + c]);
    }
    lemma_cells_rows(h, g, n, p, pi);
}

/// A transversal of `p` in one round of canonicalization of `g` is one in
/// `g` too.
pub proof fn lemma_standardized_keeps_wins(g: Seq<Piece>, n: nat, p: Piece)
    requires
        n <= usize::MAX,
        g.len() == n * n,
        wins(standardized_grid(g, n as int), n, p),
    ensures
        wins(g, n, p),
{
    let ni = n as int;
    let a1 = sort_pass(g, ni);
    crate::canon::lemma_sort_len_pieces(g, ni);
    let t1 = transposed_seq(a1, ni);
    crate::canon::lemma_sort_len_pieces(t1, ni);
    let a = sort_pass(t1, ni);
    let t = transposed_seq(a, ni);
    lemma_wins_to_cells(standardized_grid(g, ni), n, p);
    if crate::order::lex_less(t, a) {
        lemma_cells_transpose(a, ni, p);
    }
    lemma_cells_sort_pass(t1, ni, p);
    lemma_cells_transpose(a1, ni, p);
    lemma_cells_sort_pass(g, ni, p);
    lemma_cells_to_wins(g, n, p);
}

/// One round of canonicalization keeps the size of the grid.
pub proof fn lemma_standardized_len(g: Seq<Piece>, n: int)
    requires
        n >= 0,
        g.len() == n * n,
    ensures
        standardized_grid(g, n).len() == n * n,
{
    let a1 = sort_pass(g, n);
    crate::canon::lemma_sort_len_pieces(g, n);
    let t1 = transposed_seq(a1, n);
    crate::canon::lemma_sort_len_pieces(t1, n);
}

/// A transversal of `p` in the full canonicalization of `g` is one in `g`.
pub proof fn lemma_settle_keeps_wins(g: Seq<Piece>, n: nat, p: Piece, fuel: nat)
    requires
        n <= usize::MAX,
        g.len() == n * n,
        wins(settle(g, n as int, fuel), n, p),
    ensures
        wins(g, n, p),
    decreases fuel,
{
    if !crate::canon::is_standard_grid(g, n as int) && fuel > 0 {
        let h = standardized_grid(g, n as int);
        lemma_standardized_len(g, n as int);
        lemma_settle_keeps_wins(h, n, p, (fuel - 1) as nat);
        lemma_standardized_keeps_wins(g, n, p);
    }
}

/// Full canonicalization keeps how often each piece occurs, and the size.
pub proof fn lemma_settle_count(g: Seq<Piece>, n: int, p: Piece, fuel: nat)
    requires
        n >= 0,
        g.len() == n * n,
    ensures
        crate::order::count_of(settle(g, n, fuel), p) == crate::order::count_of(g, p),
        settle(g, n, fuel).len() == n * n,
    decreases fuel,
{
    if !crate::canon::is_standard_grid(g, n) && fuel > 0 {
        let h = standardized_grid(g, n);
        lemma_standardized_len(g, n);
        lemma_settle_count(h, n, p, (fuel - 1) as nat);
        lemma_standardized_count(g, n, p);
    }
}

/// The opponent's transversal in the canonical inverted position after
/// `piece` moved is `piece`'s own transversal in the position itself.
pub proof fn lemma_child_loss_is_win(g: Seq<Piece>, n: nat, piece: Piece)
    requires
        n <= usize::MAX,
        g.len() == n * n,
        wins(settle(inverted(g), n as int, usize::MAX as nat), n, inverse_of(piece)),
    ensures
        wins(g, n, piece),
{
    lemma_settle_keeps_wins(inverted(g), n, inverse_of(piece), usize::MAX as nat);
    lemma_wins_to_cells(inverted(g), n, inverse_of(piece));
    lemma_cells_inverted(g, n as int, piece);
    lemma_cells_to_wins(g, n, piece);
}

} // verus!

verus! {

/// The indices of `s` that hold `p`.
pub open spec fn positions(s: Seq<Piece>, p: Piece) -> Set<int> {
    Set::new(|i: int| 0 <= i < s.len() && s[i] == p)
}

pub(crate) proof fn lemma_count_positions(s: Seq<Piece>, p: Piece)
    ensures
        positions(s, p).finite(),
        positions(s, p).len() == crate::order::count_of(s, p),
    decreases s.len(),
{
    if s.len() == 0 {
        assert(positions(s, p) =~= Set::empty());
    } else {
        let t = s.drop_last();
        lemma_count_positions(t, p);
        let last = s.len() - 1;
        if s.last() == p {
            assert(positions(s, p) =~= positions(t, p).insert(last));
            assert(!positions(t, p).contains(last));
        } else {
            assert(positions(s, p) =~= positions(t, p));
        }
    }
}

/// `f` maps the `p`-cells of `a` one to one onto the `p`-cells of `b`, so
/// both hold `p` equally often.
proof fn lemma_count_by_map(a: Seq<Piece>, b: Seq<Piece>, p: Piece, f: spec_fn(int) -> int)
    requires
        vstd::relations::injective_on(f, positions(a, p)),
        positions(a, p).map(f) == positions(b, p),
    ensures
        crate::order::count_of(a, p) == crate::order::count_of(b, p),
{
    lemma_count_positions(a, p);
    lemma_count_positions(b, p);
    lemma_map_size(positions(a, p), positions(b, p), f);
}

proof fn lemma_count_transpose(g: Seq<Piece>, n: int, p: Piece)
    requires
        n >= 0,
        g.len() == n * n,
    ensures
        crate::order::count_of(transposed_seq(g, n), p) == crate::order::count_of(g, p),
{
    let t = transposed_seq(g, n);
    let f = |i: int| (i % n) * n + i / n;
    assert forall|i: int| 0 <= i < n * n implies 0 <= #[trigger] f(i) < n * n && f(f(i)) == i by {
        crate::board::lemma_split_index(i, n);
        lemma_index(i % n, i / n, n);
    }
    assert(vstd::relations::injective_on(f, positions(t, p))) by {
        assert forall|a: int, b: int| positions(t, p).contains(a) && positions(t, p).contains(b) && #[trigger] f(a)
            == #[trigger] f(b) implies a == b by {
            assert(f(f(a)) == a);
            assert(f(f(b)) == b);
        }
    }
    assert(positions(t, p).map(f) =~= positions(g, p)) by {
        assert forall|j: int| positions(g, p).contains(j) implies #[trigger] positions(t, p).map(f).contains(j) by {
            assert(f(f(j)) == j);
            assert(positions(t, p).contains(f(j)));
        }
    }
    lemma_count_by_map(t, g, p, f);
}

proof fn lemma_count_sort_pass(g: Seq<Piece>, n: int, p: Piece)
    requires
        n >= 0,
        g.len() == n * n,
    ensures
        crate::order::count_of(sort_pass(g, n), p) == crate::order::count_of(g, p),
{
    let rs = rows_of(g, n);
    let pi = lemma_sort_perm(rs);
    let h = sort_pass(g, n);
    crate::canon::lemma_sort_len_pieces(g, n);
    let range = set_int_range(0, n);
    let pick = |i: int| pi[i];
    lemma_int_range(0, n);
    assert(vstd::relations::injective_on(pick, range)) by {
        assert forall|a: int, b: int| range.contains(a) && range.contains(b) && #[trigger] pick(a) == #[trigger] pick(b) implies a == b by {
            if a < b {
                assert(pi[a] != pi[b]);
            } else if b < a {
                assert(pi[b] != pi[a]);
            }
        }
    }
    lemma_map_size(range, range.map(pick), pick);
    assert(range.map(pick).subset_of(range)) by {
        assert forall|r: int| range.map(pick).contains(r) implies range.contains(r) by {
            let k = choose|k: int| range.contains(k) && pick(k) == r;
            assert(0 <= pi[k] < n);
        }
    }
    lemma_subset_equality(range.map(pick), range);
    assert forall|i: int, c: int| 0 <= i < n && 0 <= c < n implies #[trigger] h[i * n + c] == g[pi[i] * n + c] by {
        lemma_index(i, c, n);
        assert(0 <= pi[i] < n);
        lemma_index(pi[i], c, n);
        lemma_index(pi[i], 0, n);
        assert(sort_rows(rs)[i] == rs[pi[i]]);
    }
    let f = |i: int| pi[i / n] * n + i % n;
    assert forall|i: int| 0 <= i < n * n implies 0 <= #[trigger] f(i) < n * n && h[i] == g[f(i)] by {
        crate::board::lemma_split_index(i, n);
        assert(0 <= pi[i / n] < n);
        lemma_index(pi[i / n], i % n, n);
        assert(h[(i / n) * n + i % n] == g[pi[i / n] * n + i % n]);
    }
    assert(vstd::relations::injective_on(f, positions(h, p))) by {
        assert forall|a: int, b: int| positions(h, p).contains(a) && positions(h, p).contains(b) && #[trigger] f(a)
            == #[trigger] f(b) implies a == b by {
            crate::board::lemma_split_index(a, n);
            crate::board::lemma_split_index(b, n);
            assert(0 <= pi[a / n] < n && 0 <= pi[b / n] < n);
            lemma_index(pi[a / n], a % n, n);
            lemma_index(pi[b / n], b % n, n);
            assert(pi[a / n] == pi[b / n]);
            if a / n < b / n {
                assert(pi[a / n] != pi[b / n]);
            } else if b / n < a / n {
                assert(pi[b / n] != pi[a / n]);
            }
        }
    }
    assert(positions(h, p).map(f) =~= positions(g, p)) by {
        assert forall|j: int| positions(g, p).contains(j) implies #[trigger] positions(h, p).map(f).contains(j) by {
            crate::board::lemma_split_index(j, n);
            let r = j / n;
            assert(range.contains(r));
            assert(range.map(pick).contains(r));
            let i0 = choose|k: int| range.contains(k) && pick(k) == r;
            let i = i0 * n + j % n;
            lemma_index(i0, j % n, n);
            assert(f(i) == j);
            assert(positions(h, p).contains(i));
        }
    }
    lemma_count_by_map(h, g, p, f);
}

/// One round of canonicalization keeps how often each piece occurs.
pub proof fn lemma_standardized_count(g: Seq<Piece>, n: int, p: Piece)
    requires
        n >= 0,
        g.len() == n * n,
    ensures
        crate::order::count_of(standardized_grid(g, n), p) == crate::order::count_of(g, p),
{
    let a1 = sort_pass(g, n);
    crate::canon::lemma_sort_len_pieces(g, n);
    lemma_count_sort_pass(g, n, p);
    let t1 = transposed_seq(a1, n);
    lemma_count_transpose(a1, n, p);
    crate::canon::lemma_sort_len_pieces(t1, n);
    lemma_count_sort_pass(t1, n, p);
    let a = sort_pass(t1, n);
    lemma_count_transpose(a, n, p);
}

/// After `piece` fills one empty cell and the position is inverted and
/// canonicalized, one empty cell fewer remains.
pub proof fn lemma_child_empties(g: Seq<Piece>, n: int, i: int, piece: Piece)
    requires
        n >= 0,
        g.len() == n * n,
        0 <= i < g.len(),
        g[i] == Piece::Empty,
        piece != Piece::Empty,
    ensures
        crate::order::count_of(settle(inverted(g.update(i, piece)), n, usize::MAX as nat), Piece::Empty) + 1
            == crate::order::count_of(g, Piece::Empty),
{
    let u = g.update(i, piece);
    lemma_count_positions(g, Piece::Empty);
    lemma_count_positions(u, Piece::Empty);
    assert(positions(u, Piece::Empty) =~= positions(g, Piece::Empty).remove(i));
    lemma_count_positions(inverted(u), Piece::Empty);
    assert(positions(inverted(u), Piece::Empty) =~= positions(u, Piece::Empty));
    lemma_settle_count(inverted(u), n, Piece::Empty, usize::MAX as nat);
}

/// A grid that is not full holds an empty cell.
pub proof fn lemma_some_empty(g: Seq<Piece>)
    ensures
        !crate::ai_serial::all_filled(g) ==> crate::order::count_of(g, Piece::Empty) > 0,
{
    lemma_count_positions(g, Piece::Empty);
    if !crate::ai_serial::all_filled(g) {
        let i = choose|i: int| 0 <= i < g.len() && !(g[i] != Piece::Empty);
        assert(positions(g, Piece::Empty).contains(i));
    }
}

proof fn lemma_full_count(g: Seq<Piece>)
    ensures
        crate::ai_serial::all_filled(g) ==> crate::order::count_of(g, Piece::Empty) == 0,
{
    lemma_count_positions(g, Piece::Empty);
    if crate::ai_serial::all_filled(g) {
        assert(positions(g, Piece::Empty) =~= Set::empty());
    }
}

/// When the position an engine for `engine` analyzes for `player` on `g`
/// is lost or full, `g` itself is full or won by `player`'s opponent.
pub proof fn lemma_key_lost_or_full(g: Seq<Piece>, n: nat, engine: Piece, player: Piece)
    requires
        n <= usize::MAX,
        g.len() == n * n,
        engine != Piece::Empty,
        player != Piece::Empty,
        wins(crate::ai_serial::key_for(g, n as int, engine, player), n, inverse_of(engine))
            || crate::ai_serial::all_filled(crate::ai_serial::key_for(g, n as int, engine, player)),
    ensures
        wins(g, n, inverse_of(player)) || crate::ai_serial::all_filled(g),
{
    let seen = if player != engine {
        inverted(g)
    } else {
        g
    };
    let k = settle(seen, n as int, usize::MAX as nat);
    assert(seen.len() == n * n);
    if wins(k, n, inverse_of(engine)) {
        lemma_settle_keeps_wins(seen, n, inverse_of(engine), usize::MAX as nat);
        if player != engine {
            lemma_wins_to_cells(inverted(g), n, inverse_of(engine));
            lemma_cells_inverted(g, n as int, engine);
            lemma_cells_to_wins(g, n, engine);
        }
    } else {
        lemma_full_count(k);
        lemma_settle_count(seen, n as int, Piece::Empty, usize::MAX as nat);
        lemma_some_empty(seen);
        if player != engine {
            lemma_count_positions(g, Piece::Empty);
            lemma_count_positions(inverted(g), Piece::Empty);
            assert(positions(inverted(g), Piece::Empty) =~= positions(g, Piece::Empty));
        }
        lemma_some_empty(g);
    }
}

/// After `mover` fills one empty cell and the position is fully
/// canonicalized, one empty cell fewer remains.
pub proof fn lemma_placed_empties(g: Seq<Piece>, n: int, i: int, mover: Piece)
    requires
        n >= 0,
        g.len() == n * n,
        0 <= i < g.len(),
        g[i] == Piece::Empty,
        mover != Piece::Empty,
    ensures
        crate::order::count_of(settle(g.update(i, mover), n, usize::MAX as nat), Piece::Empty) + 1
            == crate::order::count_of(g, Piece::Empty),
{
    let u = g.update(i, mover);
    lemma_count_positions(g, Piece::Empty);
    lemma_count_positions(u, Piece::Empty);
    assert(positions(u, Piece::Empty) =~= positions(g, Piece::Empty).remove(i));
    lemma_settle_count(u, n, Piece::Empty, usize::MAX as nat);
}

} // verus!
