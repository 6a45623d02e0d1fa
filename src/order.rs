//! The order on rows used to bring a board into canonical form.
use crate::space::{Piece, Space};
use std::cmp::Ordering;
use vstd::arithmetic::power2::{lemma_pow2_pos, lemma_pow2_unfold, pow2};
use vstd::prelude::*;

verus! {

/// The pieces of a sequence of spaces.
pub open spec fn bare(s: Seq<Space>) -> Seq<Piece> {
    s.map_values(|x: Space| x.piece)
}

/// How many entries of `s` are `p`.
pub open spec fn count_of(s: Seq<Piece>, p: Piece) -> nat
    decreases s.len(),
{
    if s.len() == 0 {
        0
    } else {
        count_of(s.drop_last(), p) + if s.last() == p {
            1nat
        } else {
            0nat
        }
    }
}

/// The sum of `2^i` over the indices `i` at which `s` holds `p`.
pub open spec fn mask_of(s: Seq<Piece>, p: Piece) -> nat
    decreases s.len(),
{
    if s.len() == 0 {
        0
    } else {
        mask_of(s.drop_last(), p) + if s.last() == p {
            pow2((s.len() - 1) as nat)
        } else {
            0nat
        }
    }
}

/// The sort key of a row: the number of `O`s, the number of `X`s, the
/// bitmask of the `O` positions and the bitmask of the `X` positions.
pub open spec fn row_key(s: Seq<Piece>) -> (nat, nat, nat, nat) {
    (count_of(s, Piece::O), count_of(s, Piece::X), mask_of(s, Piece::O), mask_of(s, Piece::X))
}

/// Lexicographic order on keys.
pub open spec fn key_less(a: (nat, nat, nat, nat), b: (nat, nat, nat, nat)) -> bool {
    a.0 < b.0 || (a.0 == b.0 && (a.1 < b.1 || (a.1 == b.1 && (a.2 < b.2 || (a.2 == b.2
        && a.3 < b.3)))))
}

/// Row `a` comes strictly before row `b`.
pub open spec fn row_less(a: Seq<Piece>, b: Seq<Piece>) -> bool {
    key_less(row_key(a), row_key(b))
}

/// The comparison of two rows by their keys.
pub open spec fn row_order(a: Seq<Piece>, b: Seq<Piece>) -> Ordering {
    if row_less(a, b) {
        Ordering::Less
    } else if row_key(a) == row_key(b) {
        Ordering::Equal
    } else {
        Ordering::Greater
    }
}

/// The derived order of pieces: `X`, then `O`, then `Empty`.
pub open spec fn rank(p: Piece) -> int {
    match p {
        Piece::X => 0,
        Piece::O => 1,
        Piece::Empty => 2,
    }
}

/// `a` comes before `b` in lexicographic order.
pub open spec fn lex_less(a: Seq<Piece>, b: Seq<Piece>) -> bool {
    exists|k: int|
        0 <= k < a.len() && k < b.len() && a.subrange(0, k) == b.subrange(0, k) && #[trigger] rank(
            a[k],
        ) < rank(b[k])
}

proof fn lemma_mask_bound(s: Seq<Piece>, p: Piece)
    ensures
        mask_of(s, p) < pow2(s.len() as nat),
    decreases s.len(),
{
    if s.len() > 0 {
        lemma_mask_bound(s.drop_last(), p);
        lemma_pow2_unfold(s.len() as nat);
    } else {
        lemma_pow2_pos(0);
    }
}

/// The number of entries of `row` that hold `p`.
pub fn count_in(row: &[Piece], p: Piece) -> (r: usize)
    ensures
        r == count_of(row@, p),
{
    let mut c: usize = 0;
    let mut i: usize = 0;
    while i < row.len()
        invariant
            i <= row@.len(),
            c <= i,
            c == count_of(row@.subrange(0, i as int), p),
        decreases row@.len() - i,
    {
        assert(row@.subrange(0, i + 1).drop_last() =~= row@.subrange(0, i as int));
        if row[i] == p {
            c = c + 1;
        }
        i = i + 1;
    }
    assert(row@.subrange(0, i as int) =~= row@);
    c
}

/// Compares the bitmasks of `p` in two rows of one length, scanning from
/// the highest position down.
fn mask_cmp(a: &[Piece], b: &[Piece], p: Piece) -> (r: Ordering)
    requires
        a@.len() == b@.len(),
    ensures
        r == Ordering::Less <==> mask_of(a@, p) < mask_of(b@, p),
        r == Ordering::Equal <==> mask_of(a@, p) == mask_of(b@, p),
        r == Ordering::Greater <==> mask_of(a@, p) > mask_of(b@, p),
{
    let ghost sa = a@;
    let ghost sb = b@;
    let mut k: usize = a.len();
    assert(sa.subrange(0, k as int) =~= sa);
    assert(sb.subrange(0, k as int) =~= sb);
    while k > 0
        invariant
            k <= a@.len(),
            a@.len() == b@.len(),
            sa == a@,
            sb == b@,
            mask_of(sa, p) as int - mask_of(sb, p) as int == mask_of(sa.subrange(0, k as int), p) as int
                - mask_of(sb.subrange(0, k as int), p) as int,
        decreases k,
    {
        let ghost pa = sa.subrange(0, k as int);
        let ghost pb = sb.subrange(0, k as int);
        proof {
            assert(pa.drop_last() =~= sa.subrange(0, k - 1));
            assert(pb.drop_last() =~= sb.subrange(0, k - 1));
            lemma_mask_bound(sa.subrange(0, k - 1), p);
            lemma_mask_bound(sb.subrange(0, k - 1), p);
        }
        let in_a = a[k - 1] == p;
        let in_b = b[k - 1] == p;
        if in_a && !in_b {
            return Ordering::Greater;
        }
        if !in_a && in_b {
            return Ordering::Less;
        }
        k = k - 1;
    }
    proof {
        assert(sa.subrange(0, 0) =~= Seq::<Piece>::empty());
        assert(sb.subrange(0, 0) =~= Seq::<Piece>::empty());
    }
    Ordering::Equal
}

/// Compares two rows of one length by their keys: `O` count, `X` count,
/// `O` bitmask, `X` bitmask.
pub fn compare_rows(left: &[Piece], right: &[Piece]) -> (r: Ordering)
    requires
        left@.len() == right@.len(),
    ensures
        r == row_order(left@, right@),
{
    let lo = count_in(left, Piece::O);
    let ro = count_in(right, Piece::O);
    if lo < ro {
        return Ordering::Less;
    }
    if lo > ro {
        return Ordering::Greater;
    }
    let lx = count_in(left, Piece::X);
    let rx = count_in(right, Piece::X);
    if lx < rx {
        return Ordering::Less;
    }
    if lx > rx {
        return Ordering::Greater;
    }
    match mask_cmp(left, right, Piece::O) {
        Ordering::Equal => mask_cmp(left, right, Piece::X),
        o => o,
    }
}

/// The bitmask of the positions of `p` in `row`: `2^i` for each index `i`
/// that holds `p`.
pub fn mask_in(row: &[Piece], p: Piece) -> (r: u64)
    requires
        row@.len() < 64,
    ensures
        r == mask_of(row@, p),
{
    let mut w: u64 = 0;
    let mut bit: u64 = 1;
    let mut i: usize = 0;
    proof {
        vstd::arithmetic::power2::lemma2_to64();
        vstd::arithmetic::power2::lemma2_to64_rest();
    }
    while i < row.len()
        invariant
            i <= row@.len() < 64,
            i < 64 ==> bit == pow2(i as nat),
            w == mask_of(row@.subrange(0, i as int), p),
            w < pow2(i as nat),
            pow2(63) == 0x8000_0000_0000_0000,
        decreases row@.len() - i,
    {
        proof {
            assert(row@.subrange(0, i + 1).drop_last() =~= row@.subrange(0, i as int));
            lemma_pow2_unfold((i + 1) as nat);
            if i < 63 {
                vstd::arithmetic::power2::lemma_pow2_strictly_increases(i as nat, 63);
            }
        }
        if row[i] == p {
            w = w + bit;
        }
        if i + 1 < 64 {
            proof {
                if i + 1 < 63 {
                    vstd::arithmetic::power2::lemma_pow2_strictly_increases((i + 1) as nat, 63);
                }
            }
            bit = bit * 2;
        }
        i = i + 1;
    }
    assert(row@.subrange(0, i as int) =~= row@);
    w
}

/// The pieces of a row of spaces.
pub fn pieces_of(row: &[Space]) -> (r: Vec<Piece>)
    ensures
        r@ == bare(row@),
{
    let mut v: Vec<Piece> = Vec::new();
    let mut i: usize = 0;
    while i < row.len()
        invariant
            i <= row@.len(),
            v@ == bare(row@).subrange(0, i as int),
        decreases row@.len() - i,
    {
        v.push(row[i].piece);
        i = i + 1;
        assert(v@ =~= bare(row@).subrange(0, i as int));
    }
    assert(v@ =~= bare(row@));
    v
}

/// Compares two piece sequences of one length in lexicographic order.
pub fn lex_cmp(a: &Vec<Piece>, b: &Vec<Piece>) -> (r: Ordering)
    requires
        a@.len() == b@.len(),
    ensures
        r == Ordering::Less <==> lex_less(a@, b@),
        r == Ordering::Greater <==> lex_less(b@, a@),
        r == Ordering::Equal <==> a@ == b@,
{
    let mut i: usize = 0;
    while i < a.len()
        invariant
            i <= a@.len() == b@.len(),
            a@.subrange(0, i as int) == b@.subrange(0, i as int),
        decreases a@.len() - i,
    {
        let ra = piece_rank(a[i]);
        let rb = piece_rank(b[i]);
        if ra != rb {
            proof {
                assert forall|k: int|
                    0 <= k < a@.len() && k < b@.len() && a@.subrange(0, k) == b@.subrange(0, k)
                        && rank(a@[k]) != rank(b@[k]) implies k == i by {
                    if k < i {
                        assert(a@.subrange(0, i as int)[k] == b@.subrange(0, i as int)[k]);
                    }
                    if k > i {
                        assert(a@.subrange(0, k)[i as int] == b@.subrange(0, k)[i as int]);
                    }
                }
                if a@ == b@ {
                    assert(a@[i as int] == b@[i as int]);
                }
            }
            if ra < rb {
                assert(rank(a@[i as int]) < rank(b@[i as int]));
                return Ordering::Less;
            } else {
                assert(rank(b@[i as int]) < rank(a@[i as int]));
                return Ordering::Greater;
            }
        }
        proof {
            assert(a@[i as int] == b@[i as int]) by {
                assert(rank(a@[i as int]) == rank(b@[i as int]));
            }
            assert(a@.subrange(0, i + 1) =~= a@.subrange(0, i as int).push(a@[i as int]));
            assert(b@.subrange(0, i + 1) =~= b@.subrange(0, i as int).push(b@[i as int]));
        }
        i = i + 1;
    }
    proof {
        assert(a@ =~= a@.subrange(0, i as int));
        assert(b@ =~= b@.subrange(0, i as int));
    }
    Ordering::Equal
}

fn piece_rank(p: Piece) -> (r: u8)
    ensures
        r == rank(p),
{
    match p {
        Piece::X => 0,
        Piece::O => 1,
        Piece::Empty => 2,
    }
}

} // verus!
