//! Reading a move typed as a column letter and a row digit, such as `B3`.
use crate::space::Coord;
use vstd::prelude::*;
use vstd::string::StringSliceAdditionalSpecFns;

verus! {

/// The column of an ASCII letter, either case: `A` or `a` is 0.
pub open spec fn column_of(b: u8) -> Option<usize> {
    if 65 <= b <= 90 {
        Some((b - 65) as usize)
    } else if 97 <= b <= 122 {
        Some((b - 97) as usize)
    } else {
        None
    }
}

/// The row of a digit from `1` to `9`: `1` is 0.
pub open spec fn row_of(b: u8) -> Option<usize> {
    if 49 <= b <= 57 {
        Some((b - 49) as usize)
    } else {
        None
    }
}

/// The coordinate that two bytes, a letter then a digit from `1`, name.
pub open spec fn move_of(s: Seq<u8>) -> Option<Coord> {
    if s.len() == 2 && column_of(s[0]) is Some && row_of(s[1]) is Some {
        Some(Coord { row: row_of(s[1])->Some_0, col: column_of(s[0])->Some_0 })
    } else {
        None
    }
}

/// Reads a move such as `B3` (column B, row 3) or `b3`; `None` for any
/// other text.
pub fn coord_from_str(move_str: &str) -> (r: Option<Coord>)
    ensures
        r == move_of(move_str.spec_bytes()),
{
    let bytes = move_str.as_bytes();
    if bytes.len() != 2 {
        return None;
    }
    let c = bytes[0];
    let d = bytes[1];
    let col: usize = if 65 <= c && c <= 90 {
        (c - 65) as usize
    } else if 97 <= c && c <= 122 {
        (c - 97) as usize
    } else {
        return None;
    };
    if !(49 <= d && d <= 57) {
        return None;
    }
    Some(Coord { row: (d - 49) as usize, col })
}

} // verus!
