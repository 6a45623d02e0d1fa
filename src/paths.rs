//! The names of the files engines keep their analyses in.
use crate::space::{inverse_of, Piece};
use vstd::prelude::*;
use vstd::string::StringExecFns;

verus! {

/// The decimal digit `d`.
pub open spec fn digit(d: nat) -> char {
    if d == 0 {
        '0'
    } else if d == 1 {
        '1'
    } else if d == 2 {
        '2'
    } else if d == 3 {
        '3'
    } else if d == 4 {
        '4'
    } else if d == 5 {
        '5'
    } else if d == 6 {
        '6'
    } else if d == 7 {
        '7'
    } else if d == 8 {
        '8'
    } else {
        '9'
    }
}

/// `n` written in decimal, without leading zeros.
pub open spec fn decimal(n: nat) -> Seq<char>
    decreases n,
{
    if n < 10 {
        seq![digit(n)]
    } else {
        decimal(n / 10).push(digit(n % 10))
    }
}

/// The decimal digit `d` as text.
fn digit_text(d: usize) -> (r: &'static str)
    requires
        d < 10,
    ensures
        r@ == seq![digit(d as nat)],
{
    match d {
        0 => {
            proof {
                reveal_strlit("0");
            }
            "0"
        },
        1 => {
            proof {
                reveal_strlit("1");
            }
            "1"
        },
        2 => {
            proof {
                reveal_strlit("2");
            }
            "2"
        },
        3 => {
            proof {
                reveal_strlit("3");
            }
            "3"
        },
        4 => {
            proof {
                reveal_strlit("4");
            }
            "4"
        },
        5 => {
            proof {
                reveal_strlit("5");
            }
            "5"
        },
        6 => {
            proof {
                reveal_strlit("6");
            }
            "6"
        },
        7 => {
            proof {
                reveal_strlit("7");
            }
            "7"
        },
        8 => {
            proof {
                reveal_strlit("8");
            }
            "8"
        },
        _ => {
            proof {
                reveal_strlit("9");
            }
            "9"
        },
    }
}

/// `n` written in decimal.
pub(crate) fn decimal_text(n: usize) -> (r: String)
    ensures
        r@ == decimal(n as nat),
    decreases n,
{
    if n < 10 {
        String::from_str(digit_text(n))
    } else {
        let mut s = decimal_text(n / 10);
        s.append(digit_text(n % 10));
        s
    }
}

/// The letter of a piece in a file name: `X`, `O`, or `_`.
pub open spec fn piece_letter(p: Piece) -> Seq<char> {
    match p {
        Piece::X => seq!['X'],
        Piece::O => seq!['O'],
        Piece::Empty => seq!['_'],
    }
}

fn piece_text(p: Piece) -> (r: &'static str)
    ensures
        r@ == piece_letter(p),
{
    match p {
        Piece::X => {
            proof {
                reveal_strlit("X");
            }
            "X"
        },
        Piece::O => {
            proof {
                reveal_strlit("O");
            }
            "O"
        },
        Piece::Empty => {
            proof {
                reveal_strlit("_");
            }
            "_"
        },
    }
}

/// The piece a file is named after: the engine's own, or its opponent's.
pub open spec fn named_piece(piece: Piece, inverted: bool) -> Piece {
    if inverted {
        inverse_of(piece)
    } else {
        piece
    }
}

/// `strategies/<kind>-s<size>-p<piece><tail>`.
pub open spec fn path_text(kind: Seq<char>, size: usize, piece: Piece, inverted: bool, tail: Seq<char>) -> Seq<char> {
    seq!['s', 't', 'r', 'a', 't', 'e', 'g', 'i', 'e', 's', '/'] + kind + seq!['-', 's'] + decimal(size as nat)
        + seq!['-', 'p'] + piece_letter(named_piece(piece, inverted)) + tail
}

/// `strategies/<kind>-s<size>-p<piece><tail>`.
pub fn strategy_path(kind: &str, size: usize, piece: Piece, inverted: bool, tail: &str) -> (r: String)
    ensures
        r@ == path_text(kind@, size, piece, inverted, tail@),
{
    let p = if inverted {
        piece.inverse()
    } else {
        piece
    };
    proof {
        reveal_strlit("strategies/");
        reveal_strlit("-s");
        reveal_strlit("-p");
    }
    let mut s = String::from_str("strategies/");
    s.append(kind);
    s.append("-s");
    let digits = decimal_text(size);
    s.append(digits.as_str());
    s.append("-p");
    s.append(piece_text(p));
    s.append(tail);
    proof {
        assert("strategies/"@ =~= seq!['s', 't', 'r', 'a', 't', 'e', 'g', 'i', 'e', 's', '/']);
        assert("-s"@ =~= seq!['-', 's']);
        assert("-p"@ =~= seq!['-', 'p']);
    }
    s
}

} // verus!

verus! {

/// `-d<depth>.cbor`.
pub fn depth_tail(depth: usize) -> (r: String)
    ensures
        r@ == seq!['-', 'd'] + decimal(depth as nat) + seq!['.', 'c', 'b', 'o', 'r'],
{
    proof {
        reveal_strlit("-d");
        reveal_strlit(".cbor");
    }
    let mut s = String::from_str("-d");
    let digits = decimal_text(depth);
    s.append(digits.as_str());
    s.append(".cbor");
    proof {
        assert("-d"@ =~= seq!['-', 'd']);
        assert(".cbor"@ =~= seq!['.', 'c', 'b', 'o', 'r']);
    }
    s
}

} // verus!
