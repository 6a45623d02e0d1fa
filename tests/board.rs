use tag::board::{Board, GridError};
use tag::game::{after_turn, before_turn, GameState};
use tag::human::Human;
use tag::move_value::{available_spaces, MoveValue};
use tag::scrambled_board::{bare_row_cmp, count, row_cmp, weight_positions, ScrambledBoard};
use tag::space::{Coord, Piece, Space};
use tag::user_input::coord_from_str;
use std::cmp::Ordering;

fn board_of(size: usize, cells: &[Piece]) -> Board {
    Board { size, grid: cells.to_vec() }
}

use Piece::{Empty as E, O, X};

#[test]
fn place_reports_each_error() {
    let mut b = Board::new(3);
    assert_eq!(
        b.place(X, Coord { row: 3, col: 0 }),
        Err(GridError::RowIndexOutOfBounds { idx_found: 3, board_size: 3 })
    );
    assert_eq!(
        b.place(X, Coord { row: 0, col: 5 }),
        Err(GridError::ColIndexOutOfBounds { idx_found: 5, board_size: 3 })
    );
    assert_eq!(b.place(X, Coord { row: 1, col: 2 }), Ok(()));
    assert_eq!(b.grid[5], X);
    assert_eq!(
        b.place(O, Coord { row: 1, col: 2 }),
        Err(GridError::SpaceOccupied(Coord { row: 1, col: 2 }))
    );
    assert_eq!(b.piece_at(Coord { row: 1, col: 2 }), Ok(X));
    assert_eq!(b.piece_at(Coord { row: 0, col: 3 }), Err(GridError::ColIndexOutOfBounds { idx_found: 3, board_size: 3 }));
}

#[test]
fn invert_swaps_x_and_o() {
    let b = board_of(2, &[X, O, E, X]);
    assert_eq!(b.inverse().grid, vec![O, X, E, O]);
    assert_eq!(X.inverse(), O);
    assert_eq!(E.inverse(), E);
}

#[test]
fn full_board_detection() {
    assert!(board_of(2, &[X, O, O, X]).is_full());
    assert!(!board_of(2, &[X, O, E, X]).is_full());
    assert!(Board::new(0).is_full());
}

#[test]
fn transversal_wins() {
    let b = board_of(3, &[E, X, E, E, E, X, X, E, E]);
    assert!(b.has_win(X));
    assert!(!b.has_win(O));
    let row_only = board_of(3, &[X, X, X, E, E, E, E, E, E]);
    assert!(!row_only.has_win(X));
    let needs_backtracking = board_of(3, &[X, X, E, X, E, E, X, E, E]);
    assert!(!needs_backtracking.has_win(X));
    let matched = board_of(3, &[X, X, E, X, E, E, E, E, X]);
    assert!(matched.has_win(X));
    assert!(Board::new(0).has_win(X));
}

#[test]
fn transpose_reflects_the_grid() {
    let mut b = board_of(3, &[X, O, E, E, X, O, O, E, E]);
    b.transpose();
    assert_eq!(b.grid, vec![X, E, O, O, X, E, E, O, E]);
}

#[test]
fn standardize_sorts_rows_and_columns() {
    let mut b = board_of(2, &[O, E, E, E]);
    b.standardize();
    assert_eq!(b.grid, vec![E, E, E, O]);
    assert!(b.is_standard());
    let mut c = board_of(2, &[E, E, E, O]);
    c.standardize();
    assert_eq!(c.grid, vec![E, E, E, O]);
}

#[test]
fn fully_standardize_is_idempotent() {
    let mut b = board_of(4, &[O, O, X, E, X, E, O, O, O, O, O, E, X, E, X, O]);
    b.fully_standardize();
    assert!(b.is_standard());
    let once = b.clone();
    b.fully_standardize();
    assert_eq!(b, once);
}

#[test]
fn symmetric_boards_share_a_canonical_form() {
    let mut a = board_of(3, &[X, E, E, E, O, E, E, E, E]);
    let mut b = board_of(3, &[E, E, E, E, E, X, E, O, E]);
    a.fully_standardize();
    b.fully_standardize();
    assert_eq!(a, b);
}

#[test]
fn row_order_keys() {
    assert_eq!(Board::row_cmp(&[O, E], &[X, X]), Ordering::Greater);
    assert_eq!(Board::row_cmp(&[X, E], &[X, X]), Ordering::Less);
    assert_eq!(Board::row_cmp(&[O, E], &[E, O]), Ordering::Less);
    assert_eq!(Board::row_cmp(&[O, X], &[X, O]), Ordering::Less);
    assert_eq!(Board::row_cmp(&[O, X], &[O, X]), Ordering::Equal);
}

#[test]
fn scrambled_board_keeps_coordinates() {
    let b = board_of(2, &[X, E, E, O]);
    let mut s = ScrambledBoard::from_board(&b);
    s.standardize();
    assert!(s.is_standard());
    for space in s.spaces() {
        assert_eq!(b.piece_at(space.coord), Ok(space.piece));
    }
    assert_eq!(s.to_original_board(), b);
    let mut t = s.clone();
    t.transpose();
    assert_eq!(t.piece_at(Coord { row: 0, col: 1 }), s.piece_at(Coord { row: 1, col: 0 }));
}

#[test]
fn scrambled_place_and_errors() {
    let b = Board::new(2);
    let mut s = ScrambledBoard::from_board(&b);
    assert_eq!(s.place(X, Coord { row: 1, col: 0 }), Ok(()));
    assert_eq!(s.place(O, Coord { row: 1, col: 0 }), Err(GridError::SpaceOccupied(Coord { row: 1, col: 0 })));
    assert_eq!(s.space_at(Coord { row: 2, col: 0 }), Err(GridError::RowIndexOutOfBounds { idx_found: 2, board_size: 2 }));
    assert_eq!(s.space_at(Coord { row: 1, col: 0 }), Ok(Space { piece: X, coord: Coord { row: 1, col: 0 } }));
    let inv = s.inverse();
    assert_eq!(inv.piece_at(Coord { row: 1, col: 0 }), Ok(O));
}

#[test]
fn space_row_helpers() {
    let row = [
        Space { piece: O, coord: Coord { row: 0, col: 0 } },
        Space { piece: E, coord: Coord { row: 0, col: 1 } },
        Space { piece: O, coord: Coord { row: 0, col: 2 } },
    ];
    let other = [
        Space { piece: X, coord: Coord { row: 1, col: 0 } },
        Space { piece: O, coord: Coord { row: 1, col: 1 } },
        Space { piece: O, coord: Coord { row: 1, col: 2 } },
    ];
    assert_eq!(count(&row, O), 2);
    assert_eq!(weight_positions(&row, O), 5);
    assert_eq!(weight_positions(&other, O), 6);
    assert_eq!(row_cmp(&row, &other), Ordering::Less);
    assert_eq!(bare_row_cmp(&row, &other), Ordering::Greater);
}

#[test]
fn move_value_order() {
    assert_eq!(MoveValue::Win(1).cmp(&MoveValue::Win(3)), Ordering::Greater);
    assert_eq!(MoveValue::Lose(1).cmp(&MoveValue::Lose(3)), Ordering::Less);
    assert_eq!(MoveValue::Tie(1).cmp(&MoveValue::Tie(3)), Ordering::Less);
    assert_eq!(MoveValue::Unknown(1).cmp(&MoveValue::Unknown(3)), Ordering::Greater);
    assert_eq!(MoveValue::Unknown(9).cmp(&MoveValue::Tie(0)), Ordering::Less);
    assert_eq!(MoveValue::Unknown(0).cmp(&MoveValue::Lose(9)), Ordering::Greater);
    assert_eq!(MoveValue::Lose(200).cmp(&MoveValue::Tie(0)), Ordering::Less);
    assert_eq!(MoveValue::Win(7).cmp(&MoveValue::Win(7)), Ordering::Equal);
    assert_eq!(MoveValue::Lose(2).invert().increment(), MoveValue::Win(3));
    assert_eq!(MoveValue::Win(0).invert(), MoveValue::Lose(0));
    assert_eq!(MoveValue::Tie(255).increment(), MoveValue::Tie(255));
    assert_eq!(MoveValue::Unknown(4).depth(), 4);
}

#[test]
fn available_spaces_in_row_order() {
    let b = board_of(2, &[E, X, O, E]);
    assert_eq!(available_spaces(&b), vec![Coord { row: 0, col: 0 }, Coord { row: 1, col: 1 }]);
}

#[test]
fn turn_rules() {
    let full = board_of(2, &[X, O, O, X]);
    assert_eq!(before_turn(&full), Some(GameState::Tie));
    assert_eq!(before_turn(&Board::new(2)), None);
    assert_eq!(after_turn(&full, X, GameState::P1), Some(GameState::P1));
    assert_eq!(after_turn(&full, O, GameState::P2), Some(GameState::P2));
    assert_eq!(after_turn(&board_of(2, &[X, X, O, E]), X, GameState::P1), None);
    assert_eq!(GameState::P1.other(), GameState::P2);
}

#[test]
fn typed_moves() {
    assert_eq!(coord_from_str("B3"), Some(Coord { row: 2, col: 1 }));
    assert_eq!(coord_from_str("a1"), Some(Coord { row: 0, col: 0 }));
    assert_eq!(coord_from_str("A0"), None);
    assert_eq!(coord_from_str("3B"), None);
    assert_eq!(coord_from_str("B33"), None);
    assert_eq!(coord_from_str(""), None);
}

#[test]
fn human_keeps_name_and_piece() {
    let h = Human::new("Dan", O);
    assert_eq!(h.name, "Dan");
    assert_eq!(h.piece, O);
}

#[test]
fn column_permutation_can_change_the_canonical_form() {
    let mut a = board_of(4, &[O, O, X, E, X, E, O, O, O, O, O, E, X, E, X, O]);
    let mut b = board_of(4, &[O, X, E, O, X, O, O, E, O, O, E, O, X, X, O, E]);
    a.fully_standardize();
    b.fully_standardize();
    assert!(a.is_standard());
    assert!(b.is_standard());
    assert_ne!(a, b);
}

#[test]
fn error_messages() {
    assert_eq!(
        GridError::RowIndexOutOfBounds { idx_found: 12, board_size: 3 }.message(),
        "Found row index 12, but board is of size 3"
    );
    assert_eq!(
        GridError::ColIndexOutOfBounds { idx_found: 0, board_size: 10 }.message(),
        "Found col index 0, but board is of size 10"
    );
    assert_eq!(
        GridError::SpaceOccupied(Coord { row: 2, col: 7 }).message(),
        "Space at row 2, col 7 already occupied"
    );
}

#[test]
fn scrambled_views_of_a_board() {
    let b = board_of(3, &[X, E, E, E, O, E, E, E, X]);
    let s = ScrambledBoard::from_board(&b);
    assert_eq!(s.to_board(), b);
    assert_eq!(s.to_board_scrambled(), b);
    let st = s.standardized();
    let mut key = b.clone();
    key.standardize();
    assert_eq!(st.to_board_scrambled(), key);
    assert_eq!(st.to_board(), b);
    let moved = s.clone().into_standardized();
    assert_eq!(moved.bare_grid(), st.bare_grid());
    let mut full = s.clone();
    full.fully_standardize();
    assert!(full.is_standard());
    assert_eq!(full.to_board(), b);
    let t = s.transposed();
    assert_eq!(t.piece_at(Coord { row: 0, col: 2 }), Ok(E));
    assert_eq!(t.space_at(Coord { row: 1, col: 1 }).unwrap().coord, Coord { row: 1, col: 1 });
    let mut inv = s.clone();
    inv.invert();
    assert_eq!(inv.to_board_scrambled().grid, b.inverse().grid);
    assert_eq!(inv.to_board(), b.inverse());
}

#[test]
fn board_transposed_and_inverse_copies() {
    let b = board_of(2, &[X, O, E, E]);
    assert_eq!(b.transposed().grid, vec![X, E, O, E]);
    assert_eq!(b.inverse().grid, vec![O, X, E, E]);
    assert_eq!(b.grid, vec![X, O, E, E]);
    let mut c = b.clone();
    c.invert();
    assert_eq!(c, b.inverse());
}
