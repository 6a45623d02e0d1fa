use tag::ai_lazy::{equivalent_moves, AiLazy, LazyMoveAnalysis};
use tag::ai_serial::AiSerial;
use tag::board::Board;
use tag::move_value::MoveValue;
use tag::space::{Coord, Piece};

const SIZE: usize = 4;

#[test]
fn analyze_ai_serial() {
    let size = SIZE;
    let mut ai_x = AiSerial::new(size, Piece::X, 100);
    let mut b = Board::new(size);
    ai_x.make_move(&mut b);
}

#[test]
fn analyze_ai_lazy() {
    let size = SIZE;
    let mut ai_x = AiLazy::new(size, Piece::X);
    let mut b = Board::new(size);
    ai_x.make_move(&mut b);
}

#[test]
fn serial_move_lands_on_one_empty_cell() {
    let mut ai = AiSerial::new(3, Piece::O, 2);
    let mut b = Board::new(3);
    b.place(Piece::X, Coord { row: 1, col: 1 }).unwrap();
    ai.make_move(&mut b);
    let o_count = b.grid.iter().filter(|p| **p == Piece::O).count();
    assert_eq!(o_count, 1);
    assert_eq!(b.piece_at(Coord { row: 1, col: 1 }), Ok(Piece::X));
}

#[test]
fn two_by_two_is_a_tie_for_every_move() {
    let mut ai = AiSerial::new(2, Piece::X, 4);
    let b = Board::new(2);
    let a = ai.analyze(&b, 4);
    assert!(matches!(a.evaluation, MoveValue::Tie(_)));
    assert_eq!(a.evaluation, MoveValue::Tie(4));
    assert_eq!(a.move_options.len(), 4);
}

#[test]
fn three_by_three_is_drawn() {
    let mut ai = AiSerial::new(3, Piece::X, 9);
    let b = Board::new(3);
    let a = ai.analyze(&b, 9);
    assert_eq!(a.evaluation, MoveValue::Tie(9));
    assert_eq!(a.move_options.len(), 9);
    let mut ai_o = AiSerial::new(3, Piece::O, 9);
    let a_o = ai_o.analyze(&b, 9);
    assert_eq!(a_o.evaluation, MoveValue::Tie(9));
}

#[test]
fn lazy_three_by_three_is_drawn() {
    let mut ai = AiLazy::new(3, Piece::X);
    let b = Board::new(3);
    let a = ai.analyze(&b);
    assert_eq!(a.evaluation, MoveValue::Tie(9));
    assert!(a.move_option.is_some());
}

fn one_move_from_a_transversal() -> Board {
    let mut b = Board::new(3);
    b.place(Piece::X, Coord { row: 0, col: 0 }).unwrap();
    b.place(Piece::X, Coord { row: 1, col: 1 }).unwrap();
    b
}

#[test]
fn completing_move_is_the_only_option() {
    let b = one_move_from_a_transversal();
    let mut ai = AiSerial::new(3, Piece::X, 9);
    assert_eq!(ai.choose_move(Piece::X, &b), Some(Coord { row: 2, col: 2 }));
    let mut key = b.clone();
    key.standardize();
    let a = ai.analyze(&key, 9);
    assert_eq!(a.evaluation, MoveValue::Win(1));
    assert_eq!(a.move_options.len(), 1);
    let c = a.move_options[0];
    key.place(Piece::X, c).unwrap();
    assert!(key.has_win(Piece::X));
}

#[test]
fn lazy_takes_the_completing_move() {
    let b = one_move_from_a_transversal();
    let mut ai = AiLazy::new(3, Piece::X);
    assert_eq!(ai.choose_move(Piece::X, &b), Some(Coord { row: 2, col: 2 }));
    let mut ai_random = AiLazy::new(3, Piece::X).randomized();
    assert_eq!(ai_random.choose_move(Piece::X, &b), Some(Coord { row: 2, col: 2 }));
}

#[test]
fn lost_position_is_lose_zero_without_moves() {
    let mut b = Board::new(2);
    b.place(Piece::O, Coord { row: 0, col: 0 }).unwrap();
    b.place(Piece::O, Coord { row: 1, col: 1 }).unwrap();
    let mut ai = AiSerial::new(2, Piece::X, 4);
    let a = ai.analyze(&b, 4);
    assert_eq!(a.evaluation, MoveValue::Lose(0));
    assert!(a.move_options.is_empty());
    assert_eq!(a.depth_used, usize::MAX);
    assert_eq!(ai.choose_move(Piece::X, &b), None);
}

#[test]
fn full_board_is_tie_zero() {
    let mut b = Board::new(2);
    b.place(Piece::X, Coord { row: 0, col: 0 }).unwrap();
    b.place(Piece::X, Coord { row: 0, col: 1 }).unwrap();
    b.place(Piece::O, Coord { row: 1, col: 0 }).unwrap();
    b.place(Piece::O, Coord { row: 1, col: 1 }).unwrap();
    let mut ai = AiSerial::new(2, Piece::X, 4);
    let a = ai.analyze(&b, 4);
    assert_eq!(a.evaluation, MoveValue::Tie(0));
    assert!(a.move_options.is_empty());
}

#[test]
fn depth_zero_lists_every_empty_cell() {
    let mut b = Board::new(2);
    b.place(Piece::X, Coord { row: 0, col: 1 }).unwrap();
    let mut ai = AiSerial::new(2, Piece::X, 4);
    let a = ai.analyze(&b, 0);
    assert_eq!(a.evaluation, MoveValue::Unknown(0));
    assert_eq!(a.depth_used, 0);
    assert_eq!(
        a.move_options,
        vec![Coord { row: 0, col: 0 }, Coord { row: 1, col: 0 }, Coord { row: 1, col: 1 }]
    );
}

#[test]
fn cached_record_is_kept_for_shallower_queries() {
    let b = Board::new(2);
    let mut ai = AiSerial::new(2, Piece::X, 4);
    let deep = ai.analyze(&b, 4);
    let again = ai.analyze(&b, 2);
    assert_eq!(again.evaluation, deep.evaluation);
    assert_eq!(again.move_options, deep.move_options);
    assert_eq!(again.depth_used, deep.depth_used);
    assert!(deep.depth_used >= 4);
}

use tag::ai_ground_up::{AiGroundUp, BoardIterator};
use tag::ai_parallel::{combine_children, AiParallel};
use tag::move_value::MoveAnalysis;

#[test]
fn analyze_ai_parallel() {
    let size = SIZE;
    let mut ai_x = AiParallel::new(size, Piece::X, true);
    let mut b = Board::new(size);
    ai_x.make_move(&mut b);
}

#[test]
fn parallel_three_by_three_is_drawn() {
    let mut ai = AiParallel::new(3, Piece::X, true);
    let b = Board::new(3);
    let a = ai.analyze(&b);
    assert_eq!(a.evaluation, MoveValue::Tie(9));
    let mut serial = AiSerial::new(3, Piece::X, 9);
    assert_eq!(serial.analyze(&b, 9).evaluation, a.evaluation);
}

#[test]
fn parallel_takes_the_completing_move() {
    let b = one_move_from_a_transversal();
    let mut ai = AiParallel::new(3, Piece::X, false);
    assert_eq!(ai.choose_move(Piece::X, &b), Some(Coord { row: 2, col: 2 }));
}

#[test]
fn combine_keeps_every_best_move() {
    let moves = vec![Coord { row: 0, col: 0 }, Coord { row: 0, col: 1 }, Coord { row: 1, col: 0 }];
    let lower = vec![
        MoveAnalysis { evaluation: MoveValue::Tie(2), move_options: vec![], depth_used: 5 },
        MoveAnalysis { evaluation: MoveValue::Lose(3), move_options: vec![], depth_used: 2 },
        MoveAnalysis { evaluation: MoveValue::Lose(3), move_options: vec![], depth_used: 7 },
    ];
    let a = combine_children(&moves, &lower);
    assert_eq!(a.evaluation, MoveValue::Win(4));
    assert_eq!(a.move_options, vec![Coord { row: 0, col: 1 }, Coord { row: 1, col: 0 }]);
    assert_eq!(a.depth_used, 3);
}

#[test]
fn ground_up_two_by_two_plays_an_empty_cell() {
    let mut ai = AiGroundUp::new(2, Piece::X);
    let mut b = Board::new(2);
    ai.make_move(&mut b);
    assert_eq!(b.grid.iter().filter(|p| **p == Piece::X).count(), 1);
}

#[test]
fn ground_up_three_by_three_finds_the_completing_move() {
    let b = one_move_from_a_transversal();
    let mut ai = AiGroundUp::new(3, Piece::X);
    let mut with_o = b.clone();
    with_o.place(Piece::O, Coord { row: 0, col: 1 }).unwrap();
    with_o.place(Piece::O, Coord { row: 1, col: 0 }).unwrap();
    assert_eq!(ai.choose_move(Piece::X, &with_o), Some(Coord { row: 2, col: 2 }));
}

#[test]
fn board_iterator_walks_every_arrangement() {
    let mut it = BoardIterator::from_counts(2, 2, 1, 1);
    let mut seen: Vec<Vec<Piece>> = Vec::new();
    while let Some(b) = it.next() {
        assert_eq!(b.size, 2);
        assert!(!seen.contains(&b.grid));
        seen.push(b.grid);
    }
    assert_eq!(seen.len(), 12);
    assert_eq!(seen[0], vec![Piece::X, Piece::X, Piece::O, Piece::Empty]);
}

#[test]
fn board_iterator_from_move_number_counts() {
    let mut it = BoardIterator::from_move_number(3, Piece::X, 4);
    let b = it.next().unwrap();
    assert_eq!(b.grid.iter().filter(|p| **p == Piece::X).count(), 3);
    assert_eq!(b.grid.iter().filter(|p| **p == Piece::O).count(), 2);
    assert_eq!(b.grid.iter().filter(|p| **p == Piece::Empty).count(), 4);
    let mut full = BoardIterator::new(2, Piece::O);
    let f = full.next().unwrap();
    assert_eq!(f.grid, vec![Piece::X, Piece::X, Piece::O, Piece::O]);
}

#[test]
fn permute_moves_the_head_after_the_first_rise() {
    let mut it = BoardIterator::from_counts(2, 2, 1, 1);
    it.permute();
    let b = it.next().unwrap();
    assert_eq!(b.grid, vec![Piece::X, Piece::O, Piece::X, Piece::Empty]);
}

#[test]
fn strategy_file_names() {
    let serial = AiSerial::new(3, Piece::X, 5);
    assert_eq!(serial.cbor_path(false), "strategies/serial-s3-pX-d5.cbor");
    assert_eq!(serial.cbor_path(true), "strategies/serial-s3-pO-d5.cbor");
    let lazy = AiLazy::new(4, Piece::O);
    assert_eq!(lazy.cbor_path(false), "strategies/lazy-s4-pO-lazy.cbor");
    let parallel = AiParallel::new(12, Piece::X, true);
    assert_eq!(parallel.cbor_path(false), "strategies/parallel-s12-pX-lazy.cbor");
    let ground = AiGroundUp::new(2, Piece::X);
    assert_eq!(ground.cbor_path(true), "strategies/ground-up-s2-pO.cbor");
}

#[test]
fn serial_depth_is_capped_by_the_cell_count() {
    let ai = AiSerial::new(2, Piece::X, 100);
    assert_eq!(ai.cbor_path(false), "strategies/serial-s2-pX-d4.cbor");
}

#[test]
fn exported_cache_imports_into_a_fresh_engine() {
    let mut ai = AiSerial::new(2, Piece::X, 4);
    let b = Board::new(2);
    let first = ai.analyze(&b, 4);
    let entries = ai.export_cache();
    assert!(!entries.is_empty());
    let count = entries.len();
    let mut fresh = AiSerial::new(2, Piece::X, 4);
    assert_eq!(fresh.import_cache(entries, false), count);
    let again = fresh.analyze(&b, 4);
    assert_eq!(again.evaluation, first.evaluation);
    assert_eq!(again.move_options, first.move_options);
    assert_eq!(again.depth_used, first.depth_used);
}

#[test]
fn unsound_entries_are_refused() {
    let mut ai = AiSerial::new(2, Piece::X, 4);
    let claims_loss = MoveAnalysis { evaluation: MoveValue::Lose(0), move_options: vec![], depth_used: 1 };
    assert!(!ai.import_entry(vec![Piece::Empty; 4], claims_loss));
    let occupied_move = MoveAnalysis {
        evaluation: MoveValue::Tie(1),
        move_options: vec![Coord { row: 0, col: 0 }],
        depth_used: 1,
    };
    assert!(!ai.import_entry(vec![Piece::X, Piece::Empty, Piece::Empty, Piece::Empty], occupied_move));
    let wrong_size = MoveAnalysis { evaluation: MoveValue::Tie(0), move_options: vec![], depth_used: 1 };
    assert!(!ai.import_entry(vec![Piece::X; 3], wrong_size));
    let fine = MoveAnalysis {
        evaluation: MoveValue::Unknown(0),
        move_options: vec![Coord { row: 1, col: 1 }],
        depth_used: 0,
    };
    assert!(ai.import_entry(vec![Piece::X, Piece::O, Piece::Empty, Piece::Empty], fine));
}

#[test]
fn lazy_and_table_imports() {
    let mut lazy = AiLazy::new(2, Piece::O);
    let b = Board::new(2);
    let a = lazy.analyze(&b);
    let entries = lazy.export_cache();
    let mut fresh = AiLazy::new(2, Piece::O);
    assert_eq!(fresh.import_cache(entries, false), lazy.export_cache().len());
    assert_eq!(fresh.analyze(&b), a);
    assert!(!fresh.import_entry(
        vec![Piece::Empty; 4],
        LazyMoveAnalysis { evaluation: MoveValue::Win(0), move_option: Some(Coord { row: 0, col: 0 }) }
    ));
    let mut table = AiGroundUp::new(2, Piece::X);
    assert!(!table.import_entry(
        vec![Piece::X; 4],
        tag::ai_ground_up::MoveAnalysis { evaluation: MoveValue::Tie(0), move_options: vec![Coord { row: 0, col: 0 }] }
    ));
}

#[test]
fn first_win_found_may_be_slower_than_the_best_win() {
    let mut b = Board::new(3);
    b.place(Piece::X, Coord { row: 1, col: 1 }).unwrap();
    b.place(Piece::X, Coord { row: 1, col: 2 }).unwrap();
    b.place(Piece::O, Coord { row: 2, col: 1 }).unwrap();
    b.place(Piece::O, Coord { row: 2, col: 2 }).unwrap();
    let mut key = b.clone();
    key.standardize();
    let mut serial = AiSerial::new(3, Piece::X, 9);
    let mut parallel = AiParallel::new(3, Piece::X, true);
    let s = serial.analyze(&key, 9).evaluation;
    let p = parallel.analyze(&key).evaluation;
    assert!(matches!(s, MoveValue::Win(_)));
    assert!(matches!(p, MoveValue::Win(_)));
    assert_eq!(s, MoveValue::Win(3));
    assert_eq!(p, MoveValue::Win(5));
}

#[test]
fn deeper_query_replaces_a_shallow_record() {
    let b = Board::new(3);
    let mut ai = AiSerial::new(3, Piece::X, 9);
    let shallow = ai.analyze(&b, 1);
    assert_eq!(shallow.depth_used, 1);
    assert_eq!(shallow.evaluation, MoveValue::Unknown(1));
    let deeper = ai.analyze(&b, 3);
    assert!(deeper.depth_used >= 3);
    let again = ai.analyze(&b, 2);
    assert_eq!(again.depth_used, deeper.depth_used);
    assert_eq!(again.evaluation, deeper.evaluation);
}

#[test]
fn children_analyzed_apart_combine_to_the_same_result() {
    let b = one_move_from_a_transversal();
    let mut key = b.clone();
    key.standardize();
    let ai = AiParallel::new(3, Piece::X, true);
    let (moves, children) = ai.root_children(&key);
    assert_eq!(moves.len(), 7);
    assert_eq!(children.len(), 7);
    let lower: Vec<MoveAnalysis> =
        children.iter().map(|c| AiParallel::new(3, Piece::X, true).analyze(c)).collect();
    let combined = combine_children(&moves, &lower);
    assert_eq!(combined.evaluation, MoveValue::Win(1));
    assert_eq!(combined.move_options.len(), 1);
    let mut serial = AiSerial::new(3, Piece::X, 9);
    assert_eq!(serial.analyze(&key, 9).move_options, combined.move_options);
}

#[test]
fn four_by_four_full_layer_is_counted() {
    let mut it = BoardIterator::new(4, Piece::X);
    let mut count = 0usize;
    while let Some(b) = it.next() {
        assert_eq!(b.grid.iter().filter(|p| **p == Piece::X).count(), 8);
        count += 1;
    }
    assert_eq!(count, 12870);
}

#[test]
fn two_by_two_layer_hands_out_six_boards() {
    let mut it = BoardIterator::from_move_number(2, Piece::X, 2);
    let mut seen: Vec<Vec<Piece>> = Vec::new();
    while let Some(b) = it.next() {
        assert!(!seen.contains(&b.grid));
        seen.push(b.grid);
    }
    assert_eq!(seen.len(), 12);
    let mut full = BoardIterator::from_move_number(2, Piece::X, 0);
    let mut n = 0;
    while full.next().is_some() {
        n += 1;
    }
    assert_eq!(n, 6);
}

#[test]
fn equivalent_moves_lists_symmetric_cells() {
    let b = Board::new(2);
    let all = equivalent_moves(Piece::X, Coord { row: 0, col: 0 }, &b);
    assert_eq!(all.len(), 4);
    let mut c = Board::new(2);
    c.place(Piece::O, Coord { row: 0, col: 0 }).unwrap();
    let some = equivalent_moves(Piece::X, Coord { row: 1, col: 1 }, &c);
    assert_eq!(some, vec![Coord { row: 1, col: 1 }]);
    let pair = equivalent_moves(Piece::X, Coord { row: 0, col: 1 }, &c);
    assert_eq!(pair, vec![Coord { row: 0, col: 1 }, Coord { row: 1, col: 0 }]);
}

#[test]
fn random_player_fills_one_empty_cell() {
    use_random();
}

fn use_random() {
    let mut p = tag::ai_random::AiRandom::new(Piece::O);
    let mut b = Board::new(3);
    b.place(Piece::X, Coord { row: 0, col: 0 }).unwrap();
    p.make_move(&mut b);
    assert_eq!(b.grid.iter().filter(|q| **q == Piece::O).count(), 1);
    assert_eq!(b.piece_at(Coord { row: 0, col: 0 }), Ok(Piece::X));
}
