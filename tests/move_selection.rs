use std::cell::Cell;

use acordion::board::Board;
use acordion::minimax::{best_index, score_moves, Minimax};

#[test]
fn best_index_keeps_first_of_equal_scores() {
    assert_eq!(best_index(&vec![3, 5, 5, 1]), 1);
    assert_eq!(best_index(&vec![7]), 0);
    assert_eq!(best_index(&vec![-2, -2, -2]), 0);
    assert_eq!(best_index(&vec![1, 2, 3]), 2);
}

#[test]
fn equal_scores_choose_lowest_bit() {
    let mm = Minimax::new(|_b: Board| -> i64 { 42 });
    let board = Board { my_board: 0b1, opp_board: 0b10, my_turn: true };
    assert_eq!(mm.minimax(board), 0b100);
}

#[test]
fn lowest_evaluation_after_move_is_chosen() {
    // rates a position by the cell this side took last: taking cell 6 scores lowest
    let mm = Minimax::new(|b: Board| -> i64 { if b.my_board & (1 << 6) != 0 { -10 } else { 5 } });
    let board = Board::new();
    assert_eq!(mm.minimax(board), 1 << 6);
}

#[test]
fn single_move_skips_evaluator() {
    let calls = Cell::new(0u32);
    let mm = Minimax::new(|_b: Board| -> i64 {
        calls.set(calls.get() + 1);
        0
    });
    let board = Board { my_board: 0b0_1011_0101, opp_board: 0b1_0000_1010, my_turn: true };
    assert_eq!(board.gen_move(), 1 << 6);
    assert_eq!(mm.minimax(board), 1 << 6);
    assert_eq!(calls.get(), 0);
}

#[test]
fn evaluator_called_once_per_move() {
    let calls = Cell::new(0u32);
    let mm = Minimax::new(|_b: Board| -> i64 {
        calls.set(calls.get() + 1);
        0
    });
    let board = Board { my_board: 0b1, opp_board: 0b10, my_turn: true };
    mm.minimax(board);
    assert_eq!(calls.get(), 7);
}

#[test]
fn board_unchanged_after_selection() {
    let mut board = Board { my_board: 0b1_0000_0001, opp_board: 0b10, my_turn: false };
    let before = board;
    let moves = vec![0b100, 0b1000, 0b1_0000];
    let scores = score_moves(&mut board, &moves, &|b: Board| -> i64 { b.opp_board as i64 });
    assert_eq!(board, before);
    assert_eq!(scores, vec![0b110, 0b1010, 0b1_0010]);
    let mm = Minimax::new(|b: Board| -> i64 { b.opp_board as i64 });
    let chosen = mm.minimax(board);
    assert_eq!(board, before);
    // the negated score is highest for the smallest resulting opp_board
    assert_eq!(chosen, 0b100);
}
