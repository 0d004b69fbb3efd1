use acordion::bitboard_functions::{abs_b, get_indi_bits, get_lsb, get_without_lsb};
use acordion::board::{Board, FULL};

#[test]
fn abs_b_of_negative_positive_and_zero() {
    assert_eq!(abs_b(-5), 5);
    assert_eq!(abs_b(7), 7);
    assert_eq!(abs_b(0), 0);
    assert_eq!(abs_b(i16::MAX), i16::MAX);
    assert_eq!(abs_b(-i16::MAX), i16::MAX);
}

#[test]
fn get_lsb_picks_lowest_bit() {
    assert_eq!(get_lsb(12), 4);
    assert_eq!(get_lsb(0), 0);
    assert_eq!(get_lsb(1), 1);
    assert_eq!(get_lsb(-8), 8);
    assert_eq!(get_lsb(0x100), 0x100);
}

#[test]
fn get_without_lsb_clears_lowest_bit() {
    assert_eq!(get_without_lsb(12), 8);
    assert_eq!(get_without_lsb(0), 0);
    assert_eq!(get_without_lsb(1), 0);
    assert_eq!(get_without_lsb(0x1ff), 0x1fe);
}

#[test]
fn get_indi_bits_lowest_first() {
    assert_eq!(get_indi_bits(0b10_1101), vec![1, 4, 8, 32]);
    assert_eq!(get_indi_bits(0), Vec::<i16>::new());
    assert_eq!(get_indi_bits(0x1ff).len(), 9);
    assert_eq!(get_indi_bits(i16::MIN), vec![i16::MIN]);
    let all = get_indi_bits(-1);
    assert_eq!(all.len(), 16);
    assert_eq!(all[0], 1);
    assert_eq!(all[15], i16::MIN);
}

#[test]
fn new_board_is_empty_and_open() {
    let b = Board::new();
    assert_eq!(b.gen_move(), FULL);
    assert!(!b.has_game_ended());
    assert!(!b.is_a_win());
    assert_eq!(b.get_board_in_array(), vec![0; 9]);
}

#[test]
fn play_marks_for_side_to_move_and_undo_restores() {
    let mut b = Board::new();
    let before = b;
    b.play_move(1 << 4);
    assert_eq!(b.my_board, 1 << 4);
    assert!(!b.my_turn);
    assert_eq!(b.gen_move(), FULL & !(1 << 4));
    b.play_move(1);
    assert_eq!(b.opp_board, 1);
    assert_eq!(b.get_board_in_array(), vec![-1, 0, 0, 0, 1, 0, 0, 0, 0]);
    b.undo_move(1);
    b.undo_move(1 << 4);
    assert_eq!(b, before);
}

#[test]
fn change_type_swaps_sides_and_twice_is_identity() {
    let mut b = Board::new();
    b.play_move(1 << 2);
    let start = b;
    b.change_type();
    assert_eq!(b.opp_board, 1 << 2);
    assert_eq!(b.my_board, 0);
    assert!(b.my_turn);
    assert_eq!(b.get_board_in_array()[2], -1);
    b.change_type();
    assert_eq!(b, start);
}

#[test]
fn wins_and_draws_are_detected() {
    let row = Board { my_board: 0b111, opp_board: 0b11000, my_turn: false };
    assert!(row.is_a_win());
    assert!(row.has_game_ended());
    let diagonal = Board { my_board: 0b110, opp_board: 0x111, my_turn: true };
    assert!(diagonal.is_a_win());
    // X O X / X O O / O X X: full, no line
    let draw = Board { my_board: 0b110_001_101, opp_board: 0b001_110_010, my_turn: true };
    assert!(!draw.is_a_win());
    assert!(draw.has_game_ended());
    assert_eq!(draw.gen_move(), 0);
}
