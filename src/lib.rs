pub mod bitboard_functions;
pub mod board;
pub mod discount;
pub mod episode;
pub mod game_tree;
pub mod minimax;
pub mod run_count;
pub mod trainer;
