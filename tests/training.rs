use acordion::board::Board;
use acordion::discount::DiscountedReturn;
use acordion::game_tree::GameTree;
use acordion::minimax::Minimax;
use acordion::trainer::{Step, Trainer};

fn value(r: &DiscountedReturn) -> f64 {
    r.numerator as f64 / 100f64.powi(r.exponent as i32)
}

#[test]
fn returns_of_single_final_win() {
    let t = Trainer::new();
    let tree = GameTree::new(vec![vec![0; 9]; 4], vec![0, 0, 0, 1]);
    let (positions, returns) = t.calculate_data(tree);
    assert_eq!(positions.len(), 4);
    assert_eq!(
        returns,
        vec![
            DiscountedReturn { numerator: 970299, exponent: 3 },
            DiscountedReturn { numerator: 9801, exponent: 2 },
            DiscountedReturn { numerator: 99, exponent: 1 },
            DiscountedReturn { numerator: 1, exponent: 0 },
        ]
    );
    let expected = [0.970299, 0.9801, 0.99, 1.0];
    for i in 0..4 {
        assert!((value(&returns[i]) - expected[i]).abs() < 1e-12);
    }
}

#[test]
fn returns_keep_length_and_zero_rewards_give_zero() {
    let t = Trainer::new();
    let tree = GameTree::new(vec![vec![1; 9]; 5], vec![0; 5]);
    let (_, returns) = t.calculate_data(tree);
    assert_eq!(returns.len(), 5);
    assert!(returns.iter().all(|r| r.numerator == 0));
    let (_, none) = t.calculate_data(GameTree::new(Vec::new(), Vec::new()));
    assert!(none.is_empty());
}

#[test]
fn returns_sum_every_reward() {
    let t = Trainer::new();
    let tree = GameTree::new(vec![vec![0; 9]; 3], vec![1, 0, -1]);
    let (_, returns) = t.calculate_data(tree);
    // 1 - 0.99^2 = 0.0199; 0 - 0.99 = -0.99; -1
    assert_eq!(returns[0], DiscountedReturn { numerator: 10000 - 9801, exponent: 2 });
    assert_eq!(returns[1], DiscountedReturn { numerator: -99, exponent: 1 });
    assert_eq!(returns[2], DiscountedReturn { numerator: -1, exponent: 0 });
}

#[test]
fn longest_exact_trajectory() {
    let t = Trainer::new();
    let mut rewards = vec![0i8; 19];
    rewards[18] = -1;
    let (_, returns) = t.calculate_data(GameTree::new(vec![vec![0; 9]; 19], rewards));
    assert_eq!(returns[0], DiscountedReturn { numerator: -(99i128.pow(18)), exponent: 18 });
}

#[test]
fn power_by_squaring() {
    let t = Trainer::new();
    assert_eq!(t.power(99, 3), 970299);
    assert_eq!(t.power(100, 0), 1);
    assert_eq!(t.power(0, 0), 1);
    assert_eq!(t.power(0, 5), 0);
    assert_eq!(t.power(2, 127), 1u128 << 127);
    assert_eq!(t.power(100, 18), 10u128.pow(36));
}

#[test]
fn ending_rewards_follow_turn_flag() {
    let t = Trainer::new();
    let won = Board { my_board: 0b111, opp_board: 0b11000, my_turn: false };
    let mut flipped = won;
    flipped.change_type();
    let draw = Board { my_board: 0b110_001_101, opp_board: 0b001_110_010, my_turn: true };
    let mut tree = GameTree::new(Vec::new(), Vec::new());
    t.add_reward_on_ending(true, &won, &flipped, &mut tree);
    t.add_reward_on_ending(false, &flipped, &won, &mut tree);
    t.add_reward_on_ending(true, &draw, &draw, &mut tree);
    assert_eq!(tree.get_rewards(), vec![1, -1, 0]);
    assert_eq!(tree.get_positions()[0], won.get_board_in_array());
    assert_eq!(tree.get_positions()[1], flipped.get_board_in_array());
}

#[test]
fn positions_recorded_only_on_turn() {
    let t = Trainer::new();
    let b = Board { my_board: 1, opp_board: 0, my_turn: false };
    let mut tree = GameTree::new(Vec::new(), Vec::new());
    t.add_reward(false, &mut tree, &b);
    assert!(tree.get_rewards().is_empty());
    t.add_reward(true, &mut tree, &b);
    assert_eq!(tree.get_rewards(), vec![0]);
    assert_eq!(tree.get_positions(), vec![vec![1, 0, 0, 0, 0, 0, 0, 0, 0]]);
}

#[test]
fn self_play_games_end_with_one_reward() {
    let t = Trainer::new();
    let trainee = Minimax::new(|b: Board| -> i64 { (b.my_board as i64) - 2 * (b.opp_board as i64) });
    let opponent = Minimax::new(|b: Board| -> i64 { b.opp_board as i64 });
    for tree in [t.play_game_with_type_1(&trainee, &opponent), t.play_game_with_type_2(&trainee, &opponent)] {
        let rewards = tree.get_rewards();
        assert!(!rewards.is_empty() && rewards.len() <= 9);
        assert_eq!(tree.get_positions().len(), rewards.len());
        assert!([-1, 0, 1].contains(rewards.last().unwrap()));
        assert!(rewards[..rewards.len() - 1].iter().all(|r| *r == 0));
    }
}

fn run(size: usize, iterations: usize, ghost_steps: usize, reset_steps: usize) -> Vec<Step> {
    let mut t = Trainer::new();
    t.train(size, iterations, ghost_steps, reset_steps);
    let mut steps = Vec::new();
    loop {
        let s = t.next_step();
        steps.push(s);
        if s == Step::Finished {
            return steps;
        }
    }
}

#[test]
fn two_opponents_one_generation() {
    let steps = run(2, 1, 1, 1);
    assert_eq!(
        steps,
        vec![
            Step::SpawnStorers { count: 2 },
            Step::SpawnTrainers { count: 2 },
            Step::TrainAgainst { opponent: 0 },
            Step::TrainAgainst { opponent: 1 },
            Step::StoreStorer { slot: 0 },
            Step::ChangeTrainers { count: 2 },
            Step::Reset,
            Step::Finished,
        ]
    );
    // each TrainAgainst plays one game of each type: four records in all
    let t = Trainer::new();
    let trainee = Minimax::new(|b: Board| -> i64 { b.my_board as i64 });
    let opponent = Minimax::new(|b: Board| -> i64 { -(b.opp_board as i64) });
    let mut records = Vec::new();
    for s in &steps {
        if let Step::TrainAgainst { .. } = s {
            records.push(t.play_game_with_type_1(&trainee, &opponent));
            records.push(t.play_game_with_type_2(&trainee, &opponent));
        }
    }
    assert_eq!(records.len(), 4);
    for r in &records {
        let rewards = r.get_rewards();
        assert!(!rewards.is_empty());
        assert!([-1, 0, 1].contains(rewards.last().unwrap()));
    }
}

#[test]
fn snapshot_and_refresh_periods() {
    let steps = run(1, 3, 2, 3);
    assert_eq!(
        steps,
        vec![
            Step::SpawnStorers { count: 1 },
            Step::SpawnTrainers { count: 1 },
            Step::TrainAgainst { opponent: 0 },
            Step::StoreStorer { slot: 0 },
            Step::ChangeTrainers { count: 1 },
            Step::TrainAgainst { opponent: 0 },
            Step::TrainAgainst { opponent: 0 },
            Step::StoreStorer { slot: 0 },
            Step::Reset,
            Step::Finished,
        ]
    );
}

#[test]
fn storer_cursor_wraps_within_pool() {
    let steps = run(2, 3, 1, 10);
    let slots: Vec<usize> = steps
        .iter()
        .filter_map(|s| if let Step::StoreStorer { slot } = s { Some(*slot) } else { None })
        .collect();
    assert_eq!(slots, vec![0, 1, 0]);
}

#[test]
fn empty_runs_still_seed_and_clean() {
    assert_eq!(
        run(3, 0, 1, 1),
        vec![
            Step::SpawnStorers { count: 3 },
            Step::SpawnTrainers { count: 3 },
            Step::Reset,
            Step::Finished,
        ]
    );
    let no_pool = run(0, 2, 1, 1);
    assert_eq!(no_pool.iter().filter(|s| matches!(s, Step::TrainAgainst { .. })).count(), 0);
    assert_eq!(no_pool.iter().filter(|s| matches!(s, Step::StoreStorer { .. })).count(), 0);
    assert_eq!(no_pool.last(), Some(&Step::Finished));
}

#[test]
fn new_trainer_is_finished() {
    let mut t = Trainer::new();
    assert_eq!(t.next_step(), Step::Finished);
}

#[test]
fn snapshot_and_refresh_counts_over_a_run() {
    for (size, g, p, r) in [(1usize, 5usize, 2usize, 3usize), (2, 7, 3, 1), (3, 4, 4, 5), (2, 6, 1, 2)] {
        let steps = run(size, g, p, r);
        let stores = steps.iter().filter(|s| matches!(s, Step::StoreStorer { .. })).count();
        let changes = steps.iter().filter(|s| matches!(s, Step::ChangeTrainers { .. })).count();
        let games = steps.iter().filter(|s| matches!(s, Step::TrainAgainst { .. })).count();
        assert_eq!(stores, (g + p - 1) / p);
        assert_eq!(changes, (g + r - 1) / r);
        assert_eq!(games, size * g);
        assert_eq!(steps[steps.len() - 2], Step::Reset);
    }
}

#[test]
fn opponents_in_slot_order_then_snapshot_then_refresh() {
    let steps = run(3, 2, 1, 1);
    assert_eq!(
        steps[2..12].to_vec(),
        vec![
            Step::TrainAgainst { opponent: 0 },
            Step::TrainAgainst { opponent: 1 },
            Step::TrainAgainst { opponent: 2 },
            Step::StoreStorer { slot: 0 },
            Step::ChangeTrainers { count: 3 },
            Step::TrainAgainst { opponent: 0 },
            Step::TrainAgainst { opponent: 1 },
            Step::TrainAgainst { opponent: 2 },
            Step::StoreStorer { slot: 1 },
            Step::ChangeTrainers { count: 3 },
        ]
    );
}

#[test]
fn record_length_follows_plies() {
    // both sides take the lowest free cell: X 0, O 1, X 2, O 3, X 4, O 5, X 6 wins on 2-4-6
    let t = Trainer::new();
    let first = Minimax::new(|_b: Board| -> i64 { 0 });
    let second = Minimax::new(|_b: Board| -> i64 { 0 });
    let tree = t.play_game_with_type_1(&first, &second);
    // seven plies: entries after plies 1, 3, 5, then the final one
    assert_eq!(tree.get_rewards(), vec![0, 0, 0, 1]);
    assert_eq!(tree.get_positions()[3], vec![1, -1, 1, -1, 1, -1, 1, 0, 0]);
    let tree2 = t.play_game_with_type_2(&first, &second);
    assert_eq!(tree2.get_rewards(), vec![0, 0, 0, 1]);
    assert_eq!(tree2.get_positions()[3], vec![-1, 1, -1, 1, -1, 1, -1, 0, 0]);
}
