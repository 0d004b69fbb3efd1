use vstd::prelude::*;
use crate::bitboard_functions::is_bit_of;
use crate::board::{count_bits, lemma_empty_not_ended, lemma_progress, Board};
use crate::game_tree::{is_reward, GameTree};
use crate::minimax::Minimax;
use crate::trainer::Trainer;

verus! {

/// The reward recorded when a game ends: a win counts for the side whose
/// turn flag was up, against the other; no win is a draw.
pub open spec fn terminal_reward(turn: bool, win: bool) -> i8 {
    if turn && win {
        1i8
    } else if !turn && win {
        -1i8
    } else {
        0i8
    }
}

/// A finished self-play record: one to five entries, a state vector of
/// nine cells in each, and a zero reward everywhere but the last entry.
pub open spec fn is_episode(tree: GameTree) -> bool {
    &&& tree.wf()
    &&& 1 <= tree.rewards.len() <= 5
    &&& forall|k: int| 0 <= k < tree.positions.len() ==> (#[trigger] tree.positions[k])@.len() == 9
    &&& forall|k: int| 0 <= k < tree.rewards.len() - 1 ==> #[trigger] tree.rewards[k] == 0
}

/// The turn flag after `k` plies, starting from `turn`.
pub open spec fn turn_at(turn: bool, k: int) -> bool {
    if k % 2 == 0 {
        turn
    } else {
        !turn
    }
}

/// `board` after the first `k` of `moves`.
pub open spec fn board_after(board: Board, moves: Seq<i16>, k: int) -> Board
    decreases k,
{
    if k <= 0 {
        board
    } else {
        board_after(board, moves, k - 1).played(moves[k - 1])
    }
}

/// Ply `k` of `moves` is one the selector whose turn it is may choose: `mm`
/// on `board` when the turn flag is up, otherwise `nm` on `board2`.
pub open spec fn chosen_at<E1: Fn(Board) -> i64, E2: Fn(Board) -> i64>(
    mm: Minimax<E1>,
    nm: Minimax<E2>,
    board: Board,
    board2: Board,
    turn: bool,
    moves: Seq<i16>,
    k: int,
) -> bool {
    &&& turn_at(turn, k) ==> mm.chooses(board_after(board, moves, k), moves[k])
    &&& !turn_at(turn, k) ==> nm.chooses(board_after(board2, moves, k), moves[k])
}

/// Every ply of `moves` is chosen by the selector whose turn it is.
pub open spec fn all_chosen<E1: Fn(Board) -> i64, E2: Fn(Board) -> i64>(
    mm: Minimax<E1>,
    nm: Minimax<E2>,
    board: Board,
    board2: Board,
    turn: bool,
    moves: Seq<i16>,
) -> bool {
    forall|k: int| 0 <= k < moves.len() ==> #[trigger] chosen_at(mm, nm, board, board2, turn, moves, k)
}

/// Neither board has ended after any of the plies `1..=upto`.
pub open spec fn none_ended(board: Board, board2: Board, moves: Seq<i16>, upto: int) -> bool {
    forall|k: int|
        1 <= k <= upto ==> !(#[trigger] board_after(board, moves, k)).ended() && !board_after(
            board2,
            moves,
            k,
        ).ended()
}

/// `moves` is a game between two selectors: at ply `k`, when the turn flag
/// is up, `mm` chooses the move on `board`, otherwise `nm` chooses it on
/// `board2`; every move goes to both boards; the game ends after the last
/// move and not before.
pub open spec fn valid_run<E1: Fn(Board) -> i64, E2: Fn(Board) -> i64>(
    mm: Minimax<E1>,
    nm: Minimax<E2>,
    board: Board,
    board2: Board,
    turn: bool,
    moves: Seq<i16>,
) -> bool {
    &&& moves.len() >= 1
    &&& all_chosen(mm, nm, board, board2, turn, moves)
    &&& none_ended(board, board2, moves, moves.len() - 1)
    &&& board_after(board, moves, moves.len() as int).ended() || board_after(
        board2,
        moves,
        moves.len() as int,
    ).ended()
}

/// The entries recorded over the first `k` plies, when none of them ends
/// the game: after each ply made while the turn flag is up, the position on
/// `board`, with reward 0.
pub open spec fn record_before(board: Board, turn: bool, moves: Seq<i16>, k: int) -> (
    Seq<Seq<i8>>,
    Seq<i8>,
)
    decreases k,
{
    if k <= 0 {
        (Seq::empty(), Seq::empty())
    } else {
        let prev = record_before(board, turn, moves, k - 1);
        if turn_at(turn, k - 1) {
            (prev.0.push(board_after(board, moves, k).state_vector()), prev.1.push(0))
        } else {
            prev
        }
    }
}

/// The record of the game `moves`: the entries of its plies before the
/// last, then the final position on `board` with the reward of the ending,
/// keyed to the turn flag of the last ply.
pub open spec fn game_record(board: Board, board2: Board, turn: bool, moves: Seq<i16>) -> (
    Seq<Seq<i8>>,
    Seq<i8>,
) {
    let n = moves.len() as int;
    let prev = record_before(board, turn, moves, n - 1);
    let last = board_after(board, moves, n);
    (
        prev.0.push(last.state_vector()),
        prev.1.push(terminal_reward(turn_at(turn, n - 1), last.won() || board_after(board2, moves, n).won())),
    )
}

proof fn lemma_prefix_kept(board: Board, turn: bool, moves: Seq<i16>, m: i16, j: int)
    requires
        0 <= j <= moves.len(),
    ensures
        board_after(board, moves.push(m), j) == board_after(board, moves, j),
        record_before(board, turn, moves.push(m), j) == record_before(board, turn, moves, j),
    decreases j,
{
    if j > 0 {
        lemma_prefix_kept(board, turn, moves, m, j - 1);
        assert(moves.push(m)[j - 1] == moves[j - 1]);
    }
}

proof fn lemma_extend_run<E1: Fn(Board) -> i64, E2: Fn(Board) -> i64>(
    mm: Minimax<E1>,
    nm: Minimax<E2>,
    board: Board,
    board2: Board,
    turn: bool,
    moves: Seq<i16>,
    m: i16,
)
    requires
        all_chosen(mm, nm, board, board2, turn, moves),
        none_ended(board, board2, moves, moves.len() as int),
        turn_at(turn, moves.len() as int) ==> mm.chooses(
            board_after(board, moves, moves.len() as int),
            m,
        ),
        !turn_at(turn, moves.len() as int) ==> nm.chooses(
            board_after(board2, moves, moves.len() as int),
            m,
        ),
    ensures
        all_chosen(mm, nm, board, board2, turn, moves.push(m)),
        none_ended(board, board2, moves.push(m), moves.len() as int),
        board_after(board, moves.push(m), moves.len() + 1int) == board_after(
            board,
            moves,
            moves.len() as int,
        ).played(m),
        board_after(board2, moves.push(m), moves.len() + 1int) == board_after(
            board2,
            moves,
            moves.len() as int,
        ).played(m),
        record_before(board, turn, moves.push(m), moves.len() as int) == record_before(
            board,
            turn,
            moves,
            moves.len() as int,
        ),
{
    let n = moves.len() as int;
    let ext = moves.push(m);
    assert forall|j: int| 0 <= j <= n implies board_after(board, ext, j) == board_after(board, moves, j)
        && board_after(board2, ext, j) == board_after(board2, moves, j) by {
        lemma_prefix_kept(board, turn, moves, m, j);
        lemma_prefix_kept(board2, turn, moves, m, j);
    }
    lemma_prefix_kept(board, turn, moves, m, n);
    assert forall|k: int| 0 <= k < ext.len() implies #[trigger] chosen_at(
        mm,
        nm,
        board,
        board2,
        turn,
        ext,
        k,
    ) by {
        if k < n {
            assert(chosen_at(mm, nm, board, board2, turn, moves, k));
            assert(ext[k] == moves[k]);
        } else {
            assert(ext[k] == m);
        }
    }
    assert(ext[n] == m);
}

/// Appending one entry keeps a record well formed.
proof fn lemma_append_entry(t0: GameTree, t: GameTree, sv: Seq<i8>, rew: i8)
    requires
        t0.wf(),
        forall|k: int| 0 <= k < t0.positions.len() ==> (#[trigger] t0.positions[k])@.len() == 9,
        t.positions_view() == t0.positions_view().push(sv),
        t.rewards@ == t0.rewards@.push(rew),
        sv.len() == 9,
        is_reward(rew),
    ensures
        t.wf(),
        forall|k: int| 0 <= k < t.positions.len() ==> (#[trigger] t.positions[k])@.len() == 9,
        forall|k: int| 0 <= k < t0.rewards.len() ==> #[trigger] t.rewards[k] == t0.rewards[k],
{
    assert(t.positions_view().len() == t.positions@.len());
    assert(t0.positions_view().len() == t0.positions@.len());
    assert forall|k: int| 0 <= k < t.positions.len() implies (#[trigger] t.positions[k])@.len() == 9 by {
        assert(t.positions_view()[k] == t.positions[k]@);
        if k < t0.positions.len() {
            assert(t0.positions_view()[k] == t0.positions[k]@);
        }
    }
    assert forall|k: int| 0 <= k < t.rewards.len() implies is_reward(#[trigger] t.rewards[k]) by {
        if k < t0.rewards.len() {
            assert(t.rewards[k] == t0.rewards[k]);
        }
    }
}

impl Trainer {
    /// Set-up of a type-1 game: the second board sees the game from the
    /// other side.
    pub fn game_init_controlled(&self) -> (r: (GameTree, Board, Board, bool))
        ensures
            r.0.positions@.len() == 0 && r.0.rewards@.len() == 0,
            r.1 == (Board { my_board: 0, opp_board: 0, my_turn: true }),
            r.2 == r.1.flipped(),
            r.3,
    {
        let mut board2 = Board::new();
        board2.change_type();
        (GameTree::new(Vec::new(), Vec::new()), Board::new(), board2, true)
    }

    /// Set-up of a type-2 game: the first board sees the game from the
    /// other side.
    pub fn game_init_controlled_2(&self) -> (r: (GameTree, Board, Board, bool))
        ensures
            r.0.positions@.len() == 0 && r.0.rewards@.len() == 0,
            r.2 == (Board { my_board: 0, opp_board: 0, my_turn: true }),
            r.1 == r.2.flipped(),
            r.3,
    {
        let mut board = Board::new();
        board.change_type();
        (GameTree::new(Vec::new(), Vec::new()), board, Board::new(), true)
    }

    /// The move of the side whose turn it is: `mm` chooses on `board` when
    /// `turn` is up, `nm` on `board2` otherwise.
    pub fn get_move<E1: Fn(Board) -> i64, E2: Fn(Board) -> i64>(
        &self,
        turn: bool,
        mm: &Minimax<E1>,
        board: &Board,
        nm: &Minimax<E2>,
        board2: &Board,
    ) -> (r: i16)
        requires
            board.wf(),
            *board2 == board.flipped(),
            !board.ended(),
            forall|b: Board| mm.evaluater.requires((b,)),
            forall|b: Board| nm.evaluater.requires((b,)),
        ensures
            is_bit_of(board.legal(), r),
            turn ==> mm.chooses(*board, r),
            !turn ==> nm.chooses(*board2, r),
    {
        proof {
            lemma_progress(*board, 0);
        }
        if turn {
            mm.minimax(*board)
        } else {
            nm.minimax(*board2)
        }
    }

    /// Records the position on `board`, with reward 0, when `turn` is up.
    pub fn add_reward(&self, turn: bool, tree: &mut GameTree, board: &Board)
        ensures
            turn ==> final(tree).positions_view() == old(tree).positions_view().push(
                board.state_vector(),
            ) && final(tree).rewards@ == old(tree).rewards@.push(0),
            !turn ==> *final(tree) == *old(tree),
    {
        if turn {
            tree.add_position(board.get_board_in_array());
            tree.add_reward(0);
            proof {
                assert(tree.positions_view() =~= old(tree).positions_view().push(board.state_vector()));
            }
        }
    }

    /// Records the final position on `board` with the reward of the ending:
    /// 1 when `turn` is up and either board shows a win, -1 when `turn` is
    /// down and either shows a win, 0 for a draw.
    pub fn add_reward_on_ending(&self, turn: bool, board: &Board, board2: &Board, tree: &mut GameTree)
        ensures
            final(tree).positions_view() == old(tree).positions_view().push(board.state_vector()),
            final(tree).rewards@ == old(tree).rewards@.push(
                terminal_reward(turn, board.won() || board2.won()),
            ),
    {
        if turn && (board.is_a_win() || board2.is_a_win()) {
            tree.add_position(board.get_board_in_array());
            tree.add_reward(1);
        } else if !turn && (board.is_a_win() || board2.is_a_win()) {
            tree.add_position(board.get_board_in_array());
            tree.add_reward(-1);
        } else {
            tree.add_position(board.get_board_in_array());
            tree.add_reward(0);
        }
        proof {
            assert(tree.positions_view() =~= old(tree).positions_view().push(board.state_vector()));
        }
    }

    /// Plays the move `m` on both boards.
    pub fn play_move(&self, board2: &mut Board, m: i16, board: &mut Board)
        requires
            old(board).wf(),
            old(board2).wf(),
            is_bit_of(old(board).legal(), m),
            is_bit_of(old(board2).legal(), m),
        ensures
            *final(board) == old(board).played(m),
            *final(board2) == old(board2).played(m),
    {
        board2.play_move(m);
        board.play_move(m);
    }

    /// Plays a game to its end, the two boards kept in step, and returns its
    /// record: the position on `board` after each move made while `turn` is
    /// up, with reward 0, then the final position with the ending's reward.
    pub fn play_game<E1: Fn(Board) -> i64, E2: Fn(Board) -> i64>(
        &self,
        tree: GameTree,
        board0: Board,
        board20: Board,
        mm: &Minimax<E1>,
        nm: &Minimax<E2>,
        turn0: bool,
    ) -> (r: GameTree)
        requires
            tree.positions.len() == 0,
            tree.rewards.len() == 0,
            board0.wf(),
            board20 == board0.flipped(),
            !board0.ended(),
            count_bits(board0.occupied()) == 0,
            forall|b: Board| mm.evaluater.requires((b,)),
            forall|b: Board| nm.evaluater.requires((b,)),
        ensures
            is_episode(r),
            exists|moves: Seq<i16>|
                #[trigger] valid_run(*mm, *nm, board0, board20, turn0, moves) && (
                r.positions_view(),
                r.rewards@,
                ) == game_record(board0, board20, turn0, moves),
    {
        let ghost mut moves: Seq<i16> = Seq::empty();
        let mut tree = tree;
        let mut board = board0;
        let mut board2 = board20;
        let mut turn = turn0;
        proof {
            assert(tree.positions_view() =~= Seq::<Seq<i8>>::empty());
            assert(tree.rewards@ =~= Seq::<i8>::empty());
        }
        loop
            invariant
                board.wf(),
                board2 == board.flipped(),
                !board.ended(),
                board == board_after(board0, moves, moves.len() as int),
                board2 == board_after(board20, moves, moves.len() as int),
                turn == turn_at(turn0, moves.len() as int),
                moves.len() == count_bits(board.occupied()),
                tree.rewards.len() == if turn0 {
                    (moves.len() + 1) / 2
                } else {
                    moves.len() / 2
                },
                (tree.positions_view(), tree.rewards@) == record_before(
                    board0,
                    turn0,
                    moves,
                    moves.len() as int,
                ),
                all_chosen(*mm, *nm, board0, board20, turn0, moves),
                none_ended(board0, board20, moves, moves.len() as int),
                tree.wf(),
                forall|k: int| 0 <= k < tree.rewards.len() ==> #[trigger] tree.rewards[k] == 0,
                forall|k: int|
                    0 <= k < tree.positions.len() ==> (#[trigger] tree.positions[k])@.len() == 9,
                forall|b: Board| mm.evaluater.requires((b,)),
                forall|b: Board| nm.evaluater.requires((b,)),
            decreases 9 - count_bits(board.occupied()),
        {
            let m = self.get_move(turn, mm, &board, nm, &board2);
            let ghost k = moves.len() as int;
            let ghost old_moves = moves;
            proof {
                lemma_progress(board, m);
                lemma_progress(board.played(m), 0);
                lemma_extend_run(*mm, *nm, board0, board20, turn0, moves, m);
                moves = moves.push(m);
            }
            self.play_move(&mut board2, m, &mut board);
            assert(board == board_after(board0, moves, k + 1));
            assert(board2 == board_after(board20, moves, k + 1));
            let ghost t0 = tree;
            if board.has_game_ended() || board2.has_game_ended() {
                self.add_reward_on_ending(turn, &board, &board2, &mut tree);
                proof {
                    lemma_append_entry(
                        t0,
                        tree,
                        board.state_vector(),
                        terminal_reward(turn, board.won() || board2.won()),
                    );
                    assert(valid_run(*mm, *nm, board0, board20, turn0, moves));
                    assert((tree.positions_view(), tree.rewards@) == game_record(
                        board0,
                        board20,
                        turn0,
                        moves,
                    ));
                    assert(k <= 8);
                }
                return tree;
            }
            self.add_reward(turn, &mut tree, &board);
            proof {
                if turn {
                    lemma_append_entry(t0, tree, board.state_vector(), 0);
                }
                assert(record_before(board0, turn0, moves, k + 1) == (
                    tree.positions_view(),
                    tree.rewards@,
                ));
            }
            turn = !turn;
        }
    }

    /// A type-1 self-play game: the trainee chooses on the plain board when
    /// the turn flag is up, the opponent on the other side's board otherwise.
    pub fn play_game_with_type_1<E1: Fn(Board) -> i64, E2: Fn(Board) -> i64>(
        &self,
        trainee: &Minimax<E1>,
        opponent: &Minimax<E2>,
    ) -> (r: GameTree)
        requires
            forall|b: Board| trainee.evaluater.requires((b,)),
            forall|b: Board| opponent.evaluater.requires((b,)),
        ensures
            is_episode(r),
            exists|moves: Seq<i16>|
                #[trigger] valid_run(*trainee, *opponent, Board::empty(), Board::empty().flipped(), true, moves)
                    && (r.positions_view(), r.rewards@) == game_record(
                    Board::empty(),
                    Board::empty().flipped(),
                    true,
                    moves,
                ),
    {
        let (tree, board, board2, turn) = self.game_init_controlled();
        proof {
            lemma_empty_not_ended();
        }
        let r = self.play_game(tree, board, board2, trainee, opponent, turn);
        proof {
            let moves = choose|moves: Seq<i16>|
                #[trigger] valid_run(*trainee, *opponent, board, board2, turn, moves) && (
                r.positions_view(),
                r.rewards@,
                ) == game_record(board, board2, turn, moves);
            assert(board == Board::empty());
            assert(board2 == Board::empty().flipped());
            assert(valid_run(*trainee, *opponent, Board::empty(), Board::empty().flipped(), true, moves));
        }
        r
    }

    /// A type-2 self-play game: the opponent chooses on the flipped board when
    /// the turn flag is up, the trainee on the plain board otherwise.
    pub fn play_game_with_type_2<E1: Fn(Board) -> i64, E2: Fn(Board) -> i64>(
        &self,
        trainee: &Minimax<E1>,
        opponent: &Minimax<E2>,
    ) -> (r: GameTree)
        requires
            forall|b: Board| trainee.evaluater.requires((b,)),
            forall|b: Board| opponent.evaluater.requires((b,)),
        ensures
            is_episode(r),
            exists|moves: Seq<i16>|
                #[trigger] valid_run(*opponent, *trainee, Board::empty().flipped(), Board::empty(), true, moves)
                    && (r.positions_view(), r.rewards@) == game_record(
                    Board::empty().flipped(),
                    Board::empty(),
                    true,
                    moves,
                ),
    {
        let (tree, board, board2, turn) = self.game_init_controlled_2();
        proof {
            lemma_empty_not_ended();
            lemma_progress(board2, 0);
        }
        let r = self.play_game(tree, board, board2, opponent, trainee, turn);
        proof {
            let moves = choose|moves: Seq<i16>|
                #[trigger] valid_run(*opponent, *trainee, board, board2, turn, moves) && (
                r.positions_view(),
                r.rewards@,
                ) == game_record(board, board2, turn, moves);
            assert(board == Board::empty().flipped());
            assert(board2 == Board::empty());
            assert(valid_run(*opponent, *trainee, Board::empty().flipped(), Board::empty(), true, moves));
        }
        r
    }
}

} // verus!
