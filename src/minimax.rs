use vstd::prelude::*;
use crate::bitboard_functions::{get_indi_bits, is_bit_of, unsigned};
use crate::board::{lemma_legal_in_board, lemma_undo_after_play, Board};

verus! {

/// `k` is the first position of the largest value in `scores`.
pub open spec fn is_first_best(scores: Seq<i128>, k: int) -> bool {
    &&& 0 <= k < scores.len()
    &&& forall|j: int| 0 <= j < k ==> scores[j] < scores[k]
    &&& forall|j: int| k < j < scores.len() ==> scores[j] <= scores[k]
}

/// `s` gives, for each legal move on `board`, a score that the evaluator may
/// return for the position after that move.
pub open spec fn evaluations<E: Fn(Board) -> i64>(evaluate: E, board: Board, s: spec_fn(i16) -> i64) -> bool {
    forall|m: i16| is_bit_of(board.legal(), m) ==> evaluate.ensures((board.played(m),), #[trigger] s(m))
}

/// Among the bits of `legal`, `r` has the highest score and every lower bit
/// scores strictly less: ties go to the lowest bit.
pub open spec fn is_first_best_move(legal: i16, r: i16, score: spec_fn(i16) -> int) -> bool {
    &&& forall|m: i16|
        is_bit_of(legal, m) && unsigned(m) < unsigned(r) ==> #[trigger] score(m) < score(r)
    &&& forall|m: i16|
        is_bit_of(legal, m) && unsigned(r) < unsigned(m) ==> #[trigger] score(m) <= score(r)
}

/// The position of the largest score; the earliest one among equal scores.
pub fn best_index(scores: &Vec<i128>) -> (r: usize)
    requires
        scores.len() > 0,
    ensures
        is_first_best(scores@, r as int),
{
    let mut best: usize = 0;
    let mut i: usize = 1;
    while i < scores.len()
        invariant
            0 <= best < i <= scores.len(),
            forall|j: int| 0 <= j < best ==> scores[j] < scores[best as int],
            forall|j: int| best < j < i ==> scores[j] <= scores[best as int],
        decreases scores.len() - i,
    {
        if scores[i] > scores[best] {
            best = i;
        }
        i = i + 1;
    }
    best
}

/// Evaluates the board after each of `moves`, playing each move and taking
/// it back, so that the board ends as it began.
pub fn score_moves<E: Fn(Board) -> i64>(board: &mut Board, moves: &Vec<i16>, evaluate: &E) -> (r:
    Vec<i64>)
    requires
        old(board).wf(),
        forall|k: int| 0 <= k < moves.len() ==> is_bit_of(old(board).legal(), #[trigger] moves[k]),
        forall|b: Board| evaluate.requires((b,)),
    ensures
        *final(board) == *old(board),
        r.len() == moves.len(),
        forall|k: int|
            0 <= k < moves.len() ==> evaluate.ensures((old(board).played(moves[k]),), #[trigger] r[k]),
{
    let ghost start = *board;
    let mut r: Vec<i64> = Vec::new();
    let mut i: usize = 0;
    while i < moves.len()
        invariant
            *board == start,
            start.wf(),
            forall|k: int| 0 <= k < moves.len() ==> is_bit_of(start.legal(), #[trigger] moves[k]),
            forall|b: Board| evaluate.requires((b,)),
            i <= moves.len(),
            r.len() == i,
            forall|k: int| 0 <= k < i ==> evaluate.ensures((start.played(moves[k]),), #[trigger] r[k]),
        decreases moves.len() - i,
    {
        let m = moves[i];
        proof {
            lemma_undo_after_play(start, m);
        }
        board.play_move(m);
        let s = evaluate(*board);
        board.undo_move(m);
        r.push(s);
        i = i + 1;
    }
    r
}

/// A move selector driven by an evaluator. The evaluator gives a score for a
/// position as an integer whose order is the order of the scores.
pub struct Minimax<E> {
    pub evaluater: E,
}

impl<E: Fn(Board) -> i64> Minimax<E> {
    /// `r` is a move that this selector may return on `board`: a legal move;
    /// the only one when just one is legal; otherwise, for some scores that
    /// the evaluator may give the positions after each legal move, the first
    /// legal move, in bit order, with the highest negated score.
    pub open spec fn chooses(self, board: Board, r: i16) -> bool {
        &&& is_bit_of(board.legal(), r)
        &&& board.forced() ==> r == board.legal()
        &&& !board.forced() ==> exists|s: spec_fn(i16) -> i64|
            #[trigger] evaluations(self.evaluater, board, s) && is_first_best_move(
                board.legal(),
                r,
                |m: i16| -(s(m) as int),
            )
    }

    pub fn new(evaluater: E) -> (r: Self)
        ensures
            r.evaluater == evaluater,
    {
        Minimax { evaluater }
    }

    /// The legal move whose resulting position the evaluator rates lowest, that
    /// is, whose negated score is highest; among equal scores the lowest bit.
    /// A single legal move is returned without consulting the evaluator.
    pub fn minimax(&self, board: Board) -> (r: i16)
        requires
            board.wf(),
            board.legal() != 0,
            board.forced() || forall|b: Board| self.evaluater.requires((b,)),
        ensures
            self.chooses(board, r),
    {
        let moves = get_indi_bits(board.gen_move());
        proof {
            lemma_legal_in_board(board);
            lemma_forced_single(board.legal(), moves@);
        }
        if moves.len() == 1 {
            return moves[0];
        }
        let mut b = board;
        let raw = score_moves(&mut b, &moves, &self.evaluater);
        let mut scores: Vec<i128> = Vec::new();
        let mut i: usize = 0;
        while i < raw.len()
            invariant
                i <= raw.len(),
                scores.len() == i,
                forall|k: int| 0 <= k < i ==> #[trigger] scores[k] == -(raw[k] as int),
            decreases raw.len() - i,
        {
            scores.push(-(raw[i] as i128));
            i = i + 1;
        }
        let best = best_index(&scores);
        let r = moves[best];
        proof {
            let s = |m: i16|
                if moves@.contains(m) {
                    raw[moves@.index_of(m)]
                } else {
                    0i64
                };
            assert forall|m: i16| is_bit_of(board.legal(), m) implies moves[moves@.index_of(m)] == m
                && 0 <= moves@.index_of(m) < moves.len() && (unsigned(m) < unsigned(r)
                ==> moves@.index_of(m) < best) && (unsigned(r) < unsigned(m) ==> moves@.index_of(m)
                > best) by {
                assert(moves@.contains(m));
                let k = moves@.index_of(m);
                if unsigned(m) < unsigned(r) && k >= best {
                    assert(k != best);
                }
                if unsigned(r) < unsigned(m) && k <= best {
                    assert(k != best);
                }
            }
            assert(moves@.index_of(r) == best) by {
                assert(moves@.contains(r));
                let k = moves@.index_of(r);
                if k < best {
                    assert(unsigned(moves[k]) < unsigned(moves[best as int]));
                }
                if k > best {
                    assert(unsigned(moves[best as int]) < unsigned(moves[k]));
                }
            }
            assert(scores@[best as int] == -(s(r) as int));
            assert forall|m: i16| is_bit_of(board.legal(), m) implies self.evaluater.ensures(
                (board.played(m),),
                #[trigger] s(m),
            ) && (unsigned(m) < unsigned(r) ==> -(s(m) as int) < -(s(r) as int)) && (unsigned(r)
                < unsigned(m) ==> -(s(m) as int) <= -(s(r) as int)) by {
                let k = moves@.index_of(m);
                assert(s(m) == raw[k]);
                assert(scores[k] == -(raw[k] as int));
            }
            let score = |m: i16| -(s(m) as int);
            assert(is_first_best_move(board.legal(), r, score));
            assert(evaluations(self.evaluater, board, s));
        }
        r
    }
}

proof fn lemma_forced_single(legal: i16, moves: Seq<i16>)
    requires
        legal != 0,
        legal & 0x1ff == legal,
        forall|k: int| 0 <= k < moves.len() ==> is_bit_of(legal, #[trigger] moves[k]),
        forall|b: i16| is_bit_of(legal, b) ==> moves.contains(b),
        forall|a: int, c: int| 0 <= a < c < moves.len() ==> unsigned(moves[a]) < unsigned(moves[c]),
    ensures
        moves.len() > 0,
        is_bit_of(legal, legal) <==> moves.len() == 1,
        is_bit_of(legal, legal) ==> moves[0] == legal,
{
    lemma_two_bits_or_one(legal, (legal & (-legal) as i16) as i16, (legal & (legal - 1) as i16) as i16);
    let l = (legal & (-legal) as i16) as i16;
    let n = (legal & (legal - 1) as i16) as i16;
    let h = (n & (-n) as i16) as i16;
    assert(moves.contains(l));
    if !is_bit_of(legal, legal) {
        assert(moves.contains(h));
        if moves.len() == 1 {
            assert(moves[0] == l);
            assert(moves[0] == h);
        }
    }
    if is_bit_of(legal, legal) {
        assert(moves.contains(legal));
        assert forall|k: int| 0 <= k < moves.len() implies moves[k] == legal by {
            lemma_only_bit(legal, moves[k]);
        }
        if moves.len() > 1 {
            assert(unsigned(moves[0]) < unsigned(moves[1]));
        }
    }
}

proof fn lemma_two_bits_or_one(x: i16, l: i16, n: i16)
    by (bit_vector)
    requires
        x != 0,
        x & 0x1ff == x,
        l == x & (-x) as i16,
        n == x & (x - 1) as i16,
    ensures
        is_bit_of(x, l),
        !is_bit_of(x, x) ==> is_bit_of(x, n & (-n) as i16) && n & (-n) as i16 != l,
{
}

proof fn lemma_only_bit(x: i16, b: i16)
    by (bit_vector)
    requires
        is_bit_of(x, x),
        is_bit_of(x, b),
    ensures
        b == x,
{
}

} // verus!
