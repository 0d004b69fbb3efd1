use vstd::prelude::*;
use crate::bitboard_functions::is_bit_of;

verus! {

/// The nine cells of the board, one bit each.
pub const FULL: i16 = 0x1ff;

/// True when the mask `m` covers one of the eight lines of three cells.
pub open spec fn has_line(m: i16) -> bool {
    ||| m & 0x007 == 0x007
    ||| m & 0x038 == 0x038
    ||| m & 0x1c0 == 0x1c0
    ||| m & 0x049 == 0x049
    ||| m & 0x092 == 0x092
    ||| m & 0x124 == 0x124
    ||| m & 0x111 == 0x111
    ||| m & 0x054 == 0x054
}

/// The number of marked cells in `m`.
pub open spec fn count_bits(m: i16) -> int {
    (m & 1) + ((m >> 1) & 1) + ((m >> 2) & 1) + ((m >> 3) & 1) + ((m >> 4) & 1) + ((m >> 5) & 1)
        + ((m >> 6) & 1) + ((m >> 7) & 1) + ((m >> 8) & 1)
}

/// A 3x3 board seen from one side: `my_board` holds the cells marked by this
/// side, `opp_board` those of the other side, and `my_turn` tells whether this
/// side places the next mark.
#[derive(Clone, Copy, PartialEq, Eq, Structural, Debug)]
pub struct Board {
    pub my_board: i16,
    pub opp_board: i16,
    pub my_turn: bool,
}

impl Board {
    /// Both masks lie within the nine cells and share no cell.
    pub open spec fn wf(self) -> bool {
        &&& self.my_board & FULL == self.my_board
        &&& self.opp_board & FULL == self.opp_board
        &&& self.my_board & self.opp_board == 0
    }

    pub open spec fn occupied(self) -> i16 {
        self.my_board | self.opp_board
    }

    /// The empty cells.
    pub open spec fn legal(self) -> i16 {
        FULL & !(self.my_board | self.opp_board)
    }

    pub open spec fn won(self) -> bool {
        has_line(self.my_board) || has_line(self.opp_board)
    }

    pub open spec fn ended(self) -> bool {
        self.won() || self.occupied() == FULL
    }

    /// The board after the side to move marks the cell `m`.
    pub open spec fn played(self, m: i16) -> Board {
        if self.my_turn {
            Board { my_board: self.my_board | m, opp_board: self.opp_board, my_turn: false }
        } else {
            Board { my_board: self.my_board, opp_board: self.opp_board | m, my_turn: true }
        }
    }

    /// The empty board on which this side moves first.
    pub open spec fn empty() -> Board {
        Board { my_board: 0, opp_board: 0, my_turn: true }
    }

    /// The board with the last mark, on `m`, taken back.
    pub open spec fn unplayed(self, m: i16) -> Board {
        if self.my_turn {
            Board { my_board: self.my_board, opp_board: self.opp_board & !m, my_turn: false }
        } else {
            Board { my_board: self.my_board & !m, opp_board: self.opp_board, my_turn: true }
        }
    }

    /// Exactly one cell is empty.
    pub open spec fn forced(self) -> bool {
        is_bit_of(self.legal(), self.legal())
    }

    /// The same game seen from the other side.
    pub open spec fn flipped(self) -> Board {
        Board { my_board: self.opp_board, opp_board: self.my_board, my_turn: !self.my_turn }
    }

    /// The value of cell `k`: 1 for this side's mark, -1 for the other's, 0 when empty.
    pub open spec fn cell(self, k: int) -> i8 {
        if self.my_board & (1i16 << (k as i16)) != 0 {
            1i8
        } else if self.opp_board & (1i16 << (k as i16)) != 0 {
            -1i8
        } else {
            0i8
        }
    }

    pub open spec fn state_vector(self) -> Seq<i8> {
        Seq::new(9, |k: int| self.cell(k))
    }

    /// An empty board; this side moves first.
    pub fn new() -> (r: Board)
        ensures
            r == (Board { my_board: 0, opp_board: 0, my_turn: true }),
            r.wf(),
    {
        assert(0i16 & FULL == 0i16 && 0i16 & 0i16 == 0i16) by (bit_vector);
        Board { my_board: 0, opp_board: 0, my_turn: true }
    }

    /// Swaps the sides: the board now shows the game from the other side.
    pub fn change_type(&mut self)
        ensures
            *final(self) == old(self).flipped(),
            old(self).wf() ==> final(self).wf(),
    {
        let m = self.my_board;
        let o = self.opp_board;
        assert(m & o == 0 ==> o & m == 0) by (bit_vector);
        self.my_board = o;
        self.opp_board = m;
        self.my_turn = !self.my_turn;
    }

    /// The mask of empty cells.
    pub fn gen_move(&self) -> (r: i16)
        requires
            self.wf(),
        ensures
            r == self.legal(),
            !self.ended() ==> r != 0,
    {
        let m = self.my_board;
        let o = self.opp_board;
        assert((m | o) != FULL && m & FULL == m && o & FULL == o ==> FULL & !(m | o) != 0)
            by (bit_vector);
        FULL & !(self.my_board | self.opp_board)
    }

    /// The side to move marks the empty cell `m`.
    pub fn play_move(&mut self, m: i16)
        requires
            old(self).wf(),
            is_bit_of(old(self).legal(), m),
        ensures
            *final(self) == old(self).played(m),
            final(self).wf(),
    {
        proof {
            lemma_play_keeps_wf(self.my_board, self.opp_board, m);
        }
        if self.my_turn {
            self.my_board = self.my_board | m;
            self.my_turn = false;
        } else {
            self.opp_board = self.opp_board | m;
            self.my_turn = true;
        }
    }

    /// Takes back the mark on `m` that the side which moved last placed.
    pub fn undo_move(&mut self, m: i16)
        requires
            old(self).my_turn ==> old(self).opp_board & m == m,
            !old(self).my_turn ==> old(self).my_board & m == m,
        ensures
            *final(self) == old(self).unplayed(m),
    {
        if self.my_turn {
            self.opp_board = self.opp_board & !m;
            self.my_turn = false;
        } else {
            self.my_board = self.my_board & !m;
            self.my_turn = true;
        }
    }

    /// True when either side has three marks in a line.
    pub fn is_a_win(&self) -> (r: bool)
        ensures
            r == self.won(),
    {
        line_in(self.my_board) || line_in(self.opp_board)
    }

    /// True when a side has won or no cell is empty.
    pub fn has_game_ended(&self) -> (r: bool)
        ensures
            r == self.ended(),
    {
        self.is_a_win() || (self.my_board | self.opp_board) == FULL
    }

    /// The nine cells as 1 (this side), -1 (the other side) or 0 (empty).
    pub fn get_board_in_array(&self) -> (r: Vec<i8>)
        ensures
            r@ == self.state_vector(),
    {
        let mut r: Vec<i8> = Vec::new();
        let mut k: i16 = 0;
        while k < 9
            invariant
                0 <= k <= 9,
                r.len() == k,
                forall|j: int| 0 <= j < k ==> r[j] == self.cell(j),
            decreases 9 - k,
        {
            let bit: i16 = 1i16 << k;
            if self.my_board & bit != 0 {
                r.push(1);
            } else if self.opp_board & bit != 0 {
                r.push(-1);
            } else {
                r.push(0);
            }
            k = k + 1;
        }
        assert(r@ =~= self.state_vector());
        r
    }
}

fn line_in(m: i16) -> (r: bool)
    ensures
        r == has_line(m),
{
    m & 0x007 == 0x007 || m & 0x038 == 0x038 || m & 0x1c0 == 0x1c0 || m & 0x049 == 0x049
        || m & 0x092 == 0x092 || m & 0x124 == 0x124 || m & 0x111 == 0x111 || m & 0x054 == 0x054
}

/// Taking back a move restores the board exactly.
pub proof fn lemma_undo_after_play(b: Board, m: i16)
    requires
        b.wf(),
        is_bit_of(b.legal(), m),
    ensures
        b.played(m).wf(),
        b.played(m).unplayed(m) == b,
        b.played(m).my_turn ==> b.played(m).opp_board & m == m,
        !b.played(m).my_turn ==> b.played(m).my_board & m == m,
{
    lemma_play_keeps_wf(b.my_board, b.opp_board, m);
}

/// Facts on the progress of a game: a move marks one more cell, the empty
/// board has not ended, and a board that has not ended has an empty cell.
pub proof fn lemma_progress(b: Board, m: i16)
    requires
        b.wf(),
    ensures
        0 <= count_bits(b.occupied()) <= 9,
        is_bit_of(b.legal(), m) ==> b.played(m).wf() && count_bits(b.played(m).occupied())
            == count_bits(b.occupied()) + 1,
        !b.ended() ==> b.legal() != 0,
        b.flipped().wf(),
        b.flipped().legal() == b.legal(),
        b.flipped().ended() == b.ended(),
        b.flipped().won() == b.won(),
        b.flipped().flipped() == b,
{
    let my = b.my_board;
    let opp = b.opp_board;
    lemma_count_step(my | opp, m);
    assert(is_bit_of(FULL & !(my | opp), m) ==> (my | m) | opp == (my | opp) | m && my | (opp | m)
        == (my | opp) | m) by (bit_vector);
    if is_bit_of(b.legal(), m) {
        lemma_play_keeps_wf(my, opp, m);
    }
    assert(my & FULL == my && opp & FULL == opp && my | opp != FULL ==> FULL & !(my | opp) != 0)
        by (bit_vector);
    assert(my & opp == 0 ==> opp & my == 0) by (bit_vector);
    assert(FULL & !(opp | my) == FULL & !(my | opp) && opp | my == my | opp) by (bit_vector);
}

proof fn lemma_count_step(occ: i16, m: i16)
    by (bit_vector)
    ensures
        0 <= count_bits(occ) <= 9,
        is_bit_of(FULL & !occ, m) ==> count_bits(occ | m) == count_bits(occ) + 1,
{
}

/// The empty board has not ended.
pub proof fn lemma_empty_not_ended()
    ensures
        !(Board { my_board: 0, opp_board: 0, my_turn: true }).ended(),
        !(Board { my_board: 0, opp_board: 0, my_turn: false }).ended(),
        (Board { my_board: 0, opp_board: 0, my_turn: false }).wf(),
        count_bits(0i16 | 0i16) == 0,
{
    assert(!has_line(0) && 0i16 | 0i16 != FULL && 0i16 & FULL == 0i16 && 0i16 & 0i16 == 0i16
        && count_bits(0i16 | 0i16) == 0) by (bit_vector);
}

/// The empty cells lie within the board.
pub proof fn lemma_legal_in_board(b: Board)
    ensures
        b.legal() & FULL == b.legal(),
{
    let m = b.my_board;
    let o = b.opp_board;
    assert((FULL & !(m | o)) & FULL == FULL & !(m | o)) by (bit_vector);
}

proof fn lemma_play_keeps_wf(my: i16, opp: i16, m: i16)
    by (bit_vector)
    requires
        my & FULL == my,
        opp & FULL == opp,
        my & opp == 0,
        is_bit_of(FULL & !(my | opp), m),
    ensures
        (my | m) & FULL == my | m,
        (opp | m) & FULL == opp | m,
        (my | m) & opp == 0,
        my & (opp | m) == 0,
        (my | m) & !m == my,
        (opp | m) & !m == opp,
        (my | m) & m == m,
        (opp | m) & m == m,
        (my | opp) | m > my | opp,
        (my | m) | opp == (my | opp) | m,
        my | (opp | m) == (my | opp) | m,
        (my | opp) & FULL == my | opp,
{
}

} // verus!
