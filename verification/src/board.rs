//! The game state: two occupancy masks, the outcomes of the small boards,
//! the status, and a history that makes every move reversible.

use vstd::prelude::*;
use crate::bitboard::{DelBit, SetBit, LF, LS, SF};
use crate::lookups::{
    cell_bit, completes_line, has_line, lemma_line_needs_three, lemma_new_line, lemma_tables,
    pattern, sub_mask, DIV_LOOKUP, MOD_LOOKUP, SUB_LOOKUP,
};
use crate::bitboard::count_below;
use crate::position::{lemma_played_on, lemma_played_turn, playable, played, played_from, Position};
use crate::rules::{
    decided_cells, lemma_decided_cells_gain, lemma_decided_cells_same, lemma_decided_cells_sub,
    lemma_outcome_mask_bit, lemma_outcome_mask_gain, lemma_outcome_mask_same, outcome,
    outcome_mask, DRAWN, OPEN, WON_O, WON_X,
};

verus! {

/// Room for every move of a game in the two stacks.
pub const MOV_CAP: usize = 82;

/// What stands for a move that cannot be read or is not legal.
pub const ERR_MOV: u8 = 128;

pub struct Board {
    /// The small boards won by X, won by O, and drawn, one bit each.
    pub global: [u16; 3],
    /// The cells held by X and by O.
    pub locals: [u128; 2],
    /// 0: X won, 1: O won, 2: draw, 3: the game goes on.
    pub status: u8,
    /// Whether O is to move.
    pub turn: bool,
    /// For each move made, the mover's cells before it.
    pub history: Vec<u128>,
    /// The moves made, oldest first.
    pub moves: Vec<u8>,
    /// Every bit that is no cell, and the cells of the small boards that are
    /// no longer open.
    pub lwbits: u128,
}

impl View for Board {
    type V = Position;

    open spec fn view(&self) -> Position {
        Position {
            x: self.locals[0],
            o: self.locals[1],
            won_x: self.global[0],
            won_o: self.global[1],
            drawn: self.global[2],
            status: self.status,
            turn: self.turn,
            history: self.history@,
            moves: self.moves@,
            closed: self.lwbits,
        }
    }
}

/// What a set bit of the free cells says of the cell: it is on the board, empty
/// and in an open small board, and a stone can be put there.
proof fn lemma_free_cell(x: u128, o: u128, closed: u128, d: u128, s: u128, c: u128)
    by (bit_vector)
    requires
        c < 128,
        closed == !0x1_ffff_ffff_ffff_ffff_ffffu128 | d,
        x & o == 0,
        (x | o) & !0x1_ffff_ffff_ffff_ffff_ffffu128 == 0,
        !(x | o | closed) & (1u128 << c) != 0 || (!(x | o | closed) & s) & (1u128 << c) != 0,
    ensures
        c < 81,
        x & (1u128 << c) == 0,
        o & (1u128 << c) == 0,
        d & (0x1ffu128 << (9 * (c / 9))) != 0x1ffu128 << (9 * (c / 9)),
        (x | (1u128 << c)) & o == 0,
        x & (o | (1u128 << c)) == 0,
        ((x | (1u128 << c)) | o) & !0x1_ffff_ffff_ffff_ffff_ffffu128 == 0,
        (x | (o | (1u128 << c))) & !0x1_ffff_ffff_ffff_ffff_ffffu128 == 0,
{
}

/// What a stone on cell `c` does to the small masks: nothing to those of the
/// other small boards, one bit to its own.
pub(crate) proof fn lemma_pattern_place(m: u128, c: u128, k: u128)
    by (bit_vector)
    requires
        c < 81,
        k < 9,
    ensures
        c / 9 != k ==> ((m | (1u128 << c)) >> (9 * k)) & 0x1ff == (m >> (9 * k)) & 0x1ff,
        c / 9 == k ==> (((m | (1u128 << c)) >> (9 * k)) & 0x1ff) as u16 == (((m >> (9 * k))
            & 0x1ff) as u16) | (1u16 << ((c % 9) as u16)),
        (((m & (0x1ffu128 << (9 * k))) >> (9 * k)) & 0x1ff) == (m >> (9 * k)) & 0x1ff,
        (m >> (9 * k)) & 0x1ff < 0x200,
{
}

/// A small board is full by the large masks exactly if it is by the small
/// masks.
pub(crate) proof fn lemma_full_check(x: u128, o: u128, k: u128)
    by (bit_vector)
    requires
        k < 9,
    ensures
        (((x & (0x1ffu128 << (9 * k))) | (o & (0x1ffu128 << (9 * k)))) & (0x1ffu128 << (9 * k)))
            == (0x1ffu128 << (9 * k)) <==> ((x >> (9 * k)) & 0x1ff) | ((o >> (9 * k)) & 0x1ff)
            == 0x1ff,
{
}

/// The union of two small masks, narrow or wide, and in either order.
pub(crate) proof fn lemma_small_or(a: u128, b: u128)
    by (bit_vector)
    requires
        a < 0x200,
        b < 0x200,
    ensures
        (a as u16) | (b as u16) == 0x1ffu16 <==> a | b == 0x1ff,
        (a as u16) | (b as u16) == (b as u16) | (a as u16),
{
}

/// The union of the three outcome masks in another grouping.
pub(crate) proof fn lemma_all_decided(a: u16, b: u16, c: u16)
    ensures
        a | b | c == (a | b) | c,
        (a | b) | c == (a | c) | b,
{
    lemma_board_bits(a, b, c, 0, 0, 0);
}

/// The facts on masks behind the lemmas on closing and opening a small board.
proof fn lemma_board_bits(a: u16, b: u16, c: u16, l: u128, d: u128, k: u128)
    by (bit_vector)
    requires
        k < 9,
    ensures
        a | b | c == (a | b) | c,
        (a | b) | c == (a | c) | b,
        0u128 & d == 0,
        !0x1_ffff_ffff_ffff_ffff_ffffu128 | 0u128 == !0x1_ffff_ffff_ffff_ffff_ffffu128,
        (!0x1_ffff_ffff_ffff_ffff_ffffu128 | d) & (0x1ffu128 << (9 * k)) == d & (0x1ffu128 << (9
            * k)),
        !0x1_ffff_ffff_ffff_ffff_ffffu128 | (d | (0x1ffu128 << (9 * k))) == (
        !0x1_ffff_ffff_ffff_ffff_ffffu128 | d) | (0x1ffu128 << (9 * k)),
        ((0u128 >> (9 * k)) & 0x1ff) as u16 == 0,
        !has_line(0),
        0u16 | 0u16 != 0x1ff,
        0u16 | 0u16 | 0u16 != 0x1ff,
        (0u16 | 0u16 | 0u16) & !0x1ffu16 == 0,
        0u128 & 0u128 == 0,
        (0u128 | 0u128) & !0x1_ffff_ffff_ffff_ffff_ffffu128 == 0,
        a & (1u16 << (k as u16)) == 0 ==> (a | (1u16 << (k as u16))) & !(1u16 << (k as u16)) == a,
        a & (1u16 << (k as u16)) == 0 ==> a & !(1u16 << (k as u16)) == a,
        l & (0x1ffu128 << (9 * k)) == 0 ==> (l | (0x1ffu128 << (9 * k))) & !(0x1ffu128 << (9 * k))
            == l,
        l & (0x1ffu128 << (9 * k)) == 0 ==> l & !(0x1ffu128 << (9 * k)) == l,
{
}

/// Placing a stone on cell `c` leaves the outcome of every other small board
/// as it was.
proof fn lemma_place_elsewhere(x: u128, o: u128, x2: u128, o2: u128, c: u8)
    requires
        c < 81,
        (x2 == x | cell_bit(c) && o2 == o) || (x2 == x && o2 == o | cell_bit(c)),
    ensures
        forall|j: u8| j < 9 && j != c / 9 ==> outcome(x2, o2, j) == outcome(x, o, j),
{
    assert forall|j: u8| j < 9 && j != c / 9 implies outcome(x2, o2, j) == outcome(x, o, j) by {
        lemma_pattern_place(x, c as u128, j as u128);
        lemma_pattern_place(o, c as u128, j as u128);
    }
}

/// What a legal move changes: the mover's stone is added; where it completes
/// a line the small board is won and closed, where it fills the board
/// without a line the board is drawn and closed, and else no outcome
/// changes. The status follows the new outcome masks.
pub proof fn lemma_after_move(p: Position, mov: u8)
    requires
        p.wf(),
        p.is_legal(mov),
    ensures
        mov < 81,
        p.status == OPEN,
        p.x & cell_bit(mov) == 0,
        p.o & cell_bit(mov) == 0,
        outcome(p.x, p.o, mov / 9) == OPEN,
        !has_line(p.won_x),
        !has_line(p.won_o),
        p.after_move(mov).wf(),
        ({
            let q = p.after_move(mov);
            let k = mov / 9;
            let mine = if p.turn { pattern(q.o, k) } else { pattern(q.x, k) };
            let theirs = if p.turn { pattern(q.x, k) } else { pattern(q.o, k) };
            let before = if p.turn { pattern(p.o, k) } else { pattern(p.x, k) };
            &&& mine == before | (1u16 << (mov % 9))
            &&& !has_line(before)
            &&& !has_line(theirs)
            &&& if has_line(mine) {
                &&& q.won_x == if p.turn { p.won_x } else { p.won_x | (1u16 << k) }
                &&& q.won_o == if p.turn { p.won_o | (1u16 << k) } else { p.won_o }
                &&& q.drawn == p.drawn
                &&& q.closed == p.closed | sub_mask(k)
            } else if pattern(q.x, k) | pattern(q.o, k) == 0x1ff {
                &&& q.won_x == p.won_x
                &&& q.won_o == p.won_o
                &&& q.drawn == p.drawn | (1u16 << k)
                &&& q.closed == p.closed | sub_mask(k)
            } else {
                &&& q.won_x == p.won_x
                &&& q.won_o == p.won_o
                &&& q.drawn == p.drawn
                &&& q.closed == p.closed
            }
        }),
{
    let q = p.after_move(mov);
    let k = mov / 9;
    let d = decided_cells(p.x, p.o, 9);
    lemma_closed_gain(cell_bit(mov), 0);
    assert(p.status == OPEN);
    let s = if p.moves.len() > 0 { sub_mask(p.directed()) } else { 0 };
    lemma_free_cell(p.x, p.o, p.closed, d, s, mov as u128);
    lemma_decided_cells_sub(p.x, p.o, 9, k);
    assert(outcome(p.x, p.o, k) == OPEN);
    lemma_place_elsewhere(p.x, p.o, q.x, q.o, mov);
    lemma_pattern_place(p.x, mov as u128, k as u128);
    lemma_pattern_place(p.o, mov as u128, k as u128);
    assert(q.moves.len() == q.history.len());
    assert forall|i: int| 0 <= i < q.moves.len() implies q.moves[i] < 81 by {
        if i < p.moves.len() {
            assert(q.moves[i] == p.moves[i]);
        }
    }
    let w = outcome(q.x, q.o, k);
    assert forall|j: u8| j < 9 && j != k implies outcome(q.x, q.o, j) == outcome(p.x, p.o, j) by {}
    if w == OPEN {
        lemma_outcome_mask_same(p.x, p.o, q.x, q.o, WON_X, 9);
        lemma_outcome_mask_same(p.x, p.o, q.x, q.o, WON_O, 9);
        lemma_outcome_mask_same(p.x, p.o, q.x, q.o, DRAWN, 9);
        lemma_decided_cells_same(p.x, p.o, q.x, q.o, 9);
    } else {
        lemma_decided_cells_gain(p.x, p.o, q.x, q.o, 9, k);
        lemma_closed_gain(d, k as u128);
        if w == WON_X {
            lemma_outcome_mask_gain(p.x, p.o, q.x, q.o, WON_X, 9, k);
            lemma_outcome_mask_same(p.x, p.o, q.x, q.o, WON_O, 9);
            lemma_outcome_mask_same(p.x, p.o, q.x, q.o, DRAWN, 9);
        } else if w == WON_O {
            lemma_outcome_mask_same(p.x, p.o, q.x, q.o, WON_X, 9);
            lemma_outcome_mask_gain(p.x, p.o, q.x, q.o, WON_O, 9, k);
            lemma_outcome_mask_same(p.x, p.o, q.x, q.o, DRAWN, 9);
        } else {
            lemma_outcome_mask_same(p.x, p.o, q.x, q.o, WON_X, 9);
            lemma_outcome_mask_same(p.x, p.o, q.x, q.o, WON_O, 9);
            lemma_outcome_mask_gain(p.x, p.o, q.x, q.o, DRAWN, 9, k);
        }
    }
}

/// The closed cells gain the cells of a small board with the decided cells.
pub(crate) proof fn lemma_closed_gain(d: u128, k: u128)
    requires
        k < 9,
    ensures
        0u128 & d == 0,
        !LF | 0u128 == !LF,
        (!LF | d) & (0x1ffu128 << (9 * k)) == d & (0x1ffu128 << (9 * k)),
        !LF | (d | (0x1ffu128 << (9 * k))) == (!LF | d) | (0x1ffu128 << (9 * k)),
{
    lemma_board_bits(0, 0, 0, 0, d, k);
}


impl Default for Board {
    /// An empty board, X to move.
    fn default() -> (r: Self)
        ensures
            r@ == Position::empty(),
            r@.wf(),
            played(r@),
    {
        proof {
            lemma_empty_wf();
        }
        Self {
            global: [0; 3],
            locals: [0; 2],
            status: 3,
            turn: false,
            history: Vec::with_capacity(MOV_CAP),
            moves: Vec::with_capacity(MOV_CAP),
            lwbits: !LF,
        }
    }
}

/// On the empty board no small board is decided and the game goes on.
pub proof fn lemma_empty_wf()
    ensures
        Position::empty().wf(),
        Position::empty().won_x == 0,
        Position::empty().won_o == 0,
        Position::empty().drawn == 0,
        Position::empty().closed == !LF,
        Position::empty().status == OPEN,
{
    assert forall|j: u8| j < 9 implies outcome(0, 0, j) == OPEN by {
        lemma_empty_pattern(j as u128);
    }
    lemma_outcome_masks_open(0, 0, WON_X, 9);
    lemma_outcome_masks_open(0, 0, WON_O, 9);
    lemma_outcome_masks_open(0, 0, DRAWN, 9);
    lemma_decided_cells_open(0, 0, 9);
    lemma_empty_pattern(0);
}

/// The empty masks: no stone, no line, nothing full.
pub(crate) proof fn lemma_empty_pattern(k: u128)
    requires
        k < 9,
    ensures
        ((0u128 >> (9 * k)) & 0x1ff) as u16 == 0,
        !has_line(0),
        0u16 | 0u16 != 0x1ff,
        0u16 | 0u16 | 0u16 != 0x1ff,
        (0u16 | 0u16 | 0u16) & !0x1ffu16 == 0,
        0u128 & 0u128 == 0,
        (0u128 | 0u128) & !LF == 0,
        !LF | 0u128 == !LF,
{
    lemma_board_bits(0, 0, 0, 0, 0, k);
}


/// Where every small board counted is open, no outcome mask has a bit.
proof fn lemma_outcome_masks_open(x: u128, o: u128, which: u8, n: nat)
    requires
        n <= 9,
        which != OPEN,
        forall|j: u8| j < n ==> outcome(x, o, j) == OPEN,
    ensures
        outcome_mask(x, o, which, n) == 0,
    decreases n,
{
    if n > 0 {
        lemma_outcome_masks_open(x, o, which, (n - 1) as nat);
        assert(outcome(x, o, (n - 1) as u8) == OPEN);
    }
}

/// Where every small board counted is open, no cell is decided.
proof fn lemma_decided_cells_open(x: u128, o: u128, n: nat)
    requires
        n <= 9,
        forall|j: u8| j < n ==> outcome(x, o, j) == OPEN,
    ensures
        decided_cells(x, o, n) == 0,
    decreases n,
{
    if n > 0 {
        lemma_decided_cells_open(x, o, (n - 1) as nat);
        assert(outcome(x, o, (n - 1) as u8) == OPEN);
    }
}

impl Board {
    /// Back to the empty board, X to move.
    pub fn clear(&mut self)
        ensures
            final(self)@ == Position::empty(),
            final(self)@.wf(),
            played(final(self)@),
    {
        proof {
            lemma_empty_wf();
        }
        self.global = [0; 3];
        self.locals = [0; 2];
        self.status = 3;
        self.turn = false;
        self.history = Vec::with_capacity(MOV_CAP);
        self.moves = Vec::with_capacity(MOV_CAP);
        self.lwbits = !LF;
    }

    /// The legal moves of the side to move, one bit for each cell.
    pub fn generate_legal_moves(&self) -> (r: u128)
        requires
            self@.moves.len() > 0 ==> self@.moves.last() < 81,
        ensures
            r == self@.legal_moves(),
    {
        if self.status != 3 {
            return 0;
        }
        let free = !(self.locals[0] | self.locals[1] | self.lwbits);
        if self.moves.len() == 0 {
            return free;
        }
        proof {
            lemma_tables();
        }
        let last = self.moves[self.moves.len() - 1];
        let overlap = free & SUB_LOOKUP[MOD_LOOKUP[last as usize] as usize];
        if overlap != 0 {
            return overlap;
        }
        free
    }

    /// Plays cell `mov` for the side to move. The caller answers for the
    /// move being legal.
    pub fn make_move(&mut self, mov: u8)
        requires
            old(self)@.wf(),
            old(self)@.is_legal(mov),
        ensures
            final(self)@ == old(self)@.after_move(mov),
            final(self)@.wf(),
            final(self)@.can_undo(),
            played(old(self)@) ==> played(final(self)@),
    {
        let ghost p = self@;
        let ghost q = p.after_move(mov);
        proof {
            if played(p) {
                lemma_played_on(p, mov);
            }
            lemma_after_move(p, mov);
            crate::position::lemma_move_reversible(p, mov);
            lemma_tables();
        }
        let my_turn: usize = if self.turn { 1 } else { 0 };
        let op_turn: usize = 1 - my_turn;

        self.history.push(self.locals[my_turn]);
        self.moves.push(mov);
        self.locals[my_turn].set_bit(mov);

        let gbit: u8 = DIV_LOOKUP[mov as usize];
        let cbit: u8 = MOD_LOOKUP[mov as usize];
        let sub: u128 = SUB_LOOKUP[gbit as usize];
        let my_overlap: u128 = self.locals[my_turn] & sub;
        proof {
            lemma_pattern_place(my_overlap, mov as u128, gbit as u128);
        }
        let my_sub: u16 = ((my_overlap >> (gbit * 9)) & LS) as u16;
        proof {
            lemma_pattern_place(self.locals[my_turn as int], mov as u128, gbit as u128);
            lemma_pattern_place(self.locals[op_turn as int], mov as u128, gbit as u128);
            assert(my_sub == if p.turn { pattern(q.o, gbit) } else { pattern(q.x, gbit) });
            let before = if p.turn { pattern(p.o, gbit) } else { pattern(p.x, gbit) };
            lemma_new_line(before, cbit);
            if has_line(my_sub) {
                lemma_line_needs_three(my_sub);
            }
        }

        if my_sub.count_ones() > 2 && completes_line(my_sub, cbit) {
            self.global[my_turn].set_bit(gbit);
            self.lwbits |= sub;
            proof {
                lemma_new_line(if p.turn { p.won_o } else { p.won_x }, gbit);
                lemma_all_decided(self.global[0], self.global[1], self.global[2]);
                if has_line(self.global[my_turn as int]) {
                    lemma_line_needs_three(self.global[my_turn as int]);
                }
            }
            if self.global[my_turn].count_ones() > 2 && completes_line(self.global[my_turn], gbit) {
                self.status = if self.turn { 1 } else { 0 };
            } else if self.global[0] | self.global[1] | self.global[2] == SF {
                self.status = 2;
            }
        } else {
            let op_overlap: u128 = self.locals[op_turn] & sub;
            proof {
                lemma_full_check(
                    self.locals[my_turn as int],
                    self.locals[op_turn as int],
                    gbit as u128,
                );
                lemma_small_or(
                    (self.locals[my_turn as int] >> ((9 * gbit) as u128)) & 0x1ff,
                    (self.locals[op_turn as int] >> ((9 * gbit) as u128)) & 0x1ff,
                );
            }
            if (my_overlap | op_overlap) & sub == sub {
                self.global[2].set_bit(gbit);
                self.lwbits |= sub;
                proof {
                    lemma_all_decided(self.global[0], self.global[1], self.global[2]);
                }
                if self.global[0] | self.global[1] | self.global[2] == SF {
                    self.status = 2;
                }
            }
        }

        self.turn = !self.turn;
        proof {
            assert(self@.x == q.x);
            assert(self@.o == q.o);
            assert(self@.won_x == q.won_x);
            assert(self@.won_o == q.won_o);
            assert(self@.drawn == q.drawn);
            assert(self@.closed == q.closed);
            assert(self@.status == q.status);
            assert(self@.history == q.history);
            assert(self@.moves == q.moves);
        }
    }

    /// Hands the move to the other side without a stone. Doing so twice
    /// leaves the board as it was; a move that was made before cannot be
    /// taken back in between.
    pub fn null_move(&mut self)
        ensures
            final(self)@ == (Position { turn: !old(self)@.turn, ..old(self)@ }),
            old(self)@.wf() ==> final(self)@.wf(),
    {
        self.turn = !self.turn;
    }

    /// Takes the last move back. Where the board came about by playing that
    /// move, the board is as it was before the move.
    pub fn undo_move(&mut self)
        requires
            old(self)@.moves.len() > 0,
            old(self)@.history.len() > 0,
            old(self)@.moves.last() < 81,
        ensures
            final(self)@ == old(self)@.unmade(),
            old(self)@.wf() && old(self)@.can_undo() ==> final(self)@ == old(self)@.before_move()
                && final(self)@.wf(),
            played(old(self)@) ==> final(self)@ == old(self)@.before_move() && played(final(self)@),
    {
        proof {
            lemma_tables();
            if played(self@) {
                lemma_played(self@);
                lemma_played_back(self@);
            }
            if self@.wf() && self@.can_undo() {
                lemma_unmade(self@);
            }
        }
        self.turn = !self.turn;
        let my_turn: usize = if self.turn { 1 } else { 0 };
        let mov: u8 = self.moves.pop().unwrap();
        self.locals[my_turn] = self.history.pop().unwrap();
        let dl: u8 = DIV_LOOKUP[mov as usize];
        self.global[my_turn].del_bit(dl);
        self.global[2].del_bit(dl);
        self.status = 3;
        self.lwbits &= !SUB_LOOKUP[dl as usize];
        proof {
            assert(self@.history == old(self)@.unmade().history);
            assert(self@.moves == old(self)@.unmade().moves);
        }
    }
}

/// Where a position came about by playing its last move, taking the move
/// back leaves what the stones before the move decide.
pub proof fn lemma_unmade(q: Position)
    requires
        q.wf(),
        q.can_undo(),
    ensures
        q.unmade() == q.before_move(),
{
    let p = q.before_move();
    let last = q.moves.last();
    let dl = last / 9;
    lemma_after_move(p, last);
    lemma_outcome_mask_bit(p.x, p.o, WON_X, 9, dl);
    lemma_outcome_mask_bit(p.x, p.o, WON_O, 9, dl);
    lemma_outcome_mask_bit(p.x, p.o, DRAWN, 9, dl);
    lemma_decided_cells_sub(p.x, p.o, 9, dl);
    lemma_closed_gain(decided_cells(p.x, p.o, 9), dl as u128);
    lemma_clear_bits(p.won_x, p.closed, dl as u128);
    lemma_clear_bits(p.won_o, p.closed, dl as u128);
    lemma_clear_bits(p.drawn, p.closed, dl as u128);
    let u = q.unmade();
    assert(u.x == p.x);
    assert(u.o == p.o);
    assert(u.won_x == p.won_x);
    assert(u.won_o == p.won_o);
    assert(u.drawn == p.drawn);
    assert(u.closed == p.closed);
}

/// Clearing the bit or the cells of a small board undoes setting them, and
/// changes nothing where they were clear.
proof fn lemma_clear_bits(g: u16, l: u128, k: u128)
    requires
        k < 9,
    ensures
        g & (1u16 << (k as u16)) == 0 ==> (g | (1u16 << (k as u16))) & !(1u16 << (k as u16)) == g,
        g & (1u16 << (k as u16)) == 0 ==> g & !(1u16 << (k as u16)) == g,
        l & (0x1ffu128 << (9 * k)) == 0 ==> (l | (0x1ffu128 << (9 * k))) & !(0x1ffu128 << (9 * k))
            == l,
        l & (0x1ffu128 << (9 * k)) == 0 ==> l & !(0x1ffu128 << (9 * k)) == l,
{
    lemma_board_bits(g, 0, 0, l, 0, k);
}


/// An open small board has a free cell.
proof fn lemma_free_in_open(x: u128, o: u128, d: u128, k: u128)
    by (bit_vector)
    requires
        k < 9,
        d & (0x1ffu128 << (9 * k)) == 0,
        (((x >> (9 * k)) & 0x1ff) as u16) | (((o >> (9 * k)) & 0x1ff) as u16) != 0x1ffu16,
    ensures
        !(x | o | (!0x1_ffff_ffff_ffff_ffff_ffffu128 | d)) & (0x1ffu128 << (9 * k)) != 0,
        !(x | o | (!0x1_ffff_ffff_ffff_ffff_ffffu128 | d)) != 0,
{
}

/// While the game goes on the side to move has a legal move.
pub proof fn lemma_open_has_moves(p: Position)
    requires
        p.wf(),
        p.status == OPEN,
    ensures
        p.legal_moves() != 0,
        p.free() != 0,
{
    let k = crate::rules::lemma_open_board(p.x, p.o);
    lemma_decided_cells_sub(p.x, p.o, 9, k);
    lemma_free_in_open(p.x, p.o, decided_cells(p.x, p.o, 9), k as u128);
}

/// The bits of one cell in the free cells, the decided cells and the cells of a
/// small board.
proof fn lemma_cell_bits(x: u128, o: u128, d: u128, c: u128, k: u128)
    by (bit_vector)
    requires
        c < 81,
        k < 9,
    ensures
        ({
            let closed = !0x1_ffff_ffff_ffff_ffff_ffffu128 | d;
            let free = !(x | o | closed);
            let bit = 1u128 << c;
            let own = 0x1ffu128 << (9 * (c / 9));
            let sub = 0x1ffu128 << (9 * k);
            &&& free & bit != 0 <==> x & bit == 0 && o & bit == 0 && d & bit == 0
            &&& d & own == own ==> d & bit != 0
            &&& d & own == 0 ==> d & bit == 0
            &&& (free & sub) & bit != 0 <==> free & bit != 0 && c / 9 == k
            &&& d & sub == sub ==> free & sub == 0
            &&& 0u128 & bit == 0
        }),
{
}

/// Which cells are free: the empty cells of the small boards that are
/// still open.
pub proof fn lemma_free_cell_is_open(p: Position, c: u8)
    requires
        p.wf(),
        c < 81,
    ensures
        p.free() & cell_bit(c) != 0 <==> p.x & cell_bit(c) == 0 && p.o & cell_bit(c) == 0
            && outcome(p.x, p.o, c / 9) == OPEN,
{
    lemma_decided_cells_sub(p.x, p.o, 9, c / 9);
    lemma_cell_bits(p.x, p.o, decided_cells(p.x, p.o, 9), c as u128, 0);
}

/// Which cells are legal: while the game goes on, the free cells of the
/// small board that the last move sends to; and every free cell before the
/// first move or where that small board has no free cell.
pub proof fn lemma_legal_cell(p: Position, c: u8)
    requires
        p.wf(),
        c < 81,
    ensures
        p.is_legal(c) <==> p.status == OPEN && p.free() & cell_bit(c) != 0 && (p.moves.len() == 0
            || c / 9 == p.directed() || p.free() & sub_mask(p.directed()) == 0),
{
    let d = decided_cells(p.x, p.o, 9);
    if p.moves.len() > 0 {
        assert(p.moves.last() < 81);
        lemma_cell_bits(p.x, p.o, d, c as u128, p.directed() as u128);
    } else {
        lemma_cell_bits(p.x, p.o, d, c as u128, 0);
    }
}

/// The rule of the open choice: where the small board that the last move
/// sends to is decided, the side to move may play every free cell of every
/// small board that is still open, and there is such a cell.
pub proof fn lemma_send_anywhere(p: Position)
    requires
        p.wf(),
        p.status == OPEN,
        p.moves.len() > 0,
        outcome(p.x, p.o, p.directed()) != OPEN,
    ensures
        p.legal_moves() == p.free(),
        p.legal_moves() != 0,
        forall|c: u8|
            c < 81 ==> (p.is_legal(c) <==> p.x & cell_bit(c) == 0 && p.o & cell_bit(c) == 0
                && outcome(p.x, p.o, c / 9) == OPEN),
{
    let d = decided_cells(p.x, p.o, 9);
    assert(p.moves.last() < 81);
    lemma_decided_cells_sub(p.x, p.o, 9, p.directed());
    lemma_cell_bits(p.x, p.o, d, 0, p.directed() as u128);
    lemma_open_has_moves(p);
    assert forall|c: u8| c < 81 implies (p.is_legal(c) <==> p.x & cell_bit(c) == 0 && p.o
        & cell_bit(c) == 0 && outcome(p.x, p.o, c / 9) == OPEN) by {
        lemma_free_cell_is_open(p, c);
    }
}

/// One stone more on an empty cell, seen at a cell, and the empty masks.
proof fn lemma_stone_bits(x: u128, o: u128, c: u8, j: u8)
    by (bit_vector)
    requires
        c < 128,
        j < 128,
    ensures
        ((x | o) | (1u128 << c)) & (1u128 << j) != 0 <==> j == c || (x | o) & (1u128 << j) != 0,
        (x | (1u128 << c)) | o == (x | o) | (1u128 << c),
        x | (o | (1u128 << c)) == (x | o) | (1u128 << c),
        x & (1u128 << c) == 0 && o & (1u128 << c) == 0 ==> (x | o) & (1u128 << c) == 0,
        (0u128 | 0u128) & (1u128 << j) == 0,
{
}

/// A stone on an empty cell is one stone more.
proof fn lemma_stone_count(x: u128, o: u128, c: u8, n: nat)
    requires
        c < 128,
        n <= 128,
        (x | o) & (1u128 << c) == 0,
    ensures
        count_below((x | o) | (1u128 << c), n) == count_below(x | o, n) + if c < n {
            1nat
        } else {
            0nat
        },
    decreases n,
{
    if n > 0 {
        lemma_stone_count(x, o, c, (n - 1) as nat);
        lemma_stone_bits(x, o, c, (n - 1) as u8);
    }
}

/// A legal move puts one stone more on the board.
pub proof fn lemma_move_adds_stone(p: Position, mov: u8)
    requires
        p.wf(),
        p.is_legal(mov),
    ensures
        p.after_move(mov).stones() == p.stones() + 1,
{
    lemma_after_move(p, mov);
    lemma_stone_bits(p.x, p.o, mov, 0);
    lemma_stone_count(p.x, p.o, mov, 81);
}

/// Playing moves that can be played from a well-formed position leads to a
/// well-formed position with one stone more for each move.
proof fn lemma_played_from(q: Position, moves: Seq<u8>, i: nat)
    requires
        q.wf(),
        i <= moves.len(),
        playable(q, moves, i),
    ensures
        played_from(q, moves, i).wf(),
        played_from(q, moves, i).stones() == q.stones() + moves.len() - i,
    decreases moves.len() - i,
{
    if i < moves.len() {
        let mov = moves[i as int];
        lemma_after_move(q, mov);
        lemma_move_adds_stone(q, mov);
        lemma_played_from(q.after_move(mov), moves, i + 1);
    }
}

/// A position that came about by play is well formed, has a stone for each
/// move on record, and has O to move exactly if their number is odd.
pub proof fn lemma_played(p: Position)
    requires
        played(p),
    ensures
        p.wf(),
        p.stones() == p.moves.len(),
        p.turn == (p.stones() % 2 == 1),
{
    lemma_empty_wf();
    let start = Position::empty();
    lemma_played_from(start, p.moves, 0);
    lemma_played_turn(start, p.moves, 0);
    assert(start.stones() == 0) by {
        assert forall|j: u8| j < 81 implies (start.x | start.o) & (1u128 << j) == 0 by {
            lemma_stone_bits(0, 0, 0, j);
        }
        crate::bitboard::lemma_count_none(start.x | start.o, 81);
    }
}

/// Playing moves records them behind the moves that were on record.
proof fn lemma_played_record(q: Position, moves: Seq<u8>, i: nat)
    requires
        i <= moves.len(),
    ensures
        played_from(q, moves, i).moves == q.moves + moves.subrange(i as int, moves.len() as int),
    decreases moves.len() - i,
{
    if i < moves.len() {
        let mov = moves[i as int];
        lemma_played_record(q.after_move(mov), moves, i + 1);
        assert(q.moves.push(mov) + moves.subrange((i + 1) as int, moves.len() as int) =~= q.moves
            + moves.subrange(i as int, moves.len() as int));
    } else {
        assert(q.moves + moves.subrange(i as int, moves.len() as int) =~= q.moves);
    }
}

/// Moves that can be played can be played but for the last, which is legal
/// then and played last.
proof fn lemma_played_last(q: Position, moves: Seq<u8>, i: nat)
    requires
        q.wf(),
        i < moves.len(),
        playable(q, moves, i),
    ensures
        playable(q, moves.drop_last(), i),
        played_from(q, moves.drop_last(), i).wf(),
        played_from(q, moves.drop_last(), i).is_legal(moves.last()),
        played_from(q, moves, i) == played_from(q, moves.drop_last(), i).after_move(moves.last()),
    decreases moves.len() - i,
{
    let fewer = moves.drop_last();
    let mov = moves[i as int];
    lemma_after_move(q, mov);
    if i + 1 < moves.len() {
        assert(fewer[i as int] == mov);
        lemma_played_last(q.after_move(mov), moves, i + 1);
    } else {
        assert(played_from(q.after_move(mov), moves, i + 1) == q.after_move(mov));
    }
}

/// The last move of a position that came about by play can be taken back,
/// and what is left came about by play.
pub proof fn lemma_played_back(p: Position)
    requires
        played(p),
        p.moves.len() > 0,
    ensures
        p.can_undo(),
        played(p.before_move()),
{
    lemma_empty_wf();
    lemma_played(p);
    let start = Position::empty();
    let fewer = p.moves.drop_last();
    lemma_played_last(start, p.moves, 0);
    let q = played_from(start, fewer, 0);
    lemma_played_record(start, fewer, 0);
    assert(start.moves + fewer.subrange(0, fewer.len() as int) =~= fewer);
    crate::position::lemma_move_reversible(q, p.moves.last());
}

} // verus!
