//! The field and its moves.

use vstd::prelude::*;
use vstd::string::StrSliceExecFns;
use crate::bitboard::{
    lemma_pop_done, lemma_pop_start, lemma_pop_walk, lemma_popcount_counts, low_mask, DelBit,
    PopBit, SetBit, LF, LS, SF,
};
use crate::lookups::{
    cell_bit, completes_line, has_line, holds_line, lemma_line_needs_three, lemma_new_line,
    lemma_tables, pattern, sub_mask, DIV_LOOKUP, MOD_LOOKUP, SUB_LOOKUP,
};
use crate::perft::{lemma_count_below_tail, lemma_high_bits_clear, lemma_pow81_monotone, pow81};
use crate::bitboard::count_below;
use crate::rules::{
    lemma_outcome_mask_bit, outcome, outcome_mask, status_of, DRAWN, OPEN, WON_O, WON_X,
};

verus! {

/// Where the move sits in an entry of the history.
pub const MOVE_SHIFT: u8 = 96;

#[derive(Debug, Clone)]
pub struct Field {
    /// The small boards won by X, won by O, and drawn, one bit each.
    pub global: [u16; 3],
    /// The cells held by X and by O.
    pub locals: [u128; 2],
    /// 0: X won, 1: O won, 2: draw, 3: the game goes on.
    pub status: u8,
    /// Whether O is to move.
    pub turn: bool,
    /// For each move made, the mover's cells before it, and the move above
    /// them.
    pub history: Vec<u128>,
}

/// A field as the contracts speak of it.
pub struct FieldState {
    pub x: u128,
    pub o: u128,
    pub won_x: u16,
    pub won_o: u16,
    pub drawn: u16,
    pub status: u8,
    pub turn: bool,
    pub history: Seq<u128>,
}

impl View for Field {
    type V = FieldState;

    open spec fn view(&self) -> FieldState {
        FieldState {
            x: self.locals[0],
            o: self.locals[1],
            won_x: self.global[0],
            won_o: self.global[1],
            drawn: self.global[2],
            status: self.status,
            turn: self.turn,
            history: self.history@,
        }
    }
}

/// An entry of the history: the mover's cells and the move above them.
pub open spec fn entry_of(cells: u128, mov: u8) -> u128 {
    cells | ((mov as u128) << 96)
}

/// The move in an entry of the history.
pub open spec fn entry_move(entry: u128) -> u8 {
    (entry >> 96) as u8
}

/// The cells in an entry of the history.
pub open spec fn entry_cells(entry: u128) -> u128 {
    entry & LF
}

impl FieldState {
    /// The field before any move.
    pub open spec fn empty() -> FieldState {
        FieldState {
            x: 0,
            o: 0,
            won_x: 0,
            won_o: 0,
            drawn: 0,
            status: OPEN,
            turn: false,
            history: Seq::empty(),
        }
    }

    /// The small boards that are decided, one bit each.
    pub open spec fn decided(self) -> u16 {
        self.won_x | self.won_o | self.drawn
    }

    /// Whether the outcome masks say of small board `k` what its cells
    /// allow: a board won by a side holds a line of that side, a drawn
    /// board is full, an open board holds no line and is not full, and no
    /// board has two outcomes.
    pub open spec fn board_ok(self, k: u8) -> bool {
        let bit = 1u16 << k;
        let px = pattern(self.x, k);
        let po = pattern(self.o, k);
        &&& self.won_x & bit != 0 ==> has_line(px) && self.won_o & bit == 0 && self.drawn & bit == 0
        &&& self.won_o & bit != 0 ==> has_line(po) && self.drawn & bit == 0
        &&& self.drawn & bit != 0 ==> px | po == 0x1ff
        &&& self.decided() & bit == 0 ==> !has_line(px) && !has_line(po) && px | po != 0x1ff
    }

    /// No cell is held twice, nothing but the 81 cells is held, the outcome
    /// masks speak of the nine small boards and say what their cells allow,
    /// the status is what the masks decide, and each entry of the history
    /// holds a cell for its move.
    pub open spec fn wf(self) -> bool {
        &&& self.x & self.o == 0
        &&& (self.x | self.o) & !LF == 0
        &&& self.decided() & !0x1ffu16 == 0
        &&& forall|k: u8| k < 9 ==> #[trigger] self.board_ok(k)
        &&& self.status == status_of(self.won_x, self.won_o, self.drawn)
        &&& forall|i: int| 0 <= i < self.history.len() ==> (#[trigger] self.history[i] >> 96) < 81
    }

    /// The empty cells.
    pub open spec fn free(self) -> u128 {
        !self.x & !self.o & LF
    }

    /// The small board that the last move sends the next player to.
    pub open spec fn directed(self) -> u8
        recommends
            self.history.len() > 0,
    {
        entry_move(self.history.last()) % 9
    }

    /// The legal moves, one bit for each cell: none once the game is over;
    /// every empty cell before the first move; else the empty cells of the
    /// directed small board, or, where it has none, every empty cell.
    pub open spec fn legal_moves(self) -> u128 {
        if self.status != OPEN {
            0
        } else if self.history.len() == 0 {
            self.free()
        } else if self.free() & sub_mask(self.directed()) != 0 {
            self.free() & sub_mask(self.directed())
        } else {
            self.free()
        }
    }

    /// Whether the side to move may play cell `mov`.
    pub open spec fn is_legal(self, mov: u8) -> bool {
        mov < 128 && self.legal_moves() & cell_bit(mov) != 0
    }

    /// Whether the move `mov` decides its small board: the board is not
    /// decided yet, and the move completes a line or fills the board.
    pub open spec fn decides(self, mov: u8) -> bool {
        let k = mov / 9;
        let mine = pattern(if self.turn { self.o } else { self.x }, k) | (1u16 << (mov % 9));
        let theirs = pattern(if self.turn { self.x } else { self.o }, k);
        self.decided() & (1u16 << k) == 0 && (has_line(mine) || mine | theirs == 0x1ff)
    }

    /// The field after the side to move has played cell `mov`. A small
    /// board that is not decided yet is won by a line of the mover, and
    /// drawn once it is full without one.
    pub open spec fn after_move(self, mov: u8) -> FieldState {
        let k = mov / 9;
        let mine = pattern(if self.turn { self.o } else { self.x }, k) | (1u16 << (mov % 9));
        let theirs = pattern(if self.turn { self.x } else { self.o }, k);
        let open = self.decided() & (1u16 << k) == 0;
        let wins = open && has_line(mine);
        let fills = open && !has_line(mine) && mine | theirs == 0x1ff;
        let won_x = if wins && !self.turn { self.won_x | (1u16 << k) } else { self.won_x };
        let won_o = if wins && self.turn { self.won_o | (1u16 << k) } else { self.won_o };
        let drawn = if fills { self.drawn | (1u16 << k) } else { self.drawn };
        FieldState {
            x: if self.turn { self.x } else { self.x | cell_bit(mov) },
            o: if self.turn { self.o | cell_bit(mov) } else { self.o },
            won_x,
            won_o,
            drawn,
            status: status_of(won_x, won_o, drawn),
            turn: !self.turn,
            history: self.history.push(entry_of(if self.turn { self.o } else { self.x }, mov)),
        }
    }

    /// The field with the last move taken back: the mover's cells are those
    /// the history holds; the small board of the move is open again where
    /// the move decided it, which the mover's line or the full board tells.
    pub open spec fn before_move(self) -> FieldState
        recommends
            self.history.len() > 0,
    {
        let entry = self.history.last();
        let mov = entry_move(entry);
        let cells = entry_cells(entry);
        let k = mov / 9;
        let mover_is_o = !self.turn;
        let had_line = has_line(pattern(cells, k));
        FieldState {
            x: if mover_is_o { self.x } else { cells },
            o: if mover_is_o { cells } else { self.o },
            won_x: if !mover_is_o && !had_line { self.won_x & !(1u16 << k) } else { self.won_x },
            won_o: if mover_is_o && !had_line { self.won_o & !(1u16 << k) } else { self.won_o },
            drawn: self.drawn & !(1u16 << k),
            status: OPEN,
            turn: mover_is_o,
            history: self.history.drop_last(),
        }
    }

    /// Whether the last move can be taken back: there is one, and this
    /// field came about by playing it where it was legal.
    pub open spec fn can_undo(self) -> bool {
        &&& self.history.len() > 0
        &&& self.before_move().wf()
        &&& self.before_move().is_legal(entry_move(self.history.last()))
        &&& self.before_move().after_move(entry_move(self.history.last())) == self
    }
}

/// An entry of the history gives back its cells and its move, and a free cell
/// is a cell where a stone can be put.
proof fn lemma_entry(cells: u128, mov: u128, other: u128)
    by (bit_vector)
    requires
        mov < 128,
        (cells | other) & !0x1_ffff_ffff_ffff_ffff_ffffu128 == 0 || (other | cells)
            & !0x1_ffff_ffff_ffff_ffff_ffffu128 == 0,
        cells & other == 0 || other & cells == 0,
    ensures
        cells & !0x1_ffff_ffff_ffff_ffff_ffffu128 == 0,
        (cells | (mov << 96)) >> 96 == mov,
        !cells & !other & 0x1_ffff_ffff_ffff_ffff_ffffu128 & (1u128 << mov) != 0 ==> mov < 81,
        !other & !cells & 0x1_ffff_ffff_ffff_ffff_ffffu128 == !cells & !other
            & 0x1_ffff_ffff_ffff_ffff_ffffu128,
        (cells | (mov << 96)) & 0x1_ffff_ffff_ffff_ffff_ffffu128 == cells,
        !cells & !other & 0x1_ffff_ffff_ffff_ffff_ffffu128 & (1u128 << mov) != 0 ==> cells & (1u128
            << mov) == 0 && other & (1u128 << mov) == 0 && (cells | (1u128 << mov)) & other == 0
            && other & (cells | (1u128 << mov)) == 0 && ((cells | (1u128 << mov)) | other)
            & !0x1_ffff_ffff_ffff_ffff_ffffu128 == 0 && (other | (cells | (1u128 << mov)))
            & !0x1_ffff_ffff_ffff_ffff_ffffu128 == 0 && (((cells >> (9 * (mov / 9))) & 0x1ff)
            as u16) | (((other >> (9 * (mov / 9))) & 0x1ff) as u16) != 0x1ffu16 && (((other >> (9
            * (mov / 9))) & 0x1ff) as u16) | (((cells >> (9 * (mov / 9))) & 0x1ff) as u16)
            != 0x1ffu16,
{
}

/// The bits of one small board in the outcome masks and their union.
proof fn lemma_field_bits(a: u16, b: u16, c: u16, k: u16, j: u16, s: u128, f: u128, m: u8)
    by (bit_vector)
    requires
        k < 9,
        j < 9,
        (a | b | c) & !0x1ffu16 == 0,
    ensures
        (a | b | c) & (1u16 << k) == 0 <==> a & (1u16 << k) == 0 && b & (1u16 << k) == 0 && c & (
        1u16 << k) == 0,
        ((a | (1u16 << k)) | b | c) & !0x1ffu16 == 0,
        (a | (b | (1u16 << k)) | c) & !0x1ffu16 == 0,
        (a | b | (c | (1u16 << k))) & !0x1ffu16 == 0,
        ((a & !(1u16 << k)) | b | c) & !0x1ffu16 == 0,
        (a | (b & !(1u16 << k)) | c) & !0x1ffu16 == 0,
        ((a & !(1u16 << k)) | b | (c & !(1u16 << k))) & !0x1ffu16 == 0,
        (a | (b & !(1u16 << k)) | (c & !(1u16 << k))) & !0x1ffu16 == 0,
        (a | b | (c & !(1u16 << k))) & !0x1ffu16 == 0,
        (a & !(1u16 << k)) & (1u16 << k) == 0,
        j != k ==> ((a & !(1u16 << k)) & (1u16 << j) != 0 <==> a & (1u16 << j) != 0),
        0u16 | 0u16 | 0u16 == 0,
        0u16 & !0x1ffu16 == 0,
        0u16 & (1u16 << k) == 0,
        m < 128 && (f & s) & (1u128 << m) != 0 ==> f & (1u128 << m) != 0,
        0u128 & (1u128 << m) == 0,
{
}

/// What a legal move changes, and that the field stays well formed.
pub proof fn lemma_field_after_move(f: FieldState, mov: u8)
    requires
        f.wf(),
        f.is_legal(mov),
    ensures
        mov < 81,
        f.status == OPEN,
        !has_line(f.won_x),
        !has_line(f.won_o),
        f.x & cell_bit(mov) == 0,
        f.o & cell_bit(mov) == 0,
        f.after_move(mov).wf(),
        f.after_move(mov).before_move() == f,
        f.after_move(mov).can_undo(),
        pattern(if f.turn { f.after_move(mov).o } else { f.after_move(mov).x }, mov / 9) == pattern(
            if f.turn { f.o } else { f.x },
            mov / 9,
        ) | (1u16 << (mov % 9)),
        pattern(if f.turn { f.after_move(mov).x } else { f.after_move(mov).o }, mov / 9) == pattern(
            if f.turn { f.x } else { f.o },
            mov / 9,
        ),
        f.decided() & (1u16 << (mov / 9)) == 0 ==> !has_line(
            pattern(if f.turn { f.o } else { f.x }, mov / 9),
        ),
{
    let g = f.after_move(mov);
    let k = mov / 9;
    let s = if f.history.len() > 0 { sub_mask(f.directed()) } else { 0 };
    lemma_field_bits(f.won_x, f.won_o, f.drawn, 0, 0, s, f.free(), mov);
    assert(f.status == OPEN);
    assert(f.free() & cell_bit(mov) != 0);
    let mine0 = if f.turn { f.o } else { f.x };
    let theirs0 = if f.turn { f.x } else { f.o };
    lemma_entry(mine0, mov as u128, theirs0);
    lemma_entry(theirs0, mov as u128, mine0);
    lemma_field_bits(f.won_x, f.won_o, f.drawn, k as u16, k as u16, s, f.free(), mov);
    crate::board::lemma_pattern_place(mine0, mov as u128, k as u128);
    crate::board::lemma_pattern_place(theirs0, mov as u128, k as u128);
    assert(f.board_ok(k));
    assert forall|j: u8| j < 9 implies #[trigger] g.board_ok(j) by {
        assert(f.board_ok(j));
        crate::board::lemma_pattern_place(f.x, mov as u128, j as u128);
        crate::board::lemma_pattern_place(f.o, mov as u128, j as u128);
        lemma_field_bits(f.won_x, f.won_o, f.drawn, k as u16, j as u16, s, f.free(), mov);
        lemma_field_bits(g.won_x, g.won_o, g.drawn, k as u16, j as u16, s, f.free(), mov);
        lemma_field_bits(f.won_x, f.won_o, f.drawn, j as u16, j as u16, s, f.free(), mov);
        lemma_field_bits(g.won_x, g.won_o, g.drawn, j as u16, j as u16, s, f.free(), mov);
        crate::rules::lemma_u16_bits(f.won_x, k as u16, j as u16);
        crate::rules::lemma_u16_bits(f.won_o, k as u16, j as u16);
        crate::rules::lemma_u16_bits(f.drawn, k as u16, j as u16);
        crate::board::lemma_pattern_place(g.x, mov as u128, j as u128);
        crate::board::lemma_pattern_place(g.o, mov as u128, j as u128);
        if j == k {
            crate::board::lemma_small_or(
                (f.x >> ((9 * k) as u128)) & 0x1ff,
                (f.o >> ((9 * k) as u128)) & 0x1ff,
            );
            crate::board::lemma_small_or(
                (g.x >> ((9 * k) as u128)) & 0x1ff,
                (g.o >> ((9 * k) as u128)) & 0x1ff,
            );
            if has_line(pattern(mine0, k)) {
                lemma_line_grows(pattern(mine0, k), (mov % 9) as u16);
            }
        }
    }
    assert forall|i: int| 0 <= i < g.history.len() implies (#[trigger] g.history[i] >> 96)
        < 81 by {
        if i < f.history.len() {
            assert(g.history[i] == f.history[i]);
        }
    }
    crate::rules::lemma_u16_bits(f.won_x, k as u16, k as u16);
    crate::rules::lemma_u16_bits(f.won_o, k as u16, k as u16);
    crate::rules::lemma_u16_bits(f.drawn, k as u16, k as u16);
    assert(g.history.drop_last() =~= f.history);
    assert(g.before_move().won_x == f.won_x);
    assert(g.before_move().won_o == f.won_o);
    assert(g.before_move().drawn == f.drawn);
    assert(g.before_move() == f);
}

/// One stone more leaves a line in place.
proof fn lemma_line_grows(p: u16, c: u16)
    by (bit_vector)
    requires
        c < 9,
        has_line(p),
    ensures
        has_line(p | (1u16 << c)),
{
}

impl Default for Field {
    /// An empty field, X to move.
    fn default() -> (r: Self)
        ensures
            r@ == FieldState::empty(),
            r@.wf(),
    {
        proof {
            lemma_empty_field();
        }
        Self { global: [0; 3], locals: [0; 2], status: 3, turn: false, history: Vec::new() }
    }
}

/// The empty field is well formed.
pub proof fn lemma_empty_field()
    ensures
        FieldState::empty().wf(),
{
    let f = FieldState::empty();
    assert forall|k: u8| k < 9 implies #[trigger] f.board_ok(k) by {
        crate::board::lemma_empty_pattern(k as u128);
        lemma_field_bits(0, 0, 0, k as u16, k as u16, 0, 0, 0);
    }
    crate::board::lemma_empty_pattern(0);
    lemma_field_bits(0, 0, 0, 0, 0, 0, 0, 0);
}

impl Field {
    /// The legal moves of the side to move, one bit for each cell.
    pub fn generate_legal_moves(&self) -> (r: u128)
        requires
            self@.history.len() > 0 ==> (self@.history.last() >> 96) < 81,
        ensures
            r == self@.legal_moves(),
    {
        if self.status != 3 {
            return 0;
        }
        let free: u128 = !self.locals[0] & !self.locals[1] & LF;

        if self.history.len() == 0 {
            return free;
        }
        proof {
            lemma_tables();
            assert((self@.history[self.history@.len() - 1] >> 96) < 81);
        }
        let last_mov: usize = (self.history[self.history.len() - 1] >> 96) as usize;
        let overlap: u128 = free & SUB_LOOKUP[MOD_LOOKUP[last_mov] as usize];

        if overlap == 0 {
            return free;
        }
        overlap
    }

    /// Plays cell `mov` for the side to move. The caller answers for the
    /// move being legal.
    pub fn make_move(&mut self, mov: u8)
        requires
            old(self)@.wf(),
            old(self)@.is_legal(mov),
        ensures
            final(self)@ == old(self)@.after_move(mov),
            final(self)@.wf(),
            final(self)@.can_undo(),
    {
        let ghost f = self@;
        let ghost g = f.after_move(mov);
        proof {
            lemma_field_after_move(f, mov);
            lemma_tables();
        }
        let my_turn: usize = if self.turn { 1 } else { 0 };
        let op_turn: usize = 1 - my_turn;

        self.history.push(self.locals[my_turn] | ((mov as u128) << 96));

        self.locals[my_turn].set_bit(mov);

        let gbit: u8 = DIV_LOOKUP[mov as usize];
        let sub: u128 = SUB_LOOKUP[gbit as usize];
        let my_overlap: u128 = self.locals[my_turn] & sub;
        proof {
            crate::board::lemma_pattern_place(my_overlap, mov as u128, gbit as u128);
            crate::board::lemma_pattern_place(self.locals[my_turn as int], mov as u128, gbit as u128);
        }
        let my_sub: u16 = ((my_overlap >> (gbit * 9)) & LS) as u16;
        let cbit: u8 = MOD_LOOKUP[mov as usize];
        let decided: u16 = self.global[0] | self.global[1] | self.global[2];
        proof {
            let before = pattern(if f.turn { f.o } else { f.x }, gbit);
            if f.decided() & (1u16 << gbit) == 0 {
                lemma_new_line(before, cbit);
                if has_line(my_sub) {
                    lemma_line_needs_three(my_sub);
                }
            }
        }

        if decided & (1u16 << gbit) == 0 {
            if my_sub.count_ones() > 2 && completes_line(my_sub, cbit) {
                self.global[my_turn].set_bit(gbit);
                proof {
                    lemma_new_line(if f.turn { f.won_o } else { f.won_x }, gbit);
                    if has_line(self.global[my_turn as int]) {
                        lemma_line_needs_three(self.global[my_turn as int]);
                    }
                }
                if self.global[my_turn].count_ones() > 2 && completes_line(
                    self.global[my_turn],
                    gbit,
                ) {
                    self.status = if self.turn { 1 } else { 0 };
                } else if self.global[0] | self.global[1] | self.global[2] == SF {
                    self.status = 2;
                }
            } else {
                let op_overlap: u128 = self.locals[op_turn] & sub;
                proof {
                    crate::board::lemma_pattern_place(
                        self.locals[op_turn as int],
                        mov as u128,
                        gbit as u128,
                    );
                    crate::board::lemma_full_check(
                        self.locals[my_turn as int],
                        self.locals[op_turn as int],
                        gbit as u128,
                    );
                    crate::board::lemma_small_or(
                        (self.locals[my_turn as int] >> ((9 * gbit) as u128)) & 0x1ff,
                        (self.locals[op_turn as int] >> ((9 * gbit) as u128)) & 0x1ff,
                    );
                }
                if (my_overlap | op_overlap) & sub == sub {
                    self.global[2].set_bit(gbit);
                    if self.global[0] | self.global[1] | self.global[2] == SF {
                        self.status = 2;
                    }
                }
            }
        }

        self.turn = !self.turn;
        proof {
            assert(self@.x == g.x);
            assert(self@.o == g.o);
            assert(self@.won_x == g.won_x);
            assert(self@.won_o == g.won_o);
            assert(self@.drawn == g.drawn);
            assert(self@.status == g.status);
            assert(self@.history == g.history);
        }
    }

    /// Hands the move to the other side without a stone.
    pub fn null_move(&mut self)
        ensures
            final(self)@ == (FieldState { turn: !old(self)@.turn, ..old(self)@ }),
    {
        self.turn = !self.turn;
    }

    /// Takes the last move back. Where the field came about by playing
    /// that move, the field is as it was before the move.
    pub fn undo_move(&mut self)
        requires
            old(self)@.history.len() > 0,
            (old(self)@.history.last() >> 96) < 81,
        ensures
            final(self)@ == old(self)@.before_move(),
            old(self)@.can_undo() ==> final(self)@.wf(),
    {
        let ghost g = self@;
        let ghost f = g.before_move();
        proof {
            lemma_tables();
        }
        self.turn = !self.turn;
        let my_turn: usize = if self.turn { 1 } else { 0 };
        let entry: u128 = self.history.pop().unwrap();
        self.locals[my_turn] = entry & LF;
        let mov: usize = (entry >> 96) as usize;
        let dl: u8 = DIV_LOOKUP[mov];
        let mine: u128 = self.locals[my_turn] & SUB_LOOKUP[dl as usize];
        proof {
            crate::board::lemma_pattern_place(mine, 0, dl as u128);
            crate::board::lemma_pattern_place(self.locals[my_turn as int], 0, dl as u128);
        }
        let my_sub: u16 = ((mine >> (dl * 9)) & LS) as u16;
        if !holds_line(my_sub) {
            self.global[my_turn].del_bit(dl);
        }
        self.global[2].del_bit(dl);
        self.status = 3;
        proof {
            assert(self@.history == f.history);
        }
    }
}

/// What has been read of a layout that begins with the last cell: the
/// stones of both sides, how many cells are left, and whose turn the number
/// of stones makes it.
pub struct FieldLayout {
    pub x: u128,
    pub o: u128,
    pub left: nat,
    pub turn: bool,
}

/// What one more character makes of a layout: `-` nothing, `x` and `o` a
/// stone on the last cell that is left, a digit from 1 to 9 that many
/// empty cells. No other character is taken, and no more than 81 cells.
pub open spec fn field_layout_step(l: FieldLayout, c: char) -> Option<FieldLayout> {
    if c == '-' {
        Some(l)
    } else if c == 'x' {
        if l.left >= 1 {
            Some(
                FieldLayout {
                    x: l.x | cell_bit((l.left - 1) as u8),
                    o: l.o,
                    left: (l.left - 1) as nat,
                    turn: !l.turn,
                },
            )
        } else {
            None
        }
    } else if c == 'o' {
        if l.left >= 1 {
            Some(
                FieldLayout {
                    x: l.x,
                    o: l.o | cell_bit((l.left - 1) as u8),
                    left: (l.left - 1) as nat,
                    turn: !l.turn,
                },
            )
        } else {
            None
        }
    } else if 49 <= c as u32 <= 57 {
        let skip = (c as u32 - 48) as nat;
        if l.left >= skip {
            Some(FieldLayout { x: l.x, o: l.o, left: (l.left - skip) as nat, turn: l.turn })
        } else {
            None
        }
    } else {
        None
    }
}

/// The layout that the text `s` gives, read from an empty field, or
/// nothing where a character or a cell count is not taken.
pub open spec fn field_layout_of(s: Seq<char>) -> Option<FieldLayout>
    decreases s.len(),
{
    if s.len() == 0 {
        Some(FieldLayout { x: 0, o: 0, left: 81, turn: false })
    } else {
        match field_layout_of(s.drop_last()) {
            Some(l) => field_layout_step(l, s.last()),
            None => None,
        }
    }
}

/// The field that the stones `x` and `o` decide, with the given side to
/// move and no history: a small board with a line of X is won by X, else
/// one with a line of O by O, else a full one is drawn.
pub open spec fn field_settled(x: u128, o: u128, turn: bool) -> FieldState {
    let won_x = outcome_mask(x, o, WON_X, 9);
    let won_o = outcome_mask(x, o, WON_O, 9);
    let drawn = outcome_mask(x, o, DRAWN, 9);
    FieldState {
        x,
        o,
        won_x,
        won_o,
        drawn,
        status: status_of(won_x, won_o, drawn),
        turn,
        history: Seq::empty(),
    }
}

/// The field that the text `s` gives.
pub open spec fn field_position(s: Seq<char>) -> Option<FieldState> {
    match field_layout_of(s) {
        Some(l) => Some(field_settled(l.x, l.o, l.turn)),
        None => None,
    }
}

/// A stone on the last cell that is left, and empty cells passed over.
proof fn lemma_field_stone(x: u128, o: u128, left: u8, to: u8)
    by (bit_vector)
    requires
        to <= left <= 81,
        x & o == 0,
    ensures
        (x | o) & (((1u128 << left) - 1) as u128) == 0 ==> (x | o) & (((1u128 << to) - 1) as u128)
            == 0,
        left >= 1 && (x | o) & (((1u128 << left) - 1) as u128) == 0 ==> (x | (1u128 << ((left
            - 1) as u8))) & o == 0 && x & (o | (1u128 << ((left - 1) as u8))) == 0 && ((x | (1u128
            << ((left - 1) as u8))) | o) & (((1u128 << ((left - 1) as u8)) - 1) as u128) == 0 && (x
            | (o | (1u128 << ((left - 1) as u8)))) & (((1u128 << ((left - 1) as u8)) - 1) as u128)
            == 0,
        (x | o) & !0x1_ffff_ffff_ffff_ffff_ffffu128 == 0 && left >= 1 ==> ((x | (1u128 << ((left
            - 1) as u8))) | o) & !0x1_ffff_ffff_ffff_ffff_ffffu128 == 0 && (x | (o | (1u128 << ((
        left - 1) as u8)))) & !0x1_ffff_ffff_ffff_ffff_ffffu128 == 0,
        0u128 & 0u128 == 0,
        (0u128 | 0u128) & !0x1_ffff_ffff_ffff_ffff_ffffu128 == 0,
        (0u128 | 0u128) & (((1u128 << 81u8) - 1) as u128) == 0,
{
}

/// Three masks of small boards have a union of small boards.
proof fn lemma_masks_apart(a: u16, b: u16, c: u16)
    by (bit_vector)
    requires
        a & !0x1ffu16 == 0,
        b & !0x1ffu16 == 0,
        c & !0x1ffu16 == 0,
    ensures
        (a | b | c) & !0x1ffu16 == 0,
{
}

/// The field that stones decide is well formed.
pub proof fn lemma_field_settled(x: u128, o: u128, turn: bool)
    requires
        x & o == 0,
        (x | o) & !LF == 0,
    ensures
        field_settled(x, o, turn).wf(),
{
    let f = field_settled(x, o, turn);
    lemma_outcome_mask_bit(x, o, WON_X, 9, 0);
    lemma_outcome_mask_bit(x, o, WON_O, 9, 0);
    lemma_outcome_mask_bit(x, o, DRAWN, 9, 0);
    lemma_masks_apart(f.won_x, f.won_o, f.drawn);
    assert forall|k: u8| k < 9 implies #[trigger] f.board_ok(k) by {
        lemma_outcome_mask_bit(x, o, WON_X, 9, k);
        lemma_outcome_mask_bit(x, o, WON_O, 9, k);
        lemma_outcome_mask_bit(x, o, DRAWN, 9, k);
        lemma_field_bits(f.won_x, f.won_o, f.drawn, k as u16, k as u16, 0, 0, 0);
    }
}

/// A text whose beginning is not taken is not taken.
proof fn lemma_field_layout_rejects(s: Seq<char>, n: int)
    requires
        0 <= n <= s.len(),
        field_layout_of(s.subrange(0, n)).is_none(),
    ensures
        field_layout_of(s).is_none(),
    decreases s.len() - n,
{
    if n < s.len() {
        let upto = s.subrange(0, n + 1);
        assert(upto.drop_last() =~= s.subrange(0, n));
        lemma_field_layout_rejects(s, n + 1);
    } else {
        assert(s.subrange(0, n) =~= s);
    }
}

impl Field {
    /// Works out the outcomes of the small boards and the status from the
    /// stones, and empties the history.
    fn settle(&mut self)
        ensures
            final(self)@ == field_settled(old(self)@.x, old(self)@.o, old(self)@.turn),
    {
        let ghost x = self@.x;
        let ghost o = self@.o;
        self.global = [0; 3];
        self.history = Vec::new();
        let mut i: u8 = 0;
        while i < 9
            invariant
                i <= 9,
                self@.x == x,
                self@.o == o,
                self@.turn == old(self)@.turn,
                self@.history == Seq::<u128>::empty(),
                self.global[0] == outcome_mask(x, o, WON_X, i as nat),
                self.global[1] == outcome_mask(x, o, WON_O, i as nat),
                self.global[2] == outcome_mask(x, o, DRAWN, i as nat),
            decreases 9 - i,
        {
            proof {
                lemma_tables();
                crate::board::lemma_pattern_place(x, 0, i as u128);
                crate::board::lemma_pattern_place(o, 0, i as u128);
                crate::board::lemma_pattern_place(x & sub_mask(i), 0, i as u128);
                crate::board::lemma_pattern_place(o & sub_mask(i), 0, i as u128);
            }
            let localx: u128 = self.locals[0] & SUB_LOOKUP[i as usize];
            let subx: u16 = ((localx >> (i * 9)) & LS) as u16;
            let localo: u128 = self.locals[1] & SUB_LOOKUP[i as usize];
            let subo: u16 = ((localo >> (i * 9)) & LS) as u16;
            if holds_line(subx) {
                self.global[0].set_bit(i);
            } else if holds_line(subo) {
                self.global[1].set_bit(i);
            } else if subx | subo == SF {
                self.global[2].set_bit(i);
            }
            i += 1;
        }
        self.status = if holds_line(self.global[0]) {
            0
        } else if holds_line(self.global[1]) {
            1
        } else if self.global[0] | self.global[1] | self.global[2] == SF {
            2
        } else {
            3
        };
    }

    /// Sets the field up from the text `ken`: groups of `x`, `o` and counts
    /// of empty cells, the last cell first. Tells whether the text was
    /// taken; where it was not, the field is empty.
    pub fn import(&mut self, ken: &str) -> (ok: bool)
        ensures
            ok == field_position(ken@).is_some(),
            ok ==> final(self)@ == field_position(ken@).unwrap(),
            !ok ==> final(self)@ == FieldState::empty(),
            final(self)@.wf(),
    {
        self.global = [0; 3];
        self.locals = [0; 2];
        self.status = 3;
        self.turn = false;
        self.history = Vec::new();
        proof {
            lemma_empty_field();
            lemma_field_stone(0, 0, 81, 81);
        }

        let n: usize = ken.unicode_len();
        let mut bit: u8 = 81;
        let mut at: usize = 0;
        let mut x: u128 = 0;
        let mut o: u128 = 0;
        let mut turn: bool = false;
        proof {
            assert(ken@.subrange(0, 0) =~= Seq::<char>::empty());
        }
        while at < n
            invariant
                at <= n == ken@.len(),
                self@ == FieldState::empty(),
                self@.wf(),
                bit <= 81,
                x & o == 0,
                (x | o) & !LF == 0,
                (x | o) & low_mask(bit) == 0,
                field_layout_of(ken@.subrange(0, at as int)) == Some(
                    FieldLayout { x, o, left: bit as nat, turn },
                ),
            decreases n - at,
        {
            let c: char = ken.get_char(at);
            let code: u32 = c as u32;
            proof {
                let upto = ken@.subrange(0, at + 1);
                assert(upto.drop_last() =~= ken@.subrange(0, at as int));
                assert(upto.last() == c);
                if field_layout_step(FieldLayout { x, o, left: bit as nat, turn }, c).is_none() {
                    lemma_field_layout_rejects(ken@, at + 1);
                }
            }
            if c == '-' {
            } else if c == 'x' {
                if bit < 1 {
                    return false;
                }
                proof {
                    lemma_field_stone(x, o, bit, bit);
                }
                bit -= 1;
                x.set_bit(bit);
                turn = !turn;
            } else if c == 'o' {
                if bit < 1 {
                    return false;
                }
                proof {
                    lemma_field_stone(x, o, bit, bit);
                }
                bit -= 1;
                o.set_bit(bit);
                turn = !turn;
            } else if 49 <= code && code <= 57 {
                let skip: u8 = (code - 48) as u8;
                if bit < skip {
                    return false;
                }
                proof {
                    lemma_field_stone(x, o, bit, (bit - skip) as u8);
                }
                bit -= skip;
            } else {
                return false;
            }
            at += 1;
        }
        proof {
            assert(ken@.subrange(0, n as int) =~= ken@);
            lemma_field_settled(x, o, turn);
        }
        self.locals[0] = x;
        self.locals[1] = o;
        self.turn = turn;
        self.settle();
        true
    }

    /// The field that the text `ken` gives, or the empty field where the
    /// text is not taken.
    pub fn init(ken: &str) -> (fd: Self)
        ensures
            fd@ == match field_position(ken@) {
                Some(f) => f,
                None => FieldState::empty(),
            },
            fd@.wf(),
    {
        let mut fd = Field::default();
        fd.import(ken);
        fd
    }
}

impl PartialEq for Field {
    /// Two fields are taken for equal where their stones are: quick, and
    /// blind to the rest.
    fn eq(&self, other: &Self) -> (r: bool) {
        self.locals[0] == other.locals[0] && self.locals[1] == other.locals[1]
    }
}

impl vstd::std_specs::cmp::PartialEqSpecImpl for Field {
    open spec fn obeys_eq_spec() -> bool {
        true
    }

    open spec fn eq_spec(&self, other: &Self) -> bool {
        self.locals[0] == other.locals[0] && self.locals[1] == other.locals[1]
    }
}

/// The number of sequences of `depth` legal moves from `f`.
pub open spec fn field_perft_nodes(f: FieldState, depth: nat) -> nat
    decreases depth, 82nat,
{
    if depth == 0 {
        1
    } else {
        field_perft_upto(f, depth, 81)
    }
}

/// The number of sequences of `depth` legal moves from `f` whose first move
/// is a cell below `n`.
pub open spec fn field_perft_upto(f: FieldState, depth: nat, n: nat) -> nat
    decreases depth, n,
{
    if depth == 0 || n == 0 || n > 81 {
        0
    } else {
        field_perft_upto(f, depth, (n - 1) as nat) + if f.is_legal((n - 1) as u8) {
            field_perft_nodes(f.after_move((n - 1) as u8), (depth - 1) as nat)
        } else {
            0
        }
    }
}

/// There are at most 81 to the power `depth - 1` sequences for each first move.
proof fn lemma_field_perft_upto_bound(f: FieldState, depth: nat, n: nat)
    requires
        depth > 0,
        n <= 81,
    ensures
        field_perft_upto(f, depth, n) <= n * pow81((depth - 1) as nat),
    decreases depth, n,
{
    if n > 0 {
        lemma_field_perft_upto_bound(f, depth, (n - 1) as nat);
        lemma_field_perft_bound(f.after_move((n - 1) as u8), (depth - 1) as nat);
        assert((n - 1) * pow81((depth - 1) as nat) + pow81((depth - 1) as nat) == n * pow81(
            (depth - 1) as nat,
        )) by (nonlinear_arith);
    }
}

/// There are at most 81 to the power `depth` sequences of `depth` moves; up
/// to depth 10 their number fits in a `u64`.
pub proof fn lemma_field_perft_bound(f: FieldState, depth: nat)
    ensures
        field_perft_nodes(f, depth) <= pow81(depth),
        depth <= 10 ==> field_perft_nodes(f, depth) <= u64::MAX,
    decreases depth, 82nat,
{
    if depth > 0 {
        lemma_field_perft_upto_bound(f, depth, 81);
    }
    lemma_pow81_monotone(depth, 10);
    reveal_with_fuel(pow81, 11);
    assert(pow81(10) == 12157665459056928801);
}

/// Counting more first moves counts no fewer sequences.
proof fn lemma_field_perft_upto_monotone(f: FieldState, depth: nat, a: nat, b: nat)
    requires
        a <= b <= 81,
    ensures
        field_perft_upto(f, depth, a) <= field_perft_upto(f, depth, b),
    decreases b,
{
    if a < b {
        lemma_field_perft_upto_monotone(f, depth, a, (b - 1) as nat);
    }
}

/// Cells that are not legal add nothing to the count.
proof fn lemma_field_perft_upto_skip(f: FieldState, depth: nat, a: nat, b: nat)
    requires
        a <= b <= 81,
        forall|j: u8| a <= j < b ==> !f.is_legal(j),
    ensures
        field_perft_upto(f, depth, b) == field_perft_upto(f, depth, a),
    decreases b,
{
    if a < b {
        lemma_field_perft_upto_skip(f, depth, a, (b - 1) as nat);
        assert(!f.is_legal((b - 1) as u8));
    }
}

/// At depth one the sequences are the legal moves.
proof fn lemma_field_perft_one(f: FieldState, n: nat)
    requires
        n <= 81,
    ensures
        field_perft_upto(f, 1, n) == count_below(f.legal_moves(), n),
    decreases n,
{
    if n > 0 {
        lemma_field_perft_one(f, (n - 1) as nat);
        let c = (n - 1) as u8;
        assert(field_perft_nodes(f.after_move(c), 0) == 1);
        assert(cell_bit(c) == 1u128 << c);
    }
}

impl Field {
    /// Counts the sequences of `depth` legal moves from this field, by
    /// playing each and taking it back.
    pub fn perft(&mut self, depth: u8) -> (r: u64)
        requires
            old(self)@.wf(),
            depth >= 1,
            field_perft_nodes(old(self)@, depth as nat) <= u64::MAX,
        ensures
            final(self)@ == old(self)@,
            r == field_perft_nodes(old(self)@, depth as nat),
        decreases depth,
    {
        let ghost f = self@;
        let mut free: u128 = self.generate_legal_moves();
        proof {
            let s = if f.history.len() > 0 { sub_mask(f.directed()) } else { 0 };
            crate::perft::lemma_legal_subset(f.x, f.o, 0, s);
        }
        if depth == 1 {
            proof {
                lemma_popcount_counts(free);
                lemma_field_perft_one(f, 81);
                assert forall|j: u8| 81 <= j < 128 implies free & (1u128 << j) == 0 by {
                    lemma_high_bits_clear(free, j);
                }
                lemma_count_below_tail(free, 81, 128);
            }
            return free.count_ones() as u64;
        }
        let ghost all = free;
        let ghost lo: u8 = 0;
        proof {
            lemma_pop_start(all);
        }
        let mut cnt: u64 = 0;
        while free != 0
            invariant
                self@ == f,
                f.wf(),
                depth >= 2,
                all == f.legal_moves(),
                all & !LF == 0,
                lo <= 81,
                free == all & !low_mask(lo),
                cnt == field_perft_upto(f, depth as nat, lo as nat),
                field_perft_nodes(f, depth as nat) <= u64::MAX,
            decreases 81 - lo,
        {
            let ghost rest = free;
            let bit: u8 = free.pop_bit();
            proof {
                lemma_pop_walk(all, rest, lo, bit, 0);
                if bit >= 81 {
                    lemma_high_bits_clear(all, bit);
                }
                assert forall|j: u8| lo <= j < bit implies !f.is_legal(j) by {
                    lemma_pop_walk(all, rest, lo, bit, j);
                }
                lemma_field_perft_upto_skip(f, depth as nat, lo as nat, bit as nat);
                lemma_field_perft_upto_monotone(f, depth as nat, (bit + 1) as nat, 81);
                lemma_field_after_move(f, bit);
            }
            self.make_move(bit);
            let sub: u64 = self.perft(depth - 1);
            self.undo_move();
            cnt += sub;
            proof {
                lo = (bit + 1) as u8;
            }
        }
        proof {
            assert forall|j: u8| lo <= j < 81 implies !f.is_legal(j) by {
                lemma_pop_done(all, lo, j);
            }
            lemma_field_perft_upto_skip(f, depth as nat, lo as nat, 81);
        }
        cnt
    }
}

} // verus!
