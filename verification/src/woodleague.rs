//! Plain tic-tac-toe on one small board, searched to the end of the game.

use vstd::prelude::*;
use crate::bitboard::{GetBit, PopBit, SetBit, SF};
use crate::lookups::{completes_line, has_line, lemma_new_line};
use crate::notation::push_char;
use crate::rules::{lemma_u16_bits, DRAWN, OPEN, WON_O, WON_X};

verus! {

/// The number of rows of the principal variation table.
pub const PLY_LIMIT: usize = 10;

/// The widest window of the search.
pub const INF: i16 = 16384;

/// The score of a won game.
pub const LARGE: i16 = 8192;

/// Scores above this stand for a forced win.
pub const LARGM: i16 = LARGE - 16;

/// What a stone on each cell counts in a drawn game.
pub const TRAP: [i16; 9] = [5, 0, 3, 0, 2, 0, 3, 0, 5];

pub struct SmallBoard {
    /// The cells held by X and by O.
    pub bbs: [u16; 2],
    /// 0: X won, 1: O won, 2: draw, 3: the game goes on.
    pub status: u8,
    /// Whether O is to move.
    pub turn: bool,
    /// For each move made, the mover's cells before it.
    pub bkps: Vec<u16>,
}

/// A small board as the contracts speak of it.
pub struct SmallState {
    pub x: u16,
    pub o: u16,
    pub status: u8,
    pub turn: bool,
    pub bkps: Seq<u16>,
}

impl View for SmallBoard {
    type V = SmallState;

    open spec fn view(&self) -> SmallState {
        SmallState {
            x: self.bbs[0],
            o: self.bbs[1],
            status: self.status,
            turn: self.turn,
            bkps: self.bkps@,
        }
    }
}

/// The status that the stones decide: a line of X, else a line of O, else a
/// draw once the board is full, else the game goes on.
pub open spec fn small_status(x: u16, o: u16) -> u8 {
    if has_line(x) {
        WON_X
    } else if has_line(o) {
        WON_O
    } else if x | o == 0x1ff {
        DRAWN
    } else {
        OPEN
    }
}

/// How many of the cells below `n` hold a stone.
pub open spec fn stones_below(s: SmallState, n: nat) -> nat
    decreases n,
{
    if n == 0 {
        0
    } else {
        stones_below(s, (n - 1) as nat) + if (s.x | s.o) & (1u16 << ((n - 1) as u8)) != 0 {
            1nat
        } else {
            0nat
        }
    }
}

impl SmallState {
    /// The board before any move.
    pub open spec fn empty() -> SmallState {
        SmallState { x: 0, o: 0, status: OPEN, turn: false, bkps: Seq::empty() }
    }

    /// No cell is held twice, nothing but the nine cells is held, and the
    /// status is what the stones decide.
    pub open spec fn wf(self) -> bool {
        &&& self.x & self.o == 0
        &&& (self.x | self.o) & !0x1ffu16 == 0
        &&& self.status == small_status(self.x, self.o)
    }

    /// The legal moves, one bit for each cell: the empty cells while the
    /// game goes on.
    pub open spec fn legal_moves(self) -> u16 {
        if self.status != OPEN {
            0
        } else {
            !(self.x | self.o) & 0x1ff
        }
    }

    /// Whether the side to move may play cell `mov`.
    pub open spec fn is_legal(self, mov: u8) -> bool {
        mov < 16 && self.legal_moves() & (1u16 << mov) != 0
    }

    /// The board after the side to move has played cell `mov`.
    pub open spec fn after_move(self, mov: u8) -> SmallState {
        let x = if self.turn { self.x } else { self.x | (1u16 << mov) };
        let o = if self.turn { self.o | (1u16 << mov) } else { self.o };
        SmallState {
            x,
            o,
            status: small_status(x, o),
            turn: !self.turn,
            bkps: self.bkps.push(if self.turn { self.o } else { self.x }),
        }
    }

    /// The board with the last move taken back.
    pub open spec fn before_move(self) -> SmallState
        recommends
            self.bkps.len() > 0,
    {
        SmallState {
            x: if self.turn { self.bkps.last() } else { self.x },
            o: if self.turn { self.o } else { self.bkps.last() },
            status: OPEN,
            turn: !self.turn,
            bkps: self.bkps.drop_last(),
        }
    }

    /// How many stones lie on the board.
    pub open spec fn stones(self) -> nat {
        stones_below(self, 9)
    }
}

/// A legal cell of a small board is on the board and empty, and a stone can be
/// put there.
proof fn lemma_small_move(x: u16, o: u16, c: u16)
    by (bit_vector)
    requires
        c < 16,
    ensures
        x & o == 0 && (x | o) & !0x1ffu16 == 0 && (!(x | o) & 0x1ff) & (1u16 << c) != 0 ==> c < 9
            && x & (1u16 << c) == 0 && o & (1u16 << c) == 0 && (x | o) & (1u16 << c) == 0 && (x | (
        1u16 << c)) & o == 0 && x & (o | (1u16 << c)) == 0 && ((x | (1u16 << c)) | o) & !0x1ffu16
            == 0 && (x | (o | (1u16 << c))) & !0x1ffu16 == 0,
        (x | (1u16 << c)) | o == (x | o) | (1u16 << c),
        x | (o | (1u16 << c)) == (x | o) | (1u16 << c),
        0u16 & (1u16 << c) == 0,
{
}

/// A small board that is not full has an empty cell; the empty board holds
/// nothing.
proof fn lemma_small_open(x: u16, o: u16)
    ensures
        (x | o) & !0x1ffu16 == 0 && x | o != 0x1ff ==> !(x | o) & 0x1ff != 0,
        0u16 & 0u16 == 0,
        (0u16 | 0u16) & !0x1ffu16 == 0,
        0u16 | 0u16 != 0x1ff,
        !has_line(0),
{
    lemma_nine_bits(x | o);
    lemma_nine_bits(0);
}


/// A stone on an empty cell is one stone more.
proof fn lemma_stones_grow(s: SmallState, t: SmallState, c: u8, n: nat)
    requires
        c < 9,
        n <= 9,
        (s.x | s.o) & (1u16 << c) == 0,
        t.x | t.o == (s.x | s.o) | (1u16 << c),
    ensures
        stones_below(t, n) == stones_below(s, n) + if c < n { 1nat } else { 0nat },
        stones_below(s, n) <= n,
        stones_below(t, n) <= n,
    decreases n,
{
    if n > 0 {
        lemma_stones_grow(s, t, c, (n - 1) as nat);
        lemma_u16_bits(s.x | s.o, c as u16, (n - 1) as u16);
    }
}

/// What a legal move changes: the board stays well formed, has one stone
/// more, and taking the move back gives the board it was played on.
pub proof fn lemma_small_after_move(s: SmallState, mov: u8)
    requires
        s.wf(),
        s.is_legal(mov),
    ensures
        mov < 9,
        s.status == OPEN,
        !has_line(s.x),
        !has_line(s.o),
        s.after_move(mov).wf(),
        s.after_move(mov).before_move() == s,
        s.after_move(mov).bkps.len() > 0,
        s.after_move(mov).stones() == s.stones() + 1,
        s.stones() < 9,
{
    let t = s.after_move(mov);
    lemma_small_move(s.x, s.o, mov as u16);
    assert(s.status == OPEN);
    lemma_small_move(s.x, s.o, mov as u16);
    lemma_stones_grow(s, t, mov, 9);
    assert(t.bkps.drop_last() =~= s.bkps);
}

impl Default for SmallBoard {
    /// An empty board, X to move.
    fn default() -> (r: Self)
        ensures
            r@ == SmallState::empty(),
            r@.wf(),
    {
        proof {
            lemma_small_open(0, 0);
        }
        Self { bbs: [0; 2], status: 3, turn: false, bkps: Vec::with_capacity(10) }
    }
}

impl SmallBoard {
    /// The legal moves of the side to move, one bit for each cell.
    pub fn generate_legal_moves(&self) -> (r: u16)
        ensures
            r == self@.legal_moves(),
    {
        if self.status != 3 {
            return 0;
        }
        !(self.bbs[0] | self.bbs[1]) & SF
    }

    /// Plays cell `mov` for the side to move. The caller answers for the
    /// move being legal.
    pub fn make_move(&mut self, mov: u8)
        requires
            old(self)@.wf(),
            old(self)@.is_legal(mov),
        ensures
            final(self)@ == old(self)@.after_move(mov),
            final(self)@.wf(),
    {
        let ghost s = self@;
        proof {
            lemma_small_after_move(s, mov);
            lemma_new_line(if s.turn { s.o } else { s.x }, mov);
        }
        let my_turn: usize = if self.turn { 1 } else { 0 };

        self.bkps.push(self.bbs[my_turn]);
        self.bbs[my_turn].set_bit(mov);

        if completes_line(self.bbs[my_turn], mov) {
            self.status = if self.turn { 1 } else { 0 };
        }
        if self.status > 2 && (self.bbs[0] | self.bbs[1]) == SF {
            self.status = 2;
        }

        self.turn = !self.turn;
    }

    /// Takes the last move back.
    pub fn undo_move(&mut self)
        requires
            old(self)@.bkps.len() > 0,
        ensures
            final(self)@ == old(self)@.before_move(),
    {
        self.turn = !self.turn;
        let my_turn: usize = if self.turn { 1 } else { 0 };

        self.bbs[my_turn] = self.bkps.pop().unwrap();
        self.status = 3;
        proof {
            assert(self@.bkps =~= old(self)@.bkps.drop_last());
        }
    }

    /// The cell at row `row` and column `col`.
    pub fn transform_move(row: i32, col: i32) -> (r: u8)
        requires
            0 <= row < 3,
            0 <= col < 3,
        ensures
            r == row * 3 + col,
    {
        (row * 3 + col) as u8
    }

    /// The row and the column of cell `mov`.
    pub fn transform_move_back(mov: u8) -> (r: (i32, i32))
        ensures
            r.0 == mov / 3,
            r.1 == mov % 3,
    {
        ((mov / 3) as i32, (mov % 3) as i32)
    }

    /// The board as three lines of text: `x`, `o` or `.` for each cell, a
    /// blank behind each.
    pub fn text(&self) -> (r: String)
        ensures
            r@ == small_text(self@, 0),
    {
        let mut out = String::new();
        let mut i: u8 = 0;
        while i < 9
            invariant
                i <= 9,
                out@ + small_text(self@, i as nat) == small_text(self@, 0),
            decreases 9 - i,
        {
            let ghost before = out@;
            if self.bbs[0].get_bit(i) != 0 {
                push_char(&mut out, 'x');
            } else if self.bbs[1].get_bit(i) != 0 {
                push_char(&mut out, 'o');
            } else {
                push_char(&mut out, '.');
            }
            push_char(&mut out, ' ');
            if i % 3 == 2 {
                push_char(&mut out, '\n');
            }
            proof {
                assert(out@ + small_text(self@, (i + 1) as nat) =~= before + small_text(
                    self@,
                    i as nat,
                ));
            }
            i += 1;
        }
        proof {
            assert(out@ + Seq::<char>::empty() =~= out@);
        }
        out
    }
}

/// The text of the cells from `from` on: `x`, `o` or `.` and a blank for
/// each cell, and a line break behind each row.
pub open spec fn small_text(s: SmallState, from: nat) -> Seq<char>
    decreases 9 - from,
{
    if from >= 9 {
        Seq::empty()
    } else {
        let mark = if s.x & (1u16 << (from as u8)) != 0 {
            'x'
        } else if s.o & (1u16 << (from as u8)) != 0 {
            'o'
        } else {
            '.'
        };
        let cell = if from % 3 == 2 {
            seq![mark, ' ', '\n']
        } else {
            seq![mark, ' ']
        };
        cell + small_text(s, from + 1)
    }
}

/// What the stones of `v` on the cells below `n` count.
pub open spec fn trap_sum(v: u16, n: nat) -> int
    decreases n,
{
    if n == 0 {
        0
    } else {
        trap_sum(v, (n - 1) as nat) + if v & (1u16 << ((n - 1) as u8)) != 0 {
            TRAP[n - 1] as int
        } else {
            0
        }
    }
}

/// The evaluation of `s` from the side of the player to move: what the
/// mover's stones count, less what the other side's stones count.
pub open spec fn small_eval(s: SmallState) -> int {
    if s.turn {
        trap_sum(s.o, 9) - trap_sum(s.x, 9)
    } else {
        trap_sum(s.x, 9) - trap_sum(s.o, 9)
    }
}

/// The value of `s` at distance `ply` from the root, from the side of the
/// player to move: the evaluation of a drawn game, a loss that is the
/// smaller the later it comes for a lost game, and else the best that any
/// legal move leads to.
pub open spec fn small_value(s: SmallState, ply: int) -> int
    decreases 9 - s.stones(), 10nat,
{
    if s.status == DRAWN {
        small_eval(s)
    } else if s.status != OPEN {
        -LARGE + ply
    } else {
        small_best(s, ply, 9)
    }
}

/// The best that a legal move to a cell below `n` leads to, from the side
/// of the player to move: the value of the position after it, negated.
/// Without such a move it is the lower end of the widest window.
pub open spec fn small_best(s: SmallState, ply: int, n: nat) -> int
    decreases 9 - s.stones(), n,
    via small_best_decreases
{
    if n == 0 || n > 9 {
        -INF as int
    } else {
        let rest = small_best(s, ply, (n - 1) as nat);
        let c = (n - 1) as u8;
        if s.wf() && s.is_legal(c) {
            let reply = -small_value(s.after_move(c), ply + 1);
            if reply > rest {
                reply
            } else {
                rest
            }
        } else {
            rest
        }
    }
}

/// After a legal move fewer cells are empty.
#[via_fn]
proof fn small_best_decreases(s: SmallState, ply: int, n: nat) {
    if 0 < n <= 9 && s.wf() && s.is_legal((n - 1) as u8) {
        lemma_small_after_move(s, (n - 1) as u8);
    }
}

/// A value `v` as a search under the window from `alpha` to `beta` gives it:
/// the nearer end of the window where it lies outside.
pub open spec fn clamp(v: int, alpha: int, beta: int) -> int {
    if v <= alpha {
        alpha
    } else if v >= beta {
        beta
    } else {
        v
    }
}

/// No stone counts more than 5.
proof fn lemma_trap_bound(v: u16, n: nat)
    requires
        n <= 9,
    ensures
        0 <= trap_sum(v, n) <= 5 * n,
    decreases n,
{
    if n > 0 {
        lemma_trap_bound(v, (n - 1) as nat);
    }
}

/// Every value lies between a loss and a win.
pub proof fn lemma_small_value_bound(s: SmallState, ply: int)
    requires
        s.wf(),
        0 <= ply <= s.stones(),
    ensures
        -LARGE <= small_value(s, ply) <= LARGE,
    decreases 9 - s.stones(), 10nat,
{
    lemma_trap_bound(s.x, 9);
    lemma_trap_bound(s.o, 9);
    lemma_stones_bound(s, 9);
    if s.status == OPEN {
        lemma_small_best_bound(s, ply, 9);
        lemma_small_open(s.x, s.o);
        lemma_nine_bits(s.x | s.o);
        let c = lemma_some_bit(s.legal_moves());
        lemma_small_best_reaches(s, ply, c, 9);
        lemma_small_after_move(s, c);
        lemma_small_value_bound(s.after_move(c), ply + 1);
    }
}

/// No more stones lie below `n` than there are cells.
proof fn lemma_stones_bound(s: SmallState, n: nat)
    ensures
        stones_below(s, n) <= n,
    decreases n,
{
    if n > 0 {
        lemma_stones_bound(s, (n - 1) as nat);
    }
}

/// A small mask that is not empty has a set bit among its nine.
proof fn lemma_some_bit(v: u16) -> (c: u8)
    requires
        v != 0,
        v & !0x1ffu16 == 0,
    ensures
        c < 9,
        v & (1u16 << c) != 0,
{
    lemma_nine_bits(v);
    if v & (1u16 << 0u8) != 0 {
        0
    } else if v & (1u16 << 1u8) != 0 {
        1
    } else if v & (1u16 << 2u8) != 0 {
        2
    } else if v & (1u16 << 3u8) != 0 {
        3
    } else if v & (1u16 << 4u8) != 0 {
        4
    } else if v & (1u16 << 5u8) != 0 {
        5
    } else if v & (1u16 << 6u8) != 0 {
        6
    } else if v & (1u16 << 7u8) != 0 {
        7
    } else {
        8
    }
}

/// The nine bits of a small mask, and the empty cells of a small board.
proof fn lemma_nine_bits(v: u16)
    by (bit_vector)
    ensures
        v == 0 || v & !0x1ffu16 != 0 || v & (1u16 << 0u8) != 0 || v & (1u16 << 1u8) != 0 || v & (
        1u16 << 2u8) != 0 || v & (1u16 << 3u8) != 0 || v & (1u16 << 4u8) != 0 || v & (1u16 << 5u8)
            != 0 || v & (1u16 << 6u8) != 0 || v & (1u16 << 7u8) != 0 || v & (1u16 << 8u8) != 0,
        (!v & 0x1ff) & !0x1ffu16 == 0,
        v & !0x1ffu16 == 0 && v != 0x1ff ==> !v & 0x1ff != 0,
        0u16 & 0u16 == 0,
        (0u16 | 0u16) & !0x1ffu16 == 0,
        0u16 | 0u16 != 0x1ff,
        0u16 | 0u16 == 0,
        !has_line(0),
{
}


/// The best over some cells is the lower end of the window or lies between a
/// loss and a win.
proof fn lemma_small_best_bound(s: SmallState, ply: int, n: nat)
    requires
        s.wf(),
        0 <= ply <= s.stones(),
        n <= 9,
    ensures
        small_best(s, ply, n) == -INF || -LARGE <= small_best(s, ply, n) <= LARGE,
    decreases 9 - s.stones(), n,
{
    if n > 0 {
        lemma_small_best_bound(s, ply, (n - 1) as nat);
        let c = (n - 1) as u8;
        if s.is_legal(c) {
            lemma_small_after_move(s, c);
            lemma_small_value_bound(s.after_move(c), ply + 1);
        }
    }
}

/// The best over more cells is no less, and no less than what any legal
/// move among them leads to.
proof fn lemma_small_best_reaches(s: SmallState, ply: int, c: u8, n: nat)
    requires
        s.wf(),
        c < n <= 9,
        s.is_legal(c),
    ensures
        small_best(s, ply, n) >= -small_value(s.after_move(c), ply + 1),
    decreases n,
{
    if c + 1 < n {
        lemma_small_best_reaches(s, ply, c, (n - 1) as nat);
    }
}

/// Cells that are not legal add nothing to the best.
proof fn lemma_small_best_skip(s: SmallState, ply: int, a: nat, b: nat)
    requires
        a <= b <= 9,
        forall|j: u8| a <= j < b ==> !s.is_legal(j),
    ensures
        small_best(s, ply, b) == small_best(s, ply, a),
    decreases b,
{
    if a < b {
        lemma_small_best_skip(s, ply, a, (b - 1) as nat);
        assert(!s.is_legal((b - 1) as u8));
    }
}

/// The best over more cells is no less.
proof fn lemma_small_best_monotone(s: SmallState, ply: int, a: nat, b: nat)
    requires
        a <= b <= 9,
    ensures
        small_best(s, ply, a) <= small_best(s, ply, b),
    decreases b,
{
    if a < b {
        lemma_small_best_monotone(s, ply, a, (b - 1) as nat);
    }
}

/// The evaluation of `board` from the side of the player to move.
pub fn eval(board: &SmallBoard) -> (r: i16)
    ensures
        r == small_eval(board@),
{
    let mut cnt: i16 = 0;
    let l0: u16 = if board.turn { board.bbs[1] } else { board.bbs[0] };
    let l1: u16 = if board.turn { board.bbs[0] } else { board.bbs[1] };
    let mut i: u8 = 0;
    while i < 9
        invariant
            i <= 9,
            cnt == trap_sum(l0, i as nat) - trap_sum(l1, i as nat),
        decreases 9 - i,
    {
        proof {
            lemma_trap_bound(l0, i as nat);
            lemma_trap_bound(l1, i as nat);
        }
        if l0.get_bit(i) != 0 {
            cnt += TRAP[i as usize];
        }
        if l1.get_bit(i) != 0 {
            cnt -= TRAP[i as usize];
        }
        i += 1;
    }
    cnt
}

pub struct SmallEngine {
    /// The distance from the root of the search.
    pub ply: usize,
    /// The triangular table of the principal variation.
    pub tpv: [[u8; PLY_LIMIT]; PLY_LIMIT],
    /// Where each row of the table ends.
    pub tpv_len: [usize; PLY_LIMIT],
}

impl Default for SmallEngine {
    /// An engine that has not searched yet.
    fn default() -> (r: Self)
        ensures
            r.wf(),
            r.ply == 0,
    {
        Self { ply: 0, tpv: [[0; PLY_LIMIT]; PLY_LIMIT], tpv_len: [0; PLY_LIMIT] }
    }
}

/// The facts on small masks behind a walk through the set bits.
proof fn lemma_pop_walk16(all: u16, rest: u16, lo: u8, c: u8, j: u8)
    by (bit_vector)
    requires
        lo < 16,
        c < 16,
    ensures
        rest == all & !(((1u16 << lo) - 1) as u16) && rest & (1u16 << c) != 0 && (rest >> c) << c
            == rest ==> lo <= c && all & (1u16 << c) != 0 && (lo <= j < c ==> all & (1u16 << j)
            == 0) && (c < 15 ==> rest & !(1u16 << c) == all & !(((1u16 << ((c + 1) as u8)) - 1)
            as u16)),
        all & !(((1u16 << lo) - 1) as u16) == 0 && lo <= j < 16 ==> all & (1u16 << j) == 0,
        all == all & !(((1u16 << 0u8) - 1) as u16),
        c >= 9 && all & !0x1ffu16 == 0 ==> all & (1u16 << c) == 0,
{
}

impl SmallEngine {
    /// The lengths of the rows of the principal variation stay within the
    /// table.
    pub open spec fn wf(&self) -> bool {
        forall|i: int| 0 <= i < PLY_LIMIT ==> self.tpv_len[i] <= PLY_LIMIT
    }

    /// Whether the distance from the root and the rows of the principal
    /// variation above it are as in `other`.
    pub open spec fn settings_of(&self, other: &SmallEngine) -> bool {
        &&& self.ply == other.ply
        &&& forall|i: int|
            0 <= i < self.ply && i < PLY_LIMIT ==> self.tpv[i] == other.tpv[i] && self.tpv_len[i]
                == other.tpv_len[i]
    }

    /// Copies the line found one ply down into the row of this ply, behind
    /// the move `mov` that leads to it.
    fn keep_line(&mut self, mov: u8)
        requires
            old(self).wf(),
            old(self).ply + 1 < PLY_LIMIT,
        ensures
            final(self).wf(),
            final(self).settings_of(old(self)),
            final(self).tpv[old(self).ply as int][old(self).ply as int] == mov,
    {
        let ply: usize = self.ply;
        self.tpv[ply][ply] = mov;
        let mut next: usize = ply + 1;
        while next < self.tpv_len[ply + 1]
            invariant
                ply == old(self).ply,
                ply + 1 < PLY_LIMIT,
                ply < next,
                self.wf(),
                self.settings_of(old(self)),
                self.tpv[ply as int][ply as int] == mov,
            decreases self.tpv_len[ply + 1] - next,
        {
            let below: u8 = self.tpv[ply + 1][next];
            self.tpv[ply][next] = below;
            next += 1;
        }
        self.tpv_len[ply] = self.tpv_len[ply + 1];
    }

    /// Searches `board` to the end of the game and gives its value and the
    /// best move. Where the game is over the value is that of the position
    /// and the move is 0.
    pub fn search(&mut self, board: &mut SmallBoard) -> (r: (i16, u8))
        requires
            old(board)@.wf(),
        ensures
            final(board)@ == old(board)@,
            final(self).wf(),
            final(self).ply == 0,
            r.0 == small_value(old(board)@, 0),
            old(board)@.status == OPEN ==> old(board)@.is_legal(r.1) && -small_value(
                old(board)@.after_move(r.1),
                1,
            ) == r.0,
            old(board)@.status != OPEN ==> r.1 == 0,
    {
        self.ply = 0;
        self.tpv = [[0; PLY_LIMIT]; PLY_LIMIT];
        self.tpv_len = [0; PLY_LIMIT];
        let alpha: i16 = -INF;
        let beta: i16 = INF;
        proof {
            lemma_small_value_bound(board@, 0);
        }
        let score: i16 = self.negamax(board, alpha, beta);
        (score, self.tpv[0][0])
    }

    /// Searches `board` to the end of the game under the window from
    /// `alpha` to `beta`, and gives the value of the position from the side
    /// of the player to move: as it is where the game is over, else held
    /// inside the window. The board is handed back as it came.
    pub fn negamax(&mut self, board: &mut SmallBoard, alpha: i16, beta: i16) -> (r: i16)
        requires
            old(self).wf(),
            old(board)@.wf(),
            old(self).ply <= old(board)@.stones(),
            -INF <= alpha < beta <= INF,
        ensures
            final(board)@ == old(board)@,
            final(self).wf(),
            final(self).settings_of(old(self)),
            -INF <= r <= INF,
            old(board)@.status != OPEN ==> r == small_value(old(board)@, old(self).ply as int)
                && final(self).tpv == old(self).tpv,
            old(board)@.status == OPEN ==> r == clamp(
                small_value(old(board)@, old(self).ply as int),
                alpha as int,
                beta as int,
            ),
            old(board)@.status == OPEN && alpha < r < beta ==> old(board)@.is_legal(
                final(self).tpv[old(self).ply as int][old(self).ply as int],
            ) && -small_value(
                old(board)@.after_move(
                    final(self).tpv[old(self).ply as int][old(self).ply as int],
                ),
                old(self).ply + 1,
            ) == r,
        decreases 9 - old(board)@.stones(),
    {
        let ghost e0 = *self;
        let ghost p = board@;
        let ghost ply = self.ply as int;
        let mut best: i16 = alpha;
        proof {
            lemma_stones_bound(p, 9);
            lemma_small_value_bound(p, ply);
            lemma_trap_bound(p.x, 9);
            lemma_trap_bound(p.o, 9);
        }
        self.tpv_len[self.ply] = self.ply;

        match board.status {
            3 => {},
            2 => {
                return eval(board);
            },
            _ => {
                return -LARGE + self.ply as i16;
            },
        }

        let mut legals: u16 = board.generate_legal_moves();
        let ghost all = legals;
        let ghost mut lo: u8 = 0;
        proof {
            lemma_pop_walk16(all, all, 0, 0, 0);
            lemma_nine_bits(p.x | p.o);
        }

        while legals != 0
            invariant
                board@ == p,
                p == old(board)@,
                e0 == *old(self),
                ply == e0.ply,
                p.wf(),
                p.status == OPEN,
                self.wf(),
                self.settings_of(&e0),
                self.ply <= p.stones() <= 9,
                all == p.legal_moves(),
                all & !0x1ffu16 == 0,
                lo <= 9,
                legals == all & !(((1u16 << lo) - 1) as u16),
                -INF <= alpha <= best < beta <= INF,
                best == if small_best(p, ply, lo as nat) > alpha {
                    small_best(p, ply, lo as nat)
                } else {
                    alpha as int
                },
                best > alpha ==> p.is_legal(self.tpv[ply][ply]) && -small_value(
                    p.after_move(self.tpv[ply][ply]),
                    ply + 1,
                ) == best,
            decreases 9 - lo,
        {
            let ghost rest = legals;
            let bit: u8 = legals.pop_bit();
            proof {
                lemma_pop_walk16(all, rest, lo, bit, 0);
                assert forall|j: u8| lo <= j < bit implies !p.is_legal(j) by {
                    lemma_pop_walk16(all, rest, lo, bit, j);
                }
                lemma_small_best_skip(p, ply, lo as nat, bit as nat);
                lemma_small_after_move(p, bit);
                lemma_small_value_bound(p.after_move(bit), ply + 1);
                lemma_small_best_monotone(p, ply, (bit + 1) as nat, 9);
                lo = (bit + 1) as u8;
            }

            self.ply += 1;
            board.make_move(bit);

            let score: i16 = -self.negamax(board, -beta, -best);

            board.undo_move();
            self.ply -= 1;

            if score > best {
                best = score;
                self.keep_line(bit);

                if best >= beta {
                    return beta;  // fail high, opponent will not choose the branch led to this move
                }
            }
        }
        proof {
            assert forall|j: u8| lo <= j < 9 implies !p.is_legal(j) by {
                lemma_pop_walk16(all, legals, lo, 0, j);
            }
            lemma_small_best_skip(p, ply, lo as nat, 9);
        }

        best
    }
}

} // verus!
