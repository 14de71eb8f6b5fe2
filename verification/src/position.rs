//! The mathematical model of a game position, and the rules of play on it.

use vstd::prelude::*;
use crate::bitboard::{count_below, LF};
use crate::lookups::{cell_bit, sub_mask};
use crate::rules::{decided_cells, outcome_mask, status_of, DRAWN, OPEN, WON_O, WON_X};

verus! {

/// A position as the contracts speak of it.
pub struct Position {
    /// The cells that X holds.
    pub x: u128,
    /// The cells that O holds.
    pub o: u128,
    /// The small boards won by X, one bit each.
    pub won_x: u16,
    /// The small boards won by O.
    pub won_o: u16,
    /// The small boards that are full with no winner.
    pub drawn: u16,
    /// Who won, a draw, or that the game goes on.
    pub status: u8,
    /// Whether O is to move.
    pub turn: bool,
    /// For each move made, the mover's cells before it.
    pub history: Seq<u128>,
    /// The moves made, oldest first.
    pub moves: Seq<u8>,
    /// Every bit that is no cell, and the cells of the small boards that are
    /// no longer open.
    pub closed: u128,
}

impl Position {
    /// The position that the occupancies `x` and `o` decide, with the given
    /// side to move and record of moves.
    pub open spec fn settle(
        x: u128,
        o: u128,
        turn: bool,
        history: Seq<u128>,
        moves: Seq<u8>,
    ) -> Position {
        let won_x = outcome_mask(x, o, WON_X, 9);
        let won_o = outcome_mask(x, o, WON_O, 9);
        let drawn = outcome_mask(x, o, DRAWN, 9);
        Position {
            x,
            o,
            won_x,
            won_o,
            drawn,
            status: status_of(won_x, won_o, drawn),
            turn,
            history,
            moves,
            closed: !LF | decided_cells(x, o, 9),
        }
    }

    /// The position before any move.
    pub open spec fn empty() -> Position {
        Position::settle(0, 0, false, Seq::empty(), Seq::empty())
    }

    /// No cell is held twice, nothing but the 81 cells is held, the outcome
    /// masks, the closed cells and the status are what the occupancies
    /// decide, and each recorded move has its entry in the history.
    pub open spec fn wf(self) -> bool {
        &&& self.x & self.o == 0
        &&& (self.x | self.o) & !LF == 0
        &&& self == Position::settle(self.x, self.o, self.turn, self.history, self.moves)
        &&& self.moves.len() == self.history.len()
        &&& forall|i: int| 0 <= i < self.moves.len() ==> self.moves[i] < 81
    }

    /// How many stones lie on the board.
    pub open spec fn stones(self) -> nat {
        count_below(self.x | self.o, 81)
    }

    /// The empty cells of the small boards that are still open.
    pub open spec fn free(self) -> u128 {
        !(self.x | self.o | self.closed)
    }

    /// The small board that the last move sends the next player to.
    pub open spec fn directed(self) -> u8
        recommends
            self.moves.len() > 0,
    {
        self.moves.last() % 9
    }

    /// The legal moves, one bit for each cell: none once the game is over;
    /// every free cell before the first move; else the free cells of the
    /// directed small board, or, where it has none, every free cell.
    pub open spec fn legal_moves(self) -> u128 {
        if self.status != OPEN {
            0
        } else if self.moves.len() == 0 {
            self.free()
        } else if self.free() & sub_mask(self.directed()) != 0 {
            self.free() & sub_mask(self.directed())
        } else {
            self.free()
        }
    }

    /// Whether the side to move may play cell `mov`.
    pub open spec fn is_legal(self, mov: u8) -> bool {
        mov < 128 && self.legal_moves() & cell_bit(mov) != 0
    }

    /// The position after the side to move has played cell `mov`.
    pub open spec fn after_move(self, mov: u8) -> Position {
        if self.turn {
            Position::settle(
                self.x,
                self.o | cell_bit(mov),
                false,
                self.history.push(self.o),
                self.moves.push(mov),
            )
        } else {
            Position::settle(
                self.x | cell_bit(mov),
                self.o,
                true,
                self.history.push(self.x),
                self.moves.push(mov),
            )
        }
    }

    /// The position with the last move taken back: the mover's cells are
    /// those the history holds.
    pub open spec fn before_move(self) -> Position
        recommends
            self.moves.len() > 0,
            self.history.len() > 0,
    {
        if self.turn {
            Position::settle(
                self.history.last(),
                self.o,
                false,
                self.history.drop_last(),
                self.moves.drop_last(),
            )
        } else {
            Position::settle(
                self.x,
                self.history.last(),
                true,
                self.history.drop_last(),
                self.moves.drop_last(),
            )
        }
    }

    /// What taking the last move back leaves, whatever the record holds:
    /// the mover's cells are those the history holds, the small board of the
    /// move is open and no longer won by the mover, drawn or closed, and the
    /// game goes on.
    pub open spec fn unmade(self) -> Position
        recommends
            self.moves.len() > 0,
            self.history.len() > 0,
    {
        let k = self.moves.last() / 9;
        Position {
            x: if self.turn { self.history.last() } else { self.x },
            o: if self.turn { self.o } else { self.history.last() },
            won_x: if self.turn { self.won_x & !(1u16 << k) } else { self.won_x },
            won_o: if self.turn { self.won_o } else { self.won_o & !(1u16 << k) },
            drawn: self.drawn & !(1u16 << k),
            status: OPEN,
            turn: !self.turn,
            history: self.history.drop_last(),
            moves: self.moves.drop_last(),
            closed: self.closed & !sub_mask(k),
        }
    }

    /// Whether the last move can be taken back: there is one, and this
    /// position came about by playing it where it was legal.
    pub open spec fn can_undo(self) -> bool {
        &&& self.moves.len() > 0
        &&& self.history.len() > 0
        &&& self.before_move().wf()
        &&& self.before_move().is_legal(self.moves.last())
        &&& self.before_move().after_move(self.moves.last()) == self
    }
}

/// Taking back a legal move gives the position it was played in, field by
/// field.
pub proof fn lemma_move_reversible(p: Position, mov: u8)
    requires
        p.wf(),
        p.is_legal(mov),
    ensures
        p.after_move(mov).before_move() == p,
        p.after_move(mov).can_undo(),
{
    let q = p.after_move(mov);
    if p.turn {
        assert(p.history.push(p.o).drop_last() =~= p.history);
    } else {
        assert(p.history.push(p.x).drop_last() =~= p.history);
    }
    assert(p.moves.push(mov).drop_last() =~= p.moves);
    assert(q.before_move() == p);
}

/// Whether the moves of `moves` from the `i`th on can be played one after
/// the other from `q`.
pub open spec fn playable(q: Position, moves: Seq<u8>, i: nat) -> bool
    decreases moves.len() - i,
{
    i >= moves.len() || (q.wf() && q.is_legal(moves[i as int]) && playable(
        q.after_move(moves[i as int]),
        moves,
        i + 1,
    ))
}

/// The position that playing the moves of `moves` from the `i`th on leads
/// to from `q`.
pub open spec fn played_from(q: Position, moves: Seq<u8>, i: nat) -> Position
    decreases moves.len() - i,
{
    if i >= moves.len() {
        q
    } else {
        played_from(q.after_move(moves[i as int]), moves, i + 1)
    }
}

/// Whether `p` came about from the empty board by playing the moves it has
/// on record.
pub open spec fn played(p: Position) -> bool {
    playable(Position::empty(), p.moves, 0) && played_from(Position::empty(), p.moves, 0) == p
}

/// A move played where it is legal leaves a position that came about by
/// play.
pub proof fn lemma_played_on(p: Position, mov: u8)
    requires
        p.wf(),
        played(p),
        p.is_legal(mov),
    ensures
        played(p.after_move(mov)),
{
    let q = p.after_move(mov);
    assert(q.moves == p.moves.push(mov));
    lemma_played_push(Position::empty(), p.moves, 0, mov);
}

/// One more legal move at the end is played last.
proof fn lemma_played_push(q: Position, moves: Seq<u8>, i: nat, mov: u8)
    requires
        i <= moves.len(),
        playable(q, moves, i),
        played_from(q, moves, i).wf(),
        played_from(q, moves, i).is_legal(mov),
    ensures
        playable(q, moves.push(mov), i),
        played_from(q, moves.push(mov), i) == played_from(q, moves, i).after_move(mov),
    decreases moves.len() - i,
{
    let more = moves.push(mov);
    if i < moves.len() {
        assert(more[i as int] == moves[i as int]);
        lemma_played_push(q.after_move(moves[i as int]), moves, i + 1, mov);
    } else {
        assert(more[i as int] == mov);
        assert(playable(q.after_move(mov), more, i + 1));
        assert(played_from(q.after_move(mov), more, i + 1) == q.after_move(mov));
    }
}

/// The side to move after moves played in turn: O after an odd number.
pub proof fn lemma_played_turn(q: Position, moves: Seq<u8>, i: nat)
    requires
        i <= moves.len(),
    ensures
        played_from(q, moves, i).turn == (((moves.len() - i) % 2 == 1) != q.turn),
        played_from(q, moves, i).moves.len() == q.moves.len() + moves.len() - i,
    decreases moves.len() - i,
{
    if i < moves.len() {
        lemma_played_turn(q.after_move(moves[i as int]), moves, i + 1);
    }
}

} // verus!
