//! The search: negamax with a window, moves ordered by a shallow evaluation,
//! late moves searched less deep first, a triangular table for the principal
//! variation, and a clock that is asked every so often.

use vstd::prelude::*;
use std::time::Instant;

pub mod chara;
pub mod gen;
pub mod weights;

use crate::bitboard::{GetBit, PopBit};
use crate::board::{lemma_after_move, Board};
use crate::eval::{
    eval, eval_of, lazy_force, lazy_new, lazy_o_scores, lazy_x_scores, tables_ok, LazyScores, LARGE,
};
use crate::lookups::{lemma_tables, DIV_LOOKUP, MOD_LOOKUP};
use crate::position::{lemma_move_reversible, Position};
use crate::rules::{DRAWN, OPEN};
use crate::sorting::{exchanged, lemma_exchange_keeps};

verus! {

/// The clock is asked while this bit of the node count is clear.
pub const NODES_BETWEEN_UPDATES: u64 = 2048;

/// The number of rows of the principal variation table.
pub const PLY_LIMIT: usize = 81;

/// The widest window of the search.
pub const INF: i16 = 24576;

/// Scores above this stand for a forced win.
pub const LARGM: i16 = LARGE - 82;

/// The time limit where none is given, in milliseconds: no time passes it.
pub const NO_TIME_LIMIT: u128 = u128::MAX;

/// `Instant` of std: a moment on the clock. Nothing is known of it.
#[verifier::external_type_specification]
#[verifier::external_body]
pub struct ExInstant(Instant);

/// `Instant::now` of std: the present moment. Nothing is known of it.
#[verifier::external_body]
fn clock_now() -> Instant {
    Instant::now()
}

/// `Instant::elapsed` of std, in whole milliseconds: the time that has gone
/// by since `start`. Nothing is known of it.
#[verifier::external_body]
fn clock_elapsed_ms(start: &Instant) -> u128 {
    start.elapsed().as_millis()
}

/// Whether the time that has gone by is more than the limit.
pub fn out_of_time(elapsed_ms: u128, limit_ms: u128) -> (r: bool)
    ensures
        r == (elapsed_ms > limit_ms),
{
    elapsed_ms > limit_ms
}

/// The depth limit of a search: the depth asked for, or the number of plies
/// where none is, made even by dropping the lowest bit, and kept between 1
/// and the number of plies.
pub open spec fn depth_limit_of(depth_limit: Option<usize>) -> int {
    let asked: int = match depth_limit {
        Some(d) => d as int,
        None => PLY_LIMIT as int,
    };
    let even = asked - asked % 2;
    if even < 1 {
        1
    } else if even > PLY_LIMIT {
        PLY_LIMIT as int
    } else {
        even
    }
}

/// Dropping the lowest bit takes off what is left over from halving.
proof fn lemma_drop_low_bit(d: usize)
    by (bit_vector)
    ensures
        d & !1usize == d - d % 2,
{
}

/// The depth limit of a search as a number of plies.
pub fn clamp_depth(depth_limit: Option<usize>) -> (r: i8)
    ensures
        r == depth_limit_of(depth_limit),
        1 <= r <= PLY_LIMIT,
{
    let asked: usize = match depth_limit {
        Some(d) => d,
        None => PLY_LIMIT,
    };
    proof {
        lemma_drop_low_bit(asked);
    }
    let even: usize = asked & !1;
    if even < 1 {
        1
    } else if even > PLY_LIMIT {
        PLY_LIMIT as i8
    } else {
        even as i8
    }
}

pub struct Engine {
    /// When the search started.
    pub ts: Instant,
    /// The time limit in milliseconds.
    pub tl: u128,
    /// Whether the search has been told to stop.
    pub abort: bool,
    /// The nodes searched.
    pub nodes: u64,
    /// The distance from the root of the search.
    pub ply: usize,
    /// The triangular table of the principal variation: row `p` holds, from
    /// column `p` on, the best line found from ply `p`.
    pub tpv: [[u8; PLY_LIMIT]; PLY_LIMIT],
    /// Where each row of the table ends.
    pub tpv_len: [usize; PLY_LIMIT],
    /// The depth of the iteration that is under way.
    pub td: i8,
    /// Whether a forced win has been found.
    pub mate: bool,
    /// The depth of the last iteration that was completed, 0 where none was.
    pub reached: i8,
    /// The depth limit of the search that is under way.
    pub dl: i8,
    /// The best move that the last completed iteration found.
    pub best: u8,
    /// The score that the last completed iteration found, from the side of X.
    pub score: i16,
    /// The score tables of the evaluation, made when they are first used.
    pub scores: LazyScores,
    /// Whether a line is kept for each completed iteration.
    pub post: bool,
    /// Whether scores are shown as the engine sees them.
    pub evm: bool,
}

impl Engine {
    /// The lengths of the rows of the principal variation stay within the
    /// table, and the score tables are complete.
    pub open spec fn wf(&self) -> bool {
        &&& forall|i: int| 0 <= i < PLY_LIMIT ==> self.tpv_len[i] <= PLY_LIMIT
        &&& tables_ok(lazy_x_scores(self.scores), lazy_o_scores(self.scores))
    }

    /// Whether all but the node count, the stop signal and the rows of the
    /// principal variation from `ply` on is as in `other`.
    pub open spec fn settings_of(&self, other: &Engine) -> bool {
        &&& self.ts == other.ts
        &&& self.tl == other.tl
        &&& self.ply == other.ply
        &&& self.td == other.td
        &&& self.mate == other.mate
        &&& self.reached == other.reached
        &&& self.dl == other.dl
        &&& self.best == other.best
        &&& self.score == other.score
        &&& self.scores == other.scores
        &&& self.post == other.post
        &&& self.evm == other.evm
        &&& forall|i: int|
            0 <= i < self.ply && i < PLY_LIMIT ==> self.tpv[i] == other.tpv[i] && self.tpv_len[i]
                == other.tpv_len[i]
    }

    /// The time that has gone by since the search began, in milliseconds.
    pub fn elapsed_ms(&self) -> u128 {
        clock_elapsed_ms(&self.ts)
    }

    /// Asks the clock, and tells the search to stop once the time limit has
    /// gone by. A search that was told to stop stays so, and a search under
    /// a time limit that no time can pass is not told to stop.
    pub fn update(&mut self)
        ensures
            old(self).abort ==> final(self).abort,
            *final(self) == (Engine { abort: final(self).abort, ..*old(self) }),
            exists|elapsed_ms: u128| final(self).abort == #[trigger] old(self).stops_at(elapsed_ms),
            final(self).abort ==> old(self).abort || old(self).tl < u128::MAX,
    {
        let elapsed_ms: u128 = clock_elapsed_ms(&self.ts);
        self.heed_time(elapsed_ms);
        proof {
            assert(self.abort == old(self).stops_at(elapsed_ms));
        }
    }

    /// Whether a position that is searched `depth` plies deep from where the
    /// search stands is searched no further.
    pub open spec fn leaf_at(&self, depth: i8) -> bool {
        at_leaf(self.ply as int, depth as int)
    }

    /// Whether the moves of `p` are searched where `p` is to be searched
    /// `depth` plies deep: the game goes on, and the search goes further.
    pub open spec fn searches_on(&self, p: Position, depth: i8) -> bool {
        p.status == OPEN && !self.leaf_at(depth)
    }

    /// Whether the search is told to stop once `elapsed_ms` milliseconds
    /// have gone by: it was told so before, or that is more than the time
    /// limit.
    pub open spec fn stops_at(&self, elapsed_ms: u128) -> bool {
        self.abort || elapsed_ms > self.tl
    }

    /// Tells the search to stop where `elapsed_ms` milliseconds are more
    /// than the time limit.
    pub fn heed_time(&mut self, elapsed_ms: u128)
        ensures
            final(self).abort == old(self).stops_at(elapsed_ms),
            *final(self) == (Engine { abort: final(self).abort, ..*old(self) }),
    {
        if out_of_time(elapsed_ms, self.tl) {
            self.abort = true;
        }
    }
}

/// The evaluation of `p` from the side of the player to move.
pub open spec fn leaf_score(p: Position) -> int {
    if p.turn {
        -eval_of(p)
    } else {
        eval_of(p)
    }
}

/// Whether a position at distance `ply` from the root, to be searched
/// `depth` plies deep, is searched no further: the depth is used up, or the
/// next ply would lie past the table of the principal variation.
pub open spec fn at_leaf(ply: int, depth: int) -> bool {
    depth <= 0 || ply + 1 >= PLY_LIMIT
}

/// The value of `p` at distance `ply` from the root when every line of play
/// is followed `depth` plies deep, from the side of the player to move:
/// nothing for a drawn game, a loss that is the smaller the later it comes
/// for a lost game, the evaluation where the search goes no further, and
/// else the best that any legal move leads to.
pub open spec fn depth_value(p: Position, ply: int, depth: nat) -> int
    decreases depth, 82nat,
{
    if p.status == DRAWN {
        0
    } else if p.status != OPEN {
        -LARGE + ply
    } else if at_leaf(ply, depth as int) {
        leaf_score(p)
    } else {
        best_reply(p, ply, depth, 81)
    }
}

/// The best that a legal move to a cell below `n` leads to when the play
/// after it is followed `depth - 1` plies deep: the value of the position
/// after it, negated. Without such a move it is below every score.
pub open spec fn best_reply(p: Position, ply: int, depth: nat, n: nat) -> int
    decreases depth, n,
{
    if depth == 0 || n == 0 || n > 81 {
        i16::MIN as int
    } else {
        let rest = best_reply(p, ply, depth, (n - 1) as nat);
        let c = (n - 1) as u8;
        if p.is_legal(c) {
            let reply = -depth_value(p.after_move(c), ply + 1, (depth - 1) as nat);
            if reply > rest {
                reply
            } else {
                rest
            }
        } else {
            rest
        }
    }
}

/// A value `v` as a search under the window from `alpha` to `beta` gives it:
/// the nearer end of the window where it lies outside.
pub open spec fn clamp(v: int, alpha: int, beta: int) -> int {
    if v <= alpha {
        alpha
    } else if v >= beta {
        beta
    } else {
        v
    }
}

/// The best over more cells is no less, and no less than what any legal
/// move among them leads to.
pub proof fn lemma_best_reply_reaches(p: Position, ply: int, depth: nat, c: u8, n: nat)
    requires
        depth > 0,
        c < n <= 81,
        p.is_legal(c),
    ensures
        best_reply(p, ply, depth, n) >= -depth_value(p.after_move(c), ply + 1, (depth - 1) as nat),
    decreases n,
{
    if c + 1 < n {
        lemma_best_reply_reaches(p, ply, depth, c, (n - 1) as nat);
    }
}

/// Cells that are not legal add nothing to the best.
proof fn lemma_best_reply_skip(p: Position, ply: int, depth: nat, a: nat, b: nat)
    requires
        a <= b <= 81,
        forall|j: u8| a <= j < b ==> !p.is_legal(j),
    ensures
        best_reply(p, ply, depth, b) == best_reply(p, ply, depth, a),
    decreases b,
{
    if a < b {
        lemma_best_reply_skip(p, ply, depth, a, (b - 1) as nat);
        assert(!p.is_legal((b - 1) as u8));
    }
}

/// The best is the greatest of what the legal moves lead to: a bound that
/// one of them reaches is the best.
pub proof fn lemma_best_reply_is_max(p: Position, ply: int, depth: nat, n: nat, top: int)
    requires
        depth > 0,
        n <= 81,
        forall|c: u8|
            c < n && p.is_legal(c) ==> -depth_value(
                p.after_move(c),
                ply + 1,
                (depth - 1) as nat,
            ) <= top,
    ensures
        best_reply(p, ply, depth, n) <= top || best_reply(p, ply, depth, n) == i16::MIN,
    decreases n,
{
    if n > 0 {
        lemma_best_reply_is_max(p, ply, depth, (n - 1) as nat, top);
    }
}

/// Every value lies between a loss and a win.
pub proof fn lemma_depth_value_bound(p: Position, ply: int, depth: nat)
    requires
        p.wf(),
        0 <= ply,
        ply < PLY_LIMIT,
    ensures
        -LARGE <= depth_value(p, ply, depth) <= LARGE,
    decreases depth, 82nat,
{
    crate::eval::lemma_combine_bound(p, false);
    crate::eval::lemma_combine_bound(p, true);
    if p.status == OPEN && !at_leaf(ply, depth as int) {
        lemma_best_reply_bound(p, ply, depth, 81);
        let c = lemma_some_legal(p);
        lemma_best_reply_reaches(p, ply, depth, c, 81);
        lemma_after_move(p, c);
        lemma_depth_value_bound(p.after_move(c), ply + 1, (depth - 1) as nat);
    }
}

/// The best over some cells is below every score or lies
/// between a loss and a win.
proof fn lemma_best_reply_bound(p: Position, ply: int, depth: nat, n: nat)
    requires
        p.wf(),
        0 <= ply,
        depth > 0,
        ply + 1 < PLY_LIMIT,
        n <= 81,
    ensures
        best_reply(p, ply, depth, n) == i16::MIN || -LARGE <= best_reply(p, ply, depth, n) <= LARGE,
    decreases depth, n,
{
    if n > 0 {
        lemma_best_reply_bound(p, ply, depth, (n - 1) as nat);
        let c = (n - 1) as u8;
        if p.is_legal(c) {
            lemma_after_move(p, c);
            lemma_depth_value_bound(p.after_move(c), ply + 1, (depth - 1) as nat);
        }
    }
}

/// A value is no worse than a loss at once and no better than a win on the
/// next move.
pub proof fn lemma_depth_value_ends(p: Position, ply: int, depth: nat)
    requires
        p.wf(),
        0 <= ply,
        ply < PLY_LIMIT,
    ensures
        -LARGE + ply <= depth_value(p, ply, depth) <= LARGE - ply - 1,
        p.status == OPEN && depth > 0 ==> -LARGE + ply + 2 <= depth_value(p, ply, depth),
    decreases depth, 82nat,
{
    crate::eval::lemma_combine_bound(p, false);
    crate::eval::lemma_combine_bound(p, true);
    if p.status == OPEN && !at_leaf(ply, depth as int) {
        lemma_best_reply_ends(p, ply, depth, 81);
        let c = lemma_some_legal(p);
        lemma_best_reply_reaches(p, ply, depth, c, 81);
        lemma_after_move(p, c);
        lemma_depth_value_ends(p.after_move(c), ply + 1, (depth - 1) as nat);
    }
}

/// The best over some cells is no better than a win on the next move.
proof fn lemma_best_reply_ends(p: Position, ply: int, depth: nat, n: nat)
    requires
        p.wf(),
        0 <= ply,
        depth > 0,
        ply + 1 < PLY_LIMIT,
        n <= 81,
    ensures
        best_reply(p, ply, depth, n) <= LARGE - ply - 1,
    decreases depth, n,
{
    if n > 0 {
        lemma_best_reply_ends(p, ply, depth, (n - 1) as nat);
        let c = (n - 1) as u8;
        if p.is_legal(c) {
            lemma_after_move(p, c);
            lemma_depth_value_ends(p.after_move(c), ply + 1, (depth - 1) as nat);
        }
    }
}

/// A move that wins the game gives the position the value of a win on the
/// next move: no value is higher.
pub proof fn lemma_winning_move(p: Position, ply: int, depth: nat, c: u8)
    requires
        p.wf(),
        0 <= ply,
        depth > 0,
        ply + 1 < PLY_LIMIT,
        p.is_legal(c),
        p.after_move(c).status != OPEN,
        p.after_move(c).status != DRAWN,
    ensures
        depth_value(p, ply, depth) == LARGE - ply - 1,
{
    lemma_after_move(p, c);
    lemma_depth_value_ends(p, ply, depth);
    lemma_best_reply_reaches(p, ply, depth, c, 81);
}

/// Where a move wins the game, a search that completed an iteration has
/// found a move that wins the game, and reports the score of a win on the
/// next move.
pub proof fn lemma_search_takes_the_win(e: Engine, p: Position, c: u8)
    requires
        p.wf(),
        p.is_legal(c),
        is_won(p.after_move(c)),
        e.found(p),
        e.reached > 0,
    ensures
        p.is_legal(e.best),
        is_won(p.after_move(e.best)),
        e.score == from_x(p, LARGE - 1),
        e.score > LARGM || e.score < -LARGM,
{
    lemma_after_move(p, c);
    assert(p.after_move(c).wf());
}

/// A legal move of a position where the game goes on.
proof fn lemma_some_legal(p: Position) -> (c: u8)
    requires
        p.wf(),
        p.status == OPEN,
    ensures
        c < 81,
        p.is_legal(c),
{
    crate::board::lemma_open_has_moves(p);
    crate::perft::lemma_legal_in_board(p);
    let all = p.legal_moves();
    if forall|j: u8| j < 81 ==> all & (1u128 << j) == 0 {
        assert forall|j: u8| j < 128 implies all & (1u128 << j) == 0 by {
            if j >= 81 {
                crate::perft::lemma_high_bits_clear(all, j);
            }
        }
        crate::bitboard::lemma_no_bits(all);
    }
    choose|j: u8| j < 81 && all & (1u128 << j) != 0
}

/// Whether the game is won in `p`.
pub open spec fn is_won(p: Position) -> bool {
    p.status != OPEN && p.status != DRAWN
}

/// Whether the side to move in `p` has a move that wins the game.
pub open spec fn has_win(p: Position) -> bool {
    exists|c: u8| c < 81 && p.is_legal(c) && is_won(#[trigger] p.after_move(c))
}

/// The score of a win on the next move at distance `ply` from the root.
pub open spec fn win_score(ply: int) -> int {
    LARGE - ply - 1
}

/// What holds of every score that a search gives at distance `ply` from
/// the root under the window from `alpha` to `beta`: it is not below a loss
/// at once unless the window holds it there, and not above a win on the
/// next move unless the window holds it there.
pub open spec fn in_band(r: int, alpha: int, beta: int, ply: int) -> bool {
    &&& r >= -LARGE + ply || r >= beta
    &&& r <= win_score(ply) || r <= alpha
}

/// Sorts the moves by their scores, the highest first, and leaves moves of
/// one score in the order they had.
fn sort_by_score(moves: &mut Vec<(u8, i16)>)
    ensures
        final(moves)@.to_multiset() == old(moves)@.to_multiset(),
        final(moves)@.len() == old(moves)@.len(),
        forall|i: int, j: int|
            0 <= i <= j < final(moves)@.len() ==> final(moves)@[i].1 >= final(moves)@[j].1,
        forall|i: int, j: int|
            0 <= i < j < final(moves)@.len() && final(moves)@[i].1 == final(moves)@[j].1
                ==> exists|a: int, b: int|
                0 <= a < b < old(moves)@.len() && old(moves)@[a] == final(moves)@[i] && old(
                    moves,
                )@[b] == final(moves)@[j],
{
    let n: usize = moves.len();
    // where each entry stood at first
    let ghost mut from: Seq<int> = Seq::new(n as nat, |i: int| i);
    let mut i: usize = 1;
    while i < n
        invariant
            1 <= i,
            n == moves@.len() == old(moves)@.len() == from.len(),
            moves@.to_multiset() == old(moves)@.to_multiset(),
            forall|a: int| 0 <= a < n ==> 0 <= #[trigger] from[a] < n && moves@[a] == old(moves)@[from[a]],
            forall|a: int, b: int|
                0 <= a < b < n && moves@[a].1 == moves@[b].1 ==> from[a] < from[b],
            forall|a: int, b: int| 0 <= a <= b < i && b < n ==> moves@[a].1 >= moves@[b].1,
        decreases n - i,
    {
        let mut j: usize = i;
        while j > 0 && moves[j - 1].1 < moves[j].1
            invariant
                j <= i < n,
                n == moves@.len() == old(moves)@.len() == from.len(),
                moves@.to_multiset() == old(moves)@.to_multiset(),
                forall|a: int|
                    0 <= a < n ==> 0 <= #[trigger] from[a] < n && moves@[a] == old(moves)@[from[a]],
                forall|a: int, b: int|
                    0 <= a < b < n && moves@[a].1 == moves@[b].1 ==> from[a] < from[b],
                forall|a: int, b: int|
                    0 <= a <= b <= i && a != j && b != j ==> moves@[a].1 >= moves@[b].1,
                forall|b: int| j < b <= i ==> moves@[j as int].1 >= moves@[b].1,
            decreases j,
        {
            let ghost before = moves@;
            let ghost stood = from;
            let low: (u8, i16) = moves[j - 1];
            let high: (u8, i16) = moves[j];
            moves[j - 1] = high;
            moves[j] = low;
            proof {
                assert(moves@ =~= exchanged(before, j - 1, j as int));
                lemma_exchange_keeps(before, j - 1, j as int);
                from = exchanged(stood, j - 1, j as int);
            }
            j -= 1;
        }
        i += 1;
    }
    proof {
        assert forall|i: int, j: int|
            0 <= i < j < moves@.len() && moves@[i].1 == moves@[j].1 implies exists|a: int, b: int|
            0 <= a < b < old(moves)@.len() && old(moves)@[a] == moves@[i] && old(moves)@[b]
                == moves@[j] by {
            let a = from[i];
            let b = from[j];
            assert(0 <= a < b < old(moves)@.len() && old(moves)@[a] == moves@[i] && old(moves)@[b]
                == moves@[j]);
        }
    }
}

impl Engine {
    /// Copies the line found one ply down into the row of this ply, behind
    /// the move `mov` that leads to it.
    fn keep_line(&mut self, mov: u8)
        requires
            old(self).wf(),
            old(self).ply + 1 < PLY_LIMIT,
        ensures
            final(self).wf(),
            final(self).settings_of(old(self)),
            final(self).abort == old(self).abort,
            final(self).nodes == old(self).nodes,
            final(self).tpv[old(self).ply as int][old(self).ply as int] == mov,
    {
        let ply: usize = self.ply;
        self.tpv[ply][ply] = mov;
        let mut next: usize = ply + 1;
        while next < self.tpv_len[ply + 1]
            invariant
                ply == old(self).ply,
                ply + 1 < PLY_LIMIT,
                ply < next,
                self.wf(),
                self.settings_of(old(self)),
                self.abort == old(self).abort,
                self.nodes == old(self).nodes,
                self.tpv[ply as int][ply as int] == mov,
            decreases self.tpv_len[ply + 1] - next,
        {
            let below: u8 = self.tpv[ply + 1][next];
            self.tpv[ply][next] = below;
            next += 1;
        }
        self.tpv_len[ply] = self.tpv_len[ply + 1];
    }

    /// Plays `mov`, searches the position it leads to, and takes the move
    /// back. With `late` 0 the move is searched to `depth - 1` plies: first
    /// under a window of one point above `best`, and under the whole window
    /// where that gives a score inside it. With `late` 1 or 2 it is first
    /// searched two plies less deep, with 2 less deep still at depth 4 and
    /// more, and by one ply more at depth 5 and more for a move that is
    /// `far_back` in the order; only a score above `best` has it searched as
    /// with 0.
    fn search_move(
        &mut self,
        board: &mut Board,
        mov: u8,
        best: i16,
        beta: i16,
        depth: i8,
        late: u8,
        far_back: bool,
    ) -> (score: i16)
        requires
            old(self).wf(),
            old(board)@.wf(),
            old(board)@.is_legal(mov),
            depth >= 2,
            late > 0 ==> depth >= 3,
            old(self).ply + 1 < PLY_LIMIT,
            i16::MIN < best < beta,
        ensures
            final(board)@ == old(board)@,
            final(self).wf(),
            final(self).settings_of(old(self)),
            old(self).abort ==> final(self).abort,
            final(self).abort ==> old(self).abort || old(self).tl < u128::MAX,
            final(self).tpv[old(self).ply as int] == old(self).tpv[old(self).ply as int],
            final(self).tpv_len[old(self).ply as int] == old(self).tpv_len[old(self).ply as int],
            i16::MIN < score,
            !final(self).abort && score > best ==> score <= win_score(old(self).ply as int),
            !final(self).abort && late == 0 && best < -LARGE + old(self).ply + 2 ==> score > best
                && (score >= -LARGE + old(self).ply + 2 || score >= beta),
            !final(self).abort && is_won(old(board)@.after_move(mov)) ==> score == win_score(
                old(self).ply as int,
            ),
            !final(self).abort && score > best && score == win_score(old(self).ply as int)
                ==> is_won(old(board)@.after_move(mov)),
            !final(self).abort && depth == 2 ==> tells(
                score as int,
                -depth_value(old(board)@.after_move(mov), old(self).ply + 1, 1),
                best as int,
                beta as int,
            ),
        decreases depth, 0nat,
    {
        let ghost p = board@;
        proof {
            lemma_after_move(p, mov);
            lemma_move_reversible(p, mov);
            lemma_depth_value_bound(p.after_move(mov), self.ply + 1, 1);
        }
        self.ply += 1;
        board.make_move(mov);

        let mut score: i16 = if late == 0 {
            best + 1  // force recheck as if LMR failed
        } else if late == 1 {
            -self.negamax(board, -beta, -best, depth - 2)
        } else {
            let further: i8 = if depth > 3 { 1 } else { 0 };
            let furthest: i8 = if depth > 4 && far_back { 1 } else { 0 };
            -self.negamax(board, -beta, -best, depth - 2 - further - furthest)
        };

        if score > best {
            score = -self.negamax(board, -best - 1, -best, depth - 1);
            if score > best && score < beta {
                score = -self.negamax(board, -beta, -best, depth - 1);
            }
        }

        board.undo_move();
        self.ply -= 1;
        score
    }

    /// Plays `mov`, searches the position it leads to one ply less deep
    /// under the whole window, and takes the move back.
    fn search_reply(&mut self, board: &mut Board, mov: u8, best: i16, beta: i16, depth: i8) -> (score:
        i16)
        requires
            old(self).wf(),
            old(board)@.wf(),
            old(board)@.is_legal(mov),
            depth >= 1,
            old(self).ply + 1 < PLY_LIMIT,
            i16::MIN < best < beta,
        ensures
            final(board)@ == old(board)@,
            final(self).wf(),
            final(self).settings_of(old(self)),
            old(self).abort ==> final(self).abort,
            final(self).abort ==> old(self).abort || old(self).tl < u128::MAX,
            final(self).tpv[old(self).ply as int] == old(self).tpv[old(self).ply as int],
            final(self).tpv_len[old(self).ply as int] == old(self).tpv_len[old(self).ply as int],
            i16::MIN < score,
            !final(self).abort && score > best ==> score <= win_score(old(self).ply as int),
            !final(self).abort && best < -LARGE + old(self).ply + 2 ==> score > best && (score
                >= -LARGE + old(self).ply + 2 || score >= beta),
            !final(self).abort && is_won(old(board)@.after_move(mov)) ==> score == win_score(
                old(self).ply as int,
            ),
            !final(self).abort && score > best && score == win_score(old(self).ply as int)
                ==> is_won(old(board)@.after_move(mov)),
            depth == 1 ==> score == -depth_value(old(board)@.after_move(mov), old(self).ply + 1, 0),
        decreases depth, 0nat,
    {
        let ghost p = board@;
        proof {
            lemma_after_move(p, mov);
            lemma_move_reversible(p, mov);
        }
        self.ply += 1;
        board.make_move(mov);

        let score: i16 = -self.negamax(board, -beta, -best, depth - 1);

        board.undo_move();
        self.ply -= 1;
        score
    }

    /// Gives each legal move of `board` its score for the order of the
    /// search, and sorts the moves, the highest score first and moves of one
    /// score by their cells. Also gives the number of moves that are
    /// searched without a shallower search first.
    pub fn order_moves(&self, board: &mut Board, legals: u128) -> (r: (Vec<(u8, i16)>, usize))
        requires
            self.wf(),
            self.ply < PLY_LIMIT,
            old(board)@.wf(),
            old(board)@.status == OPEN,
            legals == old(board)@.legal_moves(),
        ensures
            final(board)@ == old(board)@,
            r.0@.len() == crate::bitboard::count_below(legals, 81),
            r.0@.len() > 0,
            forall|j: int|
                0 <= j < r.0@.len() ==> old(board)@.is_legal(r.0@[j].0) && r.0@[j].1 == order_score(
                    self.tpv[0][self.ply as int],
                    old(board)@,
                    r.0@[j].0,
                ),
            forall|c: u8|
                c < 81 && old(board)@.is_legal(c) ==> exists|j: int|
                    0 <= j < r.0@.len() && r.0@[j].0 == c,
            forall|i: int, j: int| 0 <= i <= j < r.0@.len() ==> r.0@[i].1 >= r.0@[j].1,
            forall|i: int, j: int|
                0 <= i < j < r.0@.len() && r.0@[i].1 == r.0@[j].1 ==> r.0@[i].0 < r.0@[j].0,
            r.1 == deep_count(self.tpv[0][self.ply as int], old(board)@),
            1 <= r.1 <= 130,
    {
        let ghost p = board@;
        let ghost pv = self.tpv[0][self.ply as int];
        proof {
            crate::board::lemma_open_has_moves(p);
            crate::bitboard::lemma_pop_start(legals);
            crate::perft::lemma_legal_in_board(p);
        }
        let ghost all = legals;
        let ghost mut lo: u8 = 0;
        let mut legals: u128 = legals;
        let total_moves: u32 = legals.count_ones();
        let mut deep_moves: usize = 2;
        let mut zugs: usize = 0;
        let mut presort: Vec<(u8, i16)> = Vec::with_capacity(total_moves as usize);
        while legals != 0
            invariant
                board@ == p,
                p.wf(),
                p.status == OPEN,
                self.wf(),
                self.ply < PLY_LIMIT,
                pv == self.tpv[0][self.ply as int],
                all == p.legal_moves(),
                all & !crate::bitboard::LF == 0,
                lo <= 81,
                legals == all & !crate::bitboard::low_mask(lo),
                lo == 0 ==> legals == all,
                lo > 0 ==> presort@.len() > 0,
                presort@.len() == crate::bitboard::count_below(all, lo as nat),
                presort@.len() <= lo,
                deep_moves == 2 + preferred_below(pv, p, lo as nat),
                zugs == sent_below(pv, p, lo as nat),
                zugs <= preferred_below(pv, p, lo as nat) <= lo,
                forall|i: int|
                    0 <= i < presort@.len() ==> p.is_legal(presort@[i].0) && presort@[i].0 < lo
                        && presort@[i].1 == order_score(pv, p, presort@[i].0) && presort@[i].1
                        > -INF,
                forall|i: int, j: int|
                    0 <= i < j < presort@.len() ==> presort@[i].0 < presort@[j].0,
                forall|c: u8|
                    c < lo && p.is_legal(c) ==> exists|j: int|
                        0 <= j < presort@.len() && presort@[j].0 == c,
            decreases 81 - lo,
        {
            let ghost rest = legals;
            let ghost sofar = presort@;
            let bit: u8 = legals.pop_bit();
            proof {
                crate::bitboard::lemma_pop_walk(all, rest, lo, bit, 0);
                if bit >= 81 {
                    crate::perft::lemma_high_bits_clear(all, bit);
                }
                assert forall|j: u8| lo <= j < bit implies !p.is_legal(j) by {
                    crate::bitboard::lemma_pop_walk(all, rest, lo, bit, j);
                }
                assert forall|j: u8| lo <= j < bit implies all & (1u128 << j) == 0 by {
                    crate::bitboard::lemma_pop_walk(all, rest, lo, bit, j);
                }
                crate::perft::lemma_count_below_tail(all, lo as nat, bit as nat);
                lemma_preferred_skip(pv, p, lo as nat, bit as nat);
                lemma_after_move(p, bit);
                lemma_move_reversible(p, bit);
                lemma_tables();
                crate::eval::lemma_combine_bound(p.after_move(bit), false);
                crate::eval::lemma_combine_bound(p.after_move(bit), true);
            }
            board.make_move(bit);
            let mut bscore: i16 = eval(board, lazy_force(&self.scores));
            board.undo_move();

            if bit == self.tpv[0][self.ply] {
                // principal variation goes first
                bscore += LARGE;
                deep_moves += 1;
            } else if DIV_LOOKUP[bit as usize] == MOD_LOOKUP[bit as usize] {
                // "anchor" move should be looked into as well
                bscore += LARGE / 4;
                deep_moves += 1;
            } else if board.moves.len() != 0 {
                let gbit: u8 = DIV_LOOKUP[board.moves[board.moves.len() - 1] as usize];
                if gbit == MOD_LOOKUP[bit as usize] && board.global[0].get_bit(gbit) == 0
                    && board.global[1].get_bit(gbit) == 0 && board.global[2].get_bit(gbit) == 0 {
                    // move that sends opponent into Zugswang should be looked into as well
                    bscore += LARGE / 2;
                    deep_moves += 1;
                    zugs += 1;
                }
            }
            presort.push((bit, bscore));
            proof {
                assert forall|c: u8| c < bit + 1 && p.is_legal(c) implies exists|j: int|
                    0 <= j < presort@.len() && presort@[j].0 == c by {
                    if c == bit {
                        assert(presort@[presort@.len() - 1].0 == c);
                    } else {
                        let j = choose|j: int| 0 <= j < sofar.len() && sofar[j].0 == c;
                        assert(presort@[j].0 == c);
                    }
                }
                lo = (bit + 1) as u8;
            }
        }
        let ghost unsorted = presort@;
        proof {
            assert forall|c: u8| lo <= c < 81 implies !p.is_legal(c) by {
                crate::bitboard::lemma_pop_done(all, lo, c);
            }
            assert forall|c: u8| lo <= c < 81 implies all & (1u128 << c) == 0 by {
                crate::bitboard::lemma_pop_done(all, lo, c);
            }
            crate::perft::lemma_count_below_tail(all, lo as nat, 81);
            lemma_preferred_skip(pv, p, lo as nat, 81);
        }
        sort_by_score(&mut presort);
        proof {
            unsorted.to_multiset_ensures();
            presort@.to_multiset_ensures();
            assert forall|i: int| 0 <= i < presort@.len() implies p.is_legal(presort@[i].0)
                && presort@[i].1 == order_score(pv, p, presort@[i].0) by {
                let entry = presort@[i];
                assert(presort@.contains(entry));
                assert(presort@.to_multiset().count(entry) > 0);
                assert(unsorted.to_multiset().count(entry) > 0);
                assert(unsorted.contains(entry));
            }
            assert forall|c: u8| c < 81 && p.is_legal(c) implies exists|j: int|
                0 <= j < presort@.len() && presort@[j].0 == c by {
                let j0 = choose|j: int| 0 <= j < unsorted.len() && unsorted[j].0 == c;
                let entry = unsorted[j0];
                assert(unsorted.contains(entry));
                assert(unsorted.to_multiset().count(entry) > 0);
                assert(presort@.to_multiset().count(entry) > 0);
                assert(presort@.contains(entry));
                let j1 = choose|j: int| 0 <= j < presort@.len() && presort@[j] == entry;
                assert(presort@[j1].0 == c);
            }
            assert forall|i: int, j: int|
                0 <= i < j < presort@.len() && presort@[i].1 == presort@[j].1 implies presort@[i].0
                < presort@[j].0 by {
                let (a, b) = choose|a: int, b: int|
                    0 <= a < b < unsorted.len() && unsorted[a] == presort@[i] && unsorted[b]
                        == presort@[j];
                assert(unsorted[a].0 < unsorted[b].0);
            }
        }

        if zugs > 2 {
            deep_moves -= 1;
        }
        (presort, deep_moves)
    }

    /// Searches the moves of `presort` in their order, `depth` plies deep,
    /// and gives the best score held inside the window: the end of the
    /// window where a move reaches it, and 0 where the clock stops the
    /// search. All but the first `deep_moves` moves are searched less deep
    /// first at depth 3 and more.
    fn search_ordered(
        &mut self,
        board: &mut Board,
        presort: &Vec<(u8, i16)>,
        deep_moves: usize,
        alpha: i16,
        beta: i16,
        depth: i8,
    ) -> (r: i16)
        requires
            old(self).wf(),
            old(board)@.wf(),
            old(board)@.status == OPEN,
            depth >= 2,
            old(self).ply + 1 < PLY_LIMIT,
            i16::MIN < alpha < beta,
            presort@.len() > 0,
            1 <= deep_moves <= 130,
            forall|j: int| 0 <= j < presort@.len() ==> old(board)@.is_legal(presort@[j].0),
            forall|c: u8|
                c < 81 && old(board)@.is_legal(c) ==> exists|j: int|
                    0 <= j < presort@.len() && presort@[j].0 == c,
        ensures
            final(board)@ == old(board)@,
            final(self).wf(),
            final(self).settings_of(old(self)),
            old(self).abort ==> final(self).abort,
            final(self).abort ==> old(self).abort || old(self).tl < u128::MAX,
            final(self).abort ==> r == 0,
            !final(self).abort ==> alpha <= r <= beta,
            !final(self).abort && r > alpha ==> old(board)@.is_legal(
                final(self).tpv[old(self).ply as int][old(self).ply as int],
            ),
            !final(self).abort ==> in_band(
                r as int,
                alpha as int,
                beta as int,
                old(self).ply as int,
            ),
            !final(self).abort ==> r >= -LARGE + old(self).ply + 2 || r >= beta || old(
                board,
            )@.status != OPEN || depth == 0,
            !final(self).abort && old(board)@.status == OPEN && depth > 0 && has_win(old(board)@)
                ==> r >= win_score(old(self).ply as int) || r >= beta,
            !final(self).abort && old(board)@.status == OPEN && depth > 0 && alpha < r < beta && r
                == win_score(old(self).ply as int) ==> is_won(
                old(board)@.after_move(final(self).tpv[old(self).ply as int][old(self).ply as int]),
            ),
            !final(self).abort && depth == 2 ==> r == clamp(
                depth_value(old(board)@, old(self).ply as int, 2),
                alpha as int,
                beta as int,
            ),
            !final(self).abort && depth == 2 && alpha < r < beta ==> -depth_value(
                old(board)@.after_move(final(self).tpv[old(self).ply as int][old(self).ply as int]),
                old(self).ply + 1,
                1,
            ) == r,
        decreases depth, 1nat,
    {
        let ghost e0 = *self;
        let ghost p = board@;
        let ghost ply = self.ply as int;
        let mut best: i16 = alpha;
        let mut i: usize = 0;
        while i < presort.len()
            invariant
                board@ == p,
                p == old(board)@,
                e0 == *old(self),
                ply == e0.ply,
                p.wf(),
                p.status == OPEN,
                self.wf(),
                self.settings_of(&e0),
                e0.abort ==> self.abort,
                self.abort ==> e0.abort || e0.tl < u128::MAX,
                self.ply == e0.ply,
                self.ply + 1 < PLY_LIMIT,
                depth >= 2,
                1 <= deep_moves <= 130,
                0 <= i <= presort@.len(),
                presort@.len() > 0,
                forall|j: int| 0 <= j < presort@.len() ==> p.is_legal(presort@[j].0),
                i16::MIN < alpha <= best < beta,
                best <= win_score(ply) || best <= alpha,
                i >= 1 ==> best >= -LARGE + ply + 2,
                forall|j: int|
                    0 <= j < i && is_won(p.after_move(#[trigger] presort@[j].0)) ==> best
                        >= win_score(ply),
                best > alpha && best == win_score(ply) ==> is_won(p.after_move(self.tpv[ply][ply])),
                i >= 1 ==> !self.abort,
                best > alpha ==> p.is_legal(self.tpv[ply][ply]),
                depth == 2 && best > alpha ==> -depth_value(
                    p.after_move(self.tpv[ply][ply]),
                    ply + 1,
                    1,
                ) == best,
                depth == 2 ==> forall|j: int|
                    0 <= j < i ==> -depth_value(p.after_move(#[trigger] presort@[j].0), ply + 1, 1)
                        <= best,
            decreases presort@.len() - i,
        {
            let mov: u8 = presort[i].0;
            let late: u8 = if depth < 3 || i < deep_moves {
                0
            } else if i < (deep_moves + 2) {
                1
            } else {
                2
            };
            let score: i16 = self.search_move(board, mov, best, beta, depth, late, i > 18);

            if self.abort {
                return 0;  // time limit exceed
            }

            if score > best {
                best = score;
                self.keep_line(mov);

                if best >= beta {
                    proof {
                        if depth == 2 {
                            lemma_after_move(p, mov);
                            lemma_best_reply_reaches(p, ply, 2, mov, 81);
                        }
                    }
                    return beta;  // fail high, opponent will not choose the branch led to this move
                }
            }
            i += 1;
        }
        proof {
            if has_win(p) {
                let c = choose|c: u8| c < 81 && p.is_legal(c) && is_won(#[trigger] p.after_move(c));
                let j = choose|j: int| 0 <= j < presort@.len() && presort@[j].0 == c;
                assert(is_won(p.after_move(presort@[j].0)));
            }
            if depth == 2 {
                assert forall|c: u8| c < 81 && p.is_legal(c) implies -depth_value(
                    p.after_move(c),
                    ply + 1,
                    1,
                ) <= best by {
                    let j = choose|j: int| 0 <= j < presort@.len() && presort@[j].0 == c;
                    assert(-depth_value(p.after_move(presort@[j].0), ply + 1, 1) <= best);
                }
                lemma_best_reply_is_max(p, ply, 2, 81, best as int);
                if best > alpha {
                    let top = self.tpv[ply][ply];
                    lemma_after_move(p, top);
                    lemma_best_reply_reaches(p, ply, 2, top, 81);
                }
            }
        }
        best  // fail low, we won't choose the branch led to this move
    }

    /// Searches the moves `legals` from the lowest cell up, one ply deep,
    /// and gives the best score held inside the window: the end of the
    /// window where a move reaches it, and 0 where the clock stops the
    /// search.
    fn search_in_turn(&mut self, board: &mut Board, legals: u128, alpha: i16, beta: i16) -> (r: i16)
        requires
            old(self).wf(),
            old(board)@.wf(),
            old(board)@.status == OPEN,
            legals == old(board)@.legal_moves(),
            old(self).ply + 1 < PLY_LIMIT,
            i16::MIN < alpha < beta,
        ensures
            final(board)@ == old(board)@,
            final(self).wf(),
            final(self).settings_of(old(self)),
            old(self).abort ==> final(self).abort,
            final(self).abort ==> old(self).abort || old(self).tl < u128::MAX,
            final(self).abort ==> r == 0,
            !final(self).abort ==> alpha <= r <= beta,
            !final(self).abort && r > alpha ==> old(board)@.is_legal(
                final(self).tpv[old(self).ply as int][old(self).ply as int],
            ),
            !final(self).abort ==> in_band(
                r as int,
                alpha as int,
                beta as int,
                old(self).ply as int,
            ),
            !final(self).abort ==> r >= -LARGE + old(self).ply + 2 || r >= beta || old(
                board,
            )@.status != OPEN,
            !final(self).abort && old(board)@.status == OPEN && has_win(old(board)@)
                ==> r >= win_score(old(self).ply as int) || r >= beta,
            !final(self).abort && old(board)@.status == OPEN && alpha < r < beta && r
                == win_score(old(self).ply as int) ==> is_won(
                old(board)@.after_move(final(self).tpv[old(self).ply as int][old(self).ply as int]),
            ),
            !final(self).abort ==> r == clamp(
                depth_value(old(board)@, old(self).ply as int, 1),
                alpha as int,
                beta as int,
            ),
            !final(self).abort && alpha < r < beta ==> -depth_value(
                old(board)@.after_move(final(self).tpv[old(self).ply as int][old(self).ply as int]),
                old(self).ply + 1,
                0,
            ) == r,
        decreases 1int, 1nat,
    {
        let ghost e0 = *self;
        let ghost p = board@;
        let ghost ply = self.ply as int;
        let ghost all = legals;
        let ghost mut lo: u8 = 0;
        proof {
            crate::board::lemma_open_has_moves(p);
            crate::bitboard::lemma_pop_start(legals);
            crate::perft::lemma_legal_in_board(p);
        }
        let mut legals: u128 = legals;
        let mut best: i16 = alpha;
        while legals != 0
            invariant
                board@ == p,
                p == old(board)@,
                e0 == *old(self),
                ply == e0.ply,
                p.wf(),
                p.status == OPEN,
                self.wf(),
                self.settings_of(&e0),
                e0.abort ==> self.abort,
                self.abort ==> e0.abort || e0.tl < u128::MAX,
                self.ply == e0.ply,
                self.ply + 1 < PLY_LIMIT,
                all == p.legal_moves(),
                all & !crate::bitboard::LF == 0,
                all != 0,
                lo <= 81,
                legals == all & !crate::bitboard::low_mask(lo),
                lo == 0 ==> legals == all,
                i16::MIN < alpha <= best < beta,
                best <= win_score(ply) || best <= alpha,
                lo > 0 ==> best >= -LARGE + ply + 2,
                forall|c: u8| c < lo && p.is_legal(c) && is_won(p.after_move(c)) ==> best >= win_score(ply),
                best > alpha && best == win_score(ply) ==> is_won(p.after_move(self.tpv[ply][ply])),
                lo > 0 ==> !self.abort,
                best > alpha ==> p.is_legal(self.tpv[ply][ply]),
                best > alpha ==> -depth_value(p.after_move(self.tpv[ply][ply]), ply + 1, 0) == best,
                best == if best_reply(p, ply, 1, lo as nat) > alpha {
                    best_reply(p, ply, 1, lo as nat)
                } else {
                    alpha as int
                },
            decreases 81 - lo,
        {
            let ghost rest = legals;
            let bit: u8 = legals.pop_bit();
            proof {
                crate::bitboard::lemma_pop_walk(all, rest, lo, bit, 0);
                if bit >= 81 {
                    crate::perft::lemma_high_bits_clear(all, bit);
                }
                assert forall|j: u8| lo <= j < bit implies !p.is_legal(j) by {
                    crate::bitboard::lemma_pop_walk(all, rest, lo, bit, j);
                }
                lemma_best_reply_skip(p, ply, 1, lo as nat, bit as nat);
                lemma_best_reply_reaches(p, ply, 1, bit, 81);
                lo = (bit + 1) as u8;
            }

            let score: i16 = self.search_reply(board, bit, best, beta, 1);

            if self.abort {
                return 0;  // time limit exceed
            }

            if score > best {
                best = score;
                self.keep_line(bit);

                if best >= beta {
                    return beta;  // fail high, opponent will not choose the branch led to this move
                }
            }
        }
        proof {
            assert forall|j: u8| lo <= j < 81 implies !p.is_legal(j) by {
                crate::bitboard::lemma_pop_done(all, lo, j);
            }
            lemma_best_reply_skip(p, ply, 1, lo as nat, 81);
            if has_win(p) {
                let c = choose|c: u8| c < 81 && p.is_legal(c) && is_won(#[trigger] p.after_move(c));
                assert(best >= win_score(ply));
            }
        }

        best  // fail low, we won't choose the branch led to this move
    }

    /// Searches `board` to `depth` plies under the window from `alpha` to
    /// `beta`, and gives the score from the side of the player to move. A
    /// decided game, depth 0 and the last ply that the table of the
    /// principal variation has room for give the value of the position. Else the
    /// score is 0 where the clock stopped the search, and lies inside the
    /// window where it did not; up to depth 2 it is then the value of the
    /// position, held inside the window, and at every depth a move that
    /// wins the game is found where there is one. The board is handed back
    /// as it came, whether the clock stopped the search or not.
    pub fn negamax(&mut self, board: &mut Board, alpha: i16, beta: i16, depth: i8) -> (r: i16)
        requires
            old(self).wf(),
            old(board)@.wf(),
            0 <= depth,
            old(self).ply < PLY_LIMIT,
            i16::MIN < alpha < beta,
        ensures
            final(board)@ == old(board)@,
            final(self).wf(),
            final(self).settings_of(old(self)),
            old(self).abort ==> final(self).abort,
            final(self).abort ==> old(self).abort || old(self).tl < u128::MAX,
            i16::MIN < r,
            r >= alpha || r >= -LARGE,
            r <= beta || r <= LARGE,
            old(board)@.status == DRAWN ==> r == 0,
            old(board)@.status != DRAWN && old(board)@.status != OPEN ==> r == -LARGE + old(
                self,
            ).ply,
            old(board)@.status == OPEN && old(self).leaf_at(depth) ==> r == leaf_score(old(board)@),
            old(board)@.status != OPEN || old(self).leaf_at(depth) ==> final(self).tpv == old(
                self,
            ).tpv && r == depth_value(old(board)@, old(self).ply as int, depth as nat),
            old(self).searches_on(old(board)@, depth) && final(self).abort ==> r == 0,
            old(self).searches_on(old(board)@, depth) && !final(self).abort ==> alpha <= r <= beta,
            old(self).searches_on(old(board)@, depth) && !final(self).abort && r > alpha
                ==> old(board)@.is_legal(
                final(self).tpv[old(self).ply as int][old(self).ply as int],
            ),
            !final(self).abort ==> in_band(
                r as int,
                alpha as int,
                beta as int,
                old(self).ply as int,
            ),
            !final(self).abort ==> r >= -LARGE + old(self).ply + 2 || r >= beta || old(
                board,
            )@.status != OPEN,
            !final(self).abort && old(self).searches_on(old(board)@, depth) && has_win(old(board)@)
                ==> r >= win_score(old(self).ply as int) || r >= beta,
            !final(self).abort && old(self).searches_on(old(board)@, depth) && alpha < r < beta
                && r == win_score(old(self).ply as int) ==> is_won(
                old(board)@.after_move(final(self).tpv[old(self).ply as int][old(self).ply as int]),
            ),
            old(self).searches_on(old(board)@, depth) && depth <= 2 && !final(self).abort ==> r
                == clamp(
                depth_value(old(board)@, old(self).ply as int, depth as nat),
                alpha as int,
                beta as int,
            ),
            old(self).searches_on(old(board)@, depth) && depth <= 2 && !final(self).abort && alpha
                < r < beta ==> -depth_value(
                old(board)@.after_move(final(self).tpv[old(self).ply as int][old(self).ply as int]),
                old(self).ply + 1,
                (depth - 1) as nat,
            ) == r,
        decreases depth, 2nat,
    {
        let ghost p = board@;
        if self.nodes & NODES_BETWEEN_UPDATES == 0 {
            self.update();
        }
        self.nodes = self.nodes.wrapping_add(1);
        self.tpv_len[self.ply] = self.ply;

        match board.status {
            3 => {},
            2 => {
                return 0;
            },
            _ => {
                return -LARGE + self.ply as i16;
            },
        }

        let legals: u128 = board.generate_legal_moves();

        if depth == 0 || self.ply + 1 >= PLY_LIMIT {
            if board.turn {
                return -eval(board, lazy_force(&self.scores));
            }
            return eval(board, lazy_force(&self.scores));
        }

        // pre-sort on eval when it makes sense, so if depth > 1
        if depth > 1 {
            let (presort, deep_moves) = self.order_moves(board, legals);
            self.search_ordered(board, &presort, deep_moves, alpha, beta, depth)
        } else {
            self.search_in_turn(board, legals, alpha, beta)
        }
    }
}

/// Whether the move to cell `c` sends the other side to the small board of
/// the last move, and that small board is open.
pub open spec fn sends_to_last(p: Position, c: u8) -> bool {
    p.moves.len() > 0 && p.moves.last() / 9 == c % 9 && p.won_x & (1u16 << (p.moves.last() / 9))
        == 0 && p.won_o & (1u16 << (p.moves.last() / 9)) == 0 && p.drawn & (1u16 << (p.moves.last()
        / 9)) == 0
}

/// What the order of the search adds to the evaluation of the move to cell
/// `c`: most for the move `pv` of the principal variation, then a quarter of
/// that for a move to the cell that has the number of its small board, then
/// half of it for a move that sends the other side to the open small board
/// of the last move.
pub open spec fn order_bonus(pv: u8, p: Position, c: u8) -> int {
    if c == pv {
        LARGE as int
    } else if c / 9 == c % 9 {
        LARGE / 4
    } else if sends_to_last(p, c) {
        LARGE / 2
    } else {
        0
    }
}

/// The score of the move to cell `c` for the order of the search: the
/// evaluation after the move, and what the order adds.
pub open spec fn order_score(pv: u8, p: Position, c: u8) -> int {
    eval_of(p.after_move(c)) + order_bonus(pv, p, c)
}

/// How many legal moves to cells below `n` the order adds something for.
pub open spec fn preferred_below(pv: u8, p: Position, n: nat) -> nat
    decreases n,
{
    if n == 0 {
        0
    } else {
        preferred_below(pv, p, (n - 1) as nat) + if p.is_legal((n - 1) as u8) && order_bonus(
            pv,
            p,
            (n - 1) as u8,
        ) != 0 {
            1nat
        } else {
            0nat
        }
    }
}

/// How many legal moves to cells below `n` the order adds something for
/// only because they send the other side to the small board of the last
/// move.
pub open spec fn sent_below(pv: u8, p: Position, n: nat) -> nat
    decreases n,
{
    if n == 0 {
        0
    } else {
        sent_below(pv, p, (n - 1) as nat) + if p.is_legal((n - 1) as u8) && order_bonus(
            pv,
            p,
            (n - 1) as u8,
        ) == LARGE / 2 {
            1nat
        } else {
            0nat
        }
    }
}

/// The number of moves that are searched without a shallower search first:
/// two more than the order adds something for, and one less where more than
/// two of those only send the other side to the small board of the last
/// move.
pub open spec fn deep_count(pv: u8, p: Position) -> nat {
    if sent_below(pv, p, 81) > 2 {
        (1 + preferred_below(pv, p, 81)) as nat
    } else {
        2 + preferred_below(pv, p, 81)
    }
}

/// Cells that are not legal add nothing to the two counts of the order.
proof fn lemma_preferred_skip(pv: u8, p: Position, a: nat, b: nat)
    requires
        a <= b <= 81,
        forall|j: u8| a <= j < b ==> !p.is_legal(j),
    ensures
        preferred_below(pv, p, b) == preferred_below(pv, p, a),
        sent_below(pv, p, b) == sent_below(pv, p, a),
        sent_below(pv, p, a) <= preferred_below(pv, p, a) <= a,
    decreases b,
{
    if a < b {
        lemma_preferred_skip(pv, p, a, (b - 1) as nat);
        assert(!p.is_legal((b - 1) as u8));
    } else {
        lemma_preferred_bound(pv, p, a);
    }
}

/// The order adds something for no more moves than there are cells, and the
/// moves counted for sending are among them.
proof fn lemma_preferred_bound(pv: u8, p: Position, n: nat)
    ensures
        sent_below(pv, p, n) <= preferred_below(pv, p, n) <= n,
    decreases n,
{
    if n > 0 {
        lemma_preferred_bound(pv, p, (n - 1) as nat);
    }
}

/// What a score that a search gives for a move tells of the value `reply`
/// that the move leads to, where `best` is the best found before it: a
/// score that is not above `best` tells that the value is not; a score
/// above it and below `beta` is the value; and a score of `beta` or more
/// tells that the value is `beta` or more.
pub open spec fn tells(score: int, reply: int, best: int, beta: int) -> bool {
    &&& score <= best ==> reply <= best
    &&& score > best && score >= beta ==> reply >= beta
    &&& score > best && score < beta ==> score == reply
}

/// The score `v` of the player to move in `p`, seen from the side of X.
pub open spec fn from_x(p: Position, v: int) -> int {
    if p.turn {
        -v
    } else {
        v
    }
}

/// The score that a search reports for a position that is decided, from the
/// side of X: nothing for a draw, else a loss for the side to move.
pub open spec fn decided_score(p: Position) -> int {
    if p.status == DRAWN {
        0
    } else if p.turn {
        LARGE as int
    } else {
        -LARGE
    }
}

impl Engine {
    /// What a search has found so far on the position `p`: nothing before
    /// the first iteration is completed; then a legal move while the game
    /// goes on, and the score of the decided game where it is over.
    pub open spec fn found(&self, p: Position) -> bool {
        &&& 0 <= self.reached < PLY_LIMIT
        &&& self.reached % 2 == 0
        &&& self.reached <= 2 || self.reached <= self.dl
        &&& -LARGE <= self.score <= LARGE
        &&& self.reached == 0 ==> self.best == 0 && self.score == 0
        &&& self.reached > 0 && p.status == OPEN ==> p.is_legal(self.best)
        &&& self.reached > 0 && p.status != OPEN ==> self.best == 0 && self.score == decided_score(
            p,
        )
        &&& self.reached == 2 && p.status == OPEN ==> self.score == from_x(p, depth_value(p, 0, 2))
            && -depth_value(p.after_move(self.best), 1, 1) == depth_value(p, 0, 2)
        &&& self.reached > 0 && p.status == OPEN && has_win(p) ==> self.score == from_x(
            p,
            win_score(0),
        ) && is_won(p.after_move(self.best))
    }

    /// Whether the search is at the root and the next iteration can begin:
    /// its depth is two more than the depth reached, and within the depth
    /// limit unless it is the first.
    pub open spec fn ready(&self) -> bool {
        &&& self.wf()
        &&& self.ply == 0
        &&& 1 <= self.dl <= PLY_LIMIT
        &&& 2 <= self.td < PLY_LIMIT
        &&& self.td == self.reached + 2
        &&& self.td == 2 || self.td <= self.dl
    }

    /// Begins a search: the clock is started, the limits are set, and what
    /// an earlier search left is forgotten.
    pub fn start(&mut self, time_limit_ms: Option<u128>, depth_limit: Option<usize>)
        requires
            old(self).wf(),
        ensures
            final(self).ready(),
            final(self).reached == 0,
            final(self).best == 0,
            final(self).score == 0,
            !final(self).abort,
            !final(self).mate,
            final(self).nodes == 0,
            final(self).tl == match time_limit_ms {
                Some(t) => t,
                None => NO_TIME_LIMIT,
            },
            final(self).dl == depth_limit_of(depth_limit),
            forall|r: int, c: int|
                0 <= r < PLY_LIMIT && 0 <= c < PLY_LIMIT ==> final(self).tpv[r][c] == 0,
            final(self).scores == old(self).scores,
            final(self).post == old(self).post,
            final(self).evm == old(self).evm,
    {
        self.ts = clock_now();
        self.tl = match time_limit_ms {
            Some(t) => t,
            None => NO_TIME_LIMIT,
        };
        self.dl = clamp_depth(depth_limit);  // must be an even number
        self.abort = false;
        self.nodes = 0;
        self.ply = 0;
        self.mate = false;
        self.reached = 0;
        self.best = 0;
        self.score = 0;
        self.tpv = [[0; PLY_LIMIT]; PLY_LIMIT];
        self.tpv_len = [0; PLY_LIMIT];
        self.td = 2;
    }

    /// Whether the clock stopped the iteration that began in the state
    /// `before`: the search is told to stop, and what it had found, the
    /// depth that comes next and the note of a forced win are as before.
    pub open spec fn dropped(&self, before: &Engine) -> bool {
        &&& self.abort
        &&& self.reached == before.reached
        &&& self.best == before.best
        &&& self.score == before.score
        &&& self.td == before.td
        &&& self.mate == before.mate
    }

    /// Whether the iteration that began in the state `before` on the
    /// position `p` was completed: its depth is reached and the next is two
    /// more, the move is the first of the principal variation, a forced win
    /// for the side to move is noted, and a second one in a row tells the
    /// search to stop.
    pub open spec fn completed(&self, before: &Engine, p: Position) -> bool {
        let forced = from_x(p, self.score as int) > LARGM;
        &&& self.reached == before.td
        &&& self.td == before.td + 2
        &&& self.best == self.tpv[0][0]
        &&& self.mate == (before.mate || forced)
        &&& self.abort == (before.mate && forced)
    }

    /// Runs the next iteration of the search, two plies deeper than the
    /// last, and tells whether another may follow. An iteration of a search
    /// that was told to stop is dropped; one under a time limit that no
    /// time can pass is completed, and another may follow exactly if the
    /// next depth is within the depth limit. Where the clock stopped
    /// the iteration, what it found is dropped and the search ends. Else the
    /// move and the score are kept; the search ends where the next depth
    /// would pass the depth limit or the time is up, and a second forced
    /// win in a row has the next iteration stopped at once. The board is
    /// handed back as it came.
    pub fn iterate(&mut self, board: &mut Board) -> (more: bool)
        requires
            old(self).ready(),
            old(self).found(old(board)@),
            old(board)@.wf(),
            old(board)@.status != OPEN ==> old(self).tpv[0][0] == 0,
        ensures
            final(board)@ == old(board)@,
            final(self).wf(),
            final(self).found(old(board)@),
            final(self).ply == 0,
            final(self).scores == old(self).scores,
            final(self).post == old(self).post,
            final(self).evm == old(self).evm,
            final(self).tl == old(self).tl,
            final(self).dl == old(self).dl,
            final(self).ts == old(self).ts,
            final(self).reached == old(self).reached || final(self).reached == old(self).td,
            old(board)@.status != OPEN ==> final(self).tpv[0][0] == 0,
            more ==> final(self).ready() && final(self).reached == old(self).td,
            final(self).dropped(old(self)) || final(self).completed(old(self), old(board)@),
            final(self).dropped(old(self)) ==> !more,
            more ==> final(self).td <= final(self).dl,
            old(self).abort ==> final(self).dropped(old(self)),
            !old(self).abort && old(self).tl == u128::MAX ==> final(self).completed(
                old(self),
                old(board)@,
            ) && more == (final(self).td <= final(self).dl),
    {
        proof {
            lemma_depth_value_bound(board@, 0, 2);
        }
        let temp: i16 = self.negamax(board, -INF, INF, self.td);
        if self.abort {
            return false;
        }
        let mut score: i16 = temp;
        if score > LARGM {
            if !self.mate {
                self.mate = true;
            } else {
                self.abort = true;
            }
        }
        if board.turn {
            score = -score;  // maybe should be not there?
        }
        self.score = score;
        self.best = self.tpv[0][0];
        self.reached = self.td;

        self.td += 2;
        if self.td > self.dl || out_of_time(clock_elapsed_ms(&self.ts), self.tl) {
            return false;
        }
        true
    }

    /// Whether the search on the position `p` ended of itself: an iteration
    /// was completed, and either the next depth would pass the depth limit,
    /// or the last two iterations both found a forced win for the side to
    /// move.
    pub open spec fn finished(&self, p: Position) -> bool {
        &&& self.reached >= 2
        &&& self.reached + 2 > self.dl || (self.abort && self.mate && from_x(p, self.score as int)
            > LARGM)
    }

    /// Searches `board` deeper and deeper, two plies at a time from depth 2,
    /// until the depth limit is passed or the clock stops the search, and
    /// gives the best move and its score from the side of X as the last
    /// iteration that was completed found them. `reached` tells the depth
    /// of that iteration; after none, the move and the score are 0. Without
    /// a time limit, or under one that no time can pass, the search ends of
    /// itself, and where a move wins the game it gives a move that does,
    /// with the score of a win on the next move. The board is handed back
    /// as it came.
    pub fn search(
        &mut self,
        board: &mut Board,
        time_limit_ms: Option<u128>,
        depth_limit: Option<usize>,
    ) -> (r: (u8, i16))
        requires
            old(self).wf(),
            old(board)@.wf(),
        ensures
            final(board)@ == old(board)@,
            final(self).wf(),
            final(self).scores == old(self).scores,
            final(self).post == old(self).post,
            final(self).evm == old(self).evm,
            final(self).ply == 0,
            final(self).tl == match time_limit_ms {
                Some(t) => t,
                None => NO_TIME_LIMIT,
            },
            final(self).dl == depth_limit_of(depth_limit),
            final(self).found(old(board)@),
            r.0 == final(self).best,
            r.1 == final(self).score,
            final(self).tl == u128::MAX ==> final(self).finished(old(board)@),
            final(self).tl == u128::MAX && old(board)@.status == OPEN && has_win(old(board)@)
                ==> old(board)@.is_legal(r.0) && is_won(old(board)@.after_move(r.0)) && r.1
                == from_x(old(board)@, LARGE - 1),
    {
        let ghost p = board@;
        self.start(time_limit_ms, depth_limit);
        loop
            invariant_except_break
                self.ready(),
                !self.abort ==> self.reached + 2 <= self.dl || self.reached == 0,
            invariant
                self.tl == u128::MAX && self.abort ==> self.reached >= 2 && self.mate && from_x(
                    p,
                    self.score as int,
                ) > LARGM,
                board@ == p,
                p == old(board)@,
                p.wf(),
                self.wf(),
                self.found(p),
                self.scores == old(self).scores,
                self.post == old(self).post,
                self.evm == old(self).evm,
                self.ply == 0,
                self.tl == match time_limit_ms {
                    Some(t) => t,
                    None => NO_TIME_LIMIT,
                },
                self.dl == depth_limit_of(depth_limit),
                p.status != OPEN ==> self.tpv[0][0] == 0,
            ensures
                self.tl == u128::MAX ==> self.finished(p),
            decreases PLY_LIMIT - self.reached,
        {
            if !self.iterate(board) {
                break;
            }
        }

        (self.best, self.score)
    }
}

impl Default for Engine {
    /// An engine that has not searched yet.
    fn default() -> (r: Self)
        ensures
            r.wf(),
            r.tl == 0,
            !r.abort,
            r.nodes == 0,
            r.ply == 0,
            forall|row: int, col: int|
                0 <= row < PLY_LIMIT && 0 <= col < PLY_LIMIT ==> r.tpv[row][col] == 0,
            forall|row: int| 0 <= row < PLY_LIMIT ==> r.tpv_len[row] == 0,
            r.td == 0,
            !r.mate,
            r.reached == 0,
            r.dl == 1,
            r.best == 0,
            r.score == 0,
            r.post,
            !r.evm,
    {
        Self {
            ts: clock_now(),
            tl: 0,
            abort: false,
            nodes: 0,
            ply: 0,
            tpv: [[0; PLY_LIMIT]; PLY_LIMIT],
            tpv_len: [0; PLY_LIMIT],
            td: 0,
            mate: false,
            reached: 0,
            dl: 1,
            best: 0,
            score: 0,
            scores: lazy_new(),
            post: true,
            evm: false,
        }
    }
}

} // verus!
