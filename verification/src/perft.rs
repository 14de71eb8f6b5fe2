//! Counting the move sequences of a given length: a check on move
//! generation and on making and taking back moves.

use vstd::prelude::*;
use crate::bitboard::{
    count_below, lemma_pop_done, lemma_pop_start, lemma_pop_walk, lemma_popcount_counts,
    low_mask, PopBit, LF,
};
use crate::board::Board;
use crate::lookups::cell_bit;
use crate::position::{lemma_move_reversible, Position};

verus! {

/// The number of sequences of `depth` legal moves from `p`.
pub open spec fn perft_nodes(p: Position, depth: nat) -> nat
    decreases depth, 82nat,
{
    if depth == 0 {
        1
    } else {
        perft_upto(p, depth, 81)
    }
}

/// The number of sequences of `depth` legal moves from `p` whose first move
/// is a cell below `n`.
pub open spec fn perft_upto(p: Position, depth: nat, n: nat) -> nat
    decreases depth, n,
{
    if depth == 0 || n == 0 || n > 81 {
        0
    } else {
        perft_upto(p, depth, (n - 1) as nat) + if p.is_legal((n - 1) as u8) {
            perft_nodes(p.after_move((n - 1) as u8), (depth - 1) as nat)
        } else {
            0
        }
    }
}

/// 81 to the power `n`.
pub open spec fn pow81(n: nat) -> nat
    decreases n,
{
    if n == 0 {
        1
    } else {
        81 * pow81((n - 1) as nat)
    }
}

/// There are at most 81 to the power `depth - 1` sequences for each first move.
proof fn lemma_perft_upto_bound(p: Position, depth: nat, n: nat)
    requires
        depth > 0,
        n <= 81,
    ensures
        perft_upto(p, depth, n) <= n * pow81((depth - 1) as nat),
    decreases depth, n,
{
    if n > 0 {
        lemma_perft_upto_bound(p, depth, (n - 1) as nat);
        lemma_perft_bound(p.after_move((n - 1) as u8), (depth - 1) as nat);
        assert((n - 1) * pow81((depth - 1) as nat) + pow81((depth - 1) as nat) == n * pow81(
            (depth - 1) as nat,
        )) by (nonlinear_arith);
    }
}

/// There are at most 81 to the power `depth` sequences of `depth` moves; up
/// to depth 10 their number fits in a `u64`.
pub proof fn lemma_perft_bound(p: Position, depth: nat)
    ensures
        perft_nodes(p, depth) <= pow81(depth),
        depth <= 10 ==> perft_nodes(p, depth) <= u64::MAX,
    decreases depth, 82nat,
{
    if depth > 0 {
        lemma_perft_upto_bound(p, depth, 81);
    }
    lemma_pow81_monotone(depth, 10);
    reveal_with_fuel(pow81, 11);
    assert(pow81(10) == 12157665459056928801);
}

/// The powers of 81 do not fall.
pub proof fn lemma_pow81_monotone(a: nat, b: nat)
    ensures
        a <= b ==> pow81(a) <= pow81(b),
        pow81(b) >= 1,
    decreases b,
{
    if b > 0 {
        lemma_pow81_monotone(a, (b - 1) as nat);
    }
}

/// Counting more first moves counts no fewer sequences.
proof fn lemma_perft_upto_monotone(p: Position, depth: nat, a: nat, b: nat)
    requires
        a <= b <= 81,
    ensures
        perft_upto(p, depth, a) <= perft_upto(p, depth, b),
    decreases b,
{
    if a < b {
        lemma_perft_upto_monotone(p, depth, a, (b - 1) as nat);
    }
}

/// Cells that are not legal add nothing to the count.
proof fn lemma_perft_upto_skip(p: Position, depth: nat, a: nat, b: nat)
    requires
        a <= b <= 81,
        forall|j: u8| a <= j < b ==> !p.is_legal(j),
    ensures
        perft_upto(p, depth, b) == perft_upto(p, depth, a),
    decreases b,
{
    if a < b {
        lemma_perft_upto_skip(p, depth, a, (b - 1) as nat);
        assert(!p.is_legal((b - 1) as u8));
    }
}

/// At depth one the sequences are the legal moves.
proof fn lemma_perft_one(p: Position, n: nat)
    requires
        n <= 81,
    ensures
        perft_upto(p, 1, n) == count_below(p.legal_moves(), n),
    decreases n,
{
    if n > 0 {
        lemma_perft_one(p, (n - 1) as nat);
        let c = (n - 1) as u8;
        assert(perft_nodes(p.after_move(c), 0) == 1);
        assert(cell_bit(c) == 1u128 << c);
    }
}

/// Bits that are clear add nothing to the count.
pub proof fn lemma_count_below_tail(v: u128, a: nat, b: nat)
    requires
        a <= b <= 128,
        forall|j: u8| a <= j < b ==> v & (1u128 << j) == 0,
    ensures
        count_below(v, b) == count_below(v, a),
    decreases b,
{
    if a < b {
        lemma_count_below_tail(v, a, (b - 1) as nat);
        assert(v & (1u128 << ((b - 1) as u8)) == 0);
    }
}

/// A mask of cells has no bit from 81 up.
pub proof fn lemma_high_bits_clear(v: u128, j: u8)
    by (bit_vector)
    requires
        v & !0x1_ffff_ffff_ffff_ffff_ffffu128 == 0,
        81 <= j < 128,
    ensures
        v & (1u128 << j) == 0,
{
}

/// The legal moves are cells: no bit from 81 up is set.
pub proof fn lemma_legal_in_board(p: Position)
    requires
        p.wf(),
    ensures
        p.legal_moves() & !LF == 0,
        forall|j: u8| 81 <= j < 128 ==> !p.is_legal(j),
{
    let s = if p.moves.len() > 0 { crate::lookups::sub_mask(p.directed()) } else { 0 };
    lemma_legal_subset(p.x, p.o, crate::rules::decided_cells(p.x, p.o, 9), s);
    assert forall|j: u8| 81 <= j < 128 implies !p.is_legal(j) by {
        lemma_high_bits_clear(p.legal_moves(), j);
    }
}

/// The free cells and every part of them are cells of the board.
pub(crate) proof fn lemma_legal_subset(x: u128, o: u128, d: u128, s: u128)
    by (bit_vector)
    ensures
        (!x & !o & 0x1_ffff_ffff_ffff_ffff_ffffu128) & !0x1_ffff_ffff_ffff_ffff_ffffu128 == 0,
        ((!x & !o & 0x1_ffff_ffff_ffff_ffff_ffffu128) & s) & !0x1_ffff_ffff_ffff_ffff_ffffu128
            == 0,
        !(x | o | (!0x1_ffff_ffff_ffff_ffff_ffffu128 | d)) & !0x1_ffff_ffff_ffff_ffff_ffffu128
            == 0,
        (!(x | o | (!0x1_ffff_ffff_ffff_ffff_ffffu128 | d)) & s)
            & !0x1_ffff_ffff_ffff_ffff_ffffu128 == 0,
        0u128 & !0x1_ffff_ffff_ffff_ffff_ffffu128 == 0,
{
}

impl Board {
    /// Counts the sequences of `depth` legal moves from this position, by
    /// playing each and taking it back.
    pub fn perft(&mut self, depth: u8) -> (r: u64)
        requires
            old(self)@.wf(),
            depth >= 1,
            perft_nodes(old(self)@, depth as nat) <= u64::MAX,
        ensures
            final(self)@ == old(self)@,
            r == perft_nodes(old(self)@, depth as nat),
        decreases depth,
    {
        let ghost p = self@;
        let mut free: u128 = self.generate_legal_moves();
        proof {
            lemma_legal_in_board(p);
        }
        if depth == 1 {
            proof {
                lemma_popcount_counts(free);
                lemma_perft_one(p, 81);
                assert forall|j: u8| 81 <= j < 128 implies free & (1u128 << j) == 0 by {
                    lemma_high_bits_clear(free, j);
                }
                lemma_count_below_tail(free, 81, 128);
            }
            return free.count_ones() as u64;
        }
        let ghost all = free;
        let ghost lo: u8 = 0;
        proof {
            lemma_pop_start(all);
        }
        let mut cnt: u64 = 0;
        while free != 0
            invariant
                self@ == p,
                p.wf(),
                depth >= 2,
                all == p.legal_moves(),
                all & !LF == 0,
                lo <= 81,
                free == all & !low_mask(lo),
                cnt == perft_upto(p, depth as nat, lo as nat),
                perft_nodes(p, depth as nat) <= u64::MAX,
            decreases 81 - lo,
        {
            let ghost rest = free;
            let bit: u8 = free.pop_bit();
            proof {
                lemma_pop_walk(all, rest, lo, bit, 0);
                if bit >= 81 {
                    lemma_high_bits_clear(all, bit);
                }
                assert forall|j: u8| lo <= j < bit implies !p.is_legal(j) by {
                    lemma_pop_walk(all, rest, lo, bit, j);
                }
                lemma_perft_upto_skip(p, depth as nat, lo as nat, bit as nat);
                lemma_perft_upto_monotone(p, depth as nat, (bit + 1) as nat, 81);
                lemma_move_reversible(p, bit);
            }
            self.make_move(bit);
            let sub: u64 = self.perft(depth - 1);
            self.undo_move();
            cnt += sub;
            proof {
                lo = (bit + 1) as u8;
            }
        }
        proof {
            assert forall|j: u8| lo <= j < 81 implies !p.is_legal(j) by {
                lemma_pop_done(all, lo, j);
            }
            lemma_perft_upto_skip(p, depth as nat, lo as nat, 81);
        }
        cnt
    }
}

} // verus!
