//! What the occupancy of the large board decides: the outcome of each small
//! board, the masks that summarise the outcomes, and the status of the game.

use vstd::prelude::*;
use crate::bitboard::LF;
use crate::lookups::{has_line, pattern, sub_mask};

verus! {

/// Outcome of a small board: won by X.
pub const WON_X: u8 = 0;

/// Outcome of a small board: won by O.
pub const WON_O: u8 = 1;

/// Outcome of a small board: full, with no line for either side.
pub const DRAWN: u8 = 2;

/// Outcome of a small board: still open. Also the status of a game that goes on.
pub const OPEN: u8 = 3;

/// The outcome of small board `k` under the occupancies `x` and `o`. A line of
/// X counts before a line of O.
pub open spec fn outcome(x: u128, o: u128, k: u8) -> u8 {
    if has_line(pattern(x, k)) {
        WON_X
    } else if has_line(pattern(o, k)) {
        WON_O
    } else if pattern(x, k) | pattern(o, k) == 0x1ff {
        DRAWN
    } else {
        OPEN
    }
}

/// The small boards among the first `n` whose outcome is `which`, one bit each.
pub open spec fn outcome_mask(x: u128, o: u128, which: u8, n: nat) -> u16
    decreases n,
{
    if n == 0 {
        0
    } else {
        let k = (n - 1) as u8;
        let rest = outcome_mask(x, o, which, (n - 1) as nat);
        if outcome(x, o, k) == which {
            rest | (1u16 << k)
        } else {
            rest
        }
    }
}

/// The cells of the small boards among the first `n` that are no longer open.
pub open spec fn decided_cells(x: u128, o: u128, n: nat) -> u128
    decreases n,
{
    if n == 0 {
        0
    } else {
        let k = (n - 1) as u8;
        let rest = decided_cells(x, o, (n - 1) as nat);
        if outcome(x, o, k) != OPEN {
            rest | sub_mask(k)
        } else {
            rest
        }
    }
}

/// The status of the game under the three outcome masks: a line of small
/// boards won by X, else one won by O, else a draw once no small board is
/// open, else the game goes on.
pub open spec fn status_of(won_x: u16, won_o: u16, drawn: u16) -> u8 {
    if has_line(won_x) {
        WON_X
    } else if has_line(won_o) {
        WON_O
    } else if won_x | won_o | drawn == 0x1ff {
        DRAWN
    } else {
        OPEN
    }
}

/// Setting and clearing one bit of a small mask, seen at that bit and at
/// another.
pub(crate) proof fn lemma_u16_bits(a: u16, k: u16, j: u16)
    by (bit_vector)
    requires
        k < 9,
        j < 9,
    ensures
        (a | (1u16 << k)) & (1u16 << k) != 0,
        j != k ==> ((a | (1u16 << k)) & (1u16 << j) != 0 <==> a & (1u16 << j) != 0),
        0u16 & (1u16 << j) == 0,
        a & (1u16 << k) == 0 ==> (a | (1u16 << k)) & !(1u16 << k) == a,
        a & (1u16 << k) == 0 ==> a & !(1u16 << k) == a,
        (a | (1u16 << j)) | (1u16 << k) == (a | (1u16 << k)) | (1u16 << j),
        (a | (1u16 << k)) & !0x1ffu16 == a & !0x1ffu16,
        0u16 & !0x1ffu16 == 0,
{
}

/// Adding and taking away the cells of one small board, seen at that small
/// board and at another.
proof fn lemma_u128_subs(a: u128, k: u128, j: u128)
    by (bit_vector)
    requires
        k < 9,
        j < 9,
    ensures
        (a | (0x1ffu128 << (9 * k))) & (0x1ffu128 << (9 * k)) == 0x1ffu128 << (9 * k),
        j != k ==> (a | (0x1ffu128 << (9 * k))) & (0x1ffu128 << (9 * j)) == a & (0x1ffu128 << (9
            * j)),
        0u128 & (0x1ffu128 << (9 * j)) == 0,
        0x1ffu128 << (9 * k) != 0,
        a & (0x1ffu128 << (9 * k)) == 0 ==> (a | (0x1ffu128 << (9 * k))) & !(0x1ffu128 << (9 * k))
            == a,
        a & (0x1ffu128 << (9 * k)) == 0 ==> a & !(0x1ffu128 << (9 * k)) == a,
        (a | (0x1ffu128 << (9 * j))) | (0x1ffu128 << (9 * k)) == (a | (0x1ffu128 << (9 * k))) | (
        0x1ffu128 << (9 * j)),
        (a | (0x1ffu128 << (9 * k))) & !0x1_ffff_ffff_ffff_ffff_ffffu128 == a
            & !0x1_ffff_ffff_ffff_ffff_ffffu128,
        0u128 & !0x1_ffff_ffff_ffff_ffff_ffffu128 == 0,
{
}

/// Bit `k` of an outcome mask is set exactly if small board `k` is among
/// those counted and has that outcome.
pub proof fn lemma_outcome_mask_bit(x: u128, o: u128, which: u8, n: nat, k: u8)
    requires
        n <= 9,
        k < 9,
    ensures
        outcome_mask(x, o, which, n) & (1u16 << k) != 0 <==> k < n && outcome(x, o, k) == which,
        outcome_mask(x, o, which, n) & !0x1ffu16 == 0,
    decreases n,
{
    if n == 0 {
        lemma_u16_bits(0, k as u16, k as u16);
    } else {
        let j = (n - 1) as u8;
        let rest = outcome_mask(x, o, which, (n - 1) as nat);
        lemma_outcome_mask_bit(x, o, which, (n - 1) as nat, k);
        lemma_u16_bits(rest, j as u16, k as u16);
    }
}

/// The cells of small board `k` lie in the decided cells all or not at all,
/// as the board is decided or open; nothing outside the 81 cells does.
pub proof fn lemma_decided_cells_sub(x: u128, o: u128, n: nat, k: u8)
    requires
        n <= 9,
        k < 9,
    ensures
        decided_cells(x, o, n) & sub_mask(k) == if k < n && outcome(x, o, k) != OPEN {
            sub_mask(k)
        } else {
            0
        },
        decided_cells(x, o, n) & !LF == 0,
    decreases n,
{
    if n == 0 {
        lemma_u128_subs(0, k as u128, k as u128);
    } else {
        let j = (n - 1) as u8;
        let rest = decided_cells(x, o, (n - 1) as nat);
        lemma_decided_cells_sub(x, o, (n - 1) as nat, k);
        lemma_u128_subs(rest, j as u128, k as u128);
    }
}

/// Two occupancies under which every small board counted has outcome
/// `which` in one exactly if it has it in the other give the same mask.
pub proof fn lemma_outcome_mask_same(x: u128, o: u128, x2: u128, o2: u128, which: u8, n: nat)
    requires
        n <= 9,
        forall|j: u8| j < n ==> ((outcome(x, o, j) == which) <==> (outcome(x2, o2, j) == which)),
    ensures
        outcome_mask(x2, o2, which, n) == outcome_mask(x, o, which, n),
    decreases n,
{
    if n > 0 {
        lemma_outcome_mask_same(x, o, x2, o2, which, (n - 1) as nat);
        let j = (n - 1) as u8;
        assert((outcome(x, o, j) == which) <==> (outcome(x2, o2, j) == which));
    }
}

/// Small board `k` alone takes on the outcome `which`: its bit is added.
pub proof fn lemma_outcome_mask_gain(
    x: u128,
    o: u128,
    x2: u128,
    o2: u128,
    which: u8,
    n: nat,
    k: u8,
)
    requires
        n <= 9,
        k < 9,
        outcome(x, o, k) != which,
        outcome(x2, o2, k) == which,
        forall|j: u8|
            j < n && j != k ==> ((outcome(x, o, j) == which) <==> (outcome(x2, o2, j) == which)),
    ensures
        outcome_mask(x2, o2, which, n) == if k < n {
            outcome_mask(x, o, which, n) | (1u16 << k)
        } else {
            outcome_mask(x, o, which, n)
        },
    decreases n,
{
    if n > 0 {
        lemma_outcome_mask_gain(x, o, x2, o2, which, (n - 1) as nat, k);
        let j = (n - 1) as u8;
        let rest = outcome_mask(x, o, which, (n - 1) as nat);
        if j != k {
            assert((outcome(x, o, j) == which) <==> (outcome(x2, o2, j) == which));
            lemma_u16_bits(rest, k as u16, j as u16);
        }
    }
}

/// Two occupancies under which the same small boards are open give the same
/// decided cells.
pub proof fn lemma_decided_cells_same(x: u128, o: u128, x2: u128, o2: u128, n: nat)
    requires
        n <= 9,
        forall|j: u8| j < n ==> ((outcome(x, o, j) == OPEN) <==> (outcome(x2, o2, j) == OPEN)),
    ensures
        decided_cells(x2, o2, n) == decided_cells(x, o, n),
    decreases n,
{
    if n > 0 {
        lemma_decided_cells_same(x, o, x2, o2, (n - 1) as nat);
        let j = (n - 1) as u8;
        assert((outcome(x, o, j) == OPEN) <==> (outcome(x2, o2, j) == OPEN));
    }
}

/// Small board `k` alone stops being open: its cells are added.
pub proof fn lemma_decided_cells_gain(x: u128, o: u128, x2: u128, o2: u128, n: nat, k: u8)
    requires
        n <= 9,
        k < 9,
        outcome(x, o, k) == OPEN,
        outcome(x2, o2, k) != OPEN,
        forall|j: u8|
            j < n && j != k ==> ((outcome(x, o, j) == OPEN) <==> (outcome(x2, o2, j) == OPEN)),
    ensures
        decided_cells(x2, o2, n) == if k < n {
            decided_cells(x, o, n) | sub_mask(k)
        } else {
            decided_cells(x, o, n)
        },
    decreases n,
{
    if n > 0 {
        lemma_decided_cells_gain(x, o, x2, o2, (n - 1) as nat, k);
        let j = (n - 1) as u8;
        let rest = decided_cells(x, o, (n - 1) as nat);
        if j != k {
            assert((outcome(x, o, j) == OPEN) <==> (outcome(x2, o2, j) == OPEN));
            lemma_u128_subs(rest, k as u128, j as u128);
        }
    }
}

/// Three masks of small boards that cover every small board have the full
/// union.
proof fn lemma_all_bits(a: u16, b: u16, c: u16)
    by (bit_vector)
    requires
        a & !0x1ffu16 == 0,
        b & !0x1ffu16 == 0,
        c & !0x1ffu16 == 0,
        a & (1u16 << 0u8) != 0 || b & (1u16 << 0u8) != 0 || c & (1u16 << 0u8) != 0,
        a & (1u16 << 1u8) != 0 || b & (1u16 << 1u8) != 0 || c & (1u16 << 1u8) != 0,
        a & (1u16 << 2u8) != 0 || b & (1u16 << 2u8) != 0 || c & (1u16 << 2u8) != 0,
        a & (1u16 << 3u8) != 0 || b & (1u16 << 3u8) != 0 || c & (1u16 << 3u8) != 0,
        a & (1u16 << 4u8) != 0 || b & (1u16 << 4u8) != 0 || c & (1u16 << 4u8) != 0,
        a & (1u16 << 5u8) != 0 || b & (1u16 << 5u8) != 0 || c & (1u16 << 5u8) != 0,
        a & (1u16 << 6u8) != 0 || b & (1u16 << 6u8) != 0 || c & (1u16 << 6u8) != 0,
        a & (1u16 << 7u8) != 0 || b & (1u16 << 7u8) != 0 || c & (1u16 << 7u8) != 0,
        a & (1u16 << 8u8) != 0 || b & (1u16 << 8u8) != 0 || c & (1u16 << 8u8) != 0,
    ensures
        a | b | c == 0x1ff,
{
}

/// While the game goes on some small board is open.
pub proof fn lemma_open_board(x: u128, o: u128) -> (k: u8)
    requires
        status_of(
            outcome_mask(x, o, WON_X, 9),
            outcome_mask(x, o, WON_O, 9),
            outcome_mask(x, o, DRAWN, 9),
        ) == OPEN,
    ensures
        k < 9,
        outcome(x, o, k) == OPEN,
{
    let a = outcome_mask(x, o, WON_X, 9);
    let b = outcome_mask(x, o, WON_O, 9);
    let c = outcome_mask(x, o, DRAWN, 9);
    if forall|j: u8| j < 9 ==> outcome(x, o, j) != OPEN {
        assert forall|j: u8| j < 9 implies a & (1u16 << j) != 0 || b & (1u16 << j) != 0 || c & (1u16
            << j) != 0 by {
            lemma_outcome_mask_bit(x, o, WON_X, 9, j);
            lemma_outcome_mask_bit(x, o, WON_O, 9, j);
            lemma_outcome_mask_bit(x, o, DRAWN, 9, j);
        }
        lemma_outcome_mask_bit(x, o, WON_X, 9, 0);
        lemma_outcome_mask_bit(x, o, WON_O, 9, 0);
        lemma_outcome_mask_bit(x, o, DRAWN, 9, 0);
        assert(a & (1u16 << 0u8) != 0 || b & (1u16 << 0u8) != 0 || c & (1u16 << 0u8) != 0);
        assert(a & (1u16 << 1u8) != 0 || b & (1u16 << 1u8) != 0 || c & (1u16 << 1u8) != 0);
        assert(a & (1u16 << 2u8) != 0 || b & (1u16 << 2u8) != 0 || c & (1u16 << 2u8) != 0);
        assert(a & (1u16 << 3u8) != 0 || b & (1u16 << 3u8) != 0 || c & (1u16 << 3u8) != 0);
        assert(a & (1u16 << 4u8) != 0 || b & (1u16 << 4u8) != 0 || c & (1u16 << 4u8) != 0);
        assert(a & (1u16 << 5u8) != 0 || b & (1u16 << 5u8) != 0 || c & (1u16 << 5u8) != 0);
        assert(a & (1u16 << 6u8) != 0 || b & (1u16 << 6u8) != 0 || c & (1u16 << 6u8) != 0);
        assert(a & (1u16 << 7u8) != 0 || b & (1u16 << 7u8) != 0 || c & (1u16 << 7u8) != 0);
        assert(a & (1u16 << 8u8) != 0 || b & (1u16 << 8u8) != 0 || c & (1u16 << 8u8) != 0);
        lemma_all_bits(a, b, c);
        assert(false);
    }
    choose|j: u8| j < 9 && outcome(x, o, j) == OPEN
}

} // verus!
