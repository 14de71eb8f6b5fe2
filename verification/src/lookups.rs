//! Constant tables of the board geometry, and the generator of the local
//! line-count maps.

use vstd::prelude::*;

verus! {

/// The small board that each cell of the large board lies in.
pub const DIV_LOOKUP: [u8; 81] = [
    0, 0, 0, 0, 0, 0, 0, 0, 0,
    1, 1, 1, 1, 1, 1, 1, 1, 1,
    2, 2, 2, 2, 2, 2, 2, 2, 2,
    3, 3, 3, 3, 3, 3, 3, 3, 3,
    4, 4, 4, 4, 4, 4, 4, 4, 4,
    5, 5, 5, 5, 5, 5, 5, 5, 5,
    6, 6, 6, 6, 6, 6, 6, 6, 6,
    7, 7, 7, 7, 7, 7, 7, 7, 7,
    8, 8, 8, 8, 8, 8, 8, 8, 8,
];

/// The place of each cell of the large board inside its small board.
pub const MOD_LOOKUP: [u8; 81] = [
    0, 1, 2, 3, 4, 5, 6, 7, 8,
    0, 1, 2, 3, 4, 5, 6, 7, 8,
    0, 1, 2, 3, 4, 5, 6, 7, 8,
    0, 1, 2, 3, 4, 5, 6, 7, 8,
    0, 1, 2, 3, 4, 5, 6, 7, 8,
    0, 1, 2, 3, 4, 5, 6, 7, 8,
    0, 1, 2, 3, 4, 5, 6, 7, 8,
    0, 1, 2, 3, 4, 5, 6, 7, 8,
    0, 1, 2, 3, 4, 5, 6, 7, 8,
];

/// The cells of each small board, as a mask over the large board.
pub const SUB_LOOKUP: [u128; 9] = [
    0x1ff,
    0x3fe00,
    0x7fc0000,
    0xff8000000,
    0x1ff000000000,
    0x3fe00000000000,
    0x7fc0000000000000,
    0xff8000000000000000,
    0x1ff000000000000000000,
];

/// The eight winning lines of a small board.
pub const WIN_LOOKUP: [u16; 8] = [
    0b000000111,
    0b000111000,
    0b001001001,
    0b001010100,
    0b010010010,
    0b100010001,
    0b100100100,
    0b111000000,
];

/// The winning lines again, grouped by the cell they pass through: the lines
/// through cell 0 first, then those through cell 1, and so on.
pub const WIN_LOOKUP_INDEXED: [u16; 24] = [
    0b000000111, 0b001001001, 0b100010001,
    0b000000111, 0b010010010,
    0b000000111, 0b001010100, 0b100100100,
    0b000111000, 0b001001001,
    0b000111000, 0b001010100, 0b010010010, 0b100010001,
    0b000111000, 0b100100100,
    0b001001001, 0b001010100, 0b111000000,
    0b010010010, 0b111000000,
    0b100010001, 0b100100100, 0b111000000,
];

/// For each cell of a small board, where its group starts in
/// `WIN_LOOKUP_INDEXED` and how many lines it holds.
pub const WIN_LOOKUP_INDICES: [[usize; 2]; 9] = [
    [0, 3], [3, 2], [5, 3], [8, 2], [10, 4], [14, 2], [16, 3], [19, 2], [21, 3],
];

/// The mask of the cells of small board `k`.
pub open spec fn sub_mask(k: u8) -> u128 {
    0x1ffu128 << ((9 * k) as u128)
}

/// The mask of cell `c` of the large board.
pub open spec fn cell_bit(c: u8) -> u128 {
    1u128 << (c as u128)
}

/// The nine cells of small board `k` in the mask `m`, as a small mask.
pub open spec fn pattern(m: u128, k: u8) -> u16 {
    ((m >> ((9 * k) as u128)) & 0x1ff) as u16
}

/// Whether the small mask `p` holds all three cells of some winning line.
pub open spec fn has_line(p: u16) -> bool {
    ||| p & 0b000000111 == 0b000000111
    ||| p & 0b000111000 == 0b000111000
    ||| p & 0b001001001 == 0b001001001
    ||| p & 0b001010100 == 0b001010100
    ||| p & 0b010010010 == 0b010010010
    ||| p & 0b100010001 == 0b100010001
    ||| p & 0b100100100 == 0b100100100
    ||| p & 0b111000000 == 0b111000000
}

/// Whether `p` holds all three cells of a winning line that passes through
/// cell `c`, read from the grouped table.
pub open spec fn has_line_through(p: u16, c: u8) -> bool {
    exists|i: int|
        WIN_LOOKUP_INDICES[c as int][0] <= i < WIN_LOOKUP_INDICES[c as int][0]
            + WIN_LOOKUP_INDICES[c as int][1] && p & #[trigger] WIN_LOOKUP_INDEXED[i]
            == WIN_LOOKUP_INDEXED[i]
}

/// The tables hold what their names say.
pub proof fn lemma_tables()
    ensures
        forall|c: int| 0 <= c < 81 ==> #[trigger] DIV_LOOKUP[c] == c / 9,
        forall|c: int| 0 <= c < 81 ==> #[trigger] MOD_LOOKUP[c] == c % 9,
        forall|k: u8| k < 9 ==> #[trigger] SUB_LOOKUP[k as int] == sub_mask(k),
        forall|c: int|
            0 <= c < 9 ==> (#[trigger] WIN_LOOKUP_INDICES[c])[0] + WIN_LOOKUP_INDICES[c][1] <= 24,
{
    assert forall|k: u8| k < 9 implies #[trigger] SUB_LOOKUP[k as int] == sub_mask(k) by {
        lemma_sub_masks(k as u128);
    }
}

/// The nine masks of the small boards, written out.
proof fn lemma_sub_masks(k: u128)
    by (bit_vector)
    requires
        k < 9,
    ensures
        k == 0 ==> 0x1ffu128 << (9 * k) == 0x1ff,
        k == 1 ==> 0x1ffu128 << (9 * k) == 0x3fe00,
        k == 2 ==> 0x1ffu128 << (9 * k) == 0x7fc0000,
        k == 3 ==> 0x1ffu128 << (9 * k) == 0xff8000000,
        k == 4 ==> 0x1ffu128 << (9 * k) == 0x1ff000000000,
        k == 5 ==> 0x1ffu128 << (9 * k) == 0x3fe00000000000,
        k == 6 ==> 0x1ffu128 << (9 * k) == 0x7fc0000000000000,
        k == 7 ==> 0x1ffu128 << (9 * k) == 0xff8000000000000000,
        k == 8 ==> 0x1ffu128 << (9 * k) == 0x1ff000000000000000000,
{
}

/// A line is complete in `p` exactly if it is one of the table's eight.
pub proof fn lemma_has_line_table(p: u16)
    ensures
        has_line(p) <==> exists|i: int| 0 <= i < 8 && p & #[trigger] WIN_LOOKUP[i] == WIN_LOOKUP[i],
{
    if has_line(p) {
        if p & 0b000000111 == 0b000000111 {
            assert(p & WIN_LOOKUP[0] == WIN_LOOKUP[0]);
        } else if p & 0b000111000 == 0b000111000 {
            assert(p & WIN_LOOKUP[1] == WIN_LOOKUP[1]);
        } else if p & 0b001001001 == 0b001001001 {
            assert(p & WIN_LOOKUP[2] == WIN_LOOKUP[2]);
        } else if p & 0b001010100 == 0b001010100 {
            assert(p & WIN_LOOKUP[3] == WIN_LOOKUP[3]);
        } else if p & 0b010010010 == 0b010010010 {
            assert(p & WIN_LOOKUP[4] == WIN_LOOKUP[4]);
        } else if p & 0b100010001 == 0b100010001 {
            assert(p & WIN_LOOKUP[5] == WIN_LOOKUP[5]);
        } else if p & 0b100100100 == 0b100100100 {
            assert(p & WIN_LOOKUP[6] == WIN_LOOKUP[6]);
        } else {
            assert(p & WIN_LOOKUP[7] == WIN_LOOKUP[7]);
        }
    }
}

/// A stone on cell `c` of a small board without a line completes a line only
/// through `c`, cell by cell.
proof fn lemma_new_line_bv(p: u16, c: u16)
    by (bit_vector)
    requires
        c < 9,
        !has_line(p),
    ensures
        ({
            let q = p | (1u16 << c);
            &&& c == 0 ==> (has_line(q) <==> (q & 0b000000111 == 0b000000111 || q & 0b001001001
                == 0b001001001 || q & 0b100010001 == 0b100010001))
            &&& c == 1 ==> (has_line(q) <==> (q & 0b000000111 == 0b000000111 || q & 0b010010010
                == 0b010010010))
            &&& c == 2 ==> (has_line(q) <==> (q & 0b000000111 == 0b000000111 || q & 0b001010100
                == 0b001010100 || q & 0b100100100 == 0b100100100))
            &&& c == 3 ==> (has_line(q) <==> (q & 0b000111000 == 0b000111000 || q & 0b001001001
                == 0b001001001))
            &&& c == 4 ==> (has_line(q) <==> (q & 0b000111000 == 0b000111000 || q & 0b001010100
                == 0b001010100 || q & 0b010010010 == 0b010010010 || q & 0b100010001
                == 0b100010001))
            &&& c == 5 ==> (has_line(q) <==> (q & 0b000111000 == 0b000111000 || q & 0b100100100
                == 0b100100100))
            &&& c == 6 ==> (has_line(q) <==> (q & 0b001001001 == 0b001001001 || q & 0b001010100
                == 0b001010100 || q & 0b111000000 == 0b111000000))
            &&& c == 7 ==> (has_line(q) <==> (q & 0b010010010 == 0b010010010 || q & 0b111000000
                == 0b111000000))
            &&& c == 8 ==> (has_line(q) <==> (q & 0b100010001 == 0b100010001 || q & 0b100100100
                == 0b100100100 || q & 0b111000000 == 0b111000000))
        }),
{
}

/// A stone on cell `c` of a small board without a line completes a line
/// exactly if it completes one of those through `c`: the grouped table
/// leaves no line out.
pub proof fn lemma_new_line(p: u16, c: u8)
    requires
        c < 9,
        !has_line(p),
    ensures
        has_line(p | (1u16 << c)) <==> has_line_through(p | (1u16 << c), c),
{
    let q = p | (1u16 << c);
    lemma_new_line_bv(p, c as u16);
    let t = WIN_LOOKUP_INDEXED;
    if has_line(q) {
        let i = if c == 0 {
            if q & t[0] == t[0] { 0 } else if q & t[1] == t[1] { 1 } else { 2int }
        } else if c == 1 {
            if q & t[3] == t[3] { 3 } else { 4int }
        } else if c == 2 {
            if q & t[5] == t[5] { 5 } else if q & t[6] == t[6] { 6 } else { 7int }
        } else if c == 3 {
            if q & t[8] == t[8] { 8 } else { 9int }
        } else if c == 4 {
            if q & t[10] == t[10] { 10 } else if q & t[11] == t[11] { 11 } else if q & t[12]
                == t[12] { 12 } else { 13int }
        } else if c == 5 {
            if q & t[14] == t[14] { 14 } else { 15int }
        } else if c == 6 {
            if q & t[16] == t[16] { 16 } else if q & t[17] == t[17] { 17 } else { 18int }
        } else if c == 7 {
            if q & t[19] == t[19] { 19 } else { 20int }
        } else {
            if q & t[21] == t[21] { 21 } else if q & t[22] == t[22] { 22 } else { 23int }
        };
        assert(q & WIN_LOOKUP_INDEXED[i] == WIN_LOOKUP_INDEXED[i]);
    }
}

/// Whether `p` holds a whole winning line through cell `c`: only the lines
/// of the grouped table that belong to `c` are tried.
pub fn completes_line(p: u16, c: u8) -> (r: bool)
    requires
        c < 9,
    ensures
        r == has_line_through(p, c),
{
    let start: usize = WIN_LOOKUP_INDICES[c as usize][0];
    let count: usize = WIN_LOOKUP_INDICES[c as usize][1];
    let mut i: usize = start;
    while i < start + count
        invariant
            c < 9,
            start == WIN_LOOKUP_INDICES[c as int][0],
            count == WIN_LOOKUP_INDICES[c as int][1],
            start <= i <= start + count <= 24,
            forall|j: int| start <= j < i ==> p & #[trigger] WIN_LOOKUP_INDEXED[j] != WIN_LOOKUP_INDEXED[j],
        decreases start + count - i,
    {
        let mask: u16 = WIN_LOOKUP_INDEXED[i];
        if p & mask == mask {
            return true;
        }
        i += 1;
    }
    false
}

/// The three cells of each line, and that a line with stones of both sides is
/// whole for neither.
proof fn lemma_line_bits(p: u16, o: u16, line: u16)
    by (bit_vector)
    ensures
        p & o == 0 && p & line != 0 && o & line != 0 ==> p & line != line && o & line != line,
        p & 0b000000111 == 0b000000111 ==> (p as u128) & (1u128 << 0u8) != 0 && (p as u128) & (1u128
            << 1u8) != 0 && (p as u128) & (1u128 << 2u8) != 0,
        p & 0b000111000 == 0b000111000 ==> (p as u128) & (1u128 << 3u8) != 0 && (p as u128) & (1u128
            << 4u8) != 0 && (p as u128) & (1u128 << 5u8) != 0,
        p & 0b001001001 == 0b001001001 ==> (p as u128) & (1u128 << 0u8) != 0 && (p as u128) & (1u128
            << 3u8) != 0 && (p as u128) & (1u128 << 6u8) != 0,
        p & 0b001010100 == 0b001010100 ==> (p as u128) & (1u128 << 2u8) != 0 && (p as u128) & (1u128
            << 4u8) != 0 && (p as u128) & (1u128 << 6u8) != 0,
        p & 0b010010010 == 0b010010010 ==> (p as u128) & (1u128 << 1u8) != 0 && (p as u128) & (1u128
            << 4u8) != 0 && (p as u128) & (1u128 << 7u8) != 0,
        p & 0b100010001 == 0b100010001 ==> (p as u128) & (1u128 << 0u8) != 0 && (p as u128) & (1u128
            << 4u8) != 0 && (p as u128) & (1u128 << 8u8) != 0,
        p & 0b100100100 == 0b100100100 ==> (p as u128) & (1u128 << 2u8) != 0 && (p as u128) & (1u128
            << 5u8) != 0 && (p as u128) & (1u128 << 8u8) != 0,
        p & 0b111000000 == 0b111000000 ==> (p as u128) & (1u128 << 6u8) != 0 && (p as u128) & (1u128
            << 7u8) != 0 && (p as u128) & (1u128 << 8u8) != 0,
{
}

/// A small mask that holds a whole line has at least three ones.
pub proof fn lemma_line_needs_three(p: u16)
    requires
        has_line(p),
    ensures
        crate::bitboard::popcount(p as u128) >= 3,
{
    lemma_line_bits(p, 0, 0);
    let v = p as u128;
    if p & 0b000000111 == 0b000000111 {
        crate::bitboard::lemma_three_bits(v, 0, 1, 2);
    } else if p & 0b000111000 == 0b000111000 {
        crate::bitboard::lemma_three_bits(v, 3, 4, 5);
    } else if p & 0b001001001 == 0b001001001 {
        crate::bitboard::lemma_three_bits(v, 0, 3, 6);
    } else if p & 0b001010100 == 0b001010100 {
        crate::bitboard::lemma_three_bits(v, 2, 4, 6);
    } else if p & 0b010010010 == 0b010010010 {
        crate::bitboard::lemma_three_bits(v, 1, 4, 7);
    } else if p & 0b100010001 == 0b100010001 {
        crate::bitboard::lemma_three_bits(v, 0, 4, 8);
    } else if p & 0b100100100 == 0b100100100 {
        crate::bitboard::lemma_three_bits(v, 2, 5, 8);
    } else {
        crate::bitboard::lemma_three_bits(v, 6, 7, 8);
    }
}

/// Where each count sits in an entry of the local maps: a win, the lines
/// with two stones, the lines with one stone, the lines with none.
pub const POS_CNT: [u8; 4] = [12, 8, 4, 0];

/// The width of one count in an entry of the local maps.
pub const POS_MASK: u16 = 0b1111;

/// How many entries the local maps have: one for each pair of small masks.
pub const MAP_SIZE: usize = 262144;

/// What stands for a line that the other side has a stone on.
pub const BLOCKED: u8 = 4;

/// How many stones of `mine` lie on `line`, or `BLOCKED` where the other
/// side has one there.
pub open spec fn line_stones(mine: u16, theirs: u16, line: u16) -> nat {
    if theirs & line != 0 {
        BLOCKED as nat
    } else {
        crate::bitboard::popcount((mine & line) as u128)
    }
}

/// How many of the first `n` winning lines hold exactly `stones` stones of
/// `mine` and none of `theirs`.
pub open spec fn count_lines(mine: u16, theirs: u16, stones: nat, n: nat) -> nat
    decreases n,
{
    if n == 0 || n > 8 {
        0
    } else {
        count_lines(mine, theirs, stones, (n - 1) as nat) + if line_stones(
            mine,
            theirs,
            WIN_LOOKUP[n - 1],
        ) == stones {
            1nat
        } else {
            0nat
        }
    }
}

/// The entry of the local map for the side that holds `mine` against
/// `theirs`, where no cell is held twice: nothing where the other side has a
/// line (be it that both have one, which no game leads to), the win mark
/// where this side alone has a line, else the three counts of lines still
/// open to this side, packed.
pub open spec fn local_map(mine: u16, theirs: u16) -> u16 {
    if has_line(theirs) {
        0
    } else if has_line(mine) {
        1u16 << 12
    } else {
        ((count_lines(mine, theirs, 2, 8) as u16) << 8) | ((count_lines(mine, theirs, 1, 8) as u16)
            << 4) | (count_lines(mine, theirs, 0, 8) as u16)
    }
}

/// The cells of X in a key of the local maps.
pub open spec fn key_x(key: int) -> u16 {
    (key % 512) as u16
}

/// The cells of O in a key of the local maps.
pub open spec fn key_o(key: int) -> u16 {
    ((key / 512) % 512) as u16
}

/// The two halves of a key, by masks and by division.
pub proof fn lemma_key_parts(key: usize)
    by (bit_vector)
    requires
        key < 262144,
    ensures
        key & 0b111111111 == key % 512,
        (key >> 9) & 0b111111111 == (key / 512) % 512,
{
}

/// No more than `n` lines are counted among the first `n`, and each line is
/// counted for one number of stones at most.
pub proof fn lemma_count_lines_bound(mine: u16, theirs: u16, n: nat)
    requires
        n <= 8,
    ensures
        count_lines(mine, theirs, 0, n) + count_lines(mine, theirs, 1, n) + count_lines(
            mine,
            theirs,
            2,
            n,
        ) <= n,
    decreases n,
{
    if n > 0 {
        lemma_count_lines_bound(mine, theirs, (n - 1) as nat);
    }
}

/// The stones of a mask on one line: clearing the lowest three times leaves
/// nothing, and three are there exactly if the line is whole.
proof fn lemma_on_line(v: u16, line: u16)
    by (bit_vector)
    requires
        line == 0b000000111 || line == 0b000111000 || line == 0b001001001 || line == 0b001010100
            || line == 0b010010010 || line == 0b100010001 || line == 0b100100100 || line
            == 0b111000000,
    ensures
        ({
            let m = (v & line) as u128;
            let m1 = m & ((m - 1) as u128);
            let m2 = m1 & ((m1 - 1) as u128);
            &&& m != 0 && m1 != 0 && m2 != 0 ==> m2 & ((m2 - 1) as u128) == 0
            &&& m != 0 && m1 != 0 && m2 != 0 <==> v & line == line
            &&& v & line == line ==> has_line(v)
        }),
{
}

/// The stones of `v` on a winning line: three exactly where the line is
/// whole, and then `v` has a line.
pub proof fn lemma_stones_on_line(v: u16, i: int)
    requires
        0 <= i < 8,
    ensures
        crate::bitboard::popcount((v & WIN_LOOKUP[i]) as u128) <= 3,
        crate::bitboard::popcount((v & WIN_LOOKUP[i]) as u128) == 3 <==> v & WIN_LOOKUP[i]
            == WIN_LOOKUP[i],
        crate::bitboard::popcount((v & WIN_LOOKUP[i]) as u128) == 0 <==> v & WIN_LOOKUP[i] == 0,
        v & WIN_LOOKUP[i] == WIN_LOOKUP[i] ==> has_line(v),
{
    let line = WIN_LOOKUP[i];
    lemma_on_line(v, line);
    let m = (v & line) as u128;
    assert(crate::bitboard::popcount(0) == 0);
    if m != 0 {
        crate::bitboard::lemma_popcount_step(m);
        let m1 = m & ((m - 1) as u128);
        if m1 != 0 {
            crate::bitboard::lemma_popcount_step(m1);
            let m2 = m1 & ((m1 - 1) as u128);
            if m2 != 0 {
                crate::bitboard::lemma_popcount_step(m2);
            }
        }
    }
}

/// Whether `v` holds one of the first `n` winning lines whole.
pub open spec fn line_among(v: u16, n: nat) -> bool
    decreases n,
{
    0 < n <= 8 && (line_among(v, (n - 1) as nat) || v & WIN_LOOKUP[n - 1] == WIN_LOOKUP[n - 1])
}

/// Trying all eight lines finds a line exactly if there is one.
proof fn lemma_line_among(v: u16)
    ensures
        line_among(v, 8) <==> has_line(v),
        !line_among(v, 0),
{
    reveal_with_fuel(line_among, 9);
}

/// Packing three counts into an entry and reading them back.
pub proof fn lemma_pack(a: u16, b: u16, c: u16)
    by (bit_vector)
    requires
        a < 16,
        b < 16,
        c < 16,
    ensures
        c << 0u8 == c,
        ({
            let v = (a << 8) | (b << 4) | c;
            &&& (v >> 12u8) & 0b1111 == 0
            &&& (v >> 8u8) & 0b1111 == a
            &&& (v >> 4u8) & 0b1111 == b
            &&& (v >> 0u8) & 0b1111 == c
        }),
        ((1u16 << 12) >> 12u8) & 0b1111 == 1,
        (0u16 >> 12u8) & 0b1111 == 0,
        (0u16 >> 8u8) & 0b1111 == 0,
        (0u16 >> 4u8) & 0b1111 == 0,
        (0u16 >> 0u8) & 0b1111 == 0,
{
}

/// A line with stones of both sides is whole for neither.
proof fn lemma_no_shared_line(x: u16, o: u16, line: u16)
    requires
        x & o == 0,
        x & line != 0,
        o & line != 0,
    ensures
        x & line != line,
        o & line != line,
{
    lemma_line_bits(x, o, line);
}


/// The entry of the local map of X under `key`.
pub open spec fn map_entry_x(key: int) -> u16 {
    if key_x(key) & key_o(key) != 0 {
        0
    } else {
        local_map(key_x(key), key_o(key))
    }
}

/// The entry of the local map of O under `key`.
pub open spec fn map_entry_o(key: int) -> u16 {
    if key_x(key) & key_o(key) != 0 {
        0
    } else {
        local_map(key_o(key), key_x(key))
    }
}

/// Both entries of the local maps under the key `permut`.
pub fn gen_local_map(permut: usize) -> (r: (u16, u16))
    requires
        permut < MAP_SIZE,
    ensures
        r.0 == map_entry_x(permut as int),
        r.1 == map_entry_o(permut as int),
{
    proof {
        lemma_key_parts(permut);
    }
    let xbits: u16 = (permut & 0b111111111) as u16;
    let obits: u16 = ((permut >> 9) & 0b111111111) as u16;

    // impossible
    if xbits & obits != 0 {
        return (0, 0);
    }
    let mut x_left: [u16; 4] = [0; 4];
    let mut o_left: [u16; 4] = [0; 4];
    proof {
        lemma_line_among(xbits);
        lemma_line_among(obits);
    }

    let mut i: usize = 0;
    while i < 8
        invariant
            i <= 8,
            x_left[3] == count_lines(xbits, obits, 0, i as nat),
            x_left[2] == count_lines(xbits, obits, 1, i as nat),
            x_left[1] == count_lines(xbits, obits, 2, i as nat),
            o_left[3] == count_lines(obits, xbits, 0, i as nat),
            o_left[2] == count_lines(obits, xbits, 1, i as nat),
            o_left[1] == count_lines(obits, xbits, 2, i as nat),
            xbits & obits == 0,
            x_left[0] != 0 <==> line_among(xbits, i as nat),
            o_left[0] != 0 <==> line_among(obits, i as nat),
        decreases 8 - i,
    {
        let lookup: u16 = WIN_LOOKUP[i];
        let maskx: u16 = xbits & lookup;
        let masko: u16 = obits & lookup;
        proof {
            lemma_stones_on_line(xbits, i as int);
            lemma_stones_on_line(obits, i as int);
            lemma_count_lines_bound(xbits, obits, i as nat);
            lemma_count_lines_bound(obits, xbits, i as nat);
            if maskx != 0 && masko != 0 {
                lemma_no_shared_line(xbits, obits, lookup);
            }
        }
        if maskx != 0 && masko != 0 {
        } else if maskx == 0 && masko == 0 {
            x_left[3] += 1;
            o_left[3] += 1;
        } else if maskx != 0 {
            let stones: u32 = maskx.count_ones();
            if stones == 1 {
                x_left[2] += 1;
            } else if stones == 2 {
                x_left[1] += 1;
            } else {
                x_left[0] = 1;
            }
        } else {
            let stones: u32 = masko.count_ones();
            if stones == 1 {
                o_left[2] += 1;
            } else if stones == 2 {
                o_left[1] += 1;
            } else {
                o_left[0] = 1;
            }
        }
        i += 1;
    }
    proof {
        lemma_line_among(xbits);
        lemma_line_among(obits);
        lemma_count_lines_bound(xbits, obits, 8);
        lemma_count_lines_bound(obits, xbits, 8);
        lemma_pack(x_left[1], x_left[2], x_left[3]);
        lemma_pack(o_left[1], o_left[2], o_left[3]);
    }
    if x_left[0] != 0 && o_left[0] != 0 {
        return (0, 0);
    }
    if x_left[0] != 0 {
        return (1 << POS_CNT[0], 0);
    }
    if o_left[0] != 0 {
        return (0, 1 << POS_CNT[0]);
    }
    (
        (x_left[1] << POS_CNT[1]) | (x_left[2] << POS_CNT[2]) | (x_left[3] << POS_CNT[3]),
        (o_left[1] << POS_CNT[1]) | (o_left[2] << POS_CNT[2]) | (o_left[3] << POS_CNT[3]),
    )
}

/// Fills the two local maps: for each pair of small masks, packed into a
/// key, what each side still has on such a board.
pub fn gen_local_maps(xlocal: &mut [u16], olocal: &mut [u16])
    requires
        old(xlocal)@.len() >= MAP_SIZE,
        old(olocal)@.len() >= MAP_SIZE,
    ensures
        final(xlocal)@.len() == old(xlocal)@.len(),
        final(olocal)@.len() == old(olocal)@.len(),
        forall|key: int| 0 <= key < MAP_SIZE ==> final(xlocal)@[key] == map_entry_x(key),
        forall|key: int| 0 <= key < MAP_SIZE ==> final(olocal)@[key] == map_entry_o(key),
        forall|key: int| MAP_SIZE <= key < old(xlocal)@.len() ==> final(xlocal)@[key] == old(xlocal)@[key],
        forall|key: int| MAP_SIZE <= key < old(olocal)@.len() ==> final(olocal)@[key] == old(olocal)@[key],
{
    let mut permut: usize = 0;
    while permut < MAP_SIZE
        invariant
            permut <= MAP_SIZE,
            xlocal@.len() == old(xlocal)@.len(),
            olocal@.len() == old(olocal)@.len(),
            xlocal@.len() >= MAP_SIZE,
            olocal@.len() >= MAP_SIZE,
            forall|key: int| 0 <= key < permut ==> xlocal@[key] == map_entry_x(key),
            forall|key: int| 0 <= key < permut ==> olocal@[key] == map_entry_o(key),
            forall|key: int| MAP_SIZE <= key < xlocal@.len() ==> xlocal@[key] == old(xlocal)@[key],
            forall|key: int| MAP_SIZE <= key < olocal@.len() ==> olocal@[key] == old(olocal)@[key],
        decreases MAP_SIZE - permut,
    {
        let (xl, ol) = gen_local_map(permut);
        xlocal[permut] = xl;
        olocal[permut] = ol;
        permut += 1;
    }
}

/// Whether `p` holds a whole winning line: all eight are tried.
pub fn holds_line(p: u16) -> (r: bool)
    ensures
        r == has_line(p),
{
    proof {
        lemma_line_among(p);
    }
    let mut i: usize = 0;
    while i < 8
        invariant
            i <= 8,
            !line_among(p, i as nat),
            line_among(p, 8) <==> has_line(p),
        decreases 8 - i,
    {
        let mask: u16 = WIN_LOOKUP[i];
        if p & mask == mask {
            proof {
                lemma_stones_on_line(p, i as int);
            }
            return true;
        }
        i += 1;
    }
    false
}

} // verus!
