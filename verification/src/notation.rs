//! The text forms of moves and positions: a cell as a file letter and a rank
//! digit, a position as nine groups of stones and counts of empty cells.

use vstd::prelude::*;
use vstd::string::StrSliceExecFns;
use crate::bitboard::{count_below, DelBit, GetBit, SetBit, LF, LS, SF};
use crate::board::{lemma_closed_gain, lemma_pattern_place, Board, ERR_MOV};
use crate::lookups::{cell_bit, holds_line, lemma_tables, sub_mask, MOD_LOOKUP, SUB_LOOKUP};
use crate::position::{lemma_played_turn, playable, played, played_from, Position};
use crate::rules::{decided_cells, outcome_mask, DRAWN, WON_O, WON_X};

verus! {

/// `String::push` of std: the character is added at the end.
#[verifier::external_body]
pub(crate) fn push_char(s: &mut String, c: char)
    ensures
        final(s)@ == old(s)@.push(c),
{
    s.push(c);
}

/// Whether `c` is white space: the characters that Unicode gives the
/// property White_Space.
pub open spec fn is_space(c: char) -> bool {
    let u = c as u32;
    ||| 0x9 <= u <= 0xd
    ||| u == 0x20
    ||| u == 0x85
    ||| u == 0xa0
    ||| u == 0x1680
    ||| 0x2000 <= u <= 0x200a
    ||| u == 0x2028
    ||| u == 0x2029
    ||| u == 0x202f
    ||| u == 0x205f
    ||| u == 0x3000
}

/// Whether `c` is white space.
pub fn is_whitespace(c: char) -> (r: bool)
    ensures
        r == is_space(c),
{
    let u: u32 = c as u32;
    (0x9 <= u && u <= 0xd) || u == 0x20 || u == 0x85 || u == 0xa0 || u == 0x1680 || (0x2000 <= u
        && u <= 0x200a) || u == 0x2028 || u == 0x2029 || u == 0x202f || u == 0x205f || u
        == 0x3000
}

/// The cell at rank `rank` and file `file` of the large board, both counted
/// from 0: the small board is found by the thirds of the rank and the file,
/// the place inside it by what is left.
pub open spec fn cell_at(rank: int, file: int) -> int {
    (rank / 3) * 27 + (rank % 3) * 3 + (file / 3) * 9 + (file % 3)
}

/// The cell at rank `rank` and file `file` of the large board.
#[inline]
pub fn grb(rank: u8, file: u8) -> (r: u8)
    requires
        rank < 9,
        file < 9,
    ensures
        r == cell_at(rank as int, file as int),
        r < 81,
{
    (rank / 3) * 27 + (rank % 3) * 3 + (file / 3) * 9 + (file % 3)
}

/// The rank of cell `mov`, counted from 0.
pub open spec fn rank_of(mov: int) -> int {
    (mov / 27) * 3 + (mov % 9) / 3
}

/// The file of cell `mov`, counted from 0.
pub open spec fn file_of(mov: int) -> int {
    ((mov % 27) / 9) * 3 + mov % 3
}

/// The text of cell `mov`: its file letter and its rank digit, or two
/// question marks where `mov` is no cell.
pub open spec fn move_text(mov: u8) -> Seq<char> {
    if mov > 80 {
        seq!['?', '?']
    } else {
        seq![(97 + file_of(mov as int)) as char, (49 + rank_of(mov as int)) as char]
    }
}

/// The text of cell `mov`.
pub fn transform_move_back(mov: u8) -> (r: String)
    ensures
        r@ == move_text(mov),
{
    let mut text = String::new();
    if mov > 80 {
        push_char(&mut text, '?');
        push_char(&mut text, '?');
        return text;
    }
    let gdv: u8 = mov / 27;
    let gmd: u8 = mov % 27;
    let ldv: u8 = gmd / 9;
    let lmd: u8 = gmd % 9;
    let rank: u8 = gdv * 3 + lmd / 3;  // 0..8 -> '1'..'9'
    let file: u8 = ldv * 3 + lmd % 3;  // 0..8 -> 'a'..'i'
    push_char(&mut text, (97u8 + file) as char);
    push_char(&mut text, (49u8 + rank) as char);
    text
}

/// Where the text `s` begins once the white space before it is left out.
pub open spec fn trim_start(s: Seq<char>, from: int) -> int
    decreases s.len() - from,
{
    if 0 <= from < s.len() && is_space(s[from]) {
        trim_start(s, from + 1)
    } else {
        from
    }
}

/// Where the text `s` ends once the white space behind it is left out, but
/// not before `low`.
pub open spec fn trim_end(s: Seq<char>, low: int, to: int) -> int
    decreases to - low,
{
    if 0 <= low < to <= s.len() && is_space(s[to - 1]) {
        trim_end(s, low, to - 1)
    } else {
        to
    }
}

/// The cell that the two characters `file` and `rank` name, or `ERR_MOV`:
/// the letter is `a` to `i` in either case, the digit `1` to `9`.
pub open spec fn cell_named(file: char, rank: char) -> u8 {
    let f = file as u32;
    let r = rank as u32;
    let low = if 65 <= f <= 90 { (f + 32) as u32 } else { f };
    if 97 <= low <= 105 && 49 <= r <= 57 {
        cell_at(r - 49, low - 97) as u8
    } else {
        ERR_MOV
    }
}

/// The move that the text `s` stands for among the moves `legals`, or
/// `ERR_MOV`: the white space around it left out, it is two characters that
/// name a cell, and the cell is among `legals`.
pub open spec fn move_of(s: Seq<char>, legals: u128) -> u8 {
    let start = trim_start(s, 0);
    let end = trim_end(s, start, s.len() as int);
    if end - start != 2 {
        ERR_MOV
    } else {
        let cell = cell_named(s[start], s[start + 1]);
        if cell != ERR_MOV && legals & (1u128 << cell) != 0 {
            cell
        } else {
            ERR_MOV
        }
    }
}

/// Reads the characters of `s` from `from` up to `to` as a move among
/// `legals`.
pub fn read_move(s: &str, from: usize, to: usize, legals: u128) -> (r: u8)
    requires
        from <= to <= s@.len(),
    ensures
        r == move_of(s@.subrange(from as int, to as int), legals),
        r == ERR_MOV || (r < 81 && legals & (1u128 << r) != 0),
{
    let ghost part = s@.subrange(from as int, to as int);
    let mut start: usize = from;
    while start < to && is_whitespace(s.get_char(start))
        invariant
            from <= start <= to <= s@.len(),
            part == s@.subrange(from as int, to as int),
            trim_start(part, 0) == trim_start(part, start - from),
        decreases to - start,
    {
        start += 1;
    }
    let mut end: usize = to;
    while start < end && is_whitespace(s.get_char(end - 1))
        invariant
            from <= start <= end <= to <= s@.len(),
            part == s@.subrange(from as int, to as int),
            trim_end(part, start - from, part.len() as int) == trim_end(
                part,
                start - from,
                end - from,
            ),
        decreases end,
    {
        end -= 1;
    }
    if end - start != 2 {
        return ERR_MOV;
    }
    let file: u32 = s.get_char(start) as u32;
    let rank: u32 = s.get_char(start + 1) as u32;
    let low: u32 = if 65 <= file && file <= 90 { file + 32 } else { file };
    if !(97 <= low && low <= 105 && 49 <= rank && rank <= 57) {
        return ERR_MOV;
    }
    let realbit: u8 = grb((rank - 49) as u8, (low - 97) as u8);
    if legals.get_bit(realbit) == 0 {
        return ERR_MOV;
    }
    realbit
}

/// The move that `user_mov` stands for among the moves `legals`, or
/// `ERR_MOV` where it names no cell or none of them.
pub fn transform_move(user_mov: &str, legals: u128) -> (r: u8)
    ensures
        r == move_of(user_mov@, legals),
        r == ERR_MOV || (r < 81 && legals & (1u128 << r) != 0),
{
    let n: usize = user_mov.unicode_len();
    proof {
        assert(user_mov@.subrange(0, n as int) =~= user_mov@);
    }
    read_move(user_mov, 0, n, legals)
}

/// The rank and the file of a cell lead back to the cell.
pub proof fn lemma_rank_file(mov: int)
    requires
        0 <= mov < 81,
    ensures
        0 <= rank_of(mov) < 9,
        0 <= file_of(mov) < 9,
        cell_at(rank_of(mov), file_of(mov)) == mov,
{
    let a = mov / 27;
    let b = (mov % 27) / 9;
    let c = (mov % 9) / 3;
    let d = mov % 3;
    assert(mov == a * 27 + b * 9 + c * 3 + d);
    assert(rank_of(mov) == a * 3 + c);
    assert(file_of(mov) == b * 3 + d);
    assert((a * 3 + c) / 3 == a && (a * 3 + c) % 3 == c);
    assert((b * 3 + d) / 3 == b && (b * 3 + d) % 3 == d);
}

/// The text of a cell names that cell again.
pub proof fn lemma_move_text_names(mov: u8)
    requires
        mov < 81,
    ensures
        move_text(mov).len() == 2,
        cell_named(move_text(mov)[0], move_text(mov)[1]) == mov,
        !is_space(move_text(mov)[0]),
        !is_space(move_text(mov)[1]),
{
    lemma_rank_file(mov as int);
    let f = file_of(mov as int);
    let r = rank_of(mov as int);
    let fc = (97 + f) as char;
    let rc = (49 + r) as char;
    assert(fc as u32 == 97 + f);
    assert(rc as u32 == 49 + r);
    assert(move_text(mov)[0] == fc);
    assert(move_text(mov)[1] == rc);
}

/// What has been read of a layout: the stones of both sides, the cell that
/// comes next, and whose turn the number of stones makes it.
pub struct Layout {
    pub x: u128,
    pub o: u128,
    pub at: nat,
    pub turn: bool,
}

/// What one more character makes of a layout: `-` nothing, `x` and `o` a
/// stone on the next cell, a digit from 1 to 9 that many empty cells. No
/// other character is taken, and no cell beyond the 81.
pub open spec fn layout_step(l: Layout, c: char) -> Option<Layout> {
    if c == '-' {
        Some(l)
    } else if c == 'x' {
        if l.at < 81 {
            Some(Layout { x: l.x | cell_bit(l.at as u8), o: l.o, at: l.at + 1, turn: !l.turn })
        } else {
            None
        }
    } else if c == 'o' {
        if l.at < 81 {
            Some(Layout { x: l.x, o: l.o | cell_bit(l.at as u8), at: l.at + 1, turn: !l.turn })
        } else {
            None
        }
    } else if 49 <= c as u32 <= 57 {
        let skip = (c as u32 - 48) as nat;
        if l.at + skip <= 81 {
            Some(Layout { x: l.x, o: l.o, at: l.at + skip, turn: l.turn })
        } else {
            None
        }
    } else {
        None
    }
}

/// The layout that the text `s` gives, read from an empty board, or nothing
/// where a character or a cell count is not taken.
pub open spec fn layout_of(s: Seq<char>) -> Option<Layout>
    decreases s.len(),
{
    if s.len() == 0 {
        Some(Layout { x: 0, o: 0, at: 0, turn: false })
    } else {
        match layout_of(s.drop_last()) {
            Some(l) => layout_step(l, s.last()),
            None => None,
        }
    }
}

/// The place of the first blank in `s` at or behind `from`, or the length
/// of `s` where there is none.
pub open spec fn first_blank(s: Seq<char>, from: int) -> int
    decreases s.len() - from,
{
    if 0 <= from < s.len() && s[from] != ' ' {
        first_blank(s, from + 1)
    } else {
        from
    }
}

/// The position that the text `s` gives: the layout up to the first blank,
/// and behind it, up to the next blank, the last move. Where that names no
/// cell the position has no last move; where it names one, the history holds
/// the cells of the side that moved, without that cell.
pub open spec fn ken_position(s: Seq<char>) -> Option<Position> {
    let blank = first_blank(s, 0);
    match layout_of(s.subrange(0, blank)) {
        None => None,
        Some(l) => {
            let last = if blank < s.len() {
                move_of(s.subrange(blank + 1, first_blank(s, blank + 1)), !0u128)
            } else {
                ERR_MOV
            };
            if last == ERR_MOV {
                Some(Position::settle(l.x, l.o, l.turn, Seq::empty(), Seq::empty()))
            } else {
                let moved = if l.turn { l.x } else { l.o };
                Some(
                    Position::settle(
                        l.x,
                        l.o,
                        l.turn,
                        seq![moved & !cell_bit(last)],
                        seq![last],
                    ),
                )
            }
        },
    }
}

/// A stone on the next cell is on a cell that was empty, below the cell after
/// it.
proof fn lemma_layout_stone(x: u128, o: u128, at: u8)
    requires
        at < 81,
        x & o == 0,
        (x | o) & !crate::bitboard::low_mask(at) == 0,
    ensures
        (x | (1u128 << at)) & o == 0,
        x & (o | (1u128 << at)) == 0,
        ((x | (1u128 << at)) | o) & !crate::bitboard::low_mask((at + 1) as u8) == 0,
        (x | (o | (1u128 << at))) & !crate::bitboard::low_mask((at + 1) as u8) == 0,
{
    lemma_layout_bits(x, o, x, at, (at + 1) as u8);
}


/// Stones below a cell are below every later cell, and on the board.
proof fn lemma_layout_skip(v: u128, at: u8, to: u8)
    requires
        at <= to <= 81,
    ensures
        v & !crate::bitboard::low_mask(at) == 0 ==> v & !crate::bitboard::low_mask(to) == 0,
        v & !crate::bitboard::low_mask(at) == 0 ==> v & !LF == 0,
        0u128 & 0u128 == 0,
        (0u128 | 0u128) & !crate::bitboard::low_mask(0) == 0,
{
    lemma_layout_bits(0, 0, v, at, to);
}

/// The facts on masks behind the lemmas on reading a layout.
proof fn lemma_layout_bits(x: u128, o: u128, v: u128, at: u8, to: u8)
    by (bit_vector)
    requires
        at <= to <= 81,
    ensures
        at < 81 && x & o == 0 && (x | o) & !(((1u128 << at) - 1) as u128) == 0 ==> (x | (1u128
            << at)) & o == 0 && x & (o | (1u128 << at)) == 0 && ((x | (1u128 << at)) | o) & !(((
        1u128 << ((at + 1) as u8)) - 1) as u128) == 0 && (x | (o | (1u128 << at))) & !(((1u128 << ((
        at + 1) as u8)) - 1) as u128) == 0,
        v & !(((1u128 << at) - 1) as u128) == 0 ==> v & !(((1u128 << to) - 1) as u128) == 0,
        v & !(((1u128 << at) - 1) as u128) == 0 ==> v & !0x1_ffff_ffff_ffff_ffff_ffffu128 == 0,
        0u128 & 0u128 == 0,
        (0u128 | 0u128) & !(((1u128 << 0u8) - 1) as u128) == 0,
{
}


impl Board {
    /// Works out the outcomes of the small boards, the closed cells and the
    /// status from the stones, all nine small boards anew.
    fn settle(&mut self)
        ensures
            final(self)@ == Position::settle(
                old(self)@.x,
                old(self)@.o,
                old(self)@.turn,
                old(self)@.history,
                old(self)@.moves,
            ),
    {
        let ghost x = self@.x;
        let ghost o = self@.o;
        self.global = [0; 3];
        self.lwbits = !LF;
        proof {
            lemma_closed_gain(0, 0);
        }
        let mut i: u8 = 0;
        while i < 9
            invariant
                i <= 9,
                self@.x == x,
                self@.o == o,
                self@.turn == old(self)@.turn,
                self@.history == old(self)@.history,
                self@.moves == old(self)@.moves,
                self.global[0] == outcome_mask(x, o, WON_X, i as nat),
                self.global[1] == outcome_mask(x, o, WON_O, i as nat),
                self.global[2] == outcome_mask(x, o, DRAWN, i as nat),
                self.lwbits == !LF | decided_cells(x, o, i as nat),
            decreases 9 - i,
        {
            proof {
                lemma_tables();
                lemma_pattern_place(x, 0, i as u128);
                lemma_pattern_place(o, 0, i as u128);
                lemma_pattern_place(x & sub_mask(i), 0, i as u128);
                lemma_pattern_place(o & sub_mask(i), 0, i as u128);
                lemma_closed_gain(decided_cells(x, o, i as nat), i as u128);
            }
            let localx: u128 = self.locals[0] & SUB_LOOKUP[i as usize];
            let subx: u16 = ((localx >> (i * 9)) & LS) as u16;
            let localo: u128 = self.locals[1] & SUB_LOOKUP[i as usize];
            let subo: u16 = ((localo >> (i * 9)) & LS) as u16;
            if holds_line(subx) {
                self.global[0].set_bit(i);
                self.lwbits |= SUB_LOOKUP[i as usize];
            } else if holds_line(subo) {
                self.global[1].set_bit(i);
                self.lwbits |= SUB_LOOKUP[i as usize];
            } else if subx | subo == SF {
                self.global[2].set_bit(i);
                self.lwbits |= SUB_LOOKUP[i as usize];
            }
            i += 1;
        }
        self.status = if holds_line(self.global[0]) {
            0
        } else if holds_line(self.global[1]) {
            1
        } else if self.global[0] | self.global[1] | self.global[2] == SF {
            2
        } else {
            3
        };
    }

    /// Sets the board up from the text `ken`: nine groups of `x`, `o` and
    /// counts of empty cells, and behind a blank the last move. Tells
    /// whether the text was taken; where it was not, the board is empty.
    pub fn import_ken(&mut self, ken: &str) -> (ok: bool)
        ensures
            ok == ken_position(ken@).is_some(),
            ok ==> final(self)@ == ken_position(ken@).unwrap(),
            !ok ==> final(self)@ == Position::empty(),
            final(self)@.wf(),
    {
        self.clear();
        let n: usize = ken.unicode_len();
        let mut blank: usize = 0;
        while blank < n && ken.get_char(blank) != ' '
            invariant
                blank <= n == ken@.len(),
                first_blank(ken@, 0) == first_blank(ken@, blank as int),
            decreases n - blank,
        {
            blank += 1;
        }
        assert(blank == first_blank(ken@, 0));
        let ghost text = ken@.subrange(0, blank as int);
        let mut bit: u8 = 0;
        let mut at: usize = 0;
        let mut x: u128 = 0;
        let mut o: u128 = 0;
        let mut turn: bool = false;
        proof {
            assert(text.subrange(0, 0) =~= Seq::<char>::empty());
            lemma_layout_skip(0, 0, 0);
        }
        while at < blank
            invariant
                at <= blank <= n == ken@.len(),
                blank == first_blank(ken@, 0),
                text == ken@.subrange(0, blank as int),
                self@ == Position::empty(),
                self@.wf(),
                bit <= 81,
                x & o == 0,
                (x | o) & !crate::bitboard::low_mask(bit) == 0,
                layout_of(text.subrange(0, at as int)) == Some(
                    Layout { x, o, at: bit as nat, turn },
                ),
            decreases blank - at,
        {
            let c: char = ken.get_char(at);
            let code: u32 = c as u32;
            proof {
                let upto = text.subrange(0, at + 1);
                assert(upto.drop_last() =~= text.subrange(0, at as int));
                assert(upto.last() == c);
                assert(text.subrange(0, blank as int) =~= text);
                if layout_step(Layout { x, o, at: bit as nat, turn }, c).is_none() {
                    lemma_layout_rejects(text, at + 1);
                }
            }
            if c == '-' {
            } else if c == 'x' {
                if bit >= 81 {
                    return false;
                }
                proof {
                    lemma_layout_stone(x, o, bit);
                }
                x.set_bit(bit);
                turn = !turn;
                bit += 1;
            } else if c == 'o' {
                if bit >= 81 {
                    return false;
                }
                proof {
                    lemma_layout_stone(x, o, bit);
                }
                o.set_bit(bit);
                turn = !turn;
                bit += 1;
            } else if 49 <= code && code <= 57 {
                let skip: u8 = (code - 48) as u8;
                if bit + skip > 81 {
                    return false;
                }
                proof {
                    lemma_layout_skip(x | o, bit, (bit + skip) as u8);
                }
                bit += skip;
            } else {
                return false;
            }
            at += 1;
        }
        proof {
            assert(text.subrange(0, blank as int) =~= text);
            lemma_layout_skip(x | o, bit, 81);
        }
        self.locals[0] = x;
        self.locals[1] = o;
        self.turn = turn;

        if blank < n {
            let mut next: usize = blank + 1;
            while next < n && ken.get_char(next) != ' '
                invariant
                    blank < next <= n == ken@.len(),
                    first_blank(ken@, blank + 1) == first_blank(ken@, next as int),
                decreases n - next,
            {
                next += 1;
            }
            let last_mov: u8 = read_move(ken, blank + 1, next, !0);
            if last_mov != ERR_MOV {
                self.moves.push(last_mov);
                let mut prev: u128 = if self.turn { self.locals[0] } else { self.locals[1] };
                prev.del_bit(last_mov);
                self.history.push(prev);
            }
        }
        self.settle();
        proof {
            assert(self@.moves =~= ken_position(ken@).unwrap().moves);
            assert(self@.history =~= ken_position(ken@).unwrap().history);
        }
        true
    }
}

/// A text whose beginning is not taken is not taken.
proof fn lemma_layout_rejects(s: Seq<char>, n: int)
    requires
        0 <= n <= s.len(),
        layout_of(s.subrange(0, n)).is_none(),
    ensures
        layout_of(s).is_none(),
    decreases s.len() - n,
{
    if n < s.len() {
        let upto = s.subrange(0, n + 1);
        assert(upto.drop_last() =~= s.subrange(0, n));
        lemma_layout_rejects(s, n + 1);
    } else {
        assert(s.subrange(0, n) =~= s);
    }
}

/// The text of a run of `run` empty cells: nothing for none, else the digit.
pub open spec fn run_text(run: nat) -> Seq<char> {
    if run == 0 {
        Seq::empty()
    } else {
        seq![(48 + run) as char]
    }
}

/// The text that cell `cell` adds behind a run of `run` empty cells: a stone
/// behind the run, or nothing for an empty cell.
pub open spec fn stone_text(x: u128, o: u128, cell: u8, run: nat) -> Seq<char> {
    if x & cell_bit(cell) != 0 {
        run_text(run).push('x')
    } else if o & cell_bit(cell) != 0 {
        run_text(run).push('o')
    } else {
        Seq::empty()
    }
}

/// The run of empty cells behind cell `cell`: none behind a stone, else one
/// more.
pub open spec fn run_behind(x: u128, o: u128, cell: u8, run: nat) -> nat {
    if x & cell_bit(cell) != 0 || o & cell_bit(cell) != 0 {
        0
    } else {
        run + 1
    }
}

/// What parts the small boards: a `-` behind every ninth cell but the last.
pub open spec fn bar_text(from: nat) -> Seq<char> {
    if from != 80 {
        seq!['-']
    } else {
        Seq::empty()
    }
}

/// The text of the cells from `from` on, behind a run of `run` empty cells
/// that is not written yet: a stone is written behind the run before it, a
/// run ends with its small board, and a `-` parts the small boards.
pub open spec fn layout_text(x: u128, o: u128, from: nat, run: nat) -> Seq<char>
    decreases 81 - from,
{
    if from >= 81 {
        Seq::empty()
    } else {
        let stone = stone_text(x, o, from as u8, run);
        let left = run_behind(x, o, from as u8, run);
        if from % 9 == 8 {
            stone + run_text(left) + bar_text(from) + layout_text(x, o, from + 1, 0)
        } else {
            stone + layout_text(x, o, from + 1, left)
        }
    }
}

/// The text of the position `p`: the layout of its stones, a blank, and the
/// last move, or `-` where there is none.
pub open spec fn ken_text(p: Position) -> Seq<char> {
    layout_text(p.x, p.o, 0, 0) + seq![' '] + if p.moves.len() == 0 {
        seq!['-']
    } else {
        move_text(p.moves.last())
    }
}

/// Adds the characters of `tail` to `s`.
pub fn push_str(s: &mut String, tail: &str)
    ensures
        final(s)@ == old(s)@ + tail@,
{
    let n: usize = tail.unicode_len();
    let mut i: usize = 0;
    while i < n
        invariant
            i <= n == tail@.len(),
            s@ == old(s)@ + tail@.subrange(0, i as int),
        decreases n - i,
    {
        let c: char = tail.get_char(i);
        push_char(s, c);
        proof {
            assert(tail@.subrange(0, i + 1) =~= tail@.subrange(0, i as int).push(c));
        }
        i += 1;
    }
    proof {
        assert(tail@.subrange(0, n as int) =~= tail@);
    }
}

impl Board {
    /// The text of the board: nine groups of `x`, `o` and counts of empty
    /// cells, and behind a blank the last move.
    pub fn export_ken(&self) -> (ken: String)
        ensures
            ken@ == ken_text(self@),
    {
        let ghost x = self@.x;
        let ghost o = self@.o;
        let mut ken = String::new();
        let mut empty: u8 = 0;
        let mut bit: u8 = 0;
        while bit < 81
            invariant
                bit <= 81,
                x == self@.x,
                o == self@.o,
                empty <= bit % 9,
                ken@ + layout_text(x, o, bit as nat, empty as nat) == layout_text(x, o, 0, 0),
            decreases 81 - bit,
        {
            let ghost before = ken@;
            let ghost rest = layout_text(x, o, bit as nat, empty as nat);
            let ghost run = empty;
            proof {
                lemma_tables();
            }
            let xbit: u128 = self.locals[0].get_bit(bit);
            let obit: u128 = self.locals[1].get_bit(bit);
            if xbit != 0 {
                if empty != 0 {
                    push_char(&mut ken, (49u8 + empty - 1) as char);
                    empty = 0;
                }
                push_char(&mut ken, 'x');
            } else if obit != 0 {
                if empty != 0 {
                    push_char(&mut ken, (49u8 + empty - 1) as char);
                    empty = 0;
                }
                push_char(&mut ken, 'o');
            } else {
                empty += 1;
            }
            if MOD_LOOKUP[bit as usize] > 7 {
                if empty != 0 {
                    push_char(&mut ken, (49u8 + empty - 1) as char);
                    empty = 0;
                }
                if bit != 80 {
                    push_char(&mut ken, '-');
                }
            }
            proof {
                let next = layout_text(x, o, (bit + 1) as nat, empty as nat);
                assert(ken@ + next =~= before + rest);
            }
            bit += 1;
        }
        proof {
            assert(ken@ + Seq::<char>::empty() =~= ken@);
        }
        push_char(&mut ken, ' ');
        if self.moves.len() == 0 {
            push_char(&mut ken, '-');
        } else {
            let last: String = transform_move_back(self.moves[self.moves.len() - 1]);
            push_str(&mut ken, last.as_str());
        }
        proof {
            assert(ken@ =~= ken_text(self@));
        }
        ken
    }
}

/// Where the word that begins at `from` ends: at the first white space
/// behind it, or at the end of `s`.
pub open spec fn word_end(s: Seq<char>, from: int) -> int
    decreases s.len() - from,
{
    if 0 <= from < s.len() && !is_space(s[from]) {
        word_end(s, from + 1)
    } else {
        from
    }
}

/// The position that the moves in `s`, read from `from` on, lead to from
/// `p`, and whether all of them were played. The words are parted by white
/// space; a word that ends in a full stop numbers a move and is passed
/// over; any other is a move, and the first that is not legal ends the
/// reading, with the moves before it played.
pub open spec fn replay(p: Position, s: Seq<char>, from: int) -> (Position, bool)
    decreases s.len() - from,
{
    let start = trim_start(s, from);
    let end = word_end(s, start);
    if 0 <= from <= start < end <= s.len() {
        let word = s.subrange(start, end);
        if word.last() == '.' {
            replay(p, s, end)
        } else {
            let mov = move_of(word, p.legal_moves());
            if mov == ERR_MOV {
                (p, false)
            } else {
                replay(p.after_move(mov), s, end)
            }
        }
    } else {
        (p, true)
    }
}

/// The digits of `n`.
pub open spec fn decimal(n: nat) -> Seq<char>
    decreases n,
{
    if n < 10 {
        seq![(48 + n) as char]
    } else {
        decimal(n / 10).push((48 + n % 10) as char)
    }
}

/// Adds the digits of `n` to `s`.
pub fn push_decimal(s: &mut String, n: u128)
    ensures
        final(s)@ == old(s)@ + decimal(n as nat),
    decreases n,
{
    if n >= 10 {
        push_decimal(s, n / 10);
    }
    push_char(s, (48u8 + (n % 10) as u8) as char);
    proof {
        assert(s@ =~= old(s)@ + decimal(n as nat));
    }
}

/// The text of the moves from the `i`th on, where `cnt` counts the half
/// moves from 2: in the formats 1 and 2 each move of X has its number and a
/// full stop before it; the moves are parted by a blank, in format 2 by a
/// line break behind each move of O.
pub open spec fn moves_text(moves: Seq<u8>, format: u8, i: nat, cnt: nat) -> Seq<char>
    decreases moves.len() - i,
{
    if i >= moves.len() {
        Seq::empty()
    } else {
        let number = if format != 0 && cnt % 2 == 0 {
            decimal(cnt / 2) + seq!['.', ' ']
        } else {
            Seq::empty()
        };
        let parting = if i + 1 == moves.len() {
            Seq::empty()
        } else if format == 2 && cnt % 2 == 1 {
            seq!['\n']
        } else {
            seq![' ']
        };
        number + move_text(moves[i as int]) + parting + moves_text(moves, format, i + 1, cnt + 1)
    }
}

/// Whether the first move on record was one of O.
pub open spec fn begins_with_o(p: Position) -> bool {
    (p.moves.len() % 2 == 1) != p.turn
}

/// The text of the moves on record. Where the first was one of O, the
/// formats 1 and 2 begin with the number 1 and three full stops in the
/// place of the move of X.
pub open spec fn history_text(p: Position, format: u8) -> Seq<char> {
    if p.moves.len() == 0 {
        Seq::empty()
    } else if begins_with_o(p) {
        let head = if format != 0 {
            seq!['1', '.', ' ', '.', '.', '.', ' ']
        } else {
            Seq::empty()
        };
        head + moves_text(p.moves, format, 0, 3)
    } else {
        moves_text(p.moves, format, 0, 2)
    }
}

/// A word ends within the text, behind its beginning where that is no white
/// space, and holds no white space.
proof fn lemma_word_end(s: Seq<char>, from: int)
    requires
        0 <= from <= s.len(),
    ensures
        from <= word_end(s, from) <= s.len(),
        from < s.len() && !is_space(s[from]) ==> word_end(s, from) > from,
        forall|i: int| from <= i < word_end(s, from) ==> !is_space(#[trigger] s[i]),
    decreases s.len() - from,
{
    if from < s.len() && !is_space(s[from]) {
        lemma_word_end(s, from + 1);
    }
}

/// White space is passed over up to a character that is none, or the end.
proof fn lemma_trim_start(s: Seq<char>, from: int)
    requires
        0 <= from <= s.len(),
    ensures
        from <= trim_start(s, from) <= s.len(),
        trim_start(s, from) < s.len() ==> !is_space(s[trim_start(s, from)]),
    decreases s.len() - from,
{
    if from < s.len() && is_space(s[from]) {
        lemma_trim_start(s, from + 1);
    }
}

impl Board {
    /// Sets the board up by playing the moves in the text `moves` from the
    /// empty board. Words that end in a full stop are passed over. Tells
    /// whether every move was played; the first that is not legal ends the
    /// reading, and the moves before it stay played.
    pub fn import_history(&mut self, moves: &str) -> (ok: bool)
        ensures
            final(self)@ == replay(Position::empty(), moves@, 0).0,
            ok == replay(Position::empty(), moves@, 0).1,
            final(self)@.wf(),
            played(final(self)@),
    {
        self.clear();
        let n: usize = moves.unicode_len();
        let mut at: usize = 0;
        loop
            invariant
                at <= n == moves@.len(),
                self@.wf(),
                played(self@),
                replay(self@, moves@, at as int) == replay(Position::empty(), moves@, 0),
            decreases n - at,
        {
            let ghost from = at;
            while at < n && is_whitespace(moves.get_char(at))
                invariant
                    from <= at <= n == moves@.len(),
                    trim_start(moves@, from as int) == trim_start(moves@, at as int),
                decreases n - at,
            {
                at += 1;
            }
            proof {
                lemma_trim_start(moves@, from as int);
                lemma_word_end(moves@, at as int);
            }
            if at >= n {
                return true;
            }
            let start: usize = at;
            while at < n && !is_whitespace(moves.get_char(at))
                invariant
                    start <= at <= n == moves@.len(),
                    word_end(moves@, start as int) == word_end(moves@, at as int),
                decreases n - at,
            {
                at += 1;
            }
            if moves.get_char(at - 1) == '.' {
                continue;
            }
            let mov: u8 = read_move(moves, start, at, self.generate_legal_moves());
            if mov == ERR_MOV {
                return false;
            }
            self.make_move(mov);
        }
    }

    /// The text of the moves on record: format 0 has the moves alone,
    /// format 1 numbers them, format 2 also breaks the line behind each move
    /// of O.
    pub fn export_history(&self, format: u8) -> (history: String)
        requires
            self@.moves.len() + 3 <= usize::MAX,
        ensures
            history@ == history_text(self@, format),
    {
        let mut history = String::new();
        if self.moves.len() == 0 {
            return history;
        }
        let mut cnt: usize = 2;
        if (self.moves.len() % 2 == 1) != self.turn {
            cnt += 1;
            if format != 0 {
                push_char(&mut history, '1');
                push_char(&mut history, '.');
                push_char(&mut history, ' ');
                push_char(&mut history, '.');
                push_char(&mut history, '.');
                push_char(&mut history, '.');
                push_char(&mut history, ' ');
            }
        }
        let ghost first = cnt;
        let mut i: usize = 0;
        while i < self.moves.len()
            invariant
                i <= self.moves@.len(),
                cnt == first + i,
                2 <= first <= 3,
                self@.moves.len() + 3 <= usize::MAX,
                history@ + moves_text(self@.moves, format, i as nat, cnt as nat) == history_text(
                    self@,
                    format,
                ),
            decreases self.moves@.len() - i,
        {
            let ghost before = history@;
            let ghost rest = moves_text(self@.moves, format, i as nat, cnt as nat);
            if format != 0 && cnt % 2 == 0 {
                push_decimal(&mut history, (cnt / 2) as u128);
                push_char(&mut history, '.');
                push_char(&mut history, ' ');
            }
            let text: String = transform_move_back(self.moves[i]);
            push_str(&mut history, text.as_str());
            if i + 1 != self.moves.len() {
                if format == 2 && cnt % 2 == 1 {
                    push_char(&mut history, '\n');
                } else {
                    push_char(&mut history, ' ');
                }
            }
            proof {
                let next = moves_text(self@.moves, format, (i + 1) as nat, (cnt + 1) as nat);
                assert(history@ + next =~= before + rest);
            }
            cnt += 1;
            i += 1;
        }
        proof {
            assert(history@ + Seq::<char>::empty() =~= history@);
        }
        history
    }
}

/// The stones below the next cell are those below this cell and the stone on
/// it.
proof fn lemma_low_step(x: u128, o: u128, n: u8)
    by (bit_vector)
    requires
        n < 81,
    ensures
        x & (1u128 << n) != 0 ==> x & (((1u128 << ((n + 1) as u8)) - 1) as u128) == (x & (((1u128
            << n) - 1) as u128)) | (1u128 << n),
        x & (1u128 << n) == 0 ==> x & (((1u128 << ((n + 1) as u8)) - 1) as u128) == x & (((1u128
            << n) - 1) as u128),
        x & o == 0 && x & (1u128 << n) != 0 ==> o & (1u128 << n) == 0,
        x & (((1u128 << 0u8) - 1) as u128) == 0,
        x & !0x1_ffff_ffff_ffff_ffff_ffffu128 == 0 ==> x & (((1u128 << 81u8) - 1) as u128) == x,
        !0u128 & (1u128 << n) != 0,
        (x | o) & (1u128 << n) != 0 <==> x & (1u128 << n) != 0 || o & (1u128 << n) != 0,
{
}

/// Reading one more character is one more step.
proof fn lemma_layout_push(s: Seq<char>, c: char)
    ensures
        layout_of(s.push(c)) == match layout_of(s) {
            Some(l) => layout_step(l, c),
            None => None,
        },
{
    assert(s.push(c).drop_last() =~= s);
}

/// Reading a run of empty cells moves on by its length.
proof fn lemma_layout_run(s: Seq<char>, l: Layout, run: nat)
    requires
        layout_of(s) == Some(l),
        run <= 9,
        l.at + run <= 81,
    ensures
        layout_of(s + run_text(run)) == Some(Layout { x: l.x, o: l.o, at: l.at + run, turn: l.turn }),
{
    if run == 0 {
        assert(s + run_text(run) =~= s);
    } else {
        let c = (48 + run) as char;
        assert(s + run_text(run) =~= s.push(c));
        lemma_layout_push(s, c);
        assert(c as u32 == 48 + run);
    }
}

/// What has been read up to cell `from`, behind a run of `run` empty cells
/// that is not read yet.
pub open spec fn layout_upto(x: u128, o: u128, from: nat, run: nat, turn: bool) -> Layout {
    Layout {
        x: x & crate::bitboard::low_mask(from as u8),
        o: o & crate::bitboard::low_mask(from as u8),
        at: (from - run) as nat,
        turn,
    }
}

/// Whose turn it is behind cell `cell`.
pub open spec fn turn_behind(x: u128, o: u128, cell: u8, turn: bool) -> bool {
    if x & cell_bit(cell) != 0 || o & cell_bit(cell) != 0 {
        !turn
    } else {
        turn
    }
}

/// Reading what one cell adds moves on by that cell.
proof fn lemma_layout_cell(s: Seq<char>, x: u128, o: u128, from: nat, run: nat, turn: bool)
    requires
        from < 81,
        run <= from % 9,
        x & o == 0,
        layout_of(s) == Some(layout_upto(x, o, from, run, turn)),
    ensures
        layout_of(s + stone_text(x, o, from as u8, run)) == Some(
            layout_upto(
                x,
                o,
                from + 1,
                run_behind(x, o, from as u8, run),
                turn_behind(x, o, from as u8, turn),
            ),
        ),
{
    let cell = from as u8;
    lemma_low_step(x, o, cell);
    lemma_low_step(o, x, cell);
    let before = layout_upto(x, o, from, run, turn);
    let stone = stone_text(x, o, cell, run);
    if x & cell_bit(cell) != 0 {
        lemma_layout_run(s, before, run);
        assert(s + stone =~= (s + run_text(run)).push('x'));
        lemma_layout_push(s + run_text(run), 'x');
    } else if o & cell_bit(cell) != 0 {
        lemma_layout_run(s, before, run);
        assert(s + stone =~= (s + run_text(run)).push('o'));
        lemma_layout_push(s + run_text(run), 'o');
    } else {
        assert(s + stone =~= s);
    }
}

/// Reading what ends a small board leaves no run behind.
proof fn lemma_layout_bar(s: Seq<char>, l: Layout, from: nat, left: nat)
    requires
        from < 81,
        left <= 9,
        l.at + left == from + 1,
        layout_of(s) == Some(l),
    ensures
        layout_of(s + run_text(left) + bar_text(from)) == Some(
            Layout { x: l.x, o: l.o, at: from + 1, turn: l.turn },
        ),
{
    lemma_layout_run(s, l, left);
    let s2 = s + run_text(left);
    if from != 80 {
        assert(s2 + bar_text(from) =~= s2.push('-'));
        lemma_layout_push(s2, '-');
    } else {
        assert(s2 + bar_text(from) =~= s2);
    }
}

/// The text of the cells from `from` on, read behind a text that gave the
/// cells before them, gives all the stones.
proof fn lemma_layout_text_reads(s: Seq<char>, x: u128, o: u128, from: nat, run: nat, turn: bool)
    requires
        from <= 81,
        from < 81 ==> run <= from % 9,
        from == 81 ==> run == 0,
        x & o == 0,
        (x | o) & !LF == 0,
        layout_of(s) == Some(layout_upto(x, o, from, run, turn)),
    ensures
        layout_of(s + layout_text(x, o, from, run)).is_some(),
        layout_of(s + layout_text(x, o, from, run)).unwrap().x == x,
        layout_of(s + layout_text(x, o, from, run)).unwrap().o == o,
        layout_of(s + layout_text(x, o, from, run)).unwrap().turn == (turn != ((count_below(
            x | o,
            81,
        ) - count_below(x | o, from)) % 2 == 1)),
    decreases 81 - from,
{
    let text = layout_text(x, o, from, run);
    crate::bitboard::lemma_count_below_monotone(x | o, from, 81);
    if from >= 81 {
        assert(s + text =~= s);
        lemma_low_step(x, o, 0);
        lemma_low_step(o, x, 0);
        lemma_split_cells(x, o);
    } else {
        let cell = from as u8;
        let stone = stone_text(x, o, cell, run);
        let left = run_behind(x, o, cell, run);
        let next = turn_behind(x, o, cell, turn);
        let s1 = s + stone;
        lemma_low_step(x, o, cell);
        crate::bitboard::lemma_count_below_monotone(x | o, from + 1, 81);
        assert(count_below(x | o, from + 1) == count_below(x | o, from) + if (x | o) & (1u128
            << cell) != 0 {
            1nat
        } else {
            0nat
        });
        lemma_layout_cell(s, x, o, from, run, turn);
        if from % 9 == 8 {
            let s3 = s1 + run_text(left) + bar_text(from);
            lemma_layout_bar(s1, layout_upto(x, o, from + 1, left, next), from, left);
            assert(layout_upto(x, o, from + 1, 0, next) == Layout {
                x: layout_upto(x, o, from + 1, left, next).x,
                o: layout_upto(x, o, from + 1, left, next).o,
                at: from + 1,
                turn: next,
            });
            lemma_layout_text_reads(s3, x, o, from + 1, 0, next);
            assert(s + text =~= s3 + layout_text(x, o, from + 1, 0));
        } else {
            lemma_layout_text_reads(s1, x, o, from + 1, left, next);
            assert(s + text =~= s1 + layout_text(x, o, from + 1, left));
        }
    }
}

/// Where both sides together are on the board, each side is.
proof fn lemma_split_cells(x: u128, o: u128)
    requires
        (x | o) & !LF == 0,
    ensures
        x & !LF == 0,
        o & !LF == 0,
{
    lemma_layout_bits(x, o, x | o, 81, 81);
    lemma_cells_apart(x, o);
}

/// A union on the board is made of masks on the board.
proof fn lemma_cells_apart(x: u128, o: u128)
    by (bit_vector)
    requires
        (x | o) & !0x1_ffff_ffff_ffff_ffff_ffffu128 == 0,
    ensures
        x & !0x1_ffff_ffff_ffff_ffff_ffffu128 == 0,
        o & !0x1_ffff_ffff_ffff_ffff_ffffu128 == 0,
{
}

/// Whether `s` holds no blank.
pub open spec fn no_blank(s: Seq<char>) -> bool {
    forall|i: int| 0 <= i < s.len() ==> s[i] != ' '
}

/// Two texts without a blank make a text without one.
proof fn lemma_no_blank_add(a: Seq<char>, b: Seq<char>)
    requires
        no_blank(a),
        no_blank(b),
    ensures
        no_blank(a + b),
{
    assert forall|i: int| 0 <= i < (a + b).len() implies (a + b)[i] != ' ' by {
        if i < a.len() {
            assert((a + b)[i] == a[i]);
        } else {
            assert((a + b)[i] == b[i - a.len()]);
        }
    }
}

/// The text of a run, of a stone and of a bar hold no blank.
proof fn lemma_no_blank_parts(x: u128, o: u128, cell: u8, run: nat, from: nat)
    requires
        run <= 9,
    ensures
        no_blank(run_text(run)),
        no_blank(stone_text(x, o, cell, run)),
        no_blank(bar_text(from)),
{
    assert(((48 + run) as char) as u32 == 48 + run);
    lemma_no_blank_add(run_text(run), seq!['x']);
    lemma_no_blank_add(run_text(run), seq!['o']);
    assert(run_text(run).push('x') =~= run_text(run) + seq!['x']);
    assert(run_text(run).push('o') =~= run_text(run) + seq!['o']);
}

/// The text of a layout holds no blank.
proof fn lemma_layout_text_no_blank(x: u128, o: u128, from: nat, run: nat)
    requires
        from < 81 ==> run <= from % 9,
    ensures
        no_blank(layout_text(x, o, from, run)),
    decreases 81 - from,
{
    if from < 81 {
        let cell = from as u8;
        let stone = stone_text(x, o, cell, run);
        let left = run_behind(x, o, cell, run);
        lemma_no_blank_parts(x, o, cell, run, from);
        lemma_no_blank_parts(x, o, cell, left, from);
        if from % 9 == 8 {
            lemma_layout_text_no_blank(x, o, from + 1, 0);
            lemma_no_blank_add(stone, run_text(left));
            lemma_no_blank_add(stone + run_text(left), bar_text(from));
            lemma_no_blank_add(
                stone + run_text(left) + bar_text(from),
                layout_text(x, o, from + 1, 0),
            );
        } else {
            lemma_layout_text_no_blank(x, o, from + 1, left);
            lemma_no_blank_add(stone, layout_text(x, o, from + 1, left));
        }
    }
}

/// The first blank behind a stretch without one is the next blank.
proof fn lemma_first_blank_at(s: Seq<char>, from: int, at: int)
    requires
        0 <= from <= at <= s.len(),
        forall|i: int| from <= i < at ==> s[i] != ' ',
        at < s.len() ==> s[at] == ' ',
    ensures
        first_blank(s, from) == at,
    decreases at - from,
{
    if from < at {
        lemma_first_blank_at(s, from + 1, at);
    }
}

/// The text of a position leads back to the position: reading what was
/// written gives the same stones, the same outcomes of the small boards,
/// the same closed cells, the same status and the same legal moves. The
/// side to move is the one that the number of stones gives, and of the
/// moves on record the last is kept.
pub proof fn lemma_notation_round_trip(p: Position)
    requires
        p.wf(),
    ensures
        ken_position(ken_text(p)).is_some(),
        ({
            let q = ken_position(ken_text(p)).unwrap();
            &&& q.x == p.x
            &&& q.o == p.o
            &&& q.won_x == p.won_x
            &&& q.won_o == p.won_o
            &&& q.drawn == p.drawn
            &&& q.closed == p.closed
            &&& q.status == p.status
            &&& q.legal_moves() == p.legal_moves()
            &&& q.moves == if p.moves.len() == 0 {
                Seq::<u8>::empty()
            } else {
                seq![p.moves.last()]
            }
            &&& q.turn == (p.stones() % 2 == 1)
        }),
{
    let layout = layout_text(p.x, p.o, 0, 0);
    let last: Seq<char> = if p.moves.len() == 0 {
        seq!['-']
    } else {
        move_text(p.moves.last())
    };
    let text = ken_text(p);
    assert(text =~= layout + seq![' '] + last);
    lemma_layout_text_no_blank(p.x, p.o, 0, 0);
    assert(no_blank(last)) by {
        if p.moves.len() > 0 {
            assert(p.moves.last() < 81);
            lemma_move_text_names(p.moves.last());
        }
    }
    let blank = layout.len() as int;
    lemma_first_blank_at(text, 0, blank);
    assert(text.subrange(0, blank) =~= layout);
    // the layout gives the stones
    lemma_low_step(p.x, p.o, 0);
    lemma_low_step(p.o, p.x, 0);
    let none = Seq::<char>::empty();
    lemma_layout_text_reads(none, p.x, p.o, 0, 0, false);
    assert(none + layout =~= layout);
    // the last move gives the last move
    if p.moves.len() > 0 {
        let mov = p.moves.last();
        assert(mov < 81);
        lemma_move_text_names(mov);
        lemma_low_step(0, 0, mov);
    }
    lemma_first_blank_at(text, blank + 1, text.len() as int);
    let word = text.subrange(blank + 1, text.len() as int);
    assert(word =~= last);
    assert(trim_start(word, 0) == 0);
    assert(trim_end(word, 0, word.len() as int) == word.len());
}

/// The text of a game leads back to the game: reading what was written of
/// a position that came about by play gives the same stones, the same
/// outcomes of the small boards, the same closed cells, the same status, the
/// same side to move and the same legal moves.
pub proof fn lemma_played_round_trip(p: Position)
    requires
        played(p),
    ensures
        ken_position(ken_text(p)).is_some(),
        ({
            let q = ken_position(ken_text(p)).unwrap();
            &&& q.x == p.x
            &&& q.o == p.o
            &&& q.won_x == p.won_x
            &&& q.won_o == p.won_o
            &&& q.drawn == p.drawn
            &&& q.closed == p.closed
            &&& q.status == p.status
            &&& q.turn == p.turn
            &&& q.legal_moves() == p.legal_moves()
        }),
{
    crate::board::lemma_played(p);
    lemma_notation_round_trip(p);
}

/// The digits of a number are digits, and one at least.
proof fn lemma_decimal_digits(n: nat)
    ensures
        decimal(n).len() >= 1,
        forall|k: int| 0 <= k < decimal(n).len() ==> 48 <= (#[trigger] decimal(n)[k]) as u32 <= 57,
    decreases n,
{
    if n >= 10 {
        lemma_decimal_digits(n / 10);
        assert(((48 + n % 10) as char) as u32 == 48 + n % 10);
    } else {
        assert(((48 + n) as char) as u32 == 48 + n);
    }
}

/// A word ends where the first white space stands behind characters that
/// are none, or the text ends.
proof fn lemma_word_end_at(s: Seq<char>, from: int, at: int)
    requires
        0 <= from <= at <= s.len(),
        forall|k: int| from <= k < at ==> !is_space(#[trigger] s[k]),
        at < s.len() ==> is_space(s[at]),
    ensures
        word_end(s, from) == at,
    decreases at - from,
{
    if from < at {
        lemma_word_end_at(s, from + 1, at);
    }
}

/// Reading begins behind white space.
proof fn lemma_replay_skips(q: Position, s: Seq<char>, from: int, to: int)
    requires
        0 <= from <= to <= s.len(),
        forall|k: int| from <= k < to ==> is_space(#[trigger] s[k]),
    ensures
        replay(q, s, from) == replay(q, s, to),
    decreases to - from,
{
    if from < to {
        lemma_replay_skips(q, s, from + 1, to);
        assert(trim_start(s, from) == trim_start(s, from + 1));
        lemma_trim_start(s, from + 1);
        lemma_trim_start(s, to);
    }
}

/// Reading a word that numbers a move passes it over.
proof fn lemma_replay_number(q: Position, s: Seq<char>, from: int, n: nat)
    requires
        0 <= from,
        from + decimal(n).len() + 2 <= s.len(),
        s.subrange(from, from + decimal(n).len() + 2) == decimal(n) + seq!['.', ' '],
    ensures
        replay(q, s, from) == replay(q, s, from + decimal(n).len() + 2),
{
    let d = decimal(n).len() as int;
    let part = decimal(n) + seq!['.', ' '];
    lemma_decimal_digits(n);
    assert forall|k: int| from <= k < from + d + 1 implies !is_space(#[trigger] s[k]) by {
        assert(s[k] == part[k - from]);
        if k - from < d {
            assert(part[k - from] == decimal(n)[k - from]);
        }
    }
    assert(s[from + d + 1] == part[d + 1]);
    assert(s[from + d] == part[d]);
    lemma_word_end_at(s, from, from + d + 1);
    assert(trim_start(s, from) == from);
    let word = s.subrange(from, from + d + 1);
    assert(word.last() == '.');
    lemma_replay_skips(q, s, from + d + 1, from + d + 2);
}

/// Reading the text of a legal move plays the move.
proof fn lemma_replay_move(q: Position, s: Seq<char>, from: int, mov: u8)
    requires
        q.wf(),
        q.is_legal(mov),
        0 <= from,
        from + 2 <= s.len(),
        s.subrange(from, from + 2) == move_text(mov),
        from + 2 < s.len() ==> is_space(s[from + 2]),
    ensures
        replay(q, s, from) == replay(q.after_move(mov), s, from + 2),
{
    crate::board::lemma_after_move(q, mov);
    lemma_move_text_names(mov);
    let text = move_text(mov);
    assert(s[from] == text[0]);
    assert(s[from + 1] == text[1]);
    lemma_word_end_at(s, from, from + 2);
    assert(trim_start(s, from) == from);
    let word = s.subrange(from, from + 2);
    assert(word =~= text);
    assert(word.last() == text[1]);
    assert(text[1] as u32 == 49 + rank_of(mov as int));
    lemma_rank_file(mov as int);
    assert(trim_start(word, 0) == 0);
    assert(trim_end(word, 0, 2) == 2);
    assert(cell_bit(mov) == 1u128 << mov);
}

/// Reading the text of moves that can be played plays them all.
proof fn lemma_replay_moves(
    q: Position,
    moves: Seq<u8>,
    format: u8,
    i: nat,
    cnt: nat,
    s: Seq<char>,
    from: int,
)
    requires
        i <= moves.len(),
        playable(q, moves, i),
        0 <= from <= s.len(),
        s.subrange(from, s.len() as int) == moves_text(moves, format, i, cnt),
    ensures
        replay(q, s, from) == (played_from(q, moves, i), true),
    decreases moves.len() - i,
{
    let text = moves_text(moves, format, i, cnt);
    if i >= moves.len() {
        assert(text.len() == 0);
        assert(from == s.len());
        assert(trim_start(s, from) == from);
    } else {
        let mov = moves[i as int];
        let number: Seq<char> = if format != 0 && cnt % 2 == 0 {
            decimal(cnt / 2) + seq!['.', ' ']
        } else {
            Seq::empty()
        };
        let parting: Seq<char> = if i + 1 == moves.len() {
            Seq::empty()
        } else if format == 2 && cnt % 2 == 1 {
            seq!['\n']
        } else {
            seq![' ']
        };
        let rest = moves_text(moves, format, i + 1, cnt + 1);
        assert(text == number + move_text(mov) + parting + rest);
        crate::board::lemma_after_move(q, mov);
        lemma_move_text_names(mov);
        let a = from + number.len();
        let b = a + 2;
        let c = b + parting.len();
        assert(s.len() == from + text.len());
        assert(s.subrange(from, a) =~= number) by {
            assert forall|k: int| 0 <= k < number.len() implies s[from + k] == number[k] by {
                assert(s.subrange(from, s.len() as int)[k] == text[k]);
            }
        }
        assert(s.subrange(a, b) =~= move_text(mov)) by {
            assert forall|k: int| 0 <= k < 2 implies s[a + k] == move_text(mov)[k] by {
                assert(s.subrange(from, s.len() as int)[a - from + k] == text[a - from + k]);
            }
        }
        assert forall|k: int| 0 <= k < parting.len() implies is_space(#[trigger] s[b + k]) by {
            assert(s.subrange(from, s.len() as int)[b - from + k] == text[b - from + k]);
            assert(text[b - from + k] == parting[k]);
        }
        assert(s.subrange(c, s.len() as int) =~= rest) by {
            assert forall|k: int| 0 <= k < rest.len() implies s[c + k] == rest[k] by {
                assert(s.subrange(from, s.len() as int)[c - from + k] == text[c - from + k]);
            }
        }
        if number.len() > 0 {
            lemma_replay_number(q, s, from, cnt / 2);
        }
        if i + 1 == moves.len() {
            assert(rest.len() == 0);
        } else {
            assert(is_space(s[b + 0]));
        }
        lemma_replay_move(q, s, a, mov);
        assert forall|k: int| b <= k < c implies is_space(#[trigger] s[k]) by {
            assert(is_space(s[b + (k - b)]));
        }
        lemma_replay_skips(q.after_move(mov), s, b, c);
        lemma_replay_moves(q.after_move(mov), moves, format, i + 1, cnt + 1, s, c);
    }
}

/// The text of the moves of a game leads back to the game: reading what
/// was written of a position that came about by play, in any of the three
/// formats, plays every move and gives the position.
pub proof fn lemma_history_round_trip(p: Position, format: u8)
    requires
        played(p),
        format <= 2,
    ensures
        replay(Position::empty(), history_text(p, format), 0) == (p, true),
{
    let text = history_text(p, format);
    let start = Position::empty();
    lemma_played_turn(start, p.moves, 0);
    if p.moves.len() == 0 {
        assert(trim_start(text, 0) == 0);
    } else {
        assert(!begins_with_o(p));
        assert(text.subrange(0, text.len() as int) =~= text);
        lemma_replay_moves(start, p.moves, format, 0, 2, text, 0);
    }
}

} // verus!
