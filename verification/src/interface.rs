//! What the interface shows: a score as a number with two decimals, the
//! board as a picture, and the line of a search.

use vstd::prelude::*;
use crate::bitboard::GetBit;
use crate::board::Board;
use crate::engine::{
    depth_limit_of, from_x, has_win, is_won, Engine, NO_TIME_LIMIT, PLY_LIMIT,
};
use crate::eval::LARGE;
use crate::lookups::{cell_bit, lemma_tables, DIV_LOOKUP};
use crate::notation::{
    cell_at, decimal, grb, move_text, push_char, push_decimal, push_str, transform_move_back,
};
use crate::position::Position;
use crate::rules::OPEN;

verus! {

/// The text of a score: its sign, then a sixth of its size, rounded down,
/// as a number of hundredths with two decimals.
pub open spec fn eval_text(eval: int) -> Seq<char> {
    let sign: Seq<char> = if eval > 0 {
        seq!['+']
    } else if eval < 0 {
        seq!['-']
    } else {
        Seq::empty()
    };
    let size = if eval < 0 { -eval } else { eval };
    let sixth = size / 6;
    sign + decimal((sixth / 100) as nat).push('.').push((48 + (sixth % 100) / 10) as char).push(
        (48 + sixth % 10) as char,
    )
}

/// The text of a score, made to look like the scores of chess.
pub fn format_eval(eval: i16) -> (r: String)
    ensures
        r@ == eval_text(eval as int),
{
    let mut out = String::new();
    if eval > 0 {
        push_char(&mut out, '+');
    } else if eval < 0 {
        push_char(&mut out, '-');
    }
    let wide: i32 = eval as i32;
    let size: u32 = if wide < 0 { (-wide) as u32 } else { wide as u32 };
    let abs: u32 = size / 6;  // make it similar to chess for human players to look at?
    let fpart: u32 = abs / 100;
    let spart: u32 = abs % 100;
    push_decimal(&mut out, fpart as u128);
    push_char(&mut out, '.');
    push_char(&mut out, (48u8 + (spart / 10) as u8) as char);
    push_char(&mut out, (48u8 + (spart % 10) as u8) as char);
    proof {
        assert(out@ =~= eval_text(eval as int));
    }
    out
}

/// The mark of cell `bit` in the picture of the board: the winner of its
/// small board in capitals, `/` in a drawn small board, else the stone on
/// it, else `.` where the side to move may play it, else a blank.
pub open spec fn cell_mark(p: Position, legals: u128, bit: u8) -> char {
    let k = bit / 9;
    if p.won_x & (1u16 << k) != 0 {
        'X'
    } else if p.won_o & (1u16 << k) != 0 {
        'O'
    } else if p.drawn & (1u16 << k) != 0 {
        '/'
    } else if p.x & cell_bit(bit) != 0 {
        'x'
    } else if p.o & cell_bit(bit) != 0 {
        'o'
    } else if legals & cell_bit(bit) != 0 {
        '.'
    } else {
        ' '
    }
}

/// The mark of cell `bit` in the picture of the board.
pub fn get_char(board: &Board, legals: u128, bit: u8) -> (r: char)
    requires
        bit < 81,
    ensures
        r == cell_mark(board@, legals, bit),
{
    proof {
        lemma_tables();
    }
    if board.global[0].get_bit(DIV_LOOKUP[bit as usize]) != 0 {
        return 'X';
    }
    if board.global[1].get_bit(DIV_LOOKUP[bit as usize]) != 0 {
        return 'O';
    }
    if board.global[2].get_bit(DIV_LOOKUP[bit as usize]) != 0 {
        return '/';
    }
    if board.locals[0].get_bit(bit) != 0 {
        return 'x';
    }
    if board.locals[1].get_bit(bit) != 0 {
        return 'o';
    }
    if legals.get_bit(bit) != 0 {
        return '.';
    }
    ' '
}

/// The rule between the bands of the picture.
pub open spec fn rule_text() -> Seq<char> {
    seq![
        ' ', ' ', '+', '-', '-', '-', '-', '-', '-', '-', '+', '-', '-', '-', '-', '-', '-', '-',
        '+', '-', '-', '-', '-', '-', '-', '-', '+', '\n',
    ]
}

/// The line of file letters under the picture.
pub open spec fn files_text() -> Seq<char> {
    seq![
        ' ', ' ', ' ', ' ', 'a', ' ', 'b', ' ', 'c', ' ', ' ', ' ', 'd', ' ', 'e', ' ', 'f', ' ',
        ' ', ' ', 'g', ' ', 'h', ' ', 'i', '\n',
    ]
}

/// The text of the cells of rank `rank` from file `file` on: a bar before
/// every third cell, a blank behind each cell, and a bar and a line break
/// at the end.
pub open spec fn rank_text(p: Position, legals: u128, rank: int, file: nat) -> Seq<char>
    decreases 9 - file,
{
    if file >= 9 {
        Seq::empty()
    } else {
        let mark = cell_mark(p, legals, cell_at(rank, file as int) as u8);
        let cell = if file % 3 == 0 {
            seq!['|', ' ', mark, ' ']
        } else if file == 8 {
            seq![mark, ' ', '|', '\n']
        } else {
            seq![mark, ' ']
        };
        cell + rank_text(p, legals, rank, file + 1)
    }
}

/// The picture of the ranks from `rank` down to the first: a rule above
/// every third rank, and each rank behind its number.
pub open spec fn ranks_text(p: Position, legals: u128, rank: int) -> Seq<char>
    decreases rank + 1,
{
    if rank < 0 {
        Seq::empty()
    } else {
        let head = if rank % 3 == 2 {
            rule_text()
        } else {
            Seq::empty()
        };
        head + seq![(49 + rank) as char, ' '] + rank_text(p, legals, rank, 0) + ranks_text(
            p,
            legals,
            rank - 1,
        )
    }
}

/// The picture of the board: the ninth rank on top, rules between the
/// bands of small boards, and the file letters below.
pub open spec fn board_picture(p: Position) -> Seq<char> {
    ranks_text(p, p.legal_moves(), 8) + rule_text() + files_text()
}

/// The picture of `board`.
pub fn board_text(board: &Board) -> (r: String)
    requires
        board@.wf(),
    ensures
        r@ == board_picture(board@),
{
    let ghost p = board@;
    let legals: u128 = board.generate_legal_moves();
    let mut out = String::new();
    let mut left: u8 = 9;
    while left > 0
        invariant
            left <= 9,
            p == board@,
            legals == p.legal_moves(),
            out@ + ranks_text(p, legals, left - 1) == ranks_text(p, legals, 8),
        decreases left,
    {
        let rank: u8 = left - 1;
        let ghost before = out@;
        if rank % 3 == 2 {
            push_str(&mut out, "  +-------+-------+-------+\n");
            proof {
                reveal_strlit("  +-------+-------+-------+\n");
                assert("  +-------+-------+-------+\n"@ =~= rule_text());
            }
        }
        push_char(&mut out, (49u8 + rank) as char);
        push_char(&mut out, ' ');
        let ghost head = out@;
        let mut file: u8 = 0;
        while file < 9
            invariant
                file <= 9,
                rank < 9,
                p == board@,
                out@ + rank_text(p, legals, rank as int, file as nat) == head + rank_text(
                    p,
                    legals,
                    rank as int,
                    0,
                ),
            decreases 9 - file,
        {
            let ghost row = out@;
            let realbit: u8 = grb(rank, file);
            let mark: char = get_char(board, legals, realbit);
            if file % 3 == 0 {
                push_char(&mut out, '|');
                push_char(&mut out, ' ');
                push_char(&mut out, mark);
                push_char(&mut out, ' ');
            } else if file == 8 {
                push_char(&mut out, mark);
                push_char(&mut out, ' ');
                push_char(&mut out, '|');
                push_char(&mut out, '\n');
            } else {
                push_char(&mut out, mark);
                push_char(&mut out, ' ');
            }
            proof {
                assert(out@ + rank_text(p, legals, rank as int, (file + 1) as nat) =~= row
                    + rank_text(p, legals, rank as int, file as nat));
            }
            file += 1;
        }
        proof {
            assert(out@ + ranks_text(p, legals, rank - 1) =~= before + ranks_text(
                p,
                legals,
                rank as int,
            ));
        }
        left -= 1;
    }
    push_str(&mut out, "  +-------+-------+-------+\n");
    push_str(&mut out, "    a b c   d e f   g h i\n");
    proof {
        reveal_strlit("  +-------+-------+-------+\n");
        reveal_strlit("    a b c   d e f   g h i\n");
        assert("  +-------+-------+-------+\n"@ =~= rule_text());
        assert("    a b c   d e f   g h i\n"@ =~= files_text());
        assert(out@ =~= board_picture(p));
    }
    out
}

/// The moves of the first row of the principal variation from column
/// `from` up to `to`, each behind a blank.
pub open spec fn line_text(e: &Engine, from: nat, to: nat) -> Seq<char>
    decreases to - from,
{
    if from >= to || from >= PLY_LIMIT {
        Seq::empty()
    } else {
        seq![' '] + move_text(e.tpv[0][from as int]) + line_text(e, from + 1, to)
    }
}

/// The number of moves that the line of a search shows: the length of the
/// first row of the principal variation, and one at least.
pub open spec fn line_len(e: &Engine) -> nat {
    if e.tpv_len[0] < 1 {
        1
    } else {
        e.tpv_len[0] as nat
    }
}

/// The line of a search: the depth reached, the score as the engine sees it
/// or as `eval_text` shows it, the time gone by, the nodes searched, and the
/// principal variation.
pub open spec fn post_text(e: &Engine, score: i16, elapsed_ms: u128) -> Seq<char> {
    seq!['d', 'e', 'p', 't', 'h', ' '] + decimal(e.reached as nat) + seq![' ', '/', ' '] + (if e.evm {
        (if score < 0 {
            seq!['-']
        } else {
            Seq::empty()
        }) + decimal((if score < 0 { -score } else { score as int }) as nat)
    } else {
        eval_text(score as int)
    }) + seq![' ', '/', ' ', 'm', 's', ' '] + decimal(elapsed_ms as nat) + seq![
        ' ', '/', ' ', 'n', 'o', 'd', 'e', 's', ' ',
    ] + decimal(e.nodes as nat) + seq![' ', '/', ' ', 'p', 'v', ':'] + line_text(e, 0, line_len(e))
}

impl Engine {
    /// The line of the search for the score `score`, after `elapsed_ms`
    /// milliseconds.
    pub fn post_line(&self, score: i16, elapsed_ms: u128) -> (r: String)
        requires
            self.wf(),
            self.reached >= 0,
        ensures
            r@ == post_text(self, score, elapsed_ms),
    {
        let mut out = String::new();
        push_str(&mut out, "depth ");
        push_decimal(&mut out, self.reached as u128);
        push_str(&mut out, " / ");
        if self.evm {
            let wide: i32 = score as i32;
            if wide < 0 {
                push_char(&mut out, '-');
                push_decimal(&mut out, (-wide) as u128);
            } else {
                push_decimal(&mut out, wide as u128);
            }
        } else {
            let shown: String = format_eval(score);
            push_str(&mut out, shown.as_str());
        }
        push_str(&mut out, " / ms ");
        push_decimal(&mut out, elapsed_ms);
        push_str(&mut out, " / nodes ");
        push_decimal(&mut out, self.nodes as u128);
        push_str(&mut out, " / pv:");
        let ghost head = out@;
        let shown: usize = if self.tpv_len[0] < 1 { 1 } else { self.tpv_len[0] };
        let mut i: usize = 0;
        while i < shown
            invariant
                i <= shown <= PLY_LIMIT,
                shown == line_len(self),
                out@ + line_text(self, i as nat, shown as nat) == head + line_text(
                    self,
                    0,
                    shown as nat,
                ),
            decreases shown - i,
        {
            let ghost before = out@;
            push_char(&mut out, ' ');
            let mov: String = transform_move_back(self.tpv[0][i]);
            push_str(&mut out, mov.as_str());
            proof {
                assert(out@ + line_text(self, (i + 1) as nat, shown as nat) =~= before
                    + line_text(self, i as nat, shown as nat));
            }
            i += 1;
        }
        proof {
            reveal_strlit("depth ");
            reveal_strlit(" / ");
            reveal_strlit(" / ms ");
            reveal_strlit(" / nodes ");
            reveal_strlit(" / pv:");
            assert("depth "@ =~= seq!['d', 'e', 'p', 't', 'h', ' ']);
            assert(" / "@ =~= seq![' ', '/', ' ']);
            assert(" / ms "@ =~= seq![' ', '/', ' ', 'm', 's', ' ']);
            assert(" / nodes "@ =~= seq![' ', '/', ' ', 'n', 'o', 'd', 'e', 's', ' ']);
            assert(" / pv:"@ =~= seq![' ', '/', ' ', 'p', 'v', ':']);
            assert(out@ =~= post_text(self, score, elapsed_ms));
        }
        out
    }

    /// The line of the search for the score `score` at this moment, where
    /// lines are asked for: the time in it is what the clock says.
    pub fn post(&self, score: i16) -> (r: Option<String>)
        requires
            self.wf(),
            self.reached >= 0,
        ensures
            r.is_some() == self.post,
            r.is_some() ==> exists|elapsed_ms: u128| r.unwrap()@ == post_text(self, score, elapsed_ms),
    {
        if self.post {
            let elapsed_ms: u128 = self.elapsed_ms();
            Some(self.post_line(score, elapsed_ms))
        } else {
            None
        }
    }
}

/// Has `engine` search `board` within the time limit `tl` and the depth
/// limit `td`, and hands on what the search gives.
pub fn run_engine(engine: &mut Engine, board: &mut Board, tl: Option<u128>, td: Option<usize>) -> (r:
    (u8, i16))
    requires
        old(engine).wf(),
        old(board)@.wf(),
    ensures
        final(board)@ == old(board)@,
        final(engine).wf(),
        final(engine).found(old(board)@),
        final(engine).scores == old(engine).scores,
        final(engine).post == old(engine).post,
        final(engine).evm == old(engine).evm,
        final(engine).tl == match tl {
            Some(t) => t,
            None => NO_TIME_LIMIT,
        },
        final(engine).dl == depth_limit_of(td),
        r.0 == final(engine).best,
        r.1 == final(engine).score,
        final(engine).tl == u128::MAX ==> final(engine).finished(old(board)@),
        final(engine).tl == u128::MAX && old(board)@.status == OPEN && has_win(old(board)@)
            ==> old(board)@.is_legal(r.0) && is_won(old(board)@.after_move(r.0)) && r.1 == from_x(
            old(board)@,
            LARGE - 1,
        ),
{
    let (mv, sc) = engine.search(board, tl, td);
    (mv, sc)
}

} // verus!
