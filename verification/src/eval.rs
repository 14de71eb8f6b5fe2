//! The static evaluation of a position: the small boards are scored from the
//! score tables, each line of small boards by the product of its three
//! scores, and the lines of each side are combined, the best counting most.

use vstd::prelude::*;
use once_cell::sync::Lazy;
use vstd::relations::{sorted_by, total_ordering};
use vstd::seq_lib::lemma_sorted_unique;
use crate::board::Board;
use crate::lookups::{lemma_tables, pattern, MAP_SIZE, SUB_LOOKUP};
use crate::position::Position;
use crate::sorting::{exchanged, lemma_exchange_keeps, lemma_exchange_mapped};
use crate::weights::{
    gen_local_scores, lemma_score_bound, local_score, score_entry_o, score_entry_x,
    MAX_LOCAL_SCORE,
};

verus! {

/// No evaluation reaches this; the search keeps it for wins and losses.
pub const LARGE: i16 = 16384;

/// The most that the lines of one side can come to.
pub const EVAL_LIMIT: i16 = 15500;

/// The small boards on each line of the large board, in the order of the
/// winning lines.
pub const LINE_SUBS: [[usize; 3]; 8] = [
    [0, 1, 2],
    [3, 4, 5],
    [0, 3, 6],
    [2, 4, 6],
    [1, 4, 7],
    [0, 4, 8],
    [2, 5, 8],
    [6, 7, 8],
];

/// Whether `x` and `o` are the two score tables: complete, and each entry
/// the score that the weights give.
pub open spec fn tables_ok(x: Seq<u8>, o: Seq<u8>) -> bool {
    &&& x.len() == MAP_SIZE
    &&& o.len() == MAP_SIZE
    &&& forall|key: int| 0 <= key < MAP_SIZE ==> x[key] == score_entry_x(key)
    &&& forall|key: int| 0 <= key < MAP_SIZE ==> o[key] == score_entry_o(key)
}

/// The two score tables, one entry for each pair of small masks.
pub struct LocalScores {
    pub x: Vec<u8>,
    pub o: Vec<u8>,
}

impl LocalScores {
    /// Both tables are complete and hold the scores that the weights give.
    pub open spec fn wf(&self) -> bool {
        tables_ok(self.x@, self.o@)
    }

    /// Builds both tables.
    pub fn new() -> (r: Self)
        ensures
            r.wf(),
    {
        let mut x: Vec<u8> = vec![0u8; MAP_SIZE];
        let mut o: Vec<u8> = vec![0u8; MAP_SIZE];
        gen_local_scores(x.as_mut_slice(), o.as_mut_slice());
        LocalScores { x, o }
    }
}

/// The score tables behind `Lazy` of once_cell: they are made when they are
/// first asked for. The verifier does not look into this struct; what is
/// known of it is what `lazy_new` and `lazy_force` say.
#[verifier::external_body]
pub struct LazyScores {
    cell: Lazy<LocalScores>,
}

/// The score table of X that a lazy value holds once it is asked for it.
pub uninterp spec fn lazy_x_scores(lazy: LazyScores) -> Seq<u8>;

/// The score table of O that a lazy value holds once it is asked for it.
pub uninterp spec fn lazy_o_scores(lazy: LazyScores) -> Seq<u8>;

/// `Lazy::new` of once_cell, with `LocalScores::new` for the function that
/// makes the value: the value that will be had from it is what that function
/// gives, the two score tables.
#[verifier::external_body]
pub(crate) fn lazy_new() -> (lazy: LazyScores)
    ensures
        tables_ok(lazy_x_scores(lazy), lazy_o_scores(lazy)),
{
    LazyScores { cell: Lazy::new(LocalScores::new) }
}

/// `Lazy::force` of once_cell: the value, made at the first call and the
/// same at every call.
#[verifier::external_body]
pub(crate) fn lazy_force(lazy: &LazyScores) -> (r: &LocalScores)
    ensures
        r.x@ == lazy_x_scores(*lazy),
        r.o@ == lazy_o_scores(*lazy),
{
    Lazy::force(&lazy.cell)
}

/// The score of small board `k` for X (`side` false) or O (`side` true).
pub open spec fn sub_score(p: Position, side: bool, k: int) -> int {
    if side {
        local_score(pattern(p.o, k as u8), pattern(p.x, k as u8))
    } else {
        local_score(pattern(p.x, k as u8), pattern(p.o, k as u8))
    }
}

/// The score of line `i` of the large board for one side: the product of
/// the scores of its three small boards.
pub open spec fn line_score(p: Position, side: bool, i: int) -> int {
    sub_score(p, side, LINE_SUBS[i][0] as int) * sub_score(p, side, LINE_SUBS[i][1] as int)
        * sub_score(p, side, LINE_SUBS[i][2] as int)
}

/// The scores of the eight lines for one side.
pub open spec fn line_scores(p: Position, side: bool) -> Seq<int> {
    Seq::new(8, |i: int| line_score(p, side, i))
}

/// The values of `lines` in ascending order.
pub open spec fn ascending(lines: Seq<int>) -> Seq<int> {
    lines.sort_by(|a: int, b: int| a <= b)
}

/// Eight line scores combined: the largest whole, the next a half, then a
/// quarter, an eighth and a sixteenth, each rounded down.
pub open spec fn combine(lines: Seq<int>) -> int {
    let asc = ascending(lines);
    asc[7] + asc[6] / 2 + asc[5] / 4 + asc[4] / 8 + asc[3] / 16
}

/// The evaluation of `p`: what the lines of X come to, less what the lines
/// of O come to.
pub open spec fn eval_of(p: Position) -> int {
    combine(line_scores(p, false)) - combine(line_scores(p, true))
}

/// Sorts eight line scores, the lowest first: afterwards they are in
/// ascending order, and they are the values that were there.
fn sort_lines(lines: &mut [i16; 8])
    ensures
        final(lines)@.map_values(|v: i16| v as int).to_multiset() == old(lines)@.map_values(
            |v: i16| v as int,
        ).to_multiset(),
        forall|i: int, j: int| 0 <= i <= j < 8 ==> final(lines)@[i] <= final(lines)@[j],
{
    let ghost wide = |v: i16| v as int;
    let mut i: usize = 1;
    while i < 8
        invariant
            1 <= i <= 8,
            wide == |v: i16| v as int,
            lines@.map_values(wide).to_multiset() == old(lines)@.map_values(wide).to_multiset(),
            forall|a: int, b: int| 0 <= a <= b < i ==> lines@[a] <= lines@[b],
        decreases 8 - i,
    {
        let mut j: usize = i;
        while j > 0 && lines[j - 1] > lines[j]
            invariant
                j <= i < 8,
                wide == |v: i16| v as int,
                lines@.map_values(wide).to_multiset() == old(lines)@.map_values(
                    wide,
                ).to_multiset(),
                forall|a: int, b: int| 0 <= a <= b <= i && a != j && b != j ==> lines@[a] <= lines@[b],
                forall|b: int| j < b <= i ==> lines@[j as int] <= lines@[b],
            decreases j,
        {
            let ghost before = lines@;
            let low: i16 = lines[j];
            let high: i16 = lines[j - 1];
            lines[j - 1] = low;
            lines[j] = high;
            proof {
                assert(lines@ =~= exchanged(before, j - 1, j as int));
                lemma_exchange_mapped(before, j - 1, j as int, wide);
                lemma_exchange_keeps(before.map_values(wide), j - 1, j as int);
            }
            j -= 1;
        }
        i += 1;
    }
}

/// Eight values in ascending order are the sorted form of any sequence that
/// holds the same values.
proof fn lemma_sorted_is_rank(asc: Seq<int>, lines: Seq<int>)
    requires
        asc.len() == 8,
        lines.len() == 8,
        asc.to_multiset() == lines.to_multiset(),
        forall|i: int, j: int| 0 <= i <= j < 8 ==> asc[i] <= asc[j],
    ensures
        asc == ascending(lines),
{
    let leq = |a: int, b: int| a <= b;
    assert(total_ordering(leq));
    lines.lemma_sort_by_ensures(leq);
    assert(sorted_by(asc, leq));
    lemma_sorted_unique(asc, lines.sort_by(leq), leq);
}

/// The product of three scores of small boards.
proof fn lemma_product_bound(a: int, b: int, c: int)
    by (nonlinear_arith)
    requires
        0 <= a <= 20,
        0 <= b <= 20,
        0 <= c <= 20,
    ensures
        0 <= a * b <= 400,
        0 <= a * b * c <= 8000,
{
}

/// The combined lines of a side stay within the limit of the evaluation.
pub proof fn lemma_combine_bound(p: Position, side: bool)
    ensures
        0 <= combine(line_scores(p, side)) <= EVAL_LIMIT,
        ascending(line_scores(p, side)).len() == 8,
        forall|i: int| 0 <= i < 8 ==> 0 <= #[trigger] ascending(line_scores(p, side))[i] <= 8000,
{
    let lines = line_scores(p, side);
    let leq = |a: int, b: int| a <= b;
    assert(total_ordering(leq));
    lines.lemma_sort_by_ensures(leq);
    let asc = ascending(lines);
    assert forall|v: int| asc.contains(v) implies 0 <= v <= 8000 by {
        assert(lines.contains(v));
        let i = choose|i: int| 0 <= i < 8 && lines[i] == v;
        lemma_line_score_bound(p, side, i);
    }
    lines.to_multiset_ensures();
    asc.to_multiset_ensures();
    assert(asc.len() == 8);
    assert forall|i: int| 0 <= i < 8 implies 0 <= #[trigger] asc[i] <= 8000 by {
        assert(asc.contains(asc[i]));
    }
}

/// No line scores more than three won boards.
pub proof fn lemma_line_score_bound(p: Position, side: bool, i: int)
    requires
        0 <= i < 8,
    ensures
        0 <= line_score(p, side, i) <= 8000,
{
    let a = sub_score(p, side, LINE_SUBS[i][0] as int);
    let b = sub_score(p, side, LINE_SUBS[i][1] as int);
    let c = sub_score(p, side, LINE_SUBS[i][2] as int);
    lemma_sub_score_bound(p, side, LINE_SUBS[i][0] as int);
    lemma_sub_score_bound(p, side, LINE_SUBS[i][1] as int);
    lemma_sub_score_bound(p, side, LINE_SUBS[i][2] as int);
    lemma_product_bound(a, b, c);
}

/// No small board scores more than a won one.
pub proof fn lemma_sub_score_bound(p: Position, side: bool, k: int)
    ensures
        0 <= sub_score(p, side, k) <= MAX_LOCAL_SCORE,
{
}

/// The key of a small board is made of its two small masks, which hold no cell
/// twice.
proof fn lemma_eval_key(x: u128, o: u128, k: u128)
    by (bit_vector)
    requires
        k < 9,
        x & o == 0,
    ensures
        ({
            let xs = (x & (0x1ffu128 << (9 * k))) >> (k * 9);
            let os = (o & (0x1ffu128 << (9 * k))) >> (k * 9);
            let key = xs | (os << 9);
            &&& xs < 512
            &&& os < 512
            &&& key < 262144
            &&& key % 512 == (x >> (9 * k)) & 0x1ff
            &&& (key / 512) % 512 == (o >> (9 * k)) & 0x1ff
            &&& (((x >> (9 * k)) & 0x1ff) as u16) & (((o >> (9 * k)) & 0x1ff) as u16) == 0
            &&& (xs as usize) | ((os << 9) as usize) == key
        }),
{
}

/// The static evaluation of `board`, from the side of X: positive where X
/// stands better. It stays strictly between the scores that the search
/// keeps for a loss and for a win.
pub fn eval(board: &Board, scores: &LocalScores) -> (r: i16)
    requires
        board@.wf(),
        scores.wf(),
    ensures
        r == eval_of(board@),
        -EVAL_LIMIT <= r <= EVAL_LIMIT,
        -LARGE < r < LARGE,
{
    let ghost p = board@;

    // scores on the local boards, separated
    let mut xscores: [i16; 9] = [0; 9];
    let mut oscores: [i16; 9] = [0; 9];

    // get local scores
    let mut i: u8 = 0;
    while i < 9
        invariant
            i <= 9,
            p == board@,
            p.wf(),
            scores.wf(),
            forall|k: int| 0 <= k < i ==> xscores[k] == sub_score(p, false, k),
            forall|k: int| 0 <= k < i ==> oscores[k] == sub_score(p, true, k),
        decreases 9 - i,
    {
        proof {
            lemma_tables();
            lemma_eval_key(p.x, p.o, i as u128);
        }
        let xs: u128 = (board.locals[0] & SUB_LOOKUP[i as usize]) >> (i * 9);
        let os: u128 = (board.locals[1] & SUB_LOOKUP[i as usize]) >> (i * 9);
        let lbs: usize = xs as usize | ((os << 9) as usize);
        proof {
            lemma_score_bound(lbs as int);
        }
        xscores[i as usize] = scores.x[lbs] as i16;
        oscores[i as usize] = scores.o[lbs] as i16;
        i += 1;
    }

    // line scores
    let mut xlines: [i16; 8] = [0; 8];
    let mut olines: [i16; 8] = [0; 8];

    // convert local scores to line scores
    let mut l: usize = 0;
    while l < 8
        invariant
            l <= 8,
            forall|k: int| 0 <= k < 9 ==> xscores[k] == sub_score(p, false, k),
            forall|k: int| 0 <= k < 9 ==> oscores[k] == sub_score(p, true, k),
            forall|j: int| 0 <= j < l ==> xlines[j] == line_score(p, false, j),
            forall|j: int| 0 <= j < l ==> olines[j] == line_score(p, true, j),
        decreases 8 - l,
    {
        let a: usize = LINE_SUBS[l][0];
        let b: usize = LINE_SUBS[l][1];
        let c: usize = LINE_SUBS[l][2];
        proof {
            lemma_sub_score_bound(p, false, a as int);
            lemma_sub_score_bound(p, false, b as int);
            lemma_sub_score_bound(p, false, c as int);
            lemma_sub_score_bound(p, true, a as int);
            lemma_sub_score_bound(p, true, b as int);
            lemma_sub_score_bound(p, true, c as int);
            lemma_product_bound(xscores[a as int] as int, xscores[b as int] as int, xscores[c as int] as int);
            lemma_product_bound(oscores[a as int] as int, oscores[b as int] as int, oscores[c as int] as int);
        }
        xlines[l] = xscores[a] * xscores[b] * xscores[c];
        olines[l] = oscores[a] * oscores[b] * oscores[c];
        l += 1;
    }
    proof {
        assert(xlines@.map_values(|v: i16| v as int) =~= line_scores(p, false));
        assert(olines@.map_values(|v: i16| v as int) =~= line_scores(p, true));
    }

    sort_lines(&mut xlines);
    sort_lines(&mut olines);
    proof {
        let xasc = xlines@.map_values(|v: i16| v as int);
        let oasc = olines@.map_values(|v: i16| v as int);
        lemma_sorted_is_rank(xasc, line_scores(p, false));
        lemma_sorted_is_rank(oasc, line_scores(p, true));
        lemma_combine_bound(p, false);
        lemma_combine_bound(p, true);
    }

    let mine: i16 = xlines[7] + xlines[6] / 2 + xlines[5] / 4 + xlines[4] / 8 + xlines[3] / 16;
    let theirs: i16 = olines[7] + olines[6] / 2 + olines[5] / 4 + olines[4] / 8 + olines[3] / 16;
    mine - theirs
}

} // verus!
