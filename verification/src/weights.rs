//! The weights that turn the line counts of a small board into one score
//! for each side, and the generator of the two score tables.

use vstd::prelude::*;
use crate::lookups::{
    count_lines, gen_local_map, has_line, key_o, key_x, lemma_count_lines_bound, lemma_key_parts,
    lemma_pack, local_map, MAP_SIZE, POS_CNT, POS_MASK,
};

verus! {

/// The score that each count brings, by kind of line: a win, lines with two
/// stones, lines with one stone, lines with none. More than three lines with
/// two stones stand for stones spent on one small board, and bring less.
pub const POS_SCORE: [[u8; 9]; 4] = [
    [0, 20, 20, 20, 20, 20, 20, 20, 20],
    [0, 5, 10, 10, 8, 5, 2, 0, 0],
    [0, 2, 3, 4, 5, 5, 5, 5, 5],
    [0, 1, 2, 2, 3, 3, 3, 4, 4],
];

/// The most a small board can score, by the best kind of line on it.
pub const SC_LIMITS: [u8; 4] = [20, 10, 5, 4];

/// The score of a small board that is won.
pub const MAX_LOCAL_SCORE: u8 = 20;

/// The score for `twos` lines with two stones, `ones` lines with one stone
/// and `opens` lines with none: the three weights added, and no more than
/// the limit of the best kind of line there is.
pub open spec fn weigh(twos: int, ones: int, opens: int) -> int {
    let sum = POS_SCORE[1][twos] + POS_SCORE[2][ones] + POS_SCORE[3][opens];
    let limit = if twos != 0 {
        SC_LIMITS[1]
    } else if ones != 0 {
        SC_LIMITS[2]
    } else {
        SC_LIMITS[3]
    };
    if sum < limit {
        sum
    } else {
        limit as int
    }
}

/// The score of a small board for the side that holds `mine` against
/// `theirs`, where no cell is held twice.
pub open spec fn local_score(mine: u16, theirs: u16) -> int {
    if has_line(theirs) {
        0
    } else if has_line(mine) {
        MAX_LOCAL_SCORE as int
    } else {
        weigh(
            count_lines(mine, theirs, 2, 8) as int,
            count_lines(mine, theirs, 1, 8) as int,
            count_lines(mine, theirs, 0, 8) as int,
        )
    }
}

/// The entry of the score table of X under `key`.
pub open spec fn score_entry_x(key: int) -> int {
    if key_x(key) & key_o(key) != 0 {
        0
    } else {
        local_score(key_x(key), key_o(key))
    }
}

/// The entry of the score table of O under `key`.
pub open spec fn score_entry_o(key: int) -> int {
    if key_x(key) & key_o(key) != 0 {
        0
    } else {
        local_score(key_o(key), key_x(key))
    }
}

/// No score is above that of a won board.
pub proof fn lemma_score_bound(key: int)
    ensures
        0 <= score_entry_x(key) <= MAX_LOCAL_SCORE,
        0 <= score_entry_o(key) <= MAX_LOCAL_SCORE,
{
}

/// The score that an entry of a local map stands for.
fn score_of_map(map: u16, Ghost(mine): Ghost<u16>, Ghost(theirs): Ghost<u16>) -> (r: u8)
    requires
        map == local_map(mine, theirs),
    ensures
        r == local_score(mine, theirs),
{
    proof {
        lemma_count_lines_bound(mine, theirs, 8);
        lemma_pack(
            count_lines(mine, theirs, 2, 8) as u16,
            count_lines(mine, theirs, 1, 8) as u16,
            count_lines(mine, theirs, 0, 8) as u16,
        );
    }
    if (map >> POS_CNT[0]) & POS_MASK != 0 {
        return POS_SCORE[0][1];
    }
    let twos: usize = ((map >> POS_CNT[1]) & POS_MASK) as usize;
    let ones: usize = ((map >> POS_CNT[2]) & POS_MASK) as usize;
    let opens: usize = ((map >> POS_CNT[3]) & POS_MASK) as usize;
    let sum: u8 = POS_SCORE[1][twos] + POS_SCORE[2][ones] + POS_SCORE[3][opens];
    let limit: u8 = if twos != 0 {
        SC_LIMITS[1]
    } else if ones != 0 {
        SC_LIMITS[2]
    } else {
        SC_LIMITS[3]
    };
    if sum < limit {
        sum
    } else {
        limit
    }
}

/// Both scores of the small board under the key `permut`.
pub fn gen_local_score(permut: usize) -> (r: (u8, u8))
    requires
        permut < MAP_SIZE,
    ensures
        r.0 == score_entry_x(permut as int),
        r.1 == score_entry_o(permut as int),
{
    proof {
        lemma_key_parts(permut);
    }
    let xbits: u16 = (permut & 0b111111111) as u16;
    let obits: u16 = ((permut >> 9) & 0b111111111) as u16;

    // impossible
    if xbits & obits != 0 {
        return (0, 0);
    }
    let (xl, ol) = gen_local_map(permut);
    (score_of_map(xl, Ghost(xbits), Ghost(obits)), score_of_map(ol, Ghost(obits), Ghost(xbits)))
}

/// Fills the two score tables: for each pair of small masks, packed into a
/// key, the score of such a board for each side.
pub fn gen_local_scores(xscores: &mut [u8], oscores: &mut [u8])
    requires
        old(xscores)@.len() >= MAP_SIZE,
        old(oscores)@.len() >= MAP_SIZE,
    ensures
        final(xscores)@.len() == old(xscores)@.len(),
        final(oscores)@.len() == old(oscores)@.len(),
        forall|key: int| 0 <= key < MAP_SIZE ==> final(xscores)@[key] == score_entry_x(key),
        forall|key: int| 0 <= key < MAP_SIZE ==> final(oscores)@[key] == score_entry_o(key),
        forall|key: int|
            MAP_SIZE <= key < old(xscores)@.len() ==> final(xscores)@[key] == old(xscores)@[key],
        forall|key: int|
            MAP_SIZE <= key < old(oscores)@.len() ==> final(oscores)@[key] == old(oscores)@[key],
{
    let mut permut: usize = 0;
    while permut < MAP_SIZE
        invariant
            permut <= MAP_SIZE,
            xscores@.len() == old(xscores)@.len(),
            oscores@.len() == old(oscores)@.len(),
            xscores@.len() >= MAP_SIZE,
            oscores@.len() >= MAP_SIZE,
            forall|key: int| 0 <= key < permut ==> xscores@[key] == score_entry_x(key),
            forall|key: int| 0 <= key < permut ==> oscores@[key] == score_entry_o(key),
            forall|key: int|
                MAP_SIZE <= key < xscores@.len() ==> xscores@[key] == old(xscores)@[key],
            forall|key: int|
                MAP_SIZE <= key < oscores@.len() ==> oscores@[key] == old(oscores)@[key],
        decreases MAP_SIZE - permut,
    {
        let (xs, os) = gen_local_score(permut);
        xscores[permut] = xs;
        oscores[permut] = os;
        permut += 1;
    }
}

} // verus!
