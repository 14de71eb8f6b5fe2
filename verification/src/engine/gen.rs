//! The reach maps of a small board: for each pair of small masks, how many
//! lines are open to each side, how many of them it has begun, and how many
//! lack one stone.

use vstd::prelude::*;
use crate::lookups::{
    count_lines, gen_local_map, has_line, key_o, key_x, lemma_count_lines_bound, lemma_key_parts,
    lemma_pack, local_map, MAP_SIZE, POS_CNT, POS_MASK,
};

verus! {

/// Where the number of open lines sits in an entry.
pub const SHIFT_POS: u8 = 0;

/// Where the number of lines begun sits in an entry.
pub const SHIFT_UPO: u8 = 4;

/// Where the number of lines that lack one stone sits in an entry.
pub const SHIFT_THR: u8 = 8;

/// Where a fourth count would sit.
pub const SHIFT_REA: u8 = 12;

/// The width of one count in an entry.
pub const MASK_CNT: u16 = 0b1111;

/// The entry of the reach map for the side that holds `mine` against
/// `theirs`, where no cell is held twice: nothing once either side has a
/// line; else the lines without a stone of the other side, those among them
/// with a stone of this side, and those among them with two, each count in
/// its four bits.
pub open spec fn reach_map(mine: u16, theirs: u16) -> int {
    if has_line(mine) || has_line(theirs) {
        0
    } else {
        let none = count_lines(mine, theirs, 0, 8);
        let one = count_lines(mine, theirs, 1, 8);
        let two = count_lines(mine, theirs, 2, 8);
        ((none + one + two) + 16 * (one + two) + 256 * two) as int
    }
}

/// The entry of the reach map of X under `key`: nothing where a cell is
/// held twice.
pub open spec fn reach_entry_x(key: int) -> int {
    if key_x(key) & key_o(key) != 0 {
        0
    } else {
        reach_map(key_x(key), key_o(key))
    }
}

/// The entry of the reach map of O under `key`.
pub open spec fn reach_entry_o(key: int) -> int {
    if key_x(key) & key_o(key) != 0 {
        0
    } else {
        reach_map(key_o(key), key_x(key))
    }
}

/// Three counts packed by shifts are their sum with weights of 16.
proof fn lemma_reach_pack(a: u16, b: u16, c: u16)
    by (bit_vector)
    requires
        a <= 8,
        b <= 8,
        c <= 8,
    ensures
        (a << 0u8) | (b << 4u8) | (c << 8u8) == a + 16 * b + 256 * c,
{
}

/// The entry of the reach map that an entry of the local map stands for.
fn reach_of_map(map: u16, Ghost(mine): Ghost<u16>, Ghost(theirs): Ghost<u16>) -> (r: u16)
    requires
        map == local_map(mine, theirs),
        !has_line(mine),
    ensures
        r == reach_map(mine, theirs),
{
    proof {
        lemma_count_lines_bound(mine, theirs, 8);
        lemma_pack(
            count_lines(mine, theirs, 2, 8) as u16,
            count_lines(mine, theirs, 1, 8) as u16,
            count_lines(mine, theirs, 0, 8) as u16,
        );
    }
    let two: u16 = (map >> POS_CNT[1]) & POS_MASK;
    let one: u16 = (map >> POS_CNT[2]) & POS_MASK;
    let none: u16 = (map >> POS_CNT[3]) & POS_MASK;
    let pos: u16 = none + one + two;
    let upo: u16 = one + two;
    proof {
        lemma_reach_pack(pos, upo, two);
    }
    (pos << SHIFT_POS) | (upo << SHIFT_UPO) | (two << SHIFT_THR)
}

/// The reach maps of X and of O, one entry for each pair of small masks.
pub fn gen_maps() -> (r: (Vec<u16>, Vec<u16>))
    ensures
        r.0@.len() == MAP_SIZE,
        r.1@.len() == MAP_SIZE,
        forall|key: int| 0 <= key < MAP_SIZE ==> r.0@[key] == reach_entry_x(key),
        forall|key: int| 0 <= key < MAP_SIZE ==> r.1@[key] == reach_entry_o(key),
{
    let mut x_maps: Vec<u16> = vec![0u16; MAP_SIZE];
    let mut o_maps: Vec<u16> = vec![0u16; MAP_SIZE];

    let mut permut: usize = 0;
    while permut < MAP_SIZE
        invariant
            permut <= MAP_SIZE,
            x_maps@.len() == MAP_SIZE,
            o_maps@.len() == MAP_SIZE,
            forall|key: int| 0 <= key < permut ==> x_maps@[key] == reach_entry_x(key),
            forall|key: int| 0 <= key < permut ==> o_maps@[key] == reach_entry_o(key),
        decreases MAP_SIZE - permut,
    {
        proof {
            lemma_key_parts(permut);
            lemma_pack(0, 0, 0);
        }
        let xbits: u16 = (permut & 0b111111111) as u16;
        let obits: u16 = ((permut >> 9) & 0b111111111) as u16;
        let mut x_value: u16 = 0;
        let mut o_value: u16 = 0;
        if xbits & obits == 0 {
            let (xl, ol) = gen_local_map(permut);
            let won_x: bool = (xl >> POS_CNT[0]) & POS_MASK != 0;
            let won_o: bool = (ol >> POS_CNT[0]) & POS_MASK != 0;
            proof {
                lemma_count_lines_bound(xbits, obits, 8);
                lemma_count_lines_bound(obits, xbits, 8);
                lemma_pack(
                    count_lines(xbits, obits, 2, 8) as u16,
                    count_lines(xbits, obits, 1, 8) as u16,
                    count_lines(xbits, obits, 0, 8) as u16,
                );
                lemma_pack(
                    count_lines(obits, xbits, 2, 8) as u16,
                    count_lines(obits, xbits, 1, 8) as u16,
                    count_lines(obits, xbits, 0, 8) as u16,
                );
            }
            // a board that is won stands for nothing
            if !won_x && !won_o && !(xl == 0 && ol == 0) {
                x_value = reach_of_map(xl, Ghost(xbits), Ghost(obits));
                o_value = reach_of_map(ol, Ghost(obits), Ghost(xbits));
            }
        }
        x_maps[permut] = x_value;
        o_maps[permut] = o_value;
        permut += 1;
    }

    (x_maps, o_maps)
}

} // verus!
