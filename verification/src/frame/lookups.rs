//! Lookups on a small board that are made once: its lines by kind, its
//! corners, sides and centre, and every small mask mirrored and rotated.

use vstd::prelude::*;
use crate::bitboard::SwapBits;

verus! {

pub struct GenLookups {
    /// The two diagonals.
    pub diag_lines: [u16; 2],
    /// The four lines along the edges.
    pub side_lines: [u16; 4],
    /// The two lines through the centre that are no diagonals.
    pub cent_lines: [u16; 2],
    /// All eight lines.
    pub all_lines: [u16; 8],
    /// The four corners.
    pub corners: u16,
    /// The four cells in the middle of an edge.
    pub sides: u16,
    /// The centre.
    pub center: u16,
    /// Each small mask with left and right exchanged.
    pub mirrors: [u16; 512],
    /// Each small mask turned by a quarter, clockwise.
    pub rotates: [u16; 512],
}

/// The small mask `v` with left and right exchanged: the first and the
/// third cell of each row change places.
pub open spec fn mirror_of(v: u16) -> u16 {
    ((v & 0b001001001) << 2) | (v & 0b010010010) | ((v >> 2) & 0b001001001)
}

/// The small mask `v` turned by a quarter: the corners move on by one
/// corner and the edge cells by one edge, the centre stays.
pub open spec fn rotate_of(v: u16) -> u16 {
    ((v & 0b000000001) << 2) | ((v & 0b000000010) << 4) | ((v & 0b000000100) << 6) | ((v
        & 0b000001000) >> 2) | (v & 0b000010000) | ((v & 0b000100000) << 2) | ((v & 0b001000000)
        >> 6) | ((v & 0b010000000) >> 4) | ((v & 0b100000000) >> 2)
}

/// The small mask `v` with the bits `a` and `b` exchanged, without cases.
pub open spec fn exchange(v: u16, a: u16, b: u16) -> u16 {
    (v & !((1u16 << a) | (1u16 << b))) | (((v >> a) & 1) << b) | (((v >> b) & 1) << a)
}

/// Exchanging two bits with and without cases gives the same mask.
proof fn lemma_exchange(v: u16, a: u8, b: u8)
    by (bit_vector)
    requires
        a < 16,
        b < 16,
    ensures
        ({
            let fb = v & (1u16 << a);
            let sb = v & (1u16 << b);
            let rest = v & !(fb | sb);
            let moved_first = if fb != 0 { rest | (1u16 << b) } else { rest };
            if sb != 0 { moved_first | (1u16 << a) } else { moved_first }
        }) == (v & !((1u16 << (a as u16)) | (1u16 << (b as u16)))) | (((v >> (a as u16)) & 1) << (
        b as u16)) | (((v >> (b as u16)) & 1) << (a as u16)),
{
}

/// Three exchanges mirror a small mask.
proof fn lemma_mirror_exchanges(v: u16)
    by (bit_vector)
    requires
        v < 512,
    ensures
        exchange(exchange(exchange(v, 0, 2), 3, 5), 6, 8) == mirror_of(v),
        mirror_of(v) < 512,
        mirror_of(mirror_of(v)) == v,
{
}

/// Six exchanges turn a small mask by a quarter.
proof fn lemma_rotate_exchanges(v: u16)
    by (bit_vector)
    requires
        v < 512,
    ensures
        exchange(exchange(exchange(exchange(exchange(exchange(v, 2, 8), 0, 2), 0, 6), 5, 7), 1, 5), 1, 3)
            == rotate_of(v),
        rotate_of(v) < 512,
        rotate_of(rotate_of(rotate_of(rotate_of(v)))) == v,
{
}

/// The three swaps of the mirror table give the mirror image.
proof fn lemma_mirror_swaps(v: u16)
    requires
        v < 512,
    ensures
        v.swapped(0, 2).swapped(3, 5).swapped(6, 8) == mirror_of(v),
        mirror_of(v) < 512,
        mirror_of(mirror_of(v)) == v,
{
    let a = v.swapped(0, 2);
    let b = a.swapped(3, 5);
    lemma_exchange(v, 0, 2);
    lemma_exchange(a, 3, 5);
    lemma_exchange(b, 6, 8);
    lemma_mirror_exchanges(v);
}

/// The six swaps of the rotation table give the quarter turn.
proof fn lemma_rotate_swaps(v: u16)
    requires
        v < 512,
    ensures
        v.swapped(2, 8).swapped(0, 2).swapped(0, 6).swapped(5, 7).swapped(1, 5).swapped(1, 3)
            == rotate_of(v),
        rotate_of(v) < 512,
        rotate_of(rotate_of(rotate_of(rotate_of(v)))) == v,
{
    let a = v.swapped(2, 8);
    let b = a.swapped(0, 2);
    let c = b.swapped(0, 6);
    let d = c.swapped(5, 7);
    let e = d.swapped(1, 5);
    lemma_exchange(v, 2, 8);
    lemma_exchange(a, 0, 2);
    lemma_exchange(b, 0, 6);
    lemma_exchange(c, 5, 7);
    lemma_exchange(d, 1, 5);
    lemma_exchange(e, 1, 3);
    lemma_rotate_exchanges(v);
}

/// Mirroring twice, and turning four times, gives the mask back.
pub proof fn lemma_mirror_rotate(v: u16)
    requires
        v < 512,
    ensures
        mirror_of(v) < 512,
        mirror_of(mirror_of(v)) == v,
        rotate_of(v) < 512,
        rotate_of(rotate_of(rotate_of(rotate_of(v)))) == v,
{
    lemma_mirror_swaps(v);
    lemma_rotate_swaps(v);
}

impl GenLookups {
    /// The tables hold the lines by kind, the three kinds of cells, and for
    /// each small mask its mirror image and its quarter turn.
    pub open spec fn wf(&self) -> bool {
        &&& self.diag_lines@ == seq![0b001010100u16, 0b100010001u16]
        &&& self.side_lines@ == seq![0b000000111u16, 0b001001001u16, 0b100100100u16, 0b111000000u16]
        &&& self.cent_lines@ == seq![0b000111000u16, 0b010010010u16]
        &&& self.all_lines@ == seq![
            0b001010100u16,
            0b100010001u16,
            0b000000111u16,
            0b001001001u16,
            0b100100100u16,
            0b111000000u16,
            0b000111000u16,
            0b010010010u16,
        ]
        &&& self.corners == 0b101000101
        &&& self.sides == 0b010101010
        &&& self.center == 0b000010000
        &&& forall|i: int| 0 <= i < 512 ==> self.mirrors[i] == mirror_of(i as u16)
        &&& forall|i: int| 0 <= i < 512 ==> self.rotates[i] == rotate_of(i as u16)
    }

    /// Makes the lookups.
    pub fn default() -> (r: Self)
        ensures
            r.wf(),
    {
        let diag_lines: [u16; 2] = [0b001010100, 0b100010001];
        let side_lines: [u16; 4] = [0b000000111, 0b001001001, 0b100100100, 0b111000000];
        let cent_lines: [u16; 2] = [0b000111000, 0b010010010];
        let all_lines: [u16; 8] = [
            0b001010100,
            0b100010001,
            0b000000111,
            0b001001001,
            0b100100100,
            0b111000000,
            0b000111000,
            0b010010010,
        ];
        let corners: u16 = 0b101000101;
        let sides: u16 = 0b010101010;
        let center: u16 = 0b000010000;

        let mut mirrors: [u16; 512] = [0; 512];
        let mut i: usize = 0;
        while i < 512
            invariant
                i <= 512,
                forall|j: int| 0 <= j < i ==> mirrors[j] == mirror_of(j as u16),
            decreases 512 - i,
        {
            let mut bb: u16 = i as u16;
            bb.swap_bits(0, 2);
            bb.swap_bits(3, 5);
            bb.swap_bits(6, 8);
            proof {
                lemma_mirror_swaps(i as u16);
            }
            mirrors[i] = bb;
            i += 1;
        }

        let mut rotates: [u16; 512] = [0; 512];
        let mut i: usize = 0;
        while i < 512
            invariant
                i <= 512,
                forall|j: int| 0 <= j < i ==> rotates[j] == rotate_of(j as u16),
            decreases 512 - i,
        {
            let mut bb: u16 = i as u16;
            bb.swap_bits(2, 8);
            bb.swap_bits(0, 2);
            bb.swap_bits(0, 6);
            bb.swap_bits(5, 7);
            bb.swap_bits(1, 5);
            bb.swap_bits(1, 3);
            proof {
                lemma_rotate_swaps(i as u16);
            }
            rotates[i] = bb;
            i += 1;
        }
        proof {
            assert(diag_lines@ =~= seq![0b001010100u16, 0b100010001u16]);
            assert(side_lines@ =~= seq![
                0b000000111u16,
                0b001001001u16,
                0b100100100u16,
                0b111000000u16,
            ]);
            assert(cent_lines@ =~= seq![0b000111000u16, 0b010010010u16]);
            assert(all_lines@ =~= seq![
                0b001010100u16,
                0b100010001u16,
                0b000000111u16,
                0b001001001u16,
                0b100100100u16,
                0b111000000u16,
                0b000111000u16,
                0b010010010u16,
            ]);
        }

        Self {
            diag_lines,
            side_lines,
            cent_lines,
            all_lines,
            corners,
            sides,
            center,
            mirrors,
            rotates,
        }
    }

    /// The two diagonals.
    #[inline]
    pub fn get_diag_lines(&self) -> (r: &[u16; 2])
        ensures
            *r == self.diag_lines,
    {
        &self.diag_lines
    }

    /// The four lines along the edges.
    #[inline]
    pub fn get_side_lines(&self) -> (r: &[u16; 4])
        ensures
            *r == self.side_lines,
    {
        &self.side_lines
    }

    /// The two lines through the centre that are no diagonals.
    #[inline]
    pub fn get_cent_lines(&self) -> (r: &[u16; 2])
        ensures
            *r == self.cent_lines,
    {
        &self.cent_lines
    }

    /// All eight lines.
    #[inline]
    pub fn get_all_lines(&self) -> (r: &[u16; 8])
        ensures
            *r == self.all_lines,
    {
        &self.all_lines
    }

    /// The four corners.
    #[inline]
    pub fn get_corners(&self) -> (r: u16)
        ensures
            r == self.corners,
    {
        self.corners
    }

    /// The four cells in the middle of an edge.
    #[inline]
    pub fn get_sides(&self) -> (r: u16)
        ensures
            r == self.sides,
    {
        self.sides
    }

    /// The centre.
    #[inline]
    pub fn get_center(&self) -> (r: u16)
        ensures
            r == self.center,
    {
        self.center
    }

    /// Each small mask with left and right exchanged.
    #[inline]
    pub fn get_mirrors(&self) -> (r: &[u16; 512])
        ensures
            *r == self.mirrors,
    {
        &self.mirrors
    }

    /// Each small mask turned by a quarter.
    #[inline]
    pub fn get_rotates(&self) -> (r: &[u16; 512])
        ensures
            *r == self.rotates,
    {
        &self.rotates
    }
}

} // verus!
