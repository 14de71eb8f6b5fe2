//! Bit manipulation on the two mask widths of the engine: `u16` for a small
//! board of nine cells, `u128` for the large board of 81.

use vstd::prelude::*;

verus! {

/// All 81 cells of the large board.
pub const LF: u128 = 0x1_ffff_ffff_ffff_ffff_ffff;

/// The nine cells of a small board, as the low bits of a large mask.
pub const LS: u128 = 0x1ff;

/// The nine cells of a small board.
pub const SF: u16 = 0x1ff;

/// The number of ones in the binary representation of `v`.
pub open spec fn popcount(v: u128) -> nat
    decreases v,
{
    if v == 0 {
        0
    } else {
        (v % 2) as nat + popcount(v / 2)
    }
}

/// `u128::trailing_zeros` of std: the number of zero bits below the lowest
/// one, and the width, 128, for zero. Stated as: the bit at the result is
/// set and every bit below it is clear (shifting the value down and up
/// again by the result loses nothing).
pub assume_specification[ u128::trailing_zeros ](v: u128) -> (r: u32)
    ensures
        r <= 128,
        v == 0 <==> r == 128,
        r < 128 ==> v & (1u128 << r) != 0,
        r < 128 ==> (v >> r) << r == v,
;

/// `u128::count_ones` of std: the number of ones in the binary
/// representation.
pub assume_specification[ u128::count_ones ](v: u128) -> (r: u32)
    ensures
        r == popcount(v),
;

/// `u16::count_ones` of std: the number of ones in the binary
/// representation.
pub assume_specification[ u16::count_ones ](v: u16) -> (r: u32)
    ensures
        r == popcount(v as u128),
;

pub trait DelBit<T>: Sized {
    /// How many bits the mask has.
    spec fn del_width() -> nat;

    /// The mask with bit `bit` cleared.
    spec fn without_bit(self, bit: u8) -> Self;

    fn del_bit(&mut self, bit: u8)
        requires
            bit < Self::del_width(),
        ensures
            *final(self) == old(self).without_bit(bit),
    ;
}

pub trait GetBit<T>: Sized {
    /// How many bits the mask has.
    spec fn get_width() -> nat;

    /// The mask with every bit but `bit` cleared.
    spec fn only_bit(self, bit: u8) -> Self;

    fn get_bit(&self, bit: u8) -> (r: Self)
        requires
            bit < Self::get_width(),
        ensures
            r == self.only_bit(bit),
    ;
}

pub trait SetBit<T>: Sized {
    /// How many bits the mask has.
    spec fn set_width() -> nat;

    /// The mask with bit `bit` set.
    spec fn with_bit(self, bit: u8) -> Self;

    fn set_bit(&mut self, bit: u8)
        requires
            bit < Self::set_width(),
        ensures
            *final(self) == old(self).with_bit(bit),
    ;
}

pub trait PopBit<T>: Sized {
    /// Whether any bit is set.
    spec fn any_bit(self) -> bool;

    /// Whether `bit` is the lowest bit that is set.
    spec fn lowest_is(self, bit: u8) -> bool;

    /// The mask with bit `bit` cleared.
    spec fn popped(self, bit: u8) -> Self;

    fn pop_bit(&mut self) -> (r: u8)
        requires
            old(self).any_bit(),
        ensures
            old(self).lowest_is(r),
            *final(self) == old(self).popped(r),
    ;
}

pub trait SwapBits<T>: Sized {
    /// How many bits the mask has.
    spec fn swap_width() -> nat;

    /// The mask with the values of the bits `first` and `second` exchanged.
    spec fn swapped(self, first: u8, second: u8) -> Self;

    fn swap_bits(&mut self, first: u8, second: u8)
        requires
            first < Self::swap_width(),
            second < Self::swap_width(),
        ensures
            *final(self) == old(self).swapped(first, second),
    ;
}

impl DelBit<&u8> for u16 {
    open spec fn del_width() -> nat {
        16
    }

    open spec fn without_bit(self, bit: u8) -> Self {
        self & !(1u16 << bit)
    }

    #[inline]
    fn del_bit(&mut self, bit: u8) {
        *self &= !(1u16 << bit);
    }
}

impl DelBit<&u8> for u128 {
    open spec fn del_width() -> nat {
        128
    }

    open spec fn without_bit(self, bit: u8) -> Self {
        self & !(1u128 << bit)
    }

    #[inline]
    fn del_bit(&mut self, bit: u8) {
        *self &= !(1u128 << bit);
    }
}

impl GetBit<&u8> for u16 {
    open spec fn get_width() -> nat {
        16
    }

    open spec fn only_bit(self, bit: u8) -> Self {
        self & (1u16 << bit)
    }

    #[inline]
    fn get_bit(&self, bit: u8) -> Self {
        *self & (1u16 << bit)
    }
}

impl GetBit<&u8> for u128 {
    open spec fn get_width() -> nat {
        128
    }

    open spec fn only_bit(self, bit: u8) -> Self {
        self & (1u128 << bit)
    }

    #[inline]
    fn get_bit(&self, bit: u8) -> Self {
        *self & (1u128 << bit)
    }
}

impl SetBit<&u8> for u16 {
    open spec fn set_width() -> nat {
        16
    }

    open spec fn with_bit(self, bit: u8) -> Self {
        self | (1u16 << bit)
    }

    #[inline]
    fn set_bit(&mut self, bit: u8) {
        *self |= 1u16 << bit;
    }
}

impl SetBit<&u8> for u128 {
    open spec fn set_width() -> nat {
        128
    }

    open spec fn with_bit(self, bit: u8) -> Self {
        self | (1u128 << bit)
    }

    #[inline]
    fn set_bit(&mut self, bit: u8) {
        *self |= 1u128 << bit;
    }
}

/// Clearing the lowest set bit of a small mask by `v & (v - 1)`.
pub proof fn lemma_pop_lowest_u16(v: u16, r: u16)
    by (bit_vector)
    requires
        r < 16,
        (v >> r) & 1 == 1,
        v << ((16 - r) as u16) == 0,
    ensures
        v != 0,
        v & ((v - 1) as u16) == v & !(1u16 << r),
        v & (1u16 << r) != 0,
        (v >> r) << r == v,
{
}

/// Clearing the lowest set bit of a large mask by `v & (v - 1)`.
pub proof fn lemma_pop_lowest_u128(v: u128, r: u128)
    by (bit_vector)
    requires
        r < 128,
        v & (1u128 << r) != 0,
        (v >> r) << r == v,
    ensures
        v != 0,
        v & ((v - 1) as u128) == v & !(1u128 << r),
{
}

impl PopBit<&u8> for u16 {
    open spec fn any_bit(self) -> bool {
        self != 0
    }

    open spec fn lowest_is(self, bit: u8) -> bool {
        &&& bit < 16
        &&& self & (1u16 << bit) != 0
        &&& (self >> bit) << bit == self
    }

    open spec fn popped(self, bit: u8) -> Self {
        self & !(1u16 << bit)
    }

    #[inline]
    fn pop_bit(&mut self) -> (r: u8) {
        let tz: u8 = self.trailing_zeros() as u8;
        proof {
            vstd::std_specs::bits::axiom_u16_trailing_zeros(*self);
            lemma_pop_lowest_u16(*self, tz as u16);
        }
        *self &= *self - 1;
        tz
    }
}

impl PopBit<&u8> for u128 {
    open spec fn any_bit(self) -> bool {
        self != 0
    }

    open spec fn lowest_is(self, bit: u8) -> bool {
        &&& bit < 128
        &&& self & (1u128 << bit) != 0
        &&& (self >> bit) << bit == self
    }

    open spec fn popped(self, bit: u8) -> Self {
        self & !(1u128 << bit)
    }

    #[inline]
    fn pop_bit(&mut self) -> (r: u8) {
        let tz: u8 = self.trailing_zeros() as u8;
        proof {
            lemma_pop_lowest_u128(*self, tz as u128);
        }
        *self &= *self - 1;
        tz
    }
}

impl SwapBits<&u8> for u16 {
    open spec fn swap_width() -> nat {
        16
    }

    open spec fn swapped(self, first: u8, second: u8) -> Self {
        let fb = self & (1u16 << first);
        let sb = self & (1u16 << second);
        let rest = self & !(fb | sb);
        let moved_first = if fb != 0 { rest | (1u16 << second) } else { rest };
        if sb != 0 { moved_first | (1u16 << first) } else { moved_first }
    }

    fn swap_bits(&mut self, first: u8, second: u8) {
        let fb = self.get_bit(first);
        let sb = self.get_bit(second);
        *self &= !(fb | sb);
        if fb != 0 {
            self.set_bit(second);
        }
        if sb != 0 {
            self.set_bit(first);
        }
    }
}

impl SwapBits<&u8> for u128 {
    open spec fn swap_width() -> nat {
        128
    }

    open spec fn swapped(self, first: u8, second: u8) -> Self {
        let fb = self & (1u128 << first);
        let sb = self & (1u128 << second);
        let rest = self & !(fb | sb);
        let moved_first = if fb != 0 { rest | (1u128 << second) } else { rest };
        if sb != 0 { moved_first | (1u128 << first) } else { moved_first }
    }

    fn swap_bits(&mut self, first: u8, second: u8) {
        let fb = self.get_bit(first);
        let sb = self.get_bit(second);
        *self &= !(fb | sb);
        if fb != 0 {
            self.set_bit(second);
        }
        if sb != 0 {
            self.set_bit(first);
        }
    }
}

/// The mask of the bits below `n`.
pub open spec fn low_mask(n: u8) -> u128 {
    ((1u128 << n) - 1) as u128
}

/// How many of the bits below `n` are set in `v`.
pub open spec fn count_below(v: u128, n: nat) -> nat
    decreases n,
{
    if n == 0 {
        0
    } else {
        count_below(v, (n - 1) as nat) + if v & (1u128 << ((n - 1) as u8)) != 0 {
            1nat
        } else {
            0nat
        }
    }
}

/// The bit at a place, by shift and by mask, and what halving does to a shifted
/// mask.
proof fn lemma_shift_step(v: u128, j: u128)
    by (bit_vector)
    requires
        j < 128,
    ensures
        (v >> j) % 2 == 1 <==> v & (1u128 << j) != 0,
        j < 127 ==> (v >> j) / 2 == v >> (j + 1),
        j == 127 ==> (v >> j) / 2 == 0,
        j == 127 && v >> j != 0 ==> (v >> j) % 2 == 1,
        v >> 0 == v,
{
}

/// The ones from bit `j` up and the set bits below `j` make up all the set
/// bits.
proof fn lemma_popcount_from(v: u128, j: nat)
    requires
        j <= 127,
    ensures
        popcount(v >> (j as u128)) + count_below(v, j) == count_below(v, 128),
    decreases 128 - j,
{
    let w = v >> (j as u128);
    lemma_shift_step(v, j as u128);
    reveal_with_fuel(count_below, 2);
    if j == 127 {
        assert(popcount(0) == 0);
        assert(popcount(w) == if w == 0 { 0nat } else { (w % 2) as nat + popcount(w / 2) });
    } else {
        lemma_popcount_from(v, j + 1);
        assert(w == 0 ==> w / 2 == 0 && w % 2 == 0);
    }
}

/// Counting the ones from the lowest bit up counts each set bit once.
pub proof fn lemma_popcount_counts(v: u128)
    ensures
        popcount(v) == count_below(v, 128),
{
    lemma_popcount_from(v, 0);
    lemma_shift_step(v, 0);
}

/// What taking the lowest bit `c` out of `rest` says, where `rest` is what
/// is left of `all` from bit `lo` up: `c` is not below `lo`, it is set in
/// `all`, no bit of `all` from `lo` up to `c` is set, and what is left now
/// is `all` from bit `c + 1` up.
pub proof fn lemma_pop_walk(all: u128, rest: u128, lo: u8, c: u8, j: u8)
    requires
        lo < 128,
        c < 128,
        rest == all & !low_mask(lo),
        rest & (1u128 << c) != 0,
        (rest >> c) << c == rest,
    ensures
        lo <= c,
        all & (1u128 << c) != 0,
        lo <= j < c ==> all & (1u128 << j) == 0,
        c < 127 ==> rest & !(1u128 << c) == all & !low_mask((c + 1) as u8),
{
    lemma_walk_bits(all, rest, lo, c, j);
}

/// The facts on masks behind the three lemmas of a walk through the set bits.
proof fn lemma_walk_bits(all: u128, rest: u128, lo: u8, c: u8, j: u8)
    by (bit_vector)
    requires
        lo < 128,
        c < 128,
    ensures
        rest == all & !(((1u128 << lo) - 1) as u128) && rest & (1u128 << c) != 0 && (rest >> c)
            << c == rest ==> lo <= c && all & (1u128 << c) != 0 && (lo <= j < c ==> all & (1u128
            << j) == 0) && (c < 127 ==> rest & !(1u128 << c) == all & !(((1u128 << ((c + 1)
            as u8)) - 1) as u128)),
        all & !(((1u128 << lo) - 1) as u128) == 0 && lo <= j < 128 ==> all & (1u128 << j) == 0,
        all == all & !(((1u128 << 0u8) - 1) as u128),
{
}

/// Once nothing is left of `all` from bit `lo` up, no bit from `lo` up is
/// set in it.
pub proof fn lemma_pop_done(all: u128, lo: u8, j: u8)
    requires
        lo < 128,
        all & !low_mask(lo) == 0,
        lo <= j < 128,
    ensures
        all & (1u128 << j) == 0,
{
    lemma_walk_bits(all, all, lo, 0, j);
}

/// At the start of a walk everything is left.
pub proof fn lemma_pop_start(all: u128)
    ensures
        all == all & !low_mask(0),
{
    lemma_walk_bits(all, all, 0, 0, 0);
}

/// Counting further up counts no less.
pub proof fn lemma_count_below_monotone(v: u128, a: nat, b: nat)
    requires
        a <= b,
    ensures
        count_below(v, a) <= count_below(v, b),
    decreases b,
{
    if a < b {
        lemma_count_below_monotone(v, a, (b - 1) as nat);
    }
}

/// A mask with three different bits set has at least three ones.
pub proof fn lemma_three_bits(v: u128, i: u8, j: u8, k: u8)
    requires
        i < j < k < 128,
        v & (1u128 << i) != 0,
        v & (1u128 << j) != 0,
        v & (1u128 << k) != 0,
    ensures
        popcount(v) >= 3,
{
    lemma_popcount_counts(v);
    reveal_with_fuel(count_below, 2);
    lemma_count_below_monotone(v, 0, i as nat);
    lemma_count_below_monotone(v, (i + 1) as nat, j as nat);
    lemma_count_below_monotone(v, (j + 1) as nat, k as nat);
    lemma_count_below_monotone(v, (k + 1) as nat, 128);
}

/// What clearing the lowest set bit does to the halves of a mask.
proof fn lemma_lowest_cleared(v: u128)
    by (bit_vector)
    requires
        v != 0,
    ensures
        v % 2 == 1 ==> (v & ((v - 1) as u128)) / 2 == v / 2 && (v & ((v - 1) as u128)) % 2 == 0,
        v % 2 == 0 ==> v / 2 != 0 && (v & ((v - 1) as u128)) / 2 == (v / 2) & ((v / 2 - 1) as u128)
            && (v & ((v - 1) as u128)) % 2 == 0,
{
}

/// Clearing the lowest set bit takes one from the number of ones.
pub proof fn lemma_popcount_step(v: u128)
    requires
        v != 0,
    ensures
        popcount(v) == 1 + popcount(v & ((v - 1) as u128)),
    decreases v,
{
    lemma_lowest_cleared(v);
    let w = v & ((v - 1) as u128);
    if v % 2 == 0 {
        lemma_popcount_step(v / 2);
        assert(popcount(w) == if w == 0 { 0nat } else { (w % 2) as nat + popcount(w / 2) });
        assert(popcount(0) == 0);
    } else {
        assert(popcount(w) == if w == 0 { 0nat } else { (w % 2) as nat + popcount(w / 2) });
        assert(popcount(0) == 0);
    }
}

/// A mask without a set bit is zero.
pub proof fn lemma_no_bits(v: u128)
    requires
        forall|j: u8| j < 128 ==> v & (1u128 << j) == 0,
    ensures
        v == 0,
{
    lemma_popcount_counts(v);
    lemma_count_none(v, 128);
    if v != 0 {
        lemma_popcount_step(v);
    }
}

/// Where no bit below `n` is set, none is counted.
pub proof fn lemma_count_none(v: u128, n: nat)
    requires
        n <= 128,
        forall|j: u8| j < n ==> v & (1u128 << j) == 0,
    ensures
        count_below(v, n) == 0,
    decreases n,
{
    if n > 0 {
        lemma_count_none(v, (n - 1) as nat);
        assert(v & (1u128 << ((n - 1) as u8)) == 0);
    }
}

} // verus!
