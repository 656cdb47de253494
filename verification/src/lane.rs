//! The lane capability: what a fixed-width unsigned integer offers to the
//! blocks built from it, stated bit by bit.
use vstd::prelude::*;
use crate::bits::{count_true, leading_false};

verus! {

/// A fixed-width unsigned integer that serves as one lane of a block.
///
/// The model of a lane is the predicate `bit`: position 0 is the least
/// significant bit, position `spec_bit_width() - 1` the most significant.
pub trait BitBlockElement: Copy + Sized {
    /// Number of bits of the lane.
    spec fn spec_bit_width() -> nat;

    /// Whether the bit at position `i` is set.
    spec fn bit(self, i: int) -> bool;

    /// The width is positive and fits a shift amount.
    proof fn lemma_bit_width()
        ensures
            0 < Self::spec_bit_width() <= u32::MAX,
    ;

    /// Number of bits of the lane.
    fn bit_width() -> (w: usize)
        ensures
            w == Self::spec_bit_width(),
    ;

    /// The lane with no bit set.
    fn zero() -> (r: Self)
        ensures
            forall|i: int| 0 <= i < Self::spec_bit_width() ==> !#[trigger] r.bit(i),
    ;

    /// The lane with only the lowest bit set.
    fn one() -> (r: Self)
        ensures
            forall|i: int| 0 <= i < Self::spec_bit_width() ==> #[trigger] r.bit(i) == (i == 0),
    ;

    /// The lane with every bit set.
    fn max() -> (r: Self)
        ensures
            forall|i: int| 0 <= i < Self::spec_bit_width() ==> #[trigger] r.bit(i),
    ;

    /// Bitwise complement.
    fn not(self) -> (r: Self)
        ensures
            forall|i: int| 0 <= i < Self::spec_bit_width() ==> #[trigger] r.bit(i) == !self.bit(i),
    ;

    /// Bitwise and.
    fn and(self, rhs: Self) -> (r: Self)
        ensures
            forall|i: int|
                0 <= i < Self::spec_bit_width() ==> #[trigger] r.bit(i) == (self.bit(i) && rhs.bit(
                    i,
                )),
    ;

    /// Bitwise or.
    fn or(self, rhs: Self) -> (r: Self)
        ensures
            forall|i: int|
                0 <= i < Self::spec_bit_width() ==> #[trigger] r.bit(i) == (self.bit(i) || rhs.bit(
                    i,
                )),
    ;

    /// Bitwise exclusive or.
    fn xor(self, rhs: Self) -> (r: Self)
        ensures
            forall|i: int|
                0 <= i < Self::spec_bit_width() ==> #[trigger] r.bit(i) == (self.bit(i) != rhs.bit(
                    i,
                )),
    ;

    /// Whether two lanes hold the same bits.
    fn eq(self, rhs: Self) -> (r: bool)
        ensures
            r == (forall|i: int| 0 <= i < Self::spec_bit_width() ==> self.bit(i) == rhs.bit(i)),
    ;

    /// Population count.
    fn count_ones(self) -> (r: u32)
        ensures
            r == count_true(Seq::new(Self::spec_bit_width(), |i: int| self.bit(i))),
    ;

    /// Number of clear bits above the highest set bit; the width for zero.
    fn leading_zeros(self) -> (r: u32)
        ensures
            r == leading_false(Seq::new(Self::spec_bit_width(), |i: int| self.bit(i))),
    ;

    /// Shift towards the high end by `rhs` modulo the width; bits shifted
    /// out are lost, zeros come in.
    fn wrapping_shl(self, rhs: u32) -> (r: Self)
        ensures
            forall|i: int|
                0 <= i < Self::spec_bit_width() ==> #[trigger] r.bit(i) == (i >= (rhs as int % Self::spec_bit_width() as int) && self.bit(i - (rhs as int % Self::spec_bit_width() as int))),
    ;

    /// Shift towards the low end by `rhs` modulo the width; bits shifted out
    /// are lost, zeros come in.
    fn wrapping_shr(self, rhs: u32) -> (r: Self)
        ensures
            forall|i: int|
                0 <= i < Self::spec_bit_width() ==> #[trigger] r.bit(i) == (i + (rhs as int % Self::spec_bit_width() as int) < Self::spec_bit_width() && self.bit(i + (rhs as int % Self::spec_bit_width() as int))),
    ;

    /// Clears the top `rhs` modulo the width bits and keeps the rest.
    fn clear_high_bits(self, rhs: u32) -> (r: Self)
        ensures
            forall|i: int|
                0 <= i < Self::spec_bit_width() ==> #[trigger] r.bit(i) == (i
                    < Self::spec_bit_width() - (rhs as int % Self::spec_bit_width() as int) && self.bit(i)),
    ;

    /// Clears the bottom `rhs` modulo the width bits and keeps the rest.
    fn clear_low_bits(self, rhs: u32) -> (r: Self)
        ensures
            forall|i: int|
                0 <= i < Self::spec_bit_width() ==> #[trigger] r.bit(i) == (i >= (rhs as int % Self::spec_bit_width() as int) && self.bit(i)),
    ;
}

/// The bits of a lane as a sequence, lowest position first.
pub open spec fn lane_view<E: BitBlockElement>(e: E) -> Seq<bool> {
    Seq::new(E::spec_bit_width(), |i: int| e.bit(i))
}

/// Whether no bit of a lane is set.
pub open spec fn lane_is_zero<E: BitBlockElement>(e: E) -> bool {
    forall|i: int| 0 <= i < E::spec_bit_width() ==> !#[trigger] e.bit(i)
}

/// Number of ones in the binary representation of `n`.
pub open spec fn popcount(n: nat) -> nat
    decreases n,
{
    if n == 0 {
        0
    } else {
        (n % 2) + popcount(n / 2)
    }
}

/// Population count of a lane, over its view.
pub fn lane_count_ones<E: BitBlockElement>(e: E) -> (r: u32)
    ensures
        r == count_true(lane_view(e)),
{
    e.count_ones()
}

/// Leading-zero count of a lane, over its view.
pub fn lane_leading_zeros<E: BitBlockElement>(e: E) -> (r: u32)
    ensures
        r == leading_false(lane_view(e)),
{
    e.leading_zeros()
}

} // verus!
