//! The block capability: a fixed-width vector of lanes that is combined as a
//! whole, stated bit by bit.
use vstd::prelude::*;
use crate::lane::BitBlockElement;

verus! {

/// A vector of `L` lanes, the unit of storage of a bit vector.
///
/// The model of a block is the predicate `bit` over the positions
/// `0 .. L * W`, where `W` is the width of a lane: position `q` is bit
/// `q % W` of lane `q / W`.
pub trait BitBlock<const L: usize>: Copy + Sized {
    /// The type of a lane.
    type Element: BitBlockElement;

    /// Whether the bit at position `q` of the block is set.
    spec fn bit(self, q: int) -> bool;

    /// A block has at least one lane, and its width in bits fits in 16 bits.
    proof fn lemma_shape()
        ensures
            0 < L,
            L * Self::Element::spec_bit_width() <= u16::MAX,
    ;

    /// The lanes of the block, lowest first.
    fn to_array(self) -> (r: [Self::Element; L])
        ensures
            forall|i: int, j: int|
                0 <= i < L && 0 <= j < Self::Element::spec_bit_width() ==> #[trigger] r[i].bit(j)
                    == self.bit(i * Self::Element::spec_bit_width() + j),
    ;

    /// The block whose lanes are the elements of `a`, lowest first.
    fn from_array(a: [Self::Element; L]) -> (r: Self)
        ensures
            forall|q: int|
                0 <= q < L * Self::Element::spec_bit_width() ==> #[trigger] r.bit(q) == a[q
                    / Self::Element::spec_bit_width() as int].bit(
                    q % Self::Element::spec_bit_width() as int,
                ),
    ;

    /// The block with no bit set.
    fn zero() -> (r: Self)
        ensures
            forall|q: int| 0 <= q < L * Self::Element::spec_bit_width() ==> !#[trigger] r.bit(q),
    ;

    /// The block with every bit set.
    fn max() -> (r: Self)
        ensures
            forall|q: int| 0 <= q < L * Self::Element::spec_bit_width() ==> #[trigger] r.bit(q),
    ;

    /// Complement of every bit.
    fn not(self) -> (r: Self)
        ensures
            forall|q: int|
                0 <= q < L * Self::Element::spec_bit_width() ==> #[trigger] r.bit(q) == !self.bit(
                    q,
                ),
    ;

    /// Bitwise and of two blocks.
    fn and(self, rhs: Self) -> (r: Self)
        ensures
            forall|q: int|
                0 <= q < L * Self::Element::spec_bit_width() ==> #[trigger] r.bit(q) == (self.bit(q)
                    && rhs.bit(q)),
    ;

    /// Bitwise or of two blocks.
    fn or(self, rhs: Self) -> (r: Self)
        ensures
            forall|q: int|
                0 <= q < L * Self::Element::spec_bit_width() ==> #[trigger] r.bit(q) == (self.bit(q)
                    || rhs.bit(q)),
    ;

    /// Bitwise exclusive or of two blocks.
    fn xor(self, rhs: Self) -> (r: Self)
        ensures
            forall|q: int|
                0 <= q < L * Self::Element::spec_bit_width() ==> #[trigger] r.bit(q) == (self.bit(q)
                    != rhs.bit(q)),
    ;

    /// Replaces the block by its bitwise and with `rhs`.
    fn and_inplace(&mut self, rhs: &Self)
        ensures
            forall|q: int|
                0 <= q < L * Self::Element::spec_bit_width() ==> #[trigger] final(self).bit(q) == (
                old(self).bit(q) && rhs.bit(q)),
    ;

    /// Replaces the block by its bitwise or with `rhs`.
    fn or_inplace(&mut self, rhs: &Self)
        ensures
            forall|q: int|
                0 <= q < L * Self::Element::spec_bit_width() ==> #[trigger] final(self).bit(q) == (
                old(self).bit(q) || rhs.bit(q)),
    ;

    /// Replaces the block by its bitwise exclusive or with `rhs`.
    fn xor_inplace(&mut self, rhs: &Self)
        ensures
            forall|q: int|
                0 <= q < L * Self::Element::spec_bit_width() ==> #[trigger] final(self).bit(q) == (
                old(self).bit(q) != rhs.bit(q)),
    ;

    /// Whether two blocks hold the same bits.
    fn eq(&self, rhs: &Self) -> (r: bool)
        ensures
            r == (forall|q: int|
                0 <= q < L * Self::Element::spec_bit_width() ==> self.bit(q) == rhs.bit(q)),
    ;
}

} // verus!
