//! `wide::u8x16` as a block of sixteen 8-bit lanes.
use vstd::prelude::*;
use crate::block::BitBlock;
use crate::lane_u8::{lemma_u8_bits, lemma_u8_distinct, u8_bit};

verus! {

/// `wide::u8x16`, carried as an opaque value; its lanes are named by
/// `u8x16_lanes`.
#[verifier::external_type_specification]
#[verifier::external_body]
pub struct ExU8x16(wide::u8x16);

/// The lanes of a `wide::u8x16`, lowest first.
pub uninterp spec fn u8x16_lanes(b: wide::u8x16) -> Seq<u8>;

/// `wide::u8x16::to_array` reinterprets the vector as the array of its sixteen
/// lanes, in order.
#[verifier::external_body]
fn u8x16_to_array(b: wide::u8x16) -> (r: [u8; 16])
    ensures
        r@ == u8x16_lanes(b),
{
    b.to_array()
}

/// `wide::u8x16::from` on an array reinterprets it as a vector: the lanes are
/// the elements of the array, in order.
#[verifier::external_body]
fn u8x16_from_array(a: [u8; 16]) -> (r: wide::u8x16)
    ensures
        u8x16_lanes(r) == a@,
{
    wide::u8x16::from(a)
}

/// `!` on `wide::u8x16` complements every lane.
#[verifier::external_body]
fn u8x16_not(a: wide::u8x16) -> (r: wide::u8x16)
    ensures
        u8x16_lanes(r) == Seq::new(16, |i: int| !u8x16_lanes(a)[i]),
{
    !a
}

/// `&` on `wide::u8x16` is the lane-wise and.
#[verifier::external_body]
fn u8x16_and(a: wide::u8x16, b: wide::u8x16) -> (r: wide::u8x16)
    ensures
        u8x16_lanes(r) == Seq::new(16, |i: int| u8x16_lanes(a)[i] & u8x16_lanes(b)[i]),
{
    a & b
}

/// `|` on `wide::u8x16` is the lane-wise or.
#[verifier::external_body]
fn u8x16_or(a: wide::u8x16, b: wide::u8x16) -> (r: wide::u8x16)
    ensures
        u8x16_lanes(r) == Seq::new(16, |i: int| u8x16_lanes(a)[i] | u8x16_lanes(b)[i]),
{
    a | b
}

/// `^` on `wide::u8x16` is the lane-wise exclusive or.
#[verifier::external_body]
fn u8x16_xor(a: wide::u8x16, b: wide::u8x16) -> (r: wide::u8x16)
    ensures
        u8x16_lanes(r) == Seq::new(16, |i: int| u8x16_lanes(a)[i] ^ u8x16_lanes(b)[i]),
{
    a ^ b
}

/// `==` on `wide::u8x16` holds exactly when all sixteen lanes agree.
#[verifier::external_body]
fn u8x16_eq(a: &wide::u8x16, b: &wide::u8x16) -> (r: bool)
    ensures
        r == (forall|i: int| 0 <= i < 16 ==> u8x16_lanes(*a)[i] == u8x16_lanes(*b)[i]),
{
    a == b
}

impl BitBlock<16> for wide::u8x16 {
    type Element = u8;

    open spec fn bit(self, q: int) -> bool {
        0 <= q < 128 && u8_bit(u8x16_lanes(self)[q / 8], (q % 8) as u8)
    }

    proof fn lemma_shape() {
    }

    fn to_array(self) -> (r: [u8; 16]) {
        u8x16_to_array(self)
    }

    fn from_array(a: [u8; 16]) -> (r: Self) {
        u8x16_from_array(a)
    }

    fn zero() -> (r: Self) {
        let r = u8x16_from_array([0u8;16]);
        proof {
            assert forall|q: int| 0 <= q < 128 implies !#[trigger] r.bit(q) by {
                lemma_u8_bits(0, 0, (q % 8) as u8, 0);
            }
        }
        r
    }

    fn max() -> (r: Self) {
        let r = u8x16_from_array([0xffu8;16]);
        proof {
            assert forall|q: int| 0 <= q < 128 implies #[trigger] r.bit(q) by {
                lemma_u8_bits(0, 0, (q % 8) as u8, 0);
            }
        }
        r
    }

    fn not(self) -> (r: Self) {
        let r = u8x16_not(self);
        proof {
            assert forall|q: int| 0 <= q < 128 implies #[trigger] r.bit(q) == !self.bit(q) by {
                lemma_u8_bits(u8x16_lanes(self)[q / 8], 0, (q % 8) as u8, 0);
            }
        }
        r
    }

    fn and(self, rhs: Self) -> (r: Self) {
        let r = u8x16_and(self, rhs);
        proof {
            assert forall|q: int| 0 <= q < 128 implies #[trigger] r.bit(q) == (self.bit(q)
                && rhs.bit(q)) by {
                lemma_u8_bits(
                    u8x16_lanes(self)[q / 8],
                    u8x16_lanes(rhs)[q / 8],
                    (q % 8) as u8,
                    0,
                );
            }
        }
        r
    }

    fn or(self, rhs: Self) -> (r: Self) {
        let r = u8x16_or(self, rhs);
        proof {
            assert forall|q: int| 0 <= q < 128 implies #[trigger] r.bit(q) == (self.bit(q)
                || rhs.bit(q)) by {
                lemma_u8_bits(
                    u8x16_lanes(self)[q / 8],
                    u8x16_lanes(rhs)[q / 8],
                    (q % 8) as u8,
                    0,
                );
            }
        }
        r
    }

    fn xor(self, rhs: Self) -> (r: Self) {
        let r = u8x16_xor(self, rhs);
        proof {
            assert forall|q: int| 0 <= q < 128 implies #[trigger] r.bit(q) == (self.bit(q)
                != rhs.bit(q)) by {
                lemma_u8_bits(
                    u8x16_lanes(self)[q / 8],
                    u8x16_lanes(rhs)[q / 8],
                    (q % 8) as u8,
                    0,
                );
            }
        }
        r
    }

    fn and_inplace(&mut self, rhs: &Self) {
        *self = (*self).and(*rhs);
    }

    fn or_inplace(&mut self, rhs: &Self) {
        *self = (*self).or(*rhs);
    }

    fn xor_inplace(&mut self, rhs: &Self) {
        *self = (*self).xor(*rhs);
    }

    fn eq(&self, rhs: &Self) -> (r: bool) {
        let r = u8x16_eq(self, rhs);
        proof {
            if r {
                assert forall|q: int| 0 <= q < 128 implies self.bit(q) == rhs.bit(q) by {
                    assert(u8x16_lanes(*self)[q / 8] == u8x16_lanes(*rhs)[q / 8]);
                }
            } else {
                let i = choose|i: int|
                    0 <= i < 16 && u8x16_lanes(*self)[i] != u8x16_lanes(*rhs)[i];
                lemma_u8_distinct(u8x16_lanes(*self)[i], u8x16_lanes(*rhs)[i]);
                let j = choose|j: u8|
                    j < 8 && u8_bit(u8x16_lanes(*self)[i], j) != u8_bit(u8x16_lanes(*rhs)[i], j);
                assert(self.bit(i * 8 + j) != rhs.bit(i * 8 + j));
            }
        }
        r
    }
}

} // verus!
