//! `wide::u16x8` as a block of eight 16-bit lanes.
use vstd::prelude::*;
use crate::block::BitBlock;
use crate::lane_u16::{lemma_u16_bits, lemma_u16_distinct, u16_bit};

verus! {

/// `wide::u16x8`, carried as an opaque value; its lanes are named by
/// `u16x8_lanes`.
#[verifier::external_type_specification]
#[verifier::external_body]
pub struct ExU16x8(wide::u16x8);

/// The lanes of a `wide::u16x8`, lowest first.
pub uninterp spec fn u16x8_lanes(b: wide::u16x8) -> Seq<u16>;

/// `wide::u16x8::to_array` reinterprets the vector as the array of its eight
/// lanes, in order.
#[verifier::external_body]
fn u16x8_to_array(b: wide::u16x8) -> (r: [u16; 8])
    ensures
        r@ == u16x8_lanes(b),
{
    b.to_array()
}

/// `wide::u16x8::from` on an array reinterprets it as a vector: the lanes are
/// the elements of the array, in order.
#[verifier::external_body]
fn u16x8_from_array(a: [u16; 8]) -> (r: wide::u16x8)
    ensures
        u16x8_lanes(r) == a@,
{
    wide::u16x8::from(a)
}

/// `!` on `wide::u16x8` complements every lane.
#[verifier::external_body]
fn u16x8_not(a: wide::u16x8) -> (r: wide::u16x8)
    ensures
        u16x8_lanes(r) == Seq::new(8, |i: int| !u16x8_lanes(a)[i]),
{
    !a
}

/// `&` on `wide::u16x8` is the lane-wise and.
#[verifier::external_body]
fn u16x8_and(a: wide::u16x8, b: wide::u16x8) -> (r: wide::u16x8)
    ensures
        u16x8_lanes(r) == Seq::new(8, |i: int| u16x8_lanes(a)[i] & u16x8_lanes(b)[i]),
{
    a & b
}

/// `|` on `wide::u16x8` is the lane-wise or.
#[verifier::external_body]
fn u16x8_or(a: wide::u16x8, b: wide::u16x8) -> (r: wide::u16x8)
    ensures
        u16x8_lanes(r) == Seq::new(8, |i: int| u16x8_lanes(a)[i] | u16x8_lanes(b)[i]),
{
    a | b
}

/// `^` on `wide::u16x8` is the lane-wise exclusive or.
#[verifier::external_body]
fn u16x8_xor(a: wide::u16x8, b: wide::u16x8) -> (r: wide::u16x8)
    ensures
        u16x8_lanes(r) == Seq::new(8, |i: int| u16x8_lanes(a)[i] ^ u16x8_lanes(b)[i]),
{
    a ^ b
}

/// `==` on `wide::u16x8` holds exactly when all eight lanes agree.
#[verifier::external_body]
fn u16x8_eq(a: &wide::u16x8, b: &wide::u16x8) -> (r: bool)
    ensures
        r == (forall|i: int| 0 <= i < 8 ==> u16x8_lanes(*a)[i] == u16x8_lanes(*b)[i]),
{
    a == b
}

impl BitBlock<8> for wide::u16x8 {
    type Element = u16;

    open spec fn bit(self, q: int) -> bool {
        0 <= q < 128 && u16_bit(u16x8_lanes(self)[q / 16], (q % 16) as u16)
    }

    proof fn lemma_shape() {
    }

    fn to_array(self) -> (r: [u16; 8]) {
        u16x8_to_array(self)
    }

    fn from_array(a: [u16; 8]) -> (r: Self) {
        u16x8_from_array(a)
    }

    fn zero() -> (r: Self) {
        let r = u16x8_from_array([0u16;8]);
        proof {
            assert forall|q: int| 0 <= q < 128 implies !#[trigger] r.bit(q) by {
                lemma_u16_bits(0, 0, (q % 16) as u16, 0);
            }
        }
        r
    }

    fn max() -> (r: Self) {
        let r = u16x8_from_array([0xffffu16;8]);
        proof {
            assert forall|q: int| 0 <= q < 128 implies #[trigger] r.bit(q) by {
                lemma_u16_bits(0, 0, (q % 16) as u16, 0);
            }
        }
        r
    }

    fn not(self) -> (r: Self) {
        let r = u16x8_not(self);
        proof {
            assert forall|q: int| 0 <= q < 128 implies #[trigger] r.bit(q) == !self.bit(q) by {
                lemma_u16_bits(u16x8_lanes(self)[q / 16], 0, (q % 16) as u16, 0);
            }
        }
        r
    }

    fn and(self, rhs: Self) -> (r: Self) {
        let r = u16x8_and(self, rhs);
        proof {
            assert forall|q: int| 0 <= q < 128 implies #[trigger] r.bit(q) == (self.bit(q)
                && rhs.bit(q)) by {
                lemma_u16_bits(
                    u16x8_lanes(self)[q / 16],
                    u16x8_lanes(rhs)[q / 16],
                    (q % 16) as u16,
                    0,
                );
            }
        }
        r
    }

    fn or(self, rhs: Self) -> (r: Self) {
        let r = u16x8_or(self, rhs);
        proof {
            assert forall|q: int| 0 <= q < 128 implies #[trigger] r.bit(q) == (self.bit(q)
                || rhs.bit(q)) by {
                lemma_u16_bits(
                    u16x8_lanes(self)[q / 16],
                    u16x8_lanes(rhs)[q / 16],
                    (q % 16) as u16,
                    0,
                );
            }
        }
        r
    }

    fn xor(self, rhs: Self) -> (r: Self) {
        let r = u16x8_xor(self, rhs);
        proof {
            assert forall|q: int| 0 <= q < 128 implies #[trigger] r.bit(q) == (self.bit(q)
                != rhs.bit(q)) by {
                lemma_u16_bits(
                    u16x8_lanes(self)[q / 16],
                    u16x8_lanes(rhs)[q / 16],
                    (q % 16) as u16,
                    0,
                );
            }
        }
        r
    }

    fn and_inplace(&mut self, rhs: &Self) {
        *self = (*self).and(*rhs);
    }

    fn or_inplace(&mut self, rhs: &Self) {
        *self = (*self).or(*rhs);
    }

    fn xor_inplace(&mut self, rhs: &Self) {
        *self = (*self).xor(*rhs);
    }

    fn eq(&self, rhs: &Self) -> (r: bool) {
        let r = u16x8_eq(self, rhs);
        proof {
            if r {
                assert forall|q: int| 0 <= q < 128 implies self.bit(q) == rhs.bit(q) by {
                    assert(u16x8_lanes(*self)[q / 16] == u16x8_lanes(*rhs)[q / 16]);
                }
            } else {
                let i = choose|i: int|
                    0 <= i < 8 && u16x8_lanes(*self)[i] != u16x8_lanes(*rhs)[i];
                lemma_u16_distinct(u16x8_lanes(*self)[i], u16x8_lanes(*rhs)[i]);
                let j = choose|j: u16|
                    j < 16 && u16_bit(u16x8_lanes(*self)[i], j) != u16_bit(u16x8_lanes(*rhs)[i], j);
                assert(self.bit(i * 16 + j) != rhs.bit(i * 16 + j));
            }
        }
        r
    }
}

} // verus!
