//! `wide::u32x8` as a block of eight 32-bit lanes.
use vstd::prelude::*;
use crate::block::BitBlock;
use crate::lane_u32::{lemma_u32_bits, lemma_u32_distinct, u32_bit};

verus! {

/// `wide::u32x8`, carried as an opaque value; its lanes are named by
/// `u32x8_lanes`.
#[verifier::external_type_specification]
#[verifier::external_body]
pub struct ExU32x8(wide::u32x8);

/// The lanes of a `wide::u32x8`, lowest first.
pub uninterp spec fn u32x8_lanes(b: wide::u32x8) -> Seq<u32>;

/// `wide::u32x8::to_array` reinterprets the vector as the array of its eight
/// lanes, in order.
#[verifier::external_body]
fn u32x8_to_array(b: wide::u32x8) -> (r: [u32; 8])
    ensures
        r@ == u32x8_lanes(b),
{
    b.to_array()
}

/// `wide::u32x8::from` on an array reinterprets it as a vector: the lanes are
/// the elements of the array, in order.
#[verifier::external_body]
fn u32x8_from_array(a: [u32; 8]) -> (r: wide::u32x8)
    ensures
        u32x8_lanes(r) == a@,
{
    wide::u32x8::from(a)
}

/// `!` on `wide::u32x8` complements every lane.
#[verifier::external_body]
fn u32x8_not(a: wide::u32x8) -> (r: wide::u32x8)
    ensures
        u32x8_lanes(r) == Seq::new(8, |i: int| !u32x8_lanes(a)[i]),
{
    !a
}

/// `&` on `wide::u32x8` is the lane-wise and.
#[verifier::external_body]
fn u32x8_and(a: wide::u32x8, b: wide::u32x8) -> (r: wide::u32x8)
    ensures
        u32x8_lanes(r) == Seq::new(8, |i: int| u32x8_lanes(a)[i] & u32x8_lanes(b)[i]),
{
    a & b
}

/// `|` on `wide::u32x8` is the lane-wise or.
#[verifier::external_body]
fn u32x8_or(a: wide::u32x8, b: wide::u32x8) -> (r: wide::u32x8)
    ensures
        u32x8_lanes(r) == Seq::new(8, |i: int| u32x8_lanes(a)[i] | u32x8_lanes(b)[i]),
{
    a | b
}

/// `^` on `wide::u32x8` is the lane-wise exclusive or.
#[verifier::external_body]
fn u32x8_xor(a: wide::u32x8, b: wide::u32x8) -> (r: wide::u32x8)
    ensures
        u32x8_lanes(r) == Seq::new(8, |i: int| u32x8_lanes(a)[i] ^ u32x8_lanes(b)[i]),
{
    a ^ b
}

/// `==` on `wide::u32x8` holds exactly when all eight lanes agree.
#[verifier::external_body]
fn u32x8_eq(a: &wide::u32x8, b: &wide::u32x8) -> (r: bool)
    ensures
        r == (forall|i: int| 0 <= i < 8 ==> u32x8_lanes(*a)[i] == u32x8_lanes(*b)[i]),
{
    a == b
}

impl BitBlock<8> for wide::u32x8 {
    type Element = u32;

    open spec fn bit(self, q: int) -> bool {
        0 <= q < 256 && u32_bit(u32x8_lanes(self)[q / 32], (q % 32) as u32)
    }

    proof fn lemma_shape() {
    }

    fn to_array(self) -> (r: [u32; 8]) {
        u32x8_to_array(self)
    }

    fn from_array(a: [u32; 8]) -> (r: Self) {
        u32x8_from_array(a)
    }

    fn zero() -> (r: Self) {
        let r = u32x8_from_array([0u32;8]);
        proof {
            assert forall|q: int| 0 <= q < 256 implies !#[trigger] r.bit(q) by {
                lemma_u32_bits(0, 0, (q % 32) as u32, 0);
            }
        }
        r
    }

    fn max() -> (r: Self) {
        let r = u32x8_from_array([0xffff_ffffu32;8]);
        proof {
            assert forall|q: int| 0 <= q < 256 implies #[trigger] r.bit(q) by {
                lemma_u32_bits(0, 0, (q % 32) as u32, 0);
            }
        }
        r
    }

    fn not(self) -> (r: Self) {
        let r = u32x8_not(self);
        proof {
            assert forall|q: int| 0 <= q < 256 implies #[trigger] r.bit(q) == !self.bit(q) by {
                lemma_u32_bits(u32x8_lanes(self)[q / 32], 0, (q % 32) as u32, 0);
            }
        }
        r
    }

    fn and(self, rhs: Self) -> (r: Self) {
        let r = u32x8_and(self, rhs);
        proof {
            assert forall|q: int| 0 <= q < 256 implies #[trigger] r.bit(q) == (self.bit(q)
                && rhs.bit(q)) by {
                lemma_u32_bits(
                    u32x8_lanes(self)[q / 32],
                    u32x8_lanes(rhs)[q / 32],
                    (q % 32) as u32,
                    0,
                );
            }
        }
        r
    }

    fn or(self, rhs: Self) -> (r: Self) {
        let r = u32x8_or(self, rhs);
        proof {
            assert forall|q: int| 0 <= q < 256 implies #[trigger] r.bit(q) == (self.bit(q)
                || rhs.bit(q)) by {
                lemma_u32_bits(
                    u32x8_lanes(self)[q / 32],
                    u32x8_lanes(rhs)[q / 32],
                    (q % 32) as u32,
                    0,
                );
            }
        }
        r
    }

    fn xor(self, rhs: Self) -> (r: Self) {
        let r = u32x8_xor(self, rhs);
        proof {
            assert forall|q: int| 0 <= q < 256 implies #[trigger] r.bit(q) == (self.bit(q)
                != rhs.bit(q)) by {
                lemma_u32_bits(
                    u32x8_lanes(self)[q / 32],
                    u32x8_lanes(rhs)[q / 32],
                    (q % 32) as u32,
                    0,
                );
            }
        }
        r
    }

    fn and_inplace(&mut self, rhs: &Self) {
        *self = (*self).and(*rhs);
    }

    fn or_inplace(&mut self, rhs: &Self) {
        *self = (*self).or(*rhs);
    }

    fn xor_inplace(&mut self, rhs: &Self) {
        *self = (*self).xor(*rhs);
    }

    fn eq(&self, rhs: &Self) -> (r: bool) {
        let r = u32x8_eq(self, rhs);
        proof {
            if r {
                assert forall|q: int| 0 <= q < 256 implies self.bit(q) == rhs.bit(q) by {
                    assert(u32x8_lanes(*self)[q / 32] == u32x8_lanes(*rhs)[q / 32]);
                }
            } else {
                let i = choose|i: int|
                    0 <= i < 8 && u32x8_lanes(*self)[i] != u32x8_lanes(*rhs)[i];
                lemma_u32_distinct(u32x8_lanes(*self)[i], u32x8_lanes(*rhs)[i]);
                let j = choose|j: u32|
                    j < 32 && u32_bit(u32x8_lanes(*self)[i], j) != u32_bit(u32x8_lanes(*rhs)[i], j);
                assert(self.bit(i * 32 + j) != rhs.bit(i * 32 + j));
            }
        }
        r
    }
}

} // verus!
