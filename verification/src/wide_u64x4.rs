//! `wide::u64x4` as a block of four 64-bit lanes.
use vstd::prelude::*;
use crate::block::BitBlock;
use crate::lane_u64::{lemma_u64_bits, lemma_u64_distinct, u64_bit};

verus! {

/// `wide::u64x4`, carried as an opaque value; its lanes are named by
/// `u64x4_lanes`.
#[verifier::external_type_specification]
#[verifier::external_body]
pub struct ExU64x4(wide::u64x4);

/// The lanes of a `wide::u64x4`, lowest first.
pub uninterp spec fn u64x4_lanes(b: wide::u64x4) -> Seq<u64>;

/// `wide::u64x4::to_array` reinterprets the vector as the array of its four
/// lanes, in order.
#[verifier::external_body]
fn u64x4_to_array(b: wide::u64x4) -> (r: [u64; 4])
    ensures
        r@ == u64x4_lanes(b),
{
    b.to_array()
}

/// `wide::u64x4::from` on an array reinterprets it as a vector: the lanes are
/// the elements of the array, in order.
#[verifier::external_body]
fn u64x4_from_array(a: [u64; 4]) -> (r: wide::u64x4)
    ensures
        u64x4_lanes(r) == a@,
{
    wide::u64x4::from(a)
}

/// `!` on `wide::u64x4` complements every lane.
#[verifier::external_body]
fn u64x4_not(a: wide::u64x4) -> (r: wide::u64x4)
    ensures
        u64x4_lanes(r) == Seq::new(4, |i: int| !u64x4_lanes(a)[i]),
{
    !a
}

/// `&` on `wide::u64x4` is the lane-wise and.
#[verifier::external_body]
fn u64x4_and(a: wide::u64x4, b: wide::u64x4) -> (r: wide::u64x4)
    ensures
        u64x4_lanes(r) == Seq::new(4, |i: int| u64x4_lanes(a)[i] & u64x4_lanes(b)[i]),
{
    a & b
}

/// `|` on `wide::u64x4` is the lane-wise or.
#[verifier::external_body]
fn u64x4_or(a: wide::u64x4, b: wide::u64x4) -> (r: wide::u64x4)
    ensures
        u64x4_lanes(r) == Seq::new(4, |i: int| u64x4_lanes(a)[i] | u64x4_lanes(b)[i]),
{
    a | b
}

/// `^` on `wide::u64x4` is the lane-wise exclusive or.
#[verifier::external_body]
fn u64x4_xor(a: wide::u64x4, b: wide::u64x4) -> (r: wide::u64x4)
    ensures
        u64x4_lanes(r) == Seq::new(4, |i: int| u64x4_lanes(a)[i] ^ u64x4_lanes(b)[i]),
{
    a ^ b
}

/// `==` on `wide::u64x4` holds exactly when all four lanes agree.
#[verifier::external_body]
fn u64x4_eq(a: &wide::u64x4, b: &wide::u64x4) -> (r: bool)
    ensures
        r == (forall|i: int| 0 <= i < 4 ==> u64x4_lanes(*a)[i] == u64x4_lanes(*b)[i]),
{
    a == b
}

impl BitBlock<4> for wide::u64x4 {
    type Element = u64;

    open spec fn bit(self, q: int) -> bool {
        0 <= q < 256 && u64_bit(u64x4_lanes(self)[q / 64], (q % 64) as u64)
    }

    proof fn lemma_shape() {
    }

    fn to_array(self) -> (r: [u64; 4]) {
        u64x4_to_array(self)
    }

    fn from_array(a: [u64; 4]) -> (r: Self) {
        u64x4_from_array(a)
    }

    fn zero() -> (r: Self) {
        let r = u64x4_from_array([0u64;4]);
        proof {
            assert forall|q: int| 0 <= q < 256 implies !#[trigger] r.bit(q) by {
                lemma_u64_bits(0, 0, (q % 64) as u64, 0);
            }
        }
        r
    }

    fn max() -> (r: Self) {
        let r = u64x4_from_array([0xffff_ffff_ffff_ffffu64;4]);
        proof {
            assert forall|q: int| 0 <= q < 256 implies #[trigger] r.bit(q) by {
                lemma_u64_bits(0, 0, (q % 64) as u64, 0);
            }
        }
        r
    }

    fn not(self) -> (r: Self) {
        let r = u64x4_not(self);
        proof {
            assert forall|q: int| 0 <= q < 256 implies #[trigger] r.bit(q) == !self.bit(q) by {
                lemma_u64_bits(u64x4_lanes(self)[q / 64], 0, (q % 64) as u64, 0);
            }
        }
        r
    }

    fn and(self, rhs: Self) -> (r: Self) {
        let r = u64x4_and(self, rhs);
        proof {
            assert forall|q: int| 0 <= q < 256 implies #[trigger] r.bit(q) == (self.bit(q)
                && rhs.bit(q)) by {
                lemma_u64_bits(
                    u64x4_lanes(self)[q / 64],
                    u64x4_lanes(rhs)[q / 64],
                    (q % 64) as u64,
                    0,
                );
            }
        }
        r
    }

    fn or(self, rhs: Self) -> (r: Self) {
        let r = u64x4_or(self, rhs);
        proof {
            assert forall|q: int| 0 <= q < 256 implies #[trigger] r.bit(q) == (self.bit(q)
                || rhs.bit(q)) by {
                lemma_u64_bits(
                    u64x4_lanes(self)[q / 64],
                    u64x4_lanes(rhs)[q / 64],
                    (q % 64) as u64,
                    0,
                );
            }
        }
        r
    }

    fn xor(self, rhs: Self) -> (r: Self) {
        let r = u64x4_xor(self, rhs);
        proof {
            assert forall|q: int| 0 <= q < 256 implies #[trigger] r.bit(q) == (self.bit(q)
                != rhs.bit(q)) by {
                lemma_u64_bits(
                    u64x4_lanes(self)[q / 64],
                    u64x4_lanes(rhs)[q / 64],
                    (q % 64) as u64,
                    0,
                );
            }
        }
        r
    }

    fn and_inplace(&mut self, rhs: &Self) {
        *self = (*self).and(*rhs);
    }

    fn or_inplace(&mut self, rhs: &Self) {
        *self = (*self).or(*rhs);
    }

    fn xor_inplace(&mut self, rhs: &Self) {
        *self = (*self).xor(*rhs);
    }

    fn eq(&self, rhs: &Self) -> (r: bool) {
        let r = u64x4_eq(self, rhs);
        proof {
            if r {
                assert forall|q: int| 0 <= q < 256 implies self.bit(q) == rhs.bit(q) by {
                    assert(u64x4_lanes(*self)[q / 64] == u64x4_lanes(*rhs)[q / 64]);
                }
            } else {
                let i = choose|i: int|
                    0 <= i < 4 && u64x4_lanes(*self)[i] != u64x4_lanes(*rhs)[i];
                lemma_u64_distinct(u64x4_lanes(*self)[i], u64x4_lanes(*rhs)[i]);
                let j = choose|j: u64|
                    j < 64 && u64_bit(u64x4_lanes(*self)[i], j) != u64_bit(u64x4_lanes(*rhs)[i], j);
                assert(self.bit(i * 64 + j) != rhs.bit(i * 64 + j));
            }
        }
        r
    }
}

} // verus!
