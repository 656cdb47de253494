//! `u8` as a lane.
use vstd::prelude::*;
use vstd::std_specs::bits::{axiom_u8_leading_zeros, axiom_u8_trailing_zeros, u8_leading_zeros, u8_trailing_zeros};
use crate::bits::{count_true, lemma_leading_false_unique};
use crate::lane::{popcount, BitBlockElement};

verus! {

/// `u8::count_ones` returns the number of ones in the binary representation
/// of its argument.
#[verifier::external_body]
fn u8_count_ones(x: u8) -> (r: u32)
    ensures
        r == popcount(x as nat),
{
    x.count_ones()
}

/// Whether bit `i` of `x` is set.
pub open spec fn u8_bit(x: u8, i: u8) -> bool {
    (x >> i) & 1 == 1
}

/// The bits of `x`, lowest first.
pub open spec fn u8_view(x: u8) -> Seq<bool> {
    Seq::new(8, |i: int| u8_bit(x, i as u8))
}

/// How the bitwise operations, the constants and the shifts act on single
/// bits.
pub proof fn lemma_u8_bits(a: u8, b: u8, i: u8, s: u32)
    by (bit_vector)
    requires
        i < 8,
    ensures
        !u8_bit(0, i),
        u8_bit(1, i) == (i == 0),
        u8_bit(0xff, i),
        u8_bit(!a, i) == !u8_bit(a, i),
        u8_bit(a & b, i) == (u8_bit(a, i) && u8_bit(b, i)),
        u8_bit(a | b, i) == (u8_bit(a, i) || u8_bit(b, i)),
        u8_bit(a ^ b, i) == (u8_bit(a, i) != u8_bit(b, i)),
        u8_bit(a, i) == ((a >> i) & 1 != 0),
        u8_bit(a << (s % 8), i) == (i >= (s % 8) && u8_bit(a, (i - (s % 8)) as u8)),
        u8_bit(a >> (s % 8), i) == (i + (s % 8) < 8 && u8_bit(a, (i + (s % 8)) as u8)),
        u8_bit((a << (s % 8)) >> (s % 8), i) == (i < 8 - (s % 8) && u8_bit(a, i)),
        u8_bit((a >> (s % 8)) << (s % 8), i) == (i >= (s % 8) && u8_bit(a, i)),
{
}

/// Halving moves every bit one position down; the remainder is the lowest
/// bit.
proof fn lemma_u8_halving(x: u8, i: u8)
    by (bit_vector)
    requires
        i < 8,
    ensures
        x >> 0 == x,
        u8_bit(x, i) == ((x >> i) % 2 == 1),
        i < 7 ==> (x >> i) / 2 == x >> ((i + 1) as u8),
        i == 7 ==> (x >> i) / 2 == 0,
{
}

/// The number of ones in the binary representation is the number of set
/// bit positions.
proof fn lemma_u8_popcount(x: u8, k: nat)
    requires
        k <= 8,
    ensures
        k < 8 ==> popcount(x as nat) == count_true(u8_view(x).take(k as int)) + popcount(
            (x >> (k as u8)) as nat,
        ),
        k == 8 ==> popcount(x as nat) == count_true(u8_view(x)),
    decreases k,
{
    let v = u8_view(x);
    if k == 0 {
        lemma_u8_halving(x, 0);
        assert(v.take(0) =~= Seq::<bool>::empty());
    } else {
        let j = (k - 1) as u8;
        lemma_u8_popcount(x, (k - 1) as nat);
        lemma_u8_halving(x, j);
        let y = x >> j;
        assert(popcount(y as nat) == (if u8_bit(x, j) {
            1nat
        } else {
            0nat
        }) + popcount((y / 2) as nat));
        assert(v[j as int] == u8_bit(x, j));
        crate::bits::lemma_count_true_step(v, j as int);
        if k == 8 {
            assert(v.take(8) =~= v);
        }
    }
}

/// Two different values differ in some bit.
pub proof fn lemma_u8_distinct(a: u8, b: u8)
    requires
        a != b,
    ensures
        exists|i: u8| i < 8 && u8_bit(a, i) != u8_bit(b, i),
{
    let x = a ^ b;
    assert(x != 0) by (bit_vector)
        requires
            x == a ^ b,
            a != b,
    ;
    axiom_u8_trailing_zeros(x);
    let t = u8_trailing_zeros(x) as u8;
    lemma_u8_bits(a, b, t, 0);
    assert(u8_bit(a, t) != u8_bit(b, t));
}

impl BitBlockElement for u8 {
    open spec fn spec_bit_width() -> nat {
        8
    }

    open spec fn bit(self, i: int) -> bool {
        0 <= i < 8 && u8_bit(self, i as u8)
    }

    proof fn lemma_bit_width() {
    }

    fn bit_width() -> (w: usize) {
        8
    }

    fn zero() -> (r: Self) {
        proof {
            assert forall|i: int| 0 <= i < 8 implies !#[trigger] 0u8.bit(i) by {
                lemma_u8_bits(0, 0, i as u8, 0);
            }
        }
        0
    }

    fn one() -> (r: Self) {
        proof {
            assert forall|i: int| 0 <= i < 8 implies #[trigger] 1u8.bit(i) == (i == 0) by {
                lemma_u8_bits(0, 0, i as u8, 0);
            }
        }
        1
    }

    fn max() -> (r: Self) {
        proof {
            assert forall|i: int| 0 <= i < 8 implies #[trigger] 0xffu8.bit(i) by {
                lemma_u8_bits(0, 0, i as u8, 0);
            }
        }
        0xff
    }

    fn not(self) -> (r: Self) {
        let r = !self;
        proof {
            assert forall|i: int| 0 <= i < 8 implies #[trigger] r.bit(i) == !self.bit(i) by {
                lemma_u8_bits(self, 0, i as u8, 0);
            }
        }
        r
    }

    fn and(self, rhs: Self) -> (r: Self) {
        let r = self & rhs;
        proof {
            assert forall|i: int| 0 <= i < 8 implies #[trigger] r.bit(i) == (self.bit(i)
                && rhs.bit(i)) by {
                lemma_u8_bits(self, rhs, i as u8, 0);
            }
        }
        r
    }

    fn or(self, rhs: Self) -> (r: Self) {
        let r = self | rhs;
        proof {
            assert forall|i: int| 0 <= i < 8 implies #[trigger] r.bit(i) == (self.bit(i)
                || rhs.bit(i)) by {
                lemma_u8_bits(self, rhs, i as u8, 0);
            }
        }
        r
    }

    fn xor(self, rhs: Self) -> (r: Self) {
        let r = self ^ rhs;
        proof {
            assert forall|i: int| 0 <= i < 8 implies #[trigger] r.bit(i) == (self.bit(i)
                != rhs.bit(i)) by {
                lemma_u8_bits(self, rhs, i as u8, 0);
            }
        }
        r
    }

    fn eq(self, rhs: Self) -> (r: bool) {
        proof {
            if self != rhs {
                lemma_u8_distinct(self, rhs);
                let i = choose|i: u8| i < 8 && u8_bit(self, i) != u8_bit(rhs, i);
                assert(self.bit(i as int) != rhs.bit(i as int));
            }
        }
        self == rhs
    }

    fn count_ones(self) -> (r: u32) {
        proof {
            lemma_u8_popcount(self, 8);
            assert(Seq::new(8, |i: int| self.bit(i)) =~= u8_view(self));
        }
        u8_count_ones(self)
    }

    fn leading_zeros(self) -> (r: u32) {
        let r = self.leading_zeros();
        proof {
            axiom_u8_leading_zeros(self);
            let v = u8_view(self);
            let n = u8_leading_zeros(self);
            assert forall|i: int| 8 - n <= i < 8 implies !v[i] by {
                lemma_u8_bits(self, 0, i as u8, 0);
            }
            if n < 8 {
                lemma_u8_bits(self, 0, (7 - n) as u8, 0);
                assert(v[7 - n]);
            }
            lemma_leading_false_unique(v, n as nat);
            assert(Seq::new(8, |i: int| self.bit(i)) =~= v);
        }
        r
    }

    fn wrapping_shl(self, rhs: u32) -> (r: Self) {
        let r = self.wrapping_shl(rhs);
        proof {
            assert forall|i: int| 0 <= i < 8 implies #[trigger] r.bit(i) == (i >= rhs as int % 8
                && self.bit(i - rhs as int % 8)) by {
                lemma_u8_bits(self, 0, i as u8, rhs);
            }
        }
        r
    }

    fn wrapping_shr(self, rhs: u32) -> (r: Self) {
        let r = self.wrapping_shr(rhs);
        proof {
            assert forall|i: int| 0 <= i < 8 implies #[trigger] r.bit(i) == (i + rhs as int % 8
                < 8 && self.bit(i + rhs as int % 8)) by {
                lemma_u8_bits(self, 0, i as u8, rhs);
            }
        }
        r
    }

    fn clear_high_bits(self, rhs: u32) -> (r: Self) {
        let r = self.wrapping_shl(rhs).wrapping_shr(rhs);
        proof {
            assert forall|i: int| 0 <= i < 8 implies #[trigger] r.bit(i) == (i < 8 - rhs as int
                % 8 && self.bit(i)) by {
                lemma_u8_bits(self, 0, i as u8, rhs);
            }
        }
        r
    }

    fn clear_low_bits(self, rhs: u32) -> (r: Self) {
        let r = self.wrapping_shr(rhs).wrapping_shl(rhs);
        proof {
            assert forall|i: int| 0 <= i < 8 implies #[trigger] r.bit(i) == (i >= rhs as int % 8
                && self.bit(i)) by {
                lemma_u8_bits(self, 0, i as u8, rhs);
            }
        }
        r
    }
}

} // verus!
