//! `u16` as a lane.
use vstd::prelude::*;
use vstd::std_specs::bits::{axiom_u16_leading_zeros, axiom_u16_trailing_zeros, u16_leading_zeros, u16_trailing_zeros};
use crate::bits::{count_true, lemma_leading_false_unique};
use crate::lane::{popcount, BitBlockElement};

verus! {

/// `u16::count_ones` returns the number of ones in the binary representation
/// of its argument.
#[verifier::external_body]
fn u16_count_ones(x: u16) -> (r: u32)
    ensures
        r == popcount(x as nat),
{
    x.count_ones()
}

/// Whether bit `i` of `x` is set.
pub open spec fn u16_bit(x: u16, i: u16) -> bool {
    (x >> i) & 1 == 1
}

/// The bits of `x`, lowest first.
pub open spec fn u16_view(x: u16) -> Seq<bool> {
    Seq::new(16, |i: int| u16_bit(x, i as u16))
}

/// How the bitwise operations, the constants and the shifts act on single
/// bits.
pub proof fn lemma_u16_bits(a: u16, b: u16, i: u16, s: u32)
    by (bit_vector)
    requires
        i < 16,
    ensures
        !u16_bit(0, i),
        u16_bit(1, i) == (i == 0),
        u16_bit(0xffff, i),
        u16_bit(!a, i) == !u16_bit(a, i),
        u16_bit(a & b, i) == (u16_bit(a, i) && u16_bit(b, i)),
        u16_bit(a | b, i) == (u16_bit(a, i) || u16_bit(b, i)),
        u16_bit(a ^ b, i) == (u16_bit(a, i) != u16_bit(b, i)),
        u16_bit(a, i) == ((a >> i) & 1 != 0),
        u16_bit(a << (s % 16), i) == (i >= (s % 16) && u16_bit(a, (i - (s % 16)) as u16)),
        u16_bit(a >> (s % 16), i) == (i + (s % 16) < 16 && u16_bit(a, (i + (s % 16)) as u16)),
        u16_bit((a << (s % 16)) >> (s % 16), i) == (i < 16 - (s % 16) && u16_bit(a, i)),
        u16_bit((a >> (s % 16)) << (s % 16), i) == (i >= (s % 16) && u16_bit(a, i)),
{
}

/// Halving moves every bit one position down; the remainder is the lowest
/// bit.
proof fn lemma_u16_halving(x: u16, i: u16)
    by (bit_vector)
    requires
        i < 16,
    ensures
        x >> 0 == x,
        u16_bit(x, i) == ((x >> i) % 2 == 1),
        i < 15 ==> (x >> i) / 2 == x >> ((i + 1) as u16),
        i == 15 ==> (x >> i) / 2 == 0,
{
}

/// The number of ones in the binary representation is the number of set
/// bit positions.
proof fn lemma_u16_popcount(x: u16, k: nat)
    requires
        k <= 16,
    ensures
        k < 16 ==> popcount(x as nat) == count_true(u16_view(x).take(k as int)) + popcount(
            (x >> (k as u16)) as nat,
        ),
        k == 16 ==> popcount(x as nat) == count_true(u16_view(x)),
    decreases k,
{
    let v = u16_view(x);
    if k == 0 {
        lemma_u16_halving(x, 0);
        assert(v.take(0) =~= Seq::<bool>::empty());
    } else {
        let j = (k - 1) as u16;
        lemma_u16_popcount(x, (k - 1) as nat);
        lemma_u16_halving(x, j);
        let y = x >> j;
        assert(popcount(y as nat) == (if u16_bit(x, j) {
            1nat
        } else {
            0nat
        }) + popcount((y / 2) as nat));
        assert(v[j as int] == u16_bit(x, j));
        crate::bits::lemma_count_true_step(v, j as int);
        if k == 16 {
            assert(v.take(16) =~= v);
        }
    }
}

/// Two different values differ in some bit.
pub proof fn lemma_u16_distinct(a: u16, b: u16)
    requires
        a != b,
    ensures
        exists|i: u16| i < 16 && u16_bit(a, i) != u16_bit(b, i),
{
    let x = a ^ b;
    assert(x != 0) by (bit_vector)
        requires
            x == a ^ b,
            a != b,
    ;
    axiom_u16_trailing_zeros(x);
    let t = u16_trailing_zeros(x) as u16;
    lemma_u16_bits(a, b, t, 0);
    assert(u16_bit(a, t) != u16_bit(b, t));
}

impl BitBlockElement for u16 {
    open spec fn spec_bit_width() -> nat {
        16
    }

    open spec fn bit(self, i: int) -> bool {
        0 <= i < 16 && u16_bit(self, i as u16)
    }

    proof fn lemma_bit_width() {
    }

    fn bit_width() -> (w: usize) {
        16
    }

    fn zero() -> (r: Self) {
        proof {
            assert forall|i: int| 0 <= i < 16 implies !#[trigger] 0u16.bit(i) by {
                lemma_u16_bits(0, 0, i as u16, 0);
            }
        }
        0
    }

    fn one() -> (r: Self) {
        proof {
            assert forall|i: int| 0 <= i < 16 implies #[trigger] 1u16.bit(i) == (i == 0) by {
                lemma_u16_bits(0, 0, i as u16, 0);
            }
        }
        1
    }

    fn max() -> (r: Self) {
        proof {
            assert forall|i: int| 0 <= i < 16 implies #[trigger] 0xffffu16.bit(i) by {
                lemma_u16_bits(0, 0, i as u16, 0);
            }
        }
        0xffff
    }

    fn not(self) -> (r: Self) {
        let r = !self;
        proof {
            assert forall|i: int| 0 <= i < 16 implies #[trigger] r.bit(i) == !self.bit(i) by {
                lemma_u16_bits(self, 0, i as u16, 0);
            }
        }
        r
    }

    fn and(self, rhs: Self) -> (r: Self) {
        let r = self & rhs;
        proof {
            assert forall|i: int| 0 <= i < 16 implies #[trigger] r.bit(i) == (self.bit(i)
                && rhs.bit(i)) by {
                lemma_u16_bits(self, rhs, i as u16, 0);
            }
        }
        r
    }

    fn or(self, rhs: Self) -> (r: Self) {
        let r = self | rhs;
        proof {
            assert forall|i: int| 0 <= i < 16 implies #[trigger] r.bit(i) == (self.bit(i)
                || rhs.bit(i)) by {
                lemma_u16_bits(self, rhs, i as u16, 0);
            }
        }
        r
    }

    fn xor(self, rhs: Self) -> (r: Self) {
        let r = self ^ rhs;
        proof {
            assert forall|i: int| 0 <= i < 16 implies #[trigger] r.bit(i) == (self.bit(i)
                != rhs.bit(i)) by {
                lemma_u16_bits(self, rhs, i as u16, 0);
            }
        }
        r
    }

    fn eq(self, rhs: Self) -> (r: bool) {
        proof {
            if self != rhs {
                lemma_u16_distinct(self, rhs);
                let i = choose|i: u16| i < 16 && u16_bit(self, i) != u16_bit(rhs, i);
                assert(self.bit(i as int) != rhs.bit(i as int));
            }
        }
        self == rhs
    }

    fn count_ones(self) -> (r: u32) {
        proof {
            lemma_u16_popcount(self, 16);
            assert(Seq::new(16, |i: int| self.bit(i)) =~= u16_view(self));
        }
        u16_count_ones(self)
    }

    fn leading_zeros(self) -> (r: u32) {
        let r = self.leading_zeros();
        proof {
            axiom_u16_leading_zeros(self);
            let v = u16_view(self);
            let n = u16_leading_zeros(self);
            assert forall|i: int| 16 - n <= i < 16 implies !v[i] by {
                lemma_u16_bits(self, 0, i as u16, 0);
            }
            if n < 16 {
                lemma_u16_bits(self, 0, (15 - n) as u16, 0);
                assert(v[15 - n]);
            }
            lemma_leading_false_unique(v, n as nat);
            assert(Seq::new(16, |i: int| self.bit(i)) =~= v);
        }
        r
    }

    fn wrapping_shl(self, rhs: u32) -> (r: Self) {
        let r = self.wrapping_shl(rhs);
        proof {
            assert forall|i: int| 0 <= i < 16 implies #[trigger] r.bit(i) == (i >= rhs as int % 16
                && self.bit(i - rhs as int % 16)) by {
                lemma_u16_bits(self, 0, i as u16, rhs);
            }
        }
        r
    }

    fn wrapping_shr(self, rhs: u32) -> (r: Self) {
        let r = self.wrapping_shr(rhs);
        proof {
            assert forall|i: int| 0 <= i < 16 implies #[trigger] r.bit(i) == (i + rhs as int % 16
                < 16 && self.bit(i + rhs as int % 16)) by {
                lemma_u16_bits(self, 0, i as u16, rhs);
            }
        }
        r
    }

    fn clear_high_bits(self, rhs: u32) -> (r: Self) {
        let r = self.wrapping_shl(rhs).wrapping_shr(rhs);
        proof {
            assert forall|i: int| 0 <= i < 16 implies #[trigger] r.bit(i) == (i < 16 - rhs as int
                % 16 && self.bit(i)) by {
                lemma_u16_bits(self, 0, i as u16, rhs);
            }
        }
        r
    }

    fn clear_low_bits(self, rhs: u32) -> (r: Self) {
        let r = self.wrapping_shr(rhs).wrapping_shl(rhs);
        proof {
            assert forall|i: int| 0 <= i < 16 implies #[trigger] r.bit(i) == (i >= rhs as int % 16
                && self.bit(i)) by {
                lemma_u16_bits(self, 0, i as u16, rhs);
            }
        }
        r
    }
}

} // verus!
