//! `u32` as a lane.
use vstd::prelude::*;
use vstd::std_specs::bits::{axiom_u32_leading_zeros, axiom_u32_trailing_zeros, u32_leading_zeros, u32_trailing_zeros};
use crate::bits::{count_true, lemma_leading_false_unique};
use crate::lane::{popcount, BitBlockElement};

verus! {

/// `u32::count_ones` returns the number of ones in the binary representation
/// of its argument.
#[verifier::external_body]
fn u32_count_ones(x: u32) -> (r: u32)
    ensures
        r == popcount(x as nat),
{
    x.count_ones()
}

/// Whether bit `i` of `x` is set.
pub open spec fn u32_bit(x: u32, i: u32) -> bool {
    (x >> i) & 1 == 1
}

/// The bits of `x`, lowest first.
pub open spec fn u32_view(x: u32) -> Seq<bool> {
    Seq::new(32, |i: int| u32_bit(x, i as u32))
}

/// How the bitwise operations, the constants and the shifts act on single
/// bits.
pub proof fn lemma_u32_bits(a: u32, b: u32, i: u32, s: u32)
    by (bit_vector)
    requires
        i < 32,
    ensures
        !u32_bit(0, i),
        u32_bit(1, i) == (i == 0),
        u32_bit(0xffff_ffff, i),
        u32_bit(!a, i) == !u32_bit(a, i),
        u32_bit(a & b, i) == (u32_bit(a, i) && u32_bit(b, i)),
        u32_bit(a | b, i) == (u32_bit(a, i) || u32_bit(b, i)),
        u32_bit(a ^ b, i) == (u32_bit(a, i) != u32_bit(b, i)),
        u32_bit(a, i) == ((a >> i) & 1 != 0),
        u32_bit(a << (s % 32), i) == (i >= (s % 32) && u32_bit(a, (i - (s % 32)) as u32)),
        u32_bit(a >> (s % 32), i) == (i + (s % 32) < 32 && u32_bit(a, (i + (s % 32)) as u32)),
        u32_bit((a << (s % 32)) >> (s % 32), i) == (i < 32 - (s % 32) && u32_bit(a, i)),
        u32_bit((a >> (s % 32)) << (s % 32), i) == (i >= (s % 32) && u32_bit(a, i)),
{
}

/// Halving moves every bit one position down; the remainder is the lowest
/// bit.
proof fn lemma_u32_halving(x: u32, i: u32)
    by (bit_vector)
    requires
        i < 32,
    ensures
        x >> 0 == x,
        u32_bit(x, i) == ((x >> i) % 2 == 1),
        i < 31 ==> (x >> i) / 2 == x >> ((i + 1) as u32),
        i == 31 ==> (x >> i) / 2 == 0,
{
}

/// The number of ones in the binary representation is the number of set
/// bit positions.
proof fn lemma_u32_popcount(x: u32, k: nat)
    requires
        k <= 32,
    ensures
        k < 32 ==> popcount(x as nat) == count_true(u32_view(x).take(k as int)) + popcount(
            (x >> (k as u32)) as nat,
        ),
        k == 32 ==> popcount(x as nat) == count_true(u32_view(x)),
    decreases k,
{
    let v = u32_view(x);
    if k == 0 {
        lemma_u32_halving(x, 0);
        assert(v.take(0) =~= Seq::<bool>::empty());
    } else {
        let j = (k - 1) as u32;
        lemma_u32_popcount(x, (k - 1) as nat);
        lemma_u32_halving(x, j);
        let y = x >> j;
        assert(popcount(y as nat) == (if u32_bit(x, j) {
            1nat
        } else {
            0nat
        }) + popcount((y / 2) as nat));
        assert(v[j as int] == u32_bit(x, j));
        crate::bits::lemma_count_true_step(v, j as int);
        if k == 32 {
            assert(v.take(32) =~= v);
        }
    }
}

/// Two different values differ in some bit.
pub proof fn lemma_u32_distinct(a: u32, b: u32)
    requires
        a != b,
    ensures
        exists|i: u32| i < 32 && u32_bit(a, i) != u32_bit(b, i),
{
    let x = a ^ b;
    assert(x != 0) by (bit_vector)
        requires
            x == a ^ b,
            a != b,
    ;
    axiom_u32_trailing_zeros(x);
    let t = u32_trailing_zeros(x) as u32;
    lemma_u32_bits(a, b, t, 0);
    assert(u32_bit(a, t) != u32_bit(b, t));
}

impl BitBlockElement for u32 {
    open spec fn spec_bit_width() -> nat {
        32
    }

    open spec fn bit(self, i: int) -> bool {
        0 <= i < 32 && u32_bit(self, i as u32)
    }

    proof fn lemma_bit_width() {
    }

    fn bit_width() -> (w: usize) {
        32
    }

    fn zero() -> (r: Self) {
        proof {
            assert forall|i: int| 0 <= i < 32 implies !#[trigger] 0u32.bit(i) by {
                lemma_u32_bits(0, 0, i as u32, 0);
            }
        }
        0
    }

    fn one() -> (r: Self) {
        proof {
            assert forall|i: int| 0 <= i < 32 implies #[trigger] 1u32.bit(i) == (i == 0) by {
                lemma_u32_bits(0, 0, i as u32, 0);
            }
        }
        1
    }

    fn max() -> (r: Self) {
        proof {
            assert forall|i: int| 0 <= i < 32 implies #[trigger] 0xffff_ffffu32.bit(i) by {
                lemma_u32_bits(0, 0, i as u32, 0);
            }
        }
        0xffff_ffff
    }

    fn not(self) -> (r: Self) {
        let r = !self;
        proof {
            assert forall|i: int| 0 <= i < 32 implies #[trigger] r.bit(i) == !self.bit(i) by {
                lemma_u32_bits(self, 0, i as u32, 0);
            }
        }
        r
    }

    fn and(self, rhs: Self) -> (r: Self) {
        let r = self & rhs;
        proof {
            assert forall|i: int| 0 <= i < 32 implies #[trigger] r.bit(i) == (self.bit(i)
                && rhs.bit(i)) by {
                lemma_u32_bits(self, rhs, i as u32, 0);
            }
        }
        r
    }

    fn or(self, rhs: Self) -> (r: Self) {
        let r = self | rhs;
        proof {
            assert forall|i: int| 0 <= i < 32 implies #[trigger] r.bit(i) == (self.bit(i)
                || rhs.bit(i)) by {
                lemma_u32_bits(self, rhs, i as u32, 0);
            }
        }
        r
    }

    fn xor(self, rhs: Self) -> (r: Self) {
        let r = self ^ rhs;
        proof {
            assert forall|i: int| 0 <= i < 32 implies #[trigger] r.bit(i) == (self.bit(i)
                != rhs.bit(i)) by {
                lemma_u32_bits(self, rhs, i as u32, 0);
            }
        }
        r
    }

    fn eq(self, rhs: Self) -> (r: bool) {
        proof {
            if self != rhs {
                lemma_u32_distinct(self, rhs);
                let i = choose|i: u32| i < 32 && u32_bit(self, i) != u32_bit(rhs, i);
                assert(self.bit(i as int) != rhs.bit(i as int));
            }
        }
        self == rhs
    }

    fn count_ones(self) -> (r: u32) {
        proof {
            lemma_u32_popcount(self, 32);
            assert(Seq::new(32, |i: int| self.bit(i)) =~= u32_view(self));
        }
        u32_count_ones(self)
    }

    fn leading_zeros(self) -> (r: u32) {
        let r = self.leading_zeros();
        proof {
            axiom_u32_leading_zeros(self);
            let v = u32_view(self);
            let n = u32_leading_zeros(self);
            assert forall|i: int| 32 - n <= i < 32 implies !v[i] by {
                lemma_u32_bits(self, 0, i as u32, 0);
            }
            if n < 32 {
                lemma_u32_bits(self, 0, (31 - n) as u32, 0);
                assert(v[31 - n]);
            }
            lemma_leading_false_unique(v, n as nat);
            assert(Seq::new(32, |i: int| self.bit(i)) =~= v);
        }
        r
    }

    fn wrapping_shl(self, rhs: u32) -> (r: Self) {
        let r = self.wrapping_shl(rhs);
        proof {
            assert forall|i: int| 0 <= i < 32 implies #[trigger] r.bit(i) == (i >= rhs as int % 32
                && self.bit(i - rhs as int % 32)) by {
                lemma_u32_bits(self, 0, i as u32, rhs);
            }
        }
        r
    }

    fn wrapping_shr(self, rhs: u32) -> (r: Self) {
        let r = self.wrapping_shr(rhs);
        proof {
            assert forall|i: int| 0 <= i < 32 implies #[trigger] r.bit(i) == (i + rhs as int % 32
                < 32 && self.bit(i + rhs as int % 32)) by {
                lemma_u32_bits(self, 0, i as u32, rhs);
            }
        }
        r
    }

    fn clear_high_bits(self, rhs: u32) -> (r: Self) {
        let r = self.wrapping_shl(rhs).wrapping_shr(rhs);
        proof {
            assert forall|i: int| 0 <= i < 32 implies #[trigger] r.bit(i) == (i < 32 - rhs as int
                % 32 && self.bit(i)) by {
                lemma_u32_bits(self, 0, i as u32, rhs);
            }
        }
        r
    }

    fn clear_low_bits(self, rhs: u32) -> (r: Self) {
        let r = self.wrapping_shr(rhs).wrapping_shl(rhs);
        proof {
            assert forall|i: int| 0 <= i < 32 implies #[trigger] r.bit(i) == (i >= rhs as int % 32
                && self.bit(i)) by {
                lemma_u32_bits(self, 0, i as u32, rhs);
            }
        }
        r
    }
}

} // verus!
