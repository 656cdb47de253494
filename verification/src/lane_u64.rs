//! `u64` as a lane.
use vstd::prelude::*;
use vstd::std_specs::bits::{axiom_u64_leading_zeros, axiom_u64_trailing_zeros, u64_leading_zeros, u64_trailing_zeros};
use crate::bits::{count_true, lemma_leading_false_unique};
use crate::lane::{popcount, BitBlockElement};

verus! {

/// `u64::count_ones` returns the number of ones in the binary representation
/// of its argument.
#[verifier::external_body]
fn u64_count_ones(x: u64) -> (r: u32)
    ensures
        r == popcount(x as nat),
{
    x.count_ones()
}

/// Whether bit `i` of `x` is set.
pub open spec fn u64_bit(x: u64, i: u64) -> bool {
    (x >> i) & 1 == 1
}

/// The bits of `x`, lowest first.
pub open spec fn u64_view(x: u64) -> Seq<bool> {
    Seq::new(64, |i: int| u64_bit(x, i as u64))
}

/// How the bitwise operations, the constants and the shifts act on single
/// bits.
pub proof fn lemma_u64_bits(a: u64, b: u64, i: u64, s: u32)
    by (bit_vector)
    requires
        i < 64,
    ensures
        !u64_bit(0, i),
        u64_bit(1, i) == (i == 0),
        u64_bit(0xffff_ffff_ffff_ffff, i),
        u64_bit(!a, i) == !u64_bit(a, i),
        u64_bit(a & b, i) == (u64_bit(a, i) && u64_bit(b, i)),
        u64_bit(a | b, i) == (u64_bit(a, i) || u64_bit(b, i)),
        u64_bit(a ^ b, i) == (u64_bit(a, i) != u64_bit(b, i)),
        u64_bit(a, i) == ((a >> i) & 1 != 0),
        u64_bit(a << (s % 64), i) == (i >= (s % 64) && u64_bit(a, (i - (s % 64)) as u64)),
        u64_bit(a >> (s % 64), i) == (i + (s % 64) < 64 && u64_bit(a, (i + (s % 64)) as u64)),
        u64_bit((a << (s % 64)) >> (s % 64), i) == (i < 64 - (s % 64) && u64_bit(a, i)),
        u64_bit((a >> (s % 64)) << (s % 64), i) == (i >= (s % 64) && u64_bit(a, i)),
{
}

/// Halving moves every bit one position down; the remainder is the lowest
/// bit.
proof fn lemma_u64_halving(x: u64, i: u64)
    by (bit_vector)
    requires
        i < 64,
    ensures
        x >> 0 == x,
        u64_bit(x, i) == ((x >> i) % 2 == 1),
        i < 63 ==> (x >> i) / 2 == x >> ((i + 1) as u64),
        i == 63 ==> (x >> i) / 2 == 0,
{
}

/// The number of ones in the binary representation is the number of set
/// bit positions.
proof fn lemma_u64_popcount(x: u64, k: nat)
    requires
        k <= 64,
    ensures
        k < 64 ==> popcount(x as nat) == count_true(u64_view(x).take(k as int)) + popcount(
            (x >> (k as u64)) as nat,
        ),
        k == 64 ==> popcount(x as nat) == count_true(u64_view(x)),
    decreases k,
{
    let v = u64_view(x);
    if k == 0 {
        lemma_u64_halving(x, 0);
        assert(v.take(0) =~= Seq::<bool>::empty());
    } else {
        let j = (k - 1) as u64;
        lemma_u64_popcount(x, (k - 1) as nat);
        lemma_u64_halving(x, j);
        let y = x >> j;
        assert(popcount(y as nat) == (if u64_bit(x, j) {
            1nat
        } else {
            0nat
        }) + popcount((y / 2) as nat));
        assert(v[j as int] == u64_bit(x, j));
        crate::bits::lemma_count_true_step(v, j as int);
        if k == 64 {
            assert(v.take(64) =~= v);
        }
    }
}

/// Two different values differ in some bit.
pub proof fn lemma_u64_distinct(a: u64, b: u64)
    requires
        a != b,
    ensures
        exists|i: u64| i < 64 && u64_bit(a, i) != u64_bit(b, i),
{
    let x = a ^ b;
    assert(x != 0) by (bit_vector)
        requires
            x == a ^ b,
            a != b,
    ;
    axiom_u64_trailing_zeros(x);
    let t = u64_trailing_zeros(x) as u64;
    lemma_u64_bits(a, b, t, 0);
    assert(u64_bit(a, t) != u64_bit(b, t));
}

impl BitBlockElement for u64 {
    open spec fn spec_bit_width() -> nat {
        64
    }

    open spec fn bit(self, i: int) -> bool {
        0 <= i < 64 && u64_bit(self, i as u64)
    }

    proof fn lemma_bit_width() {
    }

    fn bit_width() -> (w: usize) {
        64
    }

    fn zero() -> (r: Self) {
        proof {
            assert forall|i: int| 0 <= i < 64 implies !#[trigger] 0u64.bit(i) by {
                lemma_u64_bits(0, 0, i as u64, 0);
            }
        }
        0
    }

    fn one() -> (r: Self) {
        proof {
            assert forall|i: int| 0 <= i < 64 implies #[trigger] 1u64.bit(i) == (i == 0) by {
                lemma_u64_bits(0, 0, i as u64, 0);
            }
        }
        1
    }

    fn max() -> (r: Self) {
        proof {
            assert forall|i: int| 0 <= i < 64 implies #[trigger] 0xffff_ffff_ffff_ffffu64.bit(i) by {
                lemma_u64_bits(0, 0, i as u64, 0);
            }
        }
        0xffff_ffff_ffff_ffff
    }

    fn not(self) -> (r: Self) {
        let r = !self;
        proof {
            assert forall|i: int| 0 <= i < 64 implies #[trigger] r.bit(i) == !self.bit(i) by {
                lemma_u64_bits(self, 0, i as u64, 0);
            }
        }
        r
    }

    fn and(self, rhs: Self) -> (r: Self) {
        let r = self & rhs;
        proof {
            assert forall|i: int| 0 <= i < 64 implies #[trigger] r.bit(i) == (self.bit(i)
                && rhs.bit(i)) by {
                lemma_u64_bits(self, rhs, i as u64, 0);
            }
        }
        r
    }

    fn or(self, rhs: Self) -> (r: Self) {
        let r = self | rhs;
        proof {
            assert forall|i: int| 0 <= i < 64 implies #[trigger] r.bit(i) == (self.bit(i)
                || rhs.bit(i)) by {
                lemma_u64_bits(self, rhs, i as u64, 0);
            }
        }
        r
    }

    fn xor(self, rhs: Self) -> (r: Self) {
        let r = self ^ rhs;
        proof {
            assert forall|i: int| 0 <= i < 64 implies #[trigger] r.bit(i) == (self.bit(i)
                != rhs.bit(i)) by {
                lemma_u64_bits(self, rhs, i as u64, 0);
            }
        }
        r
    }

    fn eq(self, rhs: Self) -> (r: bool) {
        proof {
            if self != rhs {
                lemma_u64_distinct(self, rhs);
                let i = choose|i: u64| i < 64 && u64_bit(self, i) != u64_bit(rhs, i);
                assert(self.bit(i as int) != rhs.bit(i as int));
            }
        }
        self == rhs
    }

    fn count_ones(self) -> (r: u32) {
        proof {
            lemma_u64_popcount(self, 64);
            assert(Seq::new(64, |i: int| self.bit(i)) =~= u64_view(self));
        }
        u64_count_ones(self)
    }

    fn leading_zeros(self) -> (r: u32) {
        let r = self.leading_zeros();
        proof {
            axiom_u64_leading_zeros(self);
            let v = u64_view(self);
            let n = u64_leading_zeros(self);
            assert forall|i: int| 64 - n <= i < 64 implies !v[i] by {
                lemma_u64_bits(self, 0, i as u64, 0);
            }
            if n < 64 {
                lemma_u64_bits(self, 0, (63 - n) as u64, 0);
                assert(v[63 - n]);
            }
            lemma_leading_false_unique(v, n as nat);
            assert(Seq::new(64, |i: int| self.bit(i)) =~= v);
        }
        r
    }

    fn wrapping_shl(self, rhs: u32) -> (r: Self) {
        let r = self.wrapping_shl(rhs);
        proof {
            assert forall|i: int| 0 <= i < 64 implies #[trigger] r.bit(i) == (i >= rhs as int % 64
                && self.bit(i - rhs as int % 64)) by {
                lemma_u64_bits(self, 0, i as u64, rhs);
            }
        }
        r
    }

    fn wrapping_shr(self, rhs: u32) -> (r: Self) {
        let r = self.wrapping_shr(rhs);
        proof {
            assert forall|i: int| 0 <= i < 64 implies #[trigger] r.bit(i) == (i + rhs as int % 64
                < 64 && self.bit(i + rhs as int % 64)) by {
                lemma_u64_bits(self, 0, i as u64, rhs);
            }
        }
        r
    }

    fn clear_high_bits(self, rhs: u32) -> (r: Self) {
        let r = self.wrapping_shl(rhs).wrapping_shr(rhs);
        proof {
            assert forall|i: int| 0 <= i < 64 implies #[trigger] r.bit(i) == (i < 64 - rhs as int
                % 64 && self.bit(i)) by {
                lemma_u64_bits(self, 0, i as u64, rhs);
            }
        }
        r
    }

    fn clear_low_bits(self, rhs: u32) -> (r: Self) {
        let r = self.wrapping_shr(rhs).wrapping_shl(rhs);
        proof {
            assert forall|i: int| 0 <= i < 64 implies #[trigger] r.bit(i) == (i >= rhs as int % 64
                && self.bit(i)) by {
                lemma_u64_bits(self, 0, i as u64, rhs);
            }
        }
        r
    }
}

} // verus!
