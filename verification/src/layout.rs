//! Bit-indexing arithmetic: how a bit position splits into a block index, a
//! lane index and an offset within the lane.
use vstd::prelude::*;
use vstd::arithmetic::div_mod::{
    lemma_fundamental_div_mod, lemma_fundamental_div_mod_converse, lemma_mod_bound, lemma_mod_mod,
};
use crate::block::BitBlock;
use crate::lane::BitBlockElement;

verus! {

/// Width of a lane of `B`, in bits.
pub open spec fn lane_bits<B: BitBlock<L>, const L: usize>() -> int {
    B::Element::spec_bit_width() as int
}

/// Width of a block of `B`, in bits.
pub open spec fn block_bits<B: BitBlock<L>, const L: usize>() -> int {
    L * B::Element::spec_bit_width()
}

/// Number of blocks of `width` bits that hold `nbits` bits.
pub open spec fn blocks_for(nbits: int, width: int) -> int {
    if nbits % width == 0 {
        nbits / width
    } else {
        nbits / width + 1
    }
}

/// A position below `n * d` has its quotient by `d` below `n`.
pub proof fn lemma_split(x: int, d: int, n: int)
    requires
        0 < d,
        0 <= x < n * d,
    ensures
        0 <= x / d < n,
        0 <= x % d < d,
        x == (x / d) * d + x % d,
{
    lemma_fundamental_div_mod(x, d);
    lemma_mod_bound(x, d);
    let k = x / d;
    assert(k * d == d * k) by (nonlinear_arith);
    assert(k < n) by (nonlinear_arith)
        requires
            k * d <= x,
            x < n * d,
            0 < d,
    ;
    assert(0 <= k) by (nonlinear_arith)
        requires
            k * d + d > x,
            0 <= x,
            0 < d,
    ;
}

/// A position is the quotient times the divisor plus the remainder.
pub proof fn lemma_split_any(x: int, d: int)
    requires
        0 < d,
        0 <= x,
    ensures
        0 <= x / d,
        0 <= x % d < d,
        x == (x / d) * d + x % d,
        x / d <= x,
{
    lemma_fundamental_div_mod(x, d);
    lemma_mod_bound(x, d);
    let k = x / d;
    assert(k * d == d * k) by (nonlinear_arith);
    assert(0 <= k) by (nonlinear_arith)
        requires
            k * d + d > x,
            0 <= x,
            0 < d,
    ;
    assert(k <= x) by (nonlinear_arith)
        requires
            k * d <= x,
            0 <= k,
            0 < d,
    ;
}

/// Quotient and remainder of `k * d + r` for a remainder `r` in range.
pub proof fn lemma_join(k: int, r: int, d: int)
    requires
        0 < d,
        0 <= r < d,
    ensures
        (k * d + r) / d == k,
        (k * d + r) % d == r,
{
    lemma_fundamental_div_mod_converse(k * d + r, d, k, r);
}

/// Comparing a position with `hi * d + lo` is comparing quotient and
/// remainder in lexicographic order.
pub proof fn lemma_lex(x: int, d: int, hi: int, lo: int)
    requires
        0 < d,
        0 <= lo < d,
        0 <= x,
    ensures
        (x < hi * d + lo) <==> (x / d < hi || (x / d == hi && x % d < lo)),
{
    lemma_split_any(x, d);
    let k = x / d;
    let r = x % d;
    if k < hi {
        assert(k * d + d <= hi * d) by (nonlinear_arith)
            requires
                k + 1 <= hi,
                0 < d,
        ;
    } else if k > hi {
        assert(hi * d + d <= k * d) by (nonlinear_arith)
            requires
                hi + 1 <= k,
                0 < d,
        ;
    }
}

/// The offset within a lane does not depend on the block.
pub proof fn lemma_offset(x: int, w: int, l: int)
    requires
        0 < w,
        0 < l,
        0 <= x,
    ensures
        0 < l * w,
        (x % (l * w)) % w == x % w,
        0 <= (x % (l * w)) / w < l,
        x % (l * w) == ((x % (l * w)) / w) * w + x % w,
{
    lemma_mod_mod(x, w, l);
    assert(w * l == l * w) by (nonlinear_arith);
    lemma_mod_bound(x, l * w);
    lemma_split(x % (l * w), w, l);
}

/// How many blocks a length takes, and how the last of them is filled.
pub proof fn lemma_blocks_for(nbits: int, width: int)
    requires
        0 < width,
        0 <= nbits,
    ensures
        nbits <= blocks_for(nbits, width) * width < nbits + width,
        nbits == (nbits / width) * width + nbits % width,
        0 <= nbits % width < width,
        0 <= nbits / width <= nbits,
        0 <= blocks_for(nbits, width) <= nbits,
{
    lemma_split_any(nbits, width);
    let k = nbits / width;
    assert((k + 1) * width == k * width + width) by (nonlinear_arith);
    if nbits % width != 0 {
        assert(k + 1 <= nbits) by (nonlinear_arith)
            requires
                nbits == k * width + nbits % width,
                nbits % width > 0,
                0 <= k,
                0 < width,
        ;
    }
}

/// Monotonicity of the block count.
pub proof fn lemma_blocks_for_monotonic(a: int, b: int, width: int)
    requires
        0 < width,
        0 <= a <= b,
    ensures
        blocks_for(a, width) <= blocks_for(b, width),
{
    lemma_blocks_for(a, width);
    lemma_blocks_for(b, width);
    let x = blocks_for(a, width);
    let y = blocks_for(b, width);
    let w = width;
    if x > y {
        assert(y * w + w <= x * w) by (nonlinear_arith)
            requires
                y + 1 <= x,
                0 < w,
        ;
    }
}

/// Width of a lane of `B`, in bits.
pub fn lane_bit_width<B: BitBlock<L>, const L: usize>() -> (w: usize)
    ensures
        w == lane_bits::<B, L>(),
        0 < w <= u16::MAX,
{
    proof {
        B::lemma_shape();
        B::Element::lemma_bit_width();
        let w = B::Element::spec_bit_width() as int;
        assert(w <= L * w) by (nonlinear_arith)
            requires
                0 < L,
                0 < w,
        ;
    }
    B::Element::bit_width()
}

/// Width of a block of `B`, in bits.
pub fn block_bit_width<B: BitBlock<L>, const L: usize>() -> (bw: usize)
    ensures
        bw == block_bits::<B, L>(),
        0 < bw <= u16::MAX,
{
    proof {
        B::lemma_shape();
        B::Element::lemma_bit_width();
        let w = B::Element::spec_bit_width() as int;
        assert(0 < L * w) by (nonlinear_arith)
            requires
                0 < L,
                0 < w,
        ;
    }
    L * B::Element::bit_width()
}

/// Splits a bit count into the number of full blocks, the number of full
/// lanes after them, and the number of bits after those.
pub fn bit_to_len<B: BitBlock<L>, const L: usize>(nbits: usize) -> (r: (usize, usize, usize))
    ensures
        r.0 == nbits as int / block_bits::<B, L>(),
        r.1 == (nbits as int % block_bits::<B, L>()) / lane_bits::<B, L>(),
        r.2 == nbits as int % lane_bits::<B, L>(),
        r.1 < L,
        r.2 < lane_bits::<B, L>(),
        nbits as int % block_bits::<B, L>() == r.1 * lane_bits::<B, L>() + r.2,
        nbits == r.0 * block_bits::<B, L>() + r.1 * lane_bits::<B, L>() + r.2,
        (r.1 > 0 || r.2 > 0) <==> nbits as int % block_bits::<B, L>() != 0,
        blocks_for(nbits as int, block_bits::<B, L>()) == if r.1 > 0 || r.2 > 0 {
            r.0 + 1
        } else {
            r.0 as int
        },
{
    let w = lane_bit_width::<B, L>();
    let bw = block_bit_width::<B, L>();
    proof {
        lemma_offset(nbits as int, w as int, L as int);
        lemma_split_any(nbits as int, bw as int);
        // The remainder in the block is zero exactly when it spans no full
        // lane and no further bit.
        let hi = (nbits as int % bw as int) / w as int;
        assert(hi == 0 ==> hi * w == 0) by (nonlinear_arith);
        assert(hi > 0 ==> hi * w > 0) by (nonlinear_arith)
            requires
                w > 0,
        ;
    }
    (nbits / bw, (nbits % bw) / w, nbits % w)
}

} // verus!
