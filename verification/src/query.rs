//! Aggregate queries on bit vectors: population counts, leading zeros, and
//! the tests built on them.
use vstd::prelude::*;
use vstd::arithmetic::div_mod::lemma_small_mod;
use crate::bits::{
    count_true, leading_false, lemma_count_true_bounds, lemma_count_true_full_iff,
    lemma_count_true_none, lemma_count_true_range, lemma_count_true_take,
    lemma_count_true_zero_iff, lemma_leading_false_bounds, lemma_leading_false_unique,
};
use crate::bitvec::{
    lemma_block_below, lemma_block_bits, lemma_block_of, lemma_storage_index, lemma_storage_span,
    storage_bit, storage_view, BitVecSimd,
};
use crate::block::BitBlock;
use crate::lane::{lane_count_ones, lane_leading_zeros, lane_view, BitBlockElement};
use crate::layout::{
    bit_to_len, block_bit_width, block_bits, lane_bit_width, lane_bits, lemma_join, lemma_lex,
    lemma_split,
};

verus! {

/// The bits of a block as a sequence, lowest position first.
pub open spec fn block_view<B: BitBlock<L>, const L: usize>(b: B) -> Seq<bool> {
    Seq::new(block_bits::<B, L>() as nat, |q: int| b.bit(q))
}

/// Where lane `i` of a block lies.
pub proof fn lemma_lane_span<B: BitBlock<L>, const L: usize>(i: int)
    requires
        0 <= i < L,
    ensures
        0 <= i * lane_bits::<B, L>(),
        (i + 1) * lane_bits::<B, L>() == i * lane_bits::<B, L>() + lane_bits::<B, L>(),
        (i + 1) * lane_bits::<B, L>() <= block_bits::<B, L>(),
{
    lemma_block_bits::<B, L>();
    let w = lane_bits::<B, L>();
    assert((i + 1) * w == i * w + w) by (nonlinear_arith);
    assert(0 <= i * w) by (nonlinear_arith)
        requires
            0 <= i,
            0 < w,
    ;
    assert((i + 1) * w <= L * w) by (nonlinear_arith)
        requires
            i + 1 <= L,
            0 < w,
    ;
}

/// Number of set bits of `b` below position `bytes * W + bits`, `W` being
/// the width of a lane.
pub fn count_ones_in_block<B: BitBlock<L>, const L: usize>(b: B, bytes: usize, bits: usize) -> (r:
    usize)
    requires
        bits < lane_bits::<B, L>(),
        bytes <= L,
        bits > 0 ==> bytes < L,
    ensures
        bytes * lane_bits::<B, L>() + bits <= block_bits::<B, L>(),
        r == count_true(block_view::<B, L>(b).take(bytes * lane_bits::<B, L>() + bits)),
{
    let arr = b.to_array();
    let ghost v = block_view::<B, L>(b);
    let ghost w = lane_bits::<B, L>();
    proof {
        lemma_block_bits::<B, L>();
        assert(v.take(0) =~= Seq::<bool>::empty());
        assert(0 * w == 0);
        if bytes < L {
            lemma_lane_span::<B, L>(bytes as int);
        } else {
            assert(bytes * w == block_bits::<B, L>());
        }
    }
    let mut ones: usize = 0;
    let mut i: usize = 0;
    while i < bytes
        invariant
            i <= bytes <= L,
            w == lane_bits::<B, L>(),
            v == block_view::<B, L>(b),
            0 <= i * w <= block_bits::<B, L>() <= u16::MAX,
            ones == count_true(v.take(i * w)),
            forall|k: int, j: int|
                0 <= k < L && 0 <= j < B::Element::spec_bit_width() ==> #[trigger] arr[k].bit(j)
                    == b.bit(k * B::Element::spec_bit_width() + j),
        decreases bytes - i,
    {
        let lane_ones = lane_count_ones(arr[i]);
        proof {
            lemma_lane_span::<B, L>(i as int);
            lemma_count_true_range(v, i * w, (i + 1) * w);
            assert(v.subrange(i * w, (i + 1) * w) =~= lane_view(arr[i as int]));
            lemma_count_true_bounds(v.take((i + 1) * w));
        }
        ones += lane_ones as usize;
        i += 1;
    }
    if bits > 0 {
        let width = lane_bit_width::<B, L>();
        let low = arr[bytes].clear_high_bits((width - bits) as u32);
        let lane_ones = lane_count_ones(low);
        proof {
            lemma_small_mod((width - bits) as nat, width as nat);
            lemma_lane_span::<B, L>(bytes as int);
            let lo = bytes * w;
            lemma_count_true_range(v, lo, lo + bits);
            let lv = lane_view(low);
            lemma_count_true_take(lv, bits as int);
            lemma_count_true_none(lv.skip(bits as int));
            assert(v.subrange(lo, lo + bits) =~= lv.take(bits as int));
            lemma_count_true_bounds(v.take(lo + bits));
        }
        ones += lane_ones as usize;
    }
    ones
}

/// The highest set position of a block that holds a set bit.
pub fn highest_set_in_block<B: BitBlock<L>, const L: usize>(b: B) -> (r: usize)
    requires
        exists|q: int| 0 <= q < block_bits::<B, L>() && b.bit(q),
    ensures
        r < block_bits::<B, L>(),
        b.bit(r as int),
        forall|q: int| r < q < block_bits::<B, L>() ==> !b.bit(q),
{
    let arr = b.to_array();
    let w = lane_bit_width::<B, L>();
    let zero = B::Element::zero();
    proof {
        lemma_block_bits::<B, L>();
    }
    let mut i: usize = L;
    loop
        invariant
            0 <= i <= L,
            w == lane_bits::<B, L>(),
            exists|q: int| 0 <= q < block_bits::<B, L>() && b.bit(q),
            forall|k: int, j: int| i <= k < L && 0 <= j < w ==> !#[trigger] arr[k].bit(j),
            forall|k: int, j: int|
                0 <= k < L && 0 <= j < B::Element::spec_bit_width() ==> #[trigger] arr[k].bit(j)
                    == b.bit(k * B::Element::spec_bit_width() + j),
            forall|j: int| 0 <= j < w ==> !#[trigger] zero.bit(j),
        decreases i,
    {
        if i == 0 {
            proof {
                let q = choose|q: int| 0 <= q < block_bits::<B, L>() && b.bit(q);
                lemma_split(q, w as int, L as int);
                assert(arr[q / (w as int)].bit(q % (w as int)));
            }
            return 0;
        }
        let lane = arr[i - 1];
        if !lane.eq(zero) {
            let lz = lane_leading_zeros(lane);
            proof {
                let lv = lane_view(lane);
                lemma_leading_false_bounds(lv);
                lemma_lane_span::<B, L>(i - 1);
                lemma_block_bits::<B, L>();
                if lz == w {
                    assert forall|j: int| 0 <= j < w implies lane.bit(j) == zero.bit(j) by {
                        assert(!lv[j]);
                    }
                }
                let top = (i - 1) * w + (w - 1 - lz);
                assert forall|q: int| top < q < block_bits::<B, L>() implies !b.bit(q) by {
                    lemma_split(q, w as int, L as int);
                    if lz == 0 {
                        lemma_lex(q, w as int, i as int, 0);
                    } else {
                        lemma_lex(q, w as int, i - 1, w - lz);
                    }
                    let k = q / (w as int);
                    let j = q % (w as int);
                    assert(arr[k].bit(j) == b.bit(k * w + j));
                    if k == i - 1 {
                        assert(!lv[j]);
                    }
                }
                assert(lv[w - 1 - lz]);
            }
            return (i - 1) * w + (w - 1 - lz as usize);
        }
        i -= 1;
    }
}

impl<B: BitBlock<L>, const L: usize> BitVecSimd<B, L> {
    /// Every bit of the storage, the clear ones beyond the length included.
    pub(crate) open spec fn stored(&self) -> Seq<bool> {
        storage_view::<B, L>(self.storage@, self.storage@.len() * block_bits::<B, L>())
    }

    /// The storage consists of the view and clear bits after it.
    pub(crate) proof fn lemma_stored(&self)
        requires
            self.wf(),
        ensures
            self@.len() <= self.stored().len(),
            self.stored().take(self@.len() as int) == self@,
            count_true(self.stored()) == count_true(self@),
            self.stored().len() == self.storage@.len() * block_bits::<B, L>(),
    {
        let bw = block_bits::<B, L>();
        let s = self.stored();
        let n = self@.len() as int;
        lemma_block_bits::<B, L>();
        lemma_storage_span::<B, L>(self.nbits as int);
        assert(0 <= self.storage@.len() * bw) by (nonlinear_arith)
            requires
                0 <= self.storage@.len(),
                0 < bw,
        ;
        assert(s.take(n) =~= self@);
        lemma_count_true_take(s, n);
        lemma_count_true_none(s.skip(n));
    }

    /// Position of the first bit of block `k`.
    #[verifier::opaque]
    pub(crate) open spec fn block_start(k: int) -> int {
        k * block_bits::<B, L>()
    }

    /// What block `k` contributes to the stored bits.
    pub(crate) proof fn lemma_stored_block(&self, k: int, m: int)
        requires
            self.wf(),
            0 <= k < self.storage@.len(),
            0 <= m <= block_bits::<B, L>(),
        ensures
            0 <= Self::block_start(k),
            Self::block_start(k + 1) == Self::block_start(k) + block_bits::<B, L>(),
            Self::block_start(k + 1) <= self.stored().len(),
            count_true(self.stored().take(Self::block_start(k) + m)) == count_true(
                self.stored().take(Self::block_start(k)),
            ) + count_true(block_view::<B, L>(self.storage@[k]).take(m)),
            count_true(self.stored().take(Self::block_start(k) + m)) <= count_true(self@),
            count_true(self@) <= usize::MAX,
    {
        reveal(BitVecSimd::block_start);
        let bw = block_bits::<B, L>();
        let s = self.stored();
        self.lemma_stored();
        lemma_block_bits::<B, L>();
        lemma_count_true_bounds(self@);
        assert((k + 1) * bw <= self.storage@.len() * bw) by (nonlinear_arith)
            requires
                k + 1 <= self.storage@.len(),
                0 < bw,
        ;
        assert((k + 1) * bw == k * bw + bw) by (nonlinear_arith);
        assert(0 <= k * bw) by (nonlinear_arith)
            requires
                0 <= k,
                0 < bw,
        ;
        let lo = k * bw;
        assert forall|t: int| 0 <= t < m implies s[lo + t] == self.storage@[k].bit(t) by {
            lemma_block_of::<B, L>(lo + t, k);
        }
        assert(s.subrange(lo, lo + m) =~= block_view::<B, L>(self.storage@[k]).take(m));
        lemma_count_true_range(s, lo, lo + m);
        lemma_count_true_take(s, lo + m);
    }

    /// Where the blocks begin and end.
    pub(crate) proof fn lemma_block_start(&self)
        requires
            self.wf(),
        ensures
            Self::block_start(0) == 0,
            Self::block_start(self.storage@.len() as int) == self.stored().len(),
            count_true(self.stored().take(0)) == 0,
            count_true(self.stored().take(self.stored().len() as int)) == count_true(self@),
    {
        reveal(BitVecSimd::block_start);
        self.lemma_stored();
        assert(self.stored().take(0) =~= Seq::<bool>::empty());
        assert(self.stored().take(self.stored().len() as int) =~= self.stored());
    }

    /// Number of set bits.
    pub fn count_ones(&self) -> (r: usize)
        ensures
            r == count_true(self@),
    {
        proof {
            use_type_invariant(self);
            self.lemma_block_start();
        }
        let mut ones: usize = 0;
        let mut k: usize = 0;
        while k < self.storage.len()
            invariant
                self.wf(),
                k <= self.storage.len(),
                ones == count_true(self.stored().take(Self::block_start(k as int))),
            decreases self.storage.len() - k,
        {
            proof {
                lemma_block_bits::<B, L>();
            }
            let block_ones = count_ones_in_block(self.storage[k], L, 0);
            proof {
                self.lemma_stored_block(k as int, block_bits::<B, L>());
                assert(block_view::<B, L>(self.storage@[k as int]).take(block_bits::<B, L>())
                    =~= block_view::<B, L>(self.storage@[k as int]));
            }
            ones += block_ones;
            k += 1;
        }
        proof {
            self.lemma_block_start();
        }
        ones
    }

    /// Number of set bits below `index`, which is at most the length.
    pub fn count_ones_before(&self, index: usize) -> (r: usize)
        requires
            index <= self@.len(),
        ensures
            r == count_true(self@.take(index as int)),
    {
        if index == 0 {
            proof {
                assert(self@.take(0) =~= Seq::<bool>::empty());
            }
            return 0;
        }
        proof {
            use_type_invariant(self);
            self.lemma_stored();
            self.lemma_block_start();
            lemma_block_bits::<B, L>();
            lemma_storage_span::<B, L>(self.nbits as int);
        }
        let (i, bytes, bits) = bit_to_len::<B, L>(index);
        proof {
            let bw = block_bits::<B, L>();
            reveal(BitVecSimd::block_start);
            lemma_block_below::<B, L>(index as int, self.storage@.len() as int);
            if index < self.storage@.len() * bw {
            } else {
                assert(index == self.storage@.len() * bw);
                lemma_join(self.storage@.len() as int, 0, bw);
            }
            assert(index == Self::block_start(i as int) + bytes * lane_bits::<B, L>() + bits);
        }
        let mut ones: usize = 0;
        let mut k: usize = 0;
        while k < i
            invariant
                self.wf(),
                k <= i <= self.storage.len(),
                ones == count_true(self.stored().take(Self::block_start(k as int))),
            decreases i - k,
        {
            proof {
                lemma_block_bits::<B, L>();
            }
            let block_ones = count_ones_in_block(self.storage[k], L, 0);
            proof {
                self.lemma_stored_block(k as int, block_bits::<B, L>());
                assert(block_view::<B, L>(self.storage@[k as int]).take(block_bits::<B, L>())
                    =~= block_view::<B, L>(self.storage@[k as int]));
            }
            ones += block_ones;
            k += 1;
        }
        if bytes > 0 || bits > 0 {
            let block_ones = count_ones_in_block(self.storage[i], bytes, bits);
            proof {
                self.lemma_stored_block(i as int, bytes * lane_bits::<B, L>() + bits);
            }
            ones += block_ones;
        }
        proof {
            assert(self.stored().take(index as int) =~= self@.take(index as int));
        }
        ones
    }

    /// Number of clear bits above the highest set bit; the length when no
    /// bit is set.
    pub fn leading_zeros(&self) -> (r: usize)
        ensures
            r == leading_false(self@),
    {
        proof {
            use_type_invariant(self);
            lemma_block_bits::<B, L>();
            lemma_storage_span::<B, L>(self.nbits as int);
        }
        let bw = block_bit_width::<B, L>();
        let zero = B::zero();
        let mut k: usize = self.storage.len();
        loop
            invariant
                self.wf(),
                k <= self.storage.len(),
                bw == block_bits::<B, L>(),
                0 < bw,
                self.nbits <= self.storage@.len() * bw,
                forall|q: int| 0 <= q < bw ==> !#[trigger] zero.bit(q),
                forall|j: int, q: int|
                    k <= j < self.storage.len() && 0 <= q < bw ==> !#[trigger] self.storage[j].bit(
                        q,
                    ),
            decreases k,
        {
            if k == 0 {
                proof {
                    assert forall|p: int| 0 <= p < self@.len() implies !self@[p] by {
                        lemma_storage_index::<B, L>(self.storage@.len() as int, p);
                    }
                    lemma_leading_false_unique(self@, self@.len());
                }
                return self.nbits;
            }
            let block = self.storage[k - 1];
            if !block.eq(&zero) {
                let top = highest_set_in_block(block);
                proof {
                    let n = self.nbits as int;
                    let at = (k - 1) * bw + top;
                    lemma_block_of::<B, L>(at, k - 1);
                    lemma_join(k - 1, top as int, bw as int);
                    assert(storage_bit::<B, L>(self.storage@, at));
                    assert(at < self.storage@.len() * bw) by (nonlinear_arith)
                        requires
                            at < (k - 1) * bw + bw,
                            k <= self.storage@.len(),
                            0 < bw,
                    ;
                    assert(0 <= (k - 1) * bw) by (nonlinear_arith)
                        requires
                            1 <= k,
                            0 < bw,
                    ;
                    assert(at < n);
                    assert forall|p: int| at < p < n implies !self@[p] by {
                        lemma_storage_index::<B, L>(self.storage@.len() as int, p);
                        lemma_lex(p, bw as int, k - 1, top as int);
                    }
                    assert(self@[at]);
                    lemma_leading_false_unique(self@, (n - 1 - at) as nat);
                }
                return self.nbits - 1 - ((k - 1) * bw + top);
            }
            k -= 1;
        }
    }

    /// Whether some bit is set.
    pub fn any(&self) -> (r: bool)
        ensures
            r == (count_true(self@) > 0),
            r == (exists|i: int| 0 <= i < self@.len() && self@[i]),
    {
        proof {
            use_type_invariant(self);
            self.lemma_block_start();
            lemma_count_true_zero_iff(self@);
        }
        let mut k: usize = 0;
        while k < self.storage.len()
            invariant
                self.wf(),
                k <= self.storage.len(),
                count_true(self.stored().take(Self::block_start(k as int))) == 0,
                count_true(self@) == 0 <==> (forall|i: int| 0 <= i < self@.len() ==> !self@[i]),
            decreases self.storage.len() - k,
        {
            proof {
                lemma_block_bits::<B, L>();
            }
            let block_ones = count_ones_in_block(self.storage[k], L, 0);
            proof {
                self.lemma_stored_block(k as int, block_bits::<B, L>());
                assert(block_view::<B, L>(self.storage@[k as int]).take(block_bits::<B, L>())
                    =~= block_view::<B, L>(self.storage@[k as int]));
            }
            if block_ones > 0 {
                return true;
            }
            k += 1;
        }
        proof {
            self.lemma_block_start();
        }
        false
    }

    /// Whether every bit is set.
    pub fn all(&self) -> (r: bool)
        ensures
            r == (count_true(self@) == self@.len()),
            r == (forall|i: int| 0 <= i < self@.len() ==> self@[i]),
    {
        proof {
            lemma_count_true_full_iff(self@);
        }
        self.count_ones() == self.nbits
    }

    /// Whether no bit is set.
    pub fn none(&self) -> (r: bool)
        ensures
            r == (count_true(self@) == 0),
            r == (forall|i: int| 0 <= i < self@.len() ==> !self@[i]),
    {
        !self.any()
    }

    /// Whether no bit is set.
    pub fn is_empty(&self) -> (r: bool)
        ensures
            r == (count_true(self@) == 0),
            r == (forall|i: int| 0 <= i < self@.len() ==> !self@[i]),
    {
        !self.any()
    }

    /// Whether two vectors of one length hold the same bits.
    pub fn eq(&self, other: &Self) -> (r: bool)
        requires
            self@.len() == other@.len(),
        ensures
            r == (self@ == other@),
    {
        proof {
            use_type_invariant(self);
            use_type_invariant(other);
            lemma_block_bits::<B, L>();
            lemma_storage_span::<B, L>(self.nbits as int);
        }
        let ghost bw = block_bits::<B, L>();
        let mut k: usize = 0;
        while k < self.storage.len()
            invariant
                self.wf(),
                other.wf(),
                self.nbits == other.nbits,
                k <= self.storage.len() == other.storage.len(),
                bw == block_bits::<B, L>(),
                forall|j: int, q: int|
                    0 <= j < k && 0 <= q < bw ==> #[trigger] self.storage[j].bit(q)
                        == other.storage[j].bit(q),
            decreases self.storage.len() - k,
        {
            if !self.storage[k].eq(&other.storage[k]) {
                proof {
                    let q = choose|q: int|
                        0 <= q < bw && self.storage[k as int].bit(q) != other.storage[k as int].bit(
                            q,
                        );
                    let p = k * bw + q;
                    lemma_block_of::<B, L>(p, k as int);
                    lemma_join(k as int, q, bw);
                    assert(0 <= k * bw) by (nonlinear_arith)
                        requires
                            0 <= k,
                            0 < bw,
                    ;
                    assert(p < self.storage@.len() * bw) by (nonlinear_arith)
                        requires
                            p < k * bw + bw,
                            k + 1 <= self.storage@.len(),
                            0 < bw,
                    ;
                    assert(storage_bit::<B, L>(self.storage@, p) != storage_bit::<B, L>(
                        other.storage@,
                        p,
                    ));
                    assert(self@[p] != other@[p]);
                }
                return false;
            }
            k += 1;
        }
        proof {
            assert forall|p: int| 0 <= p < self@.len() implies self@[p] == other@[p] by {
                lemma_storage_index::<B, L>(self.storage@.len() as int, p);
            }
            assert(self@ =~= other@);
        }
        true
    }
}

} // verus!
