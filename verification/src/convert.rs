//! Conversions out of bit vectors: booleans, index lists, the flat lane
//! encoding, text, and the blocks themselves.
use vstd::prelude::*;
use crate::bits::{lemma_true_indices_of_take, true_indices};
use crate::bitvec::{
    lemma_block_below, lemma_block_bits, lemma_block_of, lemma_storage_index, lemma_storage_span,
    storage_bit, storage_view, storage_wf, BitVecSimd,
};
use crate::block::BitBlock;
use crate::construct::{lanes_bit, lanes_view, lemma_flat_lane};
use crate::lane::{lane_is_zero, lane_view, BitBlockElement};
use crate::layout::{
    block_bit_width, block_bits, blocks_for, lane_bit_width, lane_bits, lemma_join, lemma_split_any,
};
use crate::query::{block_view, lemma_lane_span};
use vstd::arithmetic::div_mod::lemma_small_mod;

verus! {

/// The text of a bit sequence: one character per position, `'1'` for a set
/// bit and `'0'` for a clear one, position 0 first.
pub open spec fn rendered(s: Seq<bool>) -> Seq<char> {
    Seq::new(
        s.len(),
        |i: int|
            if s[i] {
                '1'
            } else {
                '0'
            },
    )
}

/// `String::push` appends the character to the end of the string.
#[verifier::external_body]
fn string_push(s: &mut String, c: char)
    ensures
        final(s)@ == old(s)@.push(c),
{
    s.push(c)
}

/// `Vec::capacity` is the number of elements the vector can hold without
/// reallocating, which is never less than its length.
#[verifier::external_body]
fn vec_capacity<T>(v: &Vec<T>) -> (r: usize)
    ensures
        r >= v.len(),
{
    v.capacity()
}

/// Appends the lowest `count` bits of `lane` to `out`, lowest first.
fn push_lane_bools<E: BitBlockElement>(out: &mut Vec<bool>, lane: E, count: usize)
    requires
        count <= E::spec_bit_width(),
    ensures
        final(out)@ == old(out)@ + lane_view(lane).take(count as int),
{
    proof {
        E::lemma_bit_width();
        assert(out@ =~= old(out)@ + lane_view(lane).take(0));
    }
    let one = E::one();
    let zero = E::zero();
    let mut o: usize = 0;
    while o < count
        invariant
            o <= count <= E::spec_bit_width() <= u32::MAX,
            out@ == old(out)@ + lane_view(lane).take(o as int),
            forall|j: int| 0 <= j < E::spec_bit_width() ==> #[trigger] one.bit(j) == (j == 0),
            forall|j: int| 0 <= j < E::spec_bit_width() ==> !#[trigger] zero.bit(j),
        decreases count - o,
    {
        let lowest = lane.wrapping_shr(o as u32).and(one);
        let bit = !lowest.eq(zero);
        proof {
            lemma_small_mod(o as nat, E::spec_bit_width());
            assert(lowest.bit(0) == lane.bit(o as int));
            assert(out@.push(bit) =~= old(out)@ + lane_view(lane).take(o + 1));
        }
        out.push(bit);
        o += 1;
    }
}

/// Appends the lowest `count` bits of `block` to `out`, lowest first.
fn push_block_bools<B: BitBlock<L>, const L: usize>(out: &mut Vec<bool>, block: B, count: usize)
    requires
        count <= block_bits::<B, L>(),
    ensures
        final(out)@ == old(out)@ + block_view::<B, L>(block).take(count as int),
{
    let arr = block.to_array();
    let w = lane_bit_width::<B, L>();
    let ghost v = block_view::<B, L>(block);
    let mut done: usize = 0;
    let mut j: usize = 0;
    proof {
        lemma_block_bits::<B, L>();
        assert(out@ =~= old(out)@ + v.take(0));
    }
    while j < L
        invariant
            j <= L,
            w == lane_bits::<B, L>(),
            v == block_view::<B, L>(block),
            count <= block_bits::<B, L>() == v.len(),
            done <= count,
            done == if j * w <= count {
                j * w
            } else {
                count as int
            },
            out@ == old(out)@ + v.take(done as int),
            forall|t: int, o: int|
                0 <= t < L && 0 <= o < B::Element::spec_bit_width() ==> #[trigger] arr[t].bit(o)
                    == block.bit(t * B::Element::spec_bit_width() + o),
        decreases L - j,
    {
        let n = if count - done < w {
            count - done
        } else {
            w
        };
        push_lane_bools(out, arr[j], n);
        proof {
            lemma_lane_span::<B, L>(j as int);
            if n > 0 {
                assert(v.subrange(done as int, done + n) =~= lane_view(arr[j as int]).take(
                    n as int,
                ));
            }
            assert(v.take(done + n) =~= v.take(done as int) + lane_view(arr[j as int]).take(
                n as int,
            ));
        }
        done += n;
        j += 1;
    }
}

impl<B: BitBlock<L>, const L: usize> BitVecSimd<B, L> {
    /// Appends the bits of block `k` that lie below the length to `out`, and
    /// returns the position of the first of them and their number.
    fn push_block(&self, k: usize, out: &mut Vec<bool>) -> (r: (usize, usize))
        requires
            k < blocks_for(self@.len() as int, block_bits::<B, L>()),
        ensures
            r.0 == k * block_bits::<B, L>(),
            r.0 + r.1 <= self@.len(),
            r.0 + r.1 == if (k + 1) * block_bits::<B, L>() <= self@.len() {
                (k + 1) * block_bits::<B, L>()
            } else {
                self@.len() as int
            },
            final(out)@ == old(out)@ + self@.subrange(r.0 as int, r.0 + r.1),
    {
        proof {
            use_type_invariant(self);
            lemma_block_bits::<B, L>();
            lemma_storage_span::<B, L>(self.nbits as int);
            lemma_block_below::<B, L>(self.nbits as int, k as int);
            lemma_block_of::<B, L>(self.nbits as int, k as int);
            assert(0 <= k * block_bits::<B, L>()) by (nonlinear_arith)
                requires
                    0 <= k,
                    0 < block_bits::<B, L>(),
            ;
            if k + 1 < self.storage@.len() {
                lemma_block_below::<B, L>(self.nbits as int, k + 1);
            }
        }
        let bw = block_bit_width::<B, L>();
        let lo = k * bw;
        let count = if self.nbits - lo < bw {
            self.nbits - lo
        } else {
            bw
        };
        push_block_bools(out, self.storage[k], count);
        proof {
            assert forall|t: int| 0 <= t < count implies self@[lo + t] == self.storage@[k as int].bit(
                t,
            ) by {
                lemma_block_of::<B, L>(lo + t, k as int);
            }
            assert(self@.subrange(lo as int, lo + count) =~= block_view::<B, L>(
                self.storage@[k as int],
            ).take(count as int));
        }
        (lo, count)
    }

    /// The bits as booleans, position 0 first.
    pub fn into_bools(self) -> (r: Vec<bool>)
        ensures
            r@ == self@,
    {
        proof {
            use_type_invariant(&self);
            lemma_storage_span::<B, L>(self.nbits as int);
            assert(self@.take(0) =~= Seq::<bool>::empty());
        }
        let ghost bw = block_bits::<B, L>();
        let mut out: Vec<bool> = Vec::new();
        let mut k: usize = 0;
        while k < self.storage.len()
            invariant
                self.storage.len() == blocks_for(self@.len() as int, block_bits::<B, L>()),
                bw == block_bits::<B, L>(),
                k <= self.storage.len(),
                out.len() == if k * bw <= self@.len() {
                    k * bw
                } else {
                    self@.len() as int
                },
                out@ == self@.take(out.len() as int),
            decreases self.storage.len() - k,
        {
            let (lo, count) = self.push_block(k, &mut out);
            proof {
                assert(out@ =~= self@.take(lo + count));
            }
            k += 1;
        }
        proof {
            lemma_storage_span::<B, L>(self.nbits as int);
            assert(out@ =~= self@);
        }
        out
    }

    /// The positions of the set bits, in ascending order.
    pub fn usizes(&self) -> (r: Vec<usize>)
        ensures
            r@ == true_indices(self@),
    {
        proof {
            use_type_invariant(self);
            lemma_storage_span::<B, L>(self.nbits as int);
            assert(self@.take(0) =~= Seq::<bool>::empty());
        }
        let ghost bw = block_bits::<B, L>();
        let mut out: Vec<usize> = Vec::new();
        let mut block: Vec<bool> = Vec::new();
        let mut k: usize = 0;
        let ghost mut done: int = 0;
        while k < self.storage.len()
            invariant
                self.storage.len() == blocks_for(self@.len() as int, block_bits::<B, L>()),
                bw == block_bits::<B, L>(),
                k <= self.storage.len(),
                done == if k * bw <= self@.len() {
                    k * bw
                } else {
                    self@.len() as int
                },
                out@ == true_indices(self@.take(done)),
            decreases self.storage.len() - k,
        {
            block.clear();
            let (lo, count) = self.push_block(k, &mut block);
            let mut q: usize = 0;
            proof {
                assert(block@ =~= self@.subrange(lo as int, lo + count));
            }
            while q < count
                invariant
                    q <= count,
                    lo + count <= self@.len() <= usize::MAX,
                    block@ == self@.subrange(lo as int, lo + count),
                    out@ == true_indices(self@.take(lo + q)),
                decreases count - q,
            {
                proof {
                    lemma_true_indices_of_take(self@, lo + q);
                    assert(block@[q as int] == self@[lo + q]);
                }
                if block[q] {
                    out.push(lo + q);
                }
                q += 1;
            }
            proof {
                done = lo + count;
            }
            k += 1;
        }
        proof {
            lemma_storage_span::<B, L>(self.nbits as int);
            assert(self@.take(self@.len() as int) =~= self@);
        }
        out
    }

    /// The positions of the set bits, in ascending order.
    pub fn to_usizes(self) -> (r: Vec<usize>)
        ensures
            r@ == true_indices(self@),
    {
        self.usizes()
    }

    /// The bits as text, one `'0'` or `'1'` per position, position 0 first.
    pub fn to_string(&self) -> (r: String)
        ensures
            r@ == rendered(self@),
    {
        proof {
            use_type_invariant(self);
            lemma_storage_span::<B, L>(self.nbits as int);
            assert(rendered(self@).take(0) =~= Seq::<char>::empty());
        }
        let ghost bw = block_bits::<B, L>();
        let mut out = String::new();
        let mut block: Vec<bool> = Vec::new();
        let mut k: usize = 0;
        let ghost mut done: int = 0;
        while k < self.storage.len()
            invariant
                self.storage.len() == blocks_for(self@.len() as int, block_bits::<B, L>()),
                bw == block_bits::<B, L>(),
                k <= self.storage.len(),
                done == if k * bw <= self@.len() {
                    k * bw
                } else {
                    self@.len() as int
                },
                out@ == rendered(self@).take(done),
            decreases self.storage.len() - k,
        {
            block.clear();
            let (lo, count) = self.push_block(k, &mut block);
            let mut q: usize = 0;
            proof {
                assert(block@ =~= self@.subrange(lo as int, lo + count));
            }
            while q < count
                invariant
                    q <= count,
                    lo + count <= self@.len(),
                    block@ == self@.subrange(lo as int, lo + count),
                    out@ == rendered(self@).take(lo + q),
                decreases count - q,
            {
                let c = if block[q] {
                    '1'
                } else {
                    '0'
                };
                proof {
                    assert(block@[q as int] == self@[lo + q]);
                    assert(out@.push(c) =~= rendered(self@).take(lo + q + 1));
                }
                string_push(&mut out, c);
                q += 1;
            }
            proof {
                done = lo + count;
            }
            k += 1;
        }
        proof {
            lemma_storage_span::<B, L>(self.nbits as int);
            assert(out@ =~= rendered(self@));
        }
        out
    }

    /// The blocks of the storage: just as many as the length takes, the
    /// bits in order, and every bit beyond the length clear.
    pub fn as_slice(&self) -> (r: &[B])
        ensures
            storage_wf::<B, L>(r@, self@.len() as int),
            storage_view::<B, L>(r@, self@.len() as int) == self@,
    {
        proof {
            use_type_invariant(self);
        }
        self.storage.as_slice()
    }

    /// Number of blocks that the storage can hold without reallocating.
    pub fn storage_capacity(&self) -> (r: usize)
        ensures
            r >= blocks_for(self@.len() as int, block_bits::<B, L>()),
    {
        proof {
            use_type_invariant(self);
        }
        vec_capacity(&self.storage)
    }

    /// The flat lane encoding: the lanes of the storage in order, lowest
    /// first, without the clear lanes at the end of the last block.
    ///
    /// Every lane kept holds the bits of the vector at its place, every set
    /// bit of the vector lies in a lane kept, all lanes before the last
    /// block are kept, and a lane kept from the last block is followed by a
    /// lane with a set bit or is one itself.
    pub fn encode(&self) -> (r: Vec<B::Element>)
        ensures
            lanes_view::<B::Element>(r@, self@.len() as int) == self@,
            forall|m: int, o: int|
                0 <= m < r@.len() && 0 <= o < lane_bits::<B, L>() ==> #[trigger] r@[m].bit(o) == (m
                    * lane_bits::<B, L>() + o < self@.len() && self@[m * lane_bits::<B, L>() + o]),
            r@.len() <= blocks_for(self@.len() as int, block_bits::<B, L>()) * L,
            r@.len() >= (blocks_for(self@.len() as int, block_bits::<B, L>()) - 1) * L,
            r@.len() > 0 && r@.len() > (blocks_for(self@.len() as int, block_bits::<B, L>()) - 1)
                * L ==> !lane_is_zero(r@[r@.len() - 1]),
    {
        proof {
            use_type_invariant(self);
            lemma_block_bits::<B, L>();
            lemma_storage_span::<B, L>(self.nbits as int);
            lemma_flat_lane::<B, L>(0, 0);
        }
        let ghost bw = block_bits::<B, L>();
        let ghost w = lane_bits::<B, L>();
        let len = self.storage.len();
        let mut out: Vec<B::Element> = Vec::new();
        if len == 0 {
            proof {
                assert(lanes_view::<B::Element>(out@, self@.len() as int) =~= self@);
            }
            return out;
        }
        let zero = B::Element::zero();
        let last = self.storage[len - 1].to_array();
        let mut last_count: usize = L;
        loop
            invariant
                last_count <= L,
                w == lane_bits::<B, L>(),
                forall|j: int| 0 <= j < w ==> !#[trigger] zero.bit(j),
                forall|t: int, j: int| last_count <= t < L && 0 <= j < w ==> !#[trigger] last[t].bit(j),
            ensures
                last_count > 0 ==> !lane_is_zero(last[last_count - 1]),
            decreases last_count,
        {
            if last_count == 0 {
                break ;
            }
            if !last[last_count - 1].eq(zero) {
                break ;
            }
            last_count -= 1;
        }
        let mut k: usize = 0;
        while k < len - 1
            invariant
                self.wf(),
                len == self.storage.len(),
                0 < len,
                k <= len - 1,
                bw == block_bits::<B, L>(),
                w == lane_bits::<B, L>(),
                0 < w <= bw,
                out.len() == k * L,
                forall|m: int, o: int|
                    0 <= m < out.len() && 0 <= o < w ==> #[trigger] out[m].bit(o) == storage_bit::<
                        B,
                        L,
                    >(self.storage@, m * w + o),
            decreases len - 1 - k,
        {
            let arr = self.storage[k].to_array();
            let mut j: usize = 0;
            while j < L
                invariant
                    self.wf(),
                    len == self.storage.len(),
                    k < len - 1,
                    j <= L,
                    bw == block_bits::<B, L>(),
                    w == lane_bits::<B, L>(),
                    0 < w <= bw,
                    out.len() == k * L + j,
                    forall|t: int, o: int|
                        0 <= t < L && 0 <= o < B::Element::spec_bit_width() ==> #[trigger] arr[t].bit(
                            o,
                        ) == self.storage[k as int].bit(t * B::Element::spec_bit_width() + o),
                    forall|m: int, o: int|
                        0 <= m < out.len() && 0 <= o < w ==> #[trigger] out[m].bit(o)
                            == storage_bit::<B, L>(self.storage@, m * w + o),
                decreases L - j,
            {
                proof {
                    assert forall|o: int| 0 <= o < w implies #[trigger] arr[j as int].bit(o)
                        == storage_bit::<B, L>(self.storage@, (k * L + j) * w + o) by {
                        self.lemma_lane_at(k as int, j as int, o);
                    }
                }
                out.push(arr[j]);
                j += 1;
            }
            proof {
                lemma_flat_lane::<B, L>(k as int, 0);
            }
            k += 1;
        }
        let mut j: usize = 0;
        while j < last_count
            invariant
                self.wf(),
                len == self.storage.len(),
                0 < len,
                j <= last_count <= L,
                bw == block_bits::<B, L>(),
                w == lane_bits::<B, L>(),
                0 < w <= bw,
                out.len() == (len - 1) * L + j,
                0 <= (len - 1) * L,
                forall|t: int| 0 <= t < j ==> #[trigger] out[(len - 1) * L + t] == last[t],
                forall|t: int, o: int|
                    0 <= t < L && 0 <= o < B::Element::spec_bit_width() ==> #[trigger] last[t].bit(o)
                        == self.storage[len - 1].bit(t * B::Element::spec_bit_width() + o),
                forall|m: int, o: int|
                    0 <= m < out.len() && 0 <= o < w ==> #[trigger] out[m].bit(o) == storage_bit::<
                        B,
                        L,
                    >(self.storage@, m * w + o),
            decreases last_count - j,
        {
            proof {
                assert forall|o: int| 0 <= o < w implies #[trigger] last[j as int].bit(o)
                    == storage_bit::<B, L>(self.storage@, ((len - 1) * L + j) * w + o) by {
                    self.lemma_lane_at(len - 1, j as int, o);
                }
            }
            out.push(last[j]);
            j += 1;
        }
        proof {
            let n = self@.len() as int;
            lemma_flat_lane::<B, L>(len - 1, 0);
            if last_count > 0 {
                assert(out[(len - 1) * L + (last_count - 1)] == last[last_count - 1]);
            }
            assert forall|p: int| 0 <= p < n implies lanes_bit::<B::Element>(out@, p) == self@[p] by {
                lemma_split_any(p, w);
                lemma_storage_index::<B, L>(len as int, p);
                if p / w < out.len() {
                    assert(out[p / w].bit(p % w) == storage_bit::<B, L>(
                        self.storage@,
                        (p / w) * w + p % w,
                    ));
                } else {
                    lemma_block_below::<B, L>(p, len - 1);
                    lemma_flat_lane::<B, L>(p / bw, p % bw);
                    lemma_flat_lane::<B, L>(len - 1, 0);
                    if p / bw < len - 1 {
                        assert((p / bw) * L + L <= (len - 1) * L) by (nonlinear_arith)
                            requires
                                p / bw + 1 <= len - 1,
                                0 < L,
                        ;
                    } else {
                        let q = p % bw;
                        assert(last[q / w].bit(q % w) == self.storage[len - 1].bit((q / w) * w + q
                            % w));
                    }
                }
            }
            assert(lanes_view::<B::Element>(out@, n) =~= self@);
            assert forall|m: int, o: int| 0 <= m < out@.len() && 0 <= o < w implies #[trigger] out@[m].bit(
                o,
            ) == (m * w + o < n && self@[m * w + o]) by {
                let p = m * w + o;
                assert(0 <= m * w) by (nonlinear_arith)
                    requires
                        0 <= m,
                        0 < w,
                ;
                assert(p < len * bw) by (nonlinear_arith)
                    requires
                        m + 1 <= len * L,
                        o < w,
                        bw == L * w,
                        0 < w,
                        p == m * w + o,
                ;
                if p >= n {
                    assert(!storage_bit::<B, L>(self.storage@, p));
                }
            }
        }
        out
    }

    /// The bits of lane `j` of block `k` are the stored bits at the lane's
    /// place in the flat order.
    pub(crate) proof fn lemma_lane_at(&self, k: int, j: int, o: int)
        requires
            0 <= k < self.storage@.len(),
            0 <= j < L,
            0 <= o < lane_bits::<B, L>(),
        ensures
            storage_bit::<B, L>(self.storage@, (k * L + j) * lane_bits::<B, L>() + o)
                == self.storage@[k].bit(j * lane_bits::<B, L>() + o),
            0 <= j * lane_bits::<B, L>() + o < block_bits::<B, L>(),
    {
        lemma_block_bits::<B, L>();
        let w = lane_bits::<B, L>();
        let bw = block_bits::<B, L>();
        let q = j * w + o;
        lemma_join(j, o, w);
        crate::query::lemma_lane_span::<B, L>(j);
        lemma_flat_lane::<B, L>(k, q);
        assert(k * bw + q == (k * L + j) * w + o) by (nonlinear_arith)
            requires
                bw == L * w,
                q == j * w + o,
        ;
        lemma_block_of::<B, L>(k * bw + q, k);
    }
}

} // verus!
