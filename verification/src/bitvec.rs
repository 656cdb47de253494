//! The bit-vector container: its storage, its model and its invariant.
use vstd::prelude::*;
use crate::bits::{filled, read, with_bit};
use crate::block::BitBlock;
use crate::lane::BitBlockElement;
use crate::layout::{
    bit_to_len, block_bits, blocks_for, lane_bits, lemma_blocks_for, lemma_join, lemma_split,
};
use crate::mask::{clear_high_bits, set_bit, test_bit};

verus! {

/// A growable vector of bits, stored in blocks of `L` lanes.
///
/// Its view is the sequence of its bits, position 0 first.
#[derive(Debug)]
pub struct BitVecSimd<B: BitBlock<L>, const L: usize> {
    pub(crate) storage: Vec<B>,
    pub(crate) nbits: usize,
}

/// The default bit vector: blocks of four 64-bit lanes.
pub type BitVec = BitVecSimd<wide::u64x4, 4>;

/// The bit at position `p` of a sequence of blocks.
pub open spec fn storage_bit<B: BitBlock<L>, const L: usize>(storage: Seq<B>, p: int) -> bool {
    storage[p / block_bits::<B, L>()].bit(p % block_bits::<B, L>())
}

/// The first `nbits` bits of a sequence of blocks.
pub open spec fn storage_view<B: BitBlock<L>, const L: usize>(storage: Seq<B>, nbits: int) -> Seq<
    bool,
> {
    Seq::new(nbits as nat, |p: int| storage_bit::<B, L>(storage, p))
}

/// A sequence of blocks holds `nbits` bits and nothing else: it has just
/// the blocks that this takes, and every bit beyond the length is clear.
pub open spec fn storage_wf<B: BitBlock<L>, const L: usize>(storage: Seq<B>, nbits: int) -> bool {
    &&& storage.len() == blocks_for(nbits, block_bits::<B, L>())
    &&& forall|p: int|
        nbits <= p < storage.len() * block_bits::<B, L>() ==> !#[trigger] storage_bit::<B, L>(
            storage,
            p,
        )
}

/// The width of a block is positive.
pub proof fn lemma_block_bits<B: BitBlock<L>, const L: usize>()
    ensures
        0 < lane_bits::<B, L>() <= block_bits::<B, L>() <= u16::MAX,
        0 < L,
{
    B::lemma_shape();
    B::Element::lemma_bit_width();
    let w = B::Element::spec_bit_width() as int;
    assert(w <= L * w) by (nonlinear_arith)
        requires
            0 < L,
            0 < w,
    ;
}

/// A position in block `k` is `k` widths plus a position within the block.
pub proof fn lemma_block_of<B: BitBlock<L>, const L: usize>(p: int, k: int)
    requires
        0 <= p,
    ensures
        (k * block_bits::<B, L>() <= p < k * block_bits::<B, L>() + block_bits::<B, L>()) <==> p
            / block_bits::<B, L>() == k,
        p / block_bits::<B, L>() == k ==> p % block_bits::<B, L>() == p - k * block_bits::<B, L>(),
        0 <= p % block_bits::<B, L>() < block_bits::<B, L>(),
        0 <= p / block_bits::<B, L>(),
        (k + 1) * block_bits::<B, L>() == k * block_bits::<B, L>() + block_bits::<B, L>(),
{
    lemma_block_bits::<B, L>();
    let bw = block_bits::<B, L>();
    crate::layout::lemma_split_any(p, bw);
    assert((k + 1) * bw == k * bw + bw) by (nonlinear_arith);
    if k * bw <= p < k * bw + bw {
        lemma_join(k, p - k * bw, bw);
    }
}

/// A position lies below block `k` exactly when its block index does.
pub proof fn lemma_block_below<B: BitBlock<L>, const L: usize>(p: int, k: int)
    requires
        0 <= p,
    ensures
        p < k * block_bits::<B, L>() <==> p / block_bits::<B, L>() < k,
{
    lemma_block_bits::<B, L>();
    crate::layout::lemma_lex(p, block_bits::<B, L>(), k, 0);
}

/// Where a position falls in storage of `len` blocks.
pub proof fn lemma_storage_index<B: BitBlock<L>, const L: usize>(len: int, p: int)
    requires
        0 <= p < len * block_bits::<B, L>(),
    ensures
        0 <= p / block_bits::<B, L>() < len,
        0 <= p % block_bits::<B, L>() < block_bits::<B, L>(),
        p == (p / block_bits::<B, L>()) * block_bits::<B, L>() + p % block_bits::<B, L>(),
{
    lemma_block_bits::<B, L>();
    lemma_split(p, block_bits::<B, L>(), len);
}

/// What storage of the right length spans.
pub proof fn lemma_storage_span<B: BitBlock<L>, const L: usize>(nbits: int)
    requires
        0 <= nbits,
    ensures
        nbits <= blocks_for(nbits, block_bits::<B, L>()) * block_bits::<B, L>() < nbits
            + block_bits::<B, L>(),
        0 <= blocks_for(nbits, block_bits::<B, L>()) <= nbits,
        nbits == (nbits / block_bits::<B, L>()) * block_bits::<B, L>() + nbits % block_bits::<
            B,
            L,
        >(),
        0 <= nbits % block_bits::<B, L>() < block_bits::<B, L>(),
{
    lemma_block_bits::<B, L>();
    lemma_blocks_for(nbits, block_bits::<B, L>());
}

/// The bits of storage after one more block.
pub proof fn lemma_storage_push<B: BitBlock<L>, const L: usize>(s: Seq<B>, b: B, p: int)
    requires
        0 <= p < (s.len() + 1) * block_bits::<B, L>(),
    ensures
        p < s.len() * block_bits::<B, L>() ==> storage_bit::<B, L>(s.push(b), p) == storage_bit::<
            B,
            L,
        >(s, p),
        p >= s.len() * block_bits::<B, L>() ==> storage_bit::<B, L>(s.push(b), p) == b.bit(
            p - s.len() * block_bits::<B, L>(),
        ) && 0 <= p - s.len() * block_bits::<B, L>() < block_bits::<B, L>(),
{
    lemma_block_of::<B, L>(p, s.len() as int);
    if p < s.len() * block_bits::<B, L>() {
        lemma_storage_index::<B, L>(s.len() as int, p);
    }
}

/// The bits of storage after one block was replaced.
pub proof fn lemma_storage_update<B: BitBlock<L>, const L: usize>(s: Seq<B>, k: int, b: B, p: int)
    requires
        0 <= k < s.len(),
        0 <= p < s.len() * block_bits::<B, L>(),
    ensures
        p / block_bits::<B, L>() == k ==> storage_bit::<B, L>(s.update(k, b), p) == b.bit(
            p % block_bits::<B, L>(),
        ),
        p / block_bits::<B, L>() != k ==> storage_bit::<B, L>(s.update(k, b), p) == storage_bit::<
            B,
            L,
        >(s, p),
{
    lemma_storage_index::<B, L>(s.len() as int, p);
}

/// Appends copies of `block` to `storage` until it holds `len` blocks.
pub(crate) fn extend_with<B: BitBlock<L>, const L: usize>(
    storage: &mut Vec<B>,
    len: usize,
    block: B,
)
    ensures
        len <= old(storage).len() ==> final(storage)@ == old(storage)@,
        len > old(storage).len() ==> final(storage)@ == old(storage)@ + Seq::new(
            (len - old(storage).len()) as nat,
            |k: int| block,
        ),
{
    let ghost start = storage@;
    while storage.len() < len
        invariant
            start.len() <= len ==> start.len() <= storage.len() <= len,
            start.len() > len ==> storage@ == start,
            start.len() <= len ==> storage@ =~= start + Seq::new(
                (storage.len() - start.len()) as nat,
                |k: int| block,
            ),
        decreases len - storage.len(),
    {
        storage.push(block);
    }
    proof {
        if start.len() >= len {
            assert(storage@ =~= start);
        }
    }
}

impl<B: BitBlock<L>, const L: usize> View for BitVecSimd<B, L> {
    type V = Seq<bool>;

    open(crate) spec fn view(&self) -> Seq<bool> {
        storage_view::<B, L>(self.storage@, self.nbits as int)
    }
}

impl<B: BitBlock<L>, const L: usize> BitVecSimd<B, L> {
    /// The invariant of the container: the storage holds the bits of the
    /// vector and nothing else.
    #[verifier::type_invariant]
    pub(crate) open spec fn wf(self) -> bool {
        storage_wf::<B, L>(self.storage@, self.nbits as int)
    }

    /// Moves storage and length out, leaving the empty vector behind.
    pub(crate) fn take_parts(&mut self) -> (r: (Vec<B>, usize))
        ensures
            r.0@ == old(self).storage@,
            r.1 == old(self).nbits,
            storage_wf::<B, L>(r.0@, r.1 as int),
            storage_view::<B, L>(r.0@, r.1 as int) == old(self)@,
    {
        proof {
            use_type_invariant(&*self);
            lemma_storage_span::<B, L>(0);
        }
        let mut this = BitVecSimd { storage: Vec::new(), nbits: 0 };
        core::mem::swap(self, &mut this);
        let BitVecSimd { storage, nbits } = this;
        (storage, nbits)
    }

    /// The vector of `nbits` clear bits.
    pub fn zeros(nbits: usize) -> (r: Self)
        ensures
            r@ == filled(nbits as nat, false),
    {
        let (i, bytes, bits) = bit_to_len::<B, L>(nbits);
        proof {
            lemma_storage_span::<B, L>(nbits as int);
        }
        let len = if bytes > 0 || bits > 0 {
            i + 1
        } else {
            i
        };
        let mut storage: Vec<B> = Vec::new();
        let zero = B::zero();
        extend_with(&mut storage, len, zero);
        proof {
            assert forall|p: int| 0 <= p < len * block_bits::<B, L>() implies !#[trigger] storage_bit::<
                B,
                L,
            >(storage@, p) by {
                lemma_storage_index::<B, L>(len as int, p);
            }
            assert(storage_view::<B, L>(storage@, nbits as int) =~= filled(nbits as nat, false));
        }
        BitVecSimd { storage, nbits }
    }

    /// The vector of `nbits` set bits.
    pub fn ones(nbits: usize) -> (r: Self)
        ensures
            r@ == filled(nbits as nat, true),
    {
        let (len, bytes, bits) = bit_to_len::<B, L>(nbits);
        proof {
            lemma_storage_span::<B, L>(nbits as int);
        }
        let mut storage: Vec<B> = Vec::new();
        let max = B::max();
        extend_with(&mut storage, len, max);
        if bytes > 0 || bits > 0 {
            storage.push(clear_high_bits(max, bytes, bits));
        }
        proof {
            let bw = block_bits::<B, L>();
            assert forall|p: int| 0 <= p < storage.len() * bw implies #[trigger] storage_bit::<B, L>(
                storage@,
                p,
            ) == (p < nbits) by {
                lemma_storage_index::<B, L>(storage.len() as int, p);
                lemma_block_of::<B, L>(p, len as int);
            }
            assert(storage_view::<B, L>(storage@, nbits as int) =~= filled(nbits as nat, true));
        }
        BitVecSimd { storage, nbits }
    }

    /// Number of bits.
    pub fn len(&self) -> (r: usize)
        ensures
            r == self@.len(),
    {
        self.nbits
    }

    /// Number of blocks of the storage.
    pub fn storage_len(&self) -> (r: usize)
        ensures
            r == blocks_for(self@.len() as int, block_bits::<B, L>()),
    {
        proof {
            use_type_invariant(self);
        }
        self.storage.len()
    }

    /// The bit at `index`, or `None` when `index` is not below the length.
    pub fn get(&self, index: usize) -> (r: Option<bool>)
        ensures
            r == read(self@, index as int),
    {
        if self.nbits <= index {
            None
        } else {
            Some(self.get_unchecked(index))
        }
    }

    /// The bit at `index`, which lies below the length.
    pub fn get_unchecked(&self, index: usize) -> (r: bool)
        requires
            index < self@.len(),
        ensures
            r == self@[index as int],
    {
        proof {
            use_type_invariant(self);
            lemma_block_bits::<B, L>();
            lemma_storage_span::<B, L>(self.nbits as int);
            lemma_storage_index::<B, L>(self.storage@.len() as int, index as int);
        }
        let (i, bytes, bits) = bit_to_len::<B, L>(index);
        proof {
            vstd::arithmetic::div_mod::lemma_small_mod(bits as nat, lane_bits::<B, L>() as nat);
        }
        let arr = self.storage[i].to_array();
        test_bit(arr[bytes], bits as u32)
    }

    /// Sets the bit at `index` to `flag`, growing the vector with clear bits
    /// first when `index` is not below the length.
    pub fn set(&mut self, index: usize, flag: bool)
        requires
            index < usize::MAX,
        ensures
            final(self)@ == with_bit(old(self)@, index as nat, flag),
    {
        let (mut storage, mut nbits) = self.take_parts();
        let ghost before = storage@;
        let ghost old_nbits = nbits as int;
        proof {
            lemma_storage_span::<B, L>(nbits as int);
            lemma_storage_span::<B, L>(index + 1);
        }
        if nbits <= index {
            let (i, bytes, bits) = bit_to_len::<B, L>(index + 1);
            let new_len = if bytes > 0 || bits > 0 {
                i + 1
            } else {
                i
            };
            proof {
                crate::layout::lemma_blocks_for_monotonic(
                    nbits as int,
                    index + 1,
                    block_bits::<B, L>(),
                );
            }
            extend_with(&mut storage, new_len, B::zero());
            nbits = index + 1;
        }
        let ghost grown = storage@;
        proof {
            assert forall|p: int| old_nbits <= p < grown.len() * block_bits::<B, L>() implies !#[trigger] storage_bit::<
                B,
                L,
            >(grown, p) by {
                lemma_storage_index::<B, L>(grown.len() as int, p);
                lemma_block_below::<B, L>(p, before.len() as int);
                if p < before.len() * block_bits::<B, L>() {
                    assert(!storage_bit::<B, L>(before, p));
                }
            }
            assert forall|p: int| 0 <= p < old_nbits implies #[trigger] storage_bit::<B, L>(grown, p)
                == storage_bit::<B, L>(before, p) by {
                lemma_storage_index::<B, L>(before.len() as int, p);
            }
            lemma_storage_index::<B, L>(grown.len() as int, index as int);
        }
        let (i, bytes, bits) = bit_to_len::<B, L>(index);
        proof {
            lemma_block_bits::<B, L>();
            vstd::arithmetic::div_mod::lemma_small_mod(bits as nat, lane_bits::<B, L>() as nat);
        }
        let mut arr = storage[i].to_array();
        let ghost lanes = arr;
        arr[bytes] = set_bit(flag, arr[bytes], bits as u32);
        let block = B::from_array(arr);
        storage.set(i, block);
        proof {
            let bw = block_bits::<B, L>();
            let w = lane_bits::<B, L>();
            assert forall|q: int| 0 <= q < bw implies #[trigger] block.bit(q) == if q == index as int
                % bw {
                flag
            } else {
                grown[i as int].bit(q)
            } by {
                lemma_block_bits::<B, L>();
                lemma_split(q, w, L as int);
                assert(lanes[q / w].bit(q % w) == grown[i as int].bit((q / w) * w + q % w));
                if q / w == bytes && q % w == bits {
                    assert(q == index as int % bw);
                }
                if q == index as int % bw {
                    lemma_join(bytes as int, bits as int, w);
                }
            }
            assert forall|p: int| 0 <= p < storage.len() * bw implies #[trigger] storage_bit::<B, L>(
                storage@,
                p,
            ) == if p == index {
                flag
            } else {
                storage_bit::<B, L>(grown, p)
            } by {
                lemma_storage_update::<B, L>(grown, i as int, block, p);
                lemma_storage_index::<B, L>(grown.len() as int, p);
            }
            assert(storage_view::<B, L>(storage@, nbits as int) =~= with_bit(
                storage_view::<B, L>(before, old_nbits),
                index as nat,
                flag,
            ));
        }
        *self = BitVecSimd { storage, nbits };
    }
}

} // verus!
