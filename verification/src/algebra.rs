//! Set algebra on bit vectors: intersection, union, symmetric difference,
//! complement and difference, block by block.
use vstd::prelude::*;
use crate::bits::{bits_and, bits_difference, bits_not, bits_or, bits_or_within, bits_xor};
use crate::bitvec::{
    lemma_block_of, lemma_storage_index, lemma_storage_span, storage_bit, storage_view, BitVecSimd,
};
use crate::block::BitBlock;
use crate::layout::{bit_to_len, block_bits};
use crate::mask::clear_high_bits;

verus! {

/// A binary operation on bits.
#[derive(Clone, Copy)]
enum Operation {
    And,
    Or,
    Xor,
}

impl Operation {
    /// The operation on two bits.
    spec fn apply(self, x: bool, y: bool) -> bool {
        match self {
            Operation::And => x && y,
            Operation::Or => x || y,
            Operation::Xor => x != y,
        }
    }

    /// The operation on two sequences, position by position, over the length
    /// of the first.
    spec fn apply_seq(self, a: Seq<bool>, b: Seq<bool>) -> Seq<bool> {
        match self {
            Operation::And => bits_and(a, b),
            Operation::Or => bits_or(a, b),
            Operation::Xor => bits_xor(a, b),
        }
    }
}

/// Combines the first `count` blocks of `storage` with those of `other`, in
/// place.
fn combine_blocks<B: BitBlock<L>, const L: usize>(
    op: Operation,
    storage: &mut Vec<B>,
    other: &Vec<B>,
    count: usize,
)
    requires
        count <= old(storage).len(),
        count <= other.len(),
    ensures
        final(storage).len() == old(storage).len(),
        forall|k: int, q: int|
            0 <= k < old(storage).len() && 0 <= q < block_bits::<B, L>() ==> #[trigger] final(storage)[k].bit(q) == if k < count {
                op.apply(old(storage)[k].bit(q), other[k].bit(q))
            } else {
                old(storage)[k].bit(q)
            },
{
    let mut k: usize = 0;
    while k < count
        invariant
            k <= count <= storage.len(),
            count <= other.len(),
            storage.len() == old(storage).len(),
            forall|j: int, q: int|
                0 <= j < storage.len() && 0 <= q < block_bits::<B, L>() ==> #[trigger] storage[j].bit(
                    q,
                ) == if j < k {
                    op.apply(old(storage)[j].bit(q), other[j].bit(q))
                } else {
                    old(storage)[j].bit(q)
                },
        decreases count - k,
    {
        let mut block = storage[k];
        match op {
            Operation::And => block.and_inplace(&other[k]),
            Operation::Or => block.or_inplace(&other[k]),
            Operation::Xor => block.xor_inplace(&other[k]),
        }
        storage.set(k, block);
        k += 1;
    }
}

impl<B: BitBlock<L>, const L: usize> Clone for BitVecSimd<B, L> {
    fn clone(&self) -> (r: Self)
        ensures
            r@ == self@,
    {
        proof {
            use_type_invariant(self);
        }
        let mut storage: Vec<B> = Vec::new();
        let mut k: usize = 0;
        while k < self.storage.len()
            invariant
                k <= self.storage.len(),
                storage@ == self.storage@.take(k as int),
            decreases self.storage.len() - k,
        {
            storage.push(self.storage[k]);
            proof {
                assert(storage@ =~= self.storage@.take(k + 1));
            }
            k += 1;
        }
        proof {
            assert(storage@ =~= self.storage@);
        }
        BitVecSimd { storage, nbits: self.nbits }
    }
}

impl<B: BitBlock<L>, const L: usize> BitVecSimd<B, L> {
    /// Combines `self` with `other`, of the same length, in place.
    fn combine_inplace(&mut self, op: Operation, other: &Self)
        requires
            old(self)@.len() == other@.len(),
        ensures
            final(self)@ == op.apply_seq(old(self)@, other@),
    {
        proof {
            use_type_invariant(other);
        }
        let (mut storage, nbits) = self.take_parts();
        let ghost before = storage@;
        let count = storage.len();
        combine_blocks(op, &mut storage, &other.storage, count);
        proof {
            let bw = block_bits::<B, L>();
            lemma_storage_span::<B, L>(nbits as int);
            assert forall|p: int| 0 <= p < storage.len() * bw implies #[trigger] storage_bit::<B, L>(
                storage@,
                p,
            ) == op.apply(storage_bit::<B, L>(before, p), storage_bit::<B, L>(other.storage@, p)) by {
                lemma_storage_index::<B, L>(storage.len() as int, p);
            }
            assert(storage_view::<B, L>(storage@, nbits as int) =~= op.apply_seq(
                storage_view::<B, L>(before, nbits as int),
                other@,
            ));
        }
        *self = BitVecSimd { storage, nbits };
    }

    /// Intersection of two vectors of one length.
    pub fn and(self, other: Self) -> (r: Self)
        requires
            self@.len() == other@.len(),
        ensures
            r@ == bits_and(self@, other@),
    {
        let mut this = self;
        this.combine_inplace(Operation::And, &other);
        this
    }

    /// Intersection of two vectors of one length; the operands are kept.
    pub fn and_cloned(&self, other: &Self) -> (r: Self)
        requires
            self@.len() == other@.len(),
        ensures
            r@ == bits_and(self@, other@),
    {
        let mut this = self.clone();
        this.combine_inplace(Operation::And, other);
        this
    }

    /// Intersects `self` with `other`, of the same length.
    pub fn and_inplace(&mut self, other: &Self)
        requires
            old(self)@.len() == other@.len(),
        ensures
            final(self)@ == bits_and(old(self)@, other@),
    {
        self.combine_inplace(Operation::And, other);
    }

    /// Union of two vectors of one length.
    pub fn or(self, other: Self) -> (r: Self)
        requires
            self@.len() == other@.len(),
        ensures
            r@ == bits_or(self@, other@),
    {
        let mut this = self;
        this.combine_inplace(Operation::Or, &other);
        this
    }

    /// Union of two vectors of one length; the operands are kept.
    pub fn or_cloned(&self, other: &Self) -> (r: Self)
        requires
            self@.len() == other@.len(),
        ensures
            r@ == bits_or(self@, other@),
    {
        let mut this = self.clone();
        this.combine_inplace(Operation::Or, other);
        this
    }

    /// Joins `other`, of the same length, into `self`.
    pub fn or_inplace(&mut self, other: &Self)
        requires
            old(self)@.len() == other@.len(),
        ensures
            final(self)@ == bits_or(old(self)@, other@),
    {
        self.combine_inplace(Operation::Or, other);
    }

    /// Symmetric difference of two vectors of one length.
    pub fn xor(self, other: Self) -> (r: Self)
        requires
            self@.len() == other@.len(),
        ensures
            r@ == bits_xor(self@, other@),
    {
        let mut this = self;
        this.combine_inplace(Operation::Xor, &other);
        this
    }

    /// Symmetric difference of two vectors of one length; the operands are
    /// kept.
    pub fn xor_cloned(&self, other: &Self) -> (r: Self)
        requires
            self@.len() == other@.len(),
        ensures
            r@ == bits_xor(self@, other@),
    {
        let mut this = self.clone();
        this.combine_inplace(Operation::Xor, other);
        this
    }

    /// Replaces `self` by its symmetric difference with `other`, of the same
    /// length.
    pub fn xor_inplace(&mut self, other: &Self)
        requires
            old(self)@.len() == other@.len(),
        ensures
            final(self)@ == bits_xor(old(self)@, other@),
    {
        self.combine_inplace(Operation::Xor, other);
    }

    /// Joins `other` into `self` without changing the length of `self`: the
    /// bits of `other` at or beyond that length are ignored, and where
    /// `other` is shorter the bits of `self` beyond its end are kept.
    pub fn or_inplace_mismatched_len(&mut self, other: &Self)
        ensures
            final(self)@ == bits_or_within(old(self)@, other@),
    {
        proof {
            use_type_invariant(other);
        }
        let (mut storage, nbits) = self.take_parts();
        let ghost before = storage@;
        let count = if storage.len() < other.storage.len() {
            storage.len()
        } else {
            other.storage.len()
        };
        combine_blocks(Operation::Or, &mut storage, &other.storage, count);
        let ghost joined = storage@;
        let (i, bytes, bits) = bit_to_len::<B, L>(nbits);
        proof {
            lemma_storage_span::<B, L>(nbits as int);
            lemma_storage_span::<B, L>(other.nbits as int);
        }
        if bytes > 0 || bits > 0 {
            let last = clear_high_bits(storage[i], bytes, bits);
            storage.set(i, last);
        }
        proof {
            let bw = block_bits::<B, L>();
            assert forall|p: int| 0 <= p < storage.len() * bw implies #[trigger] storage_bit::<B, L>(
                storage@,
                p,
            ) == (p < nbits && (storage_bit::<B, L>(before, p) || (p < other.nbits && storage_bit::<
                B,
                L,
            >(other.storage@, p)))) by {
                lemma_storage_index::<B, L>(storage.len() as int, p);
                lemma_block_of::<B, L>(p, i as int);
                crate::bitvec::lemma_block_below::<B, L>(p, other.storage.len() as int);
                let k = p / bw;
                let q = p % bw;
                assert(joined[k].bit(q) == if k < count {
                    before[k].bit(q) || other.storage[k].bit(q)
                } else {
                    before[k].bit(q)
                });
                if p >= nbits {
                    assert(!storage_bit::<B, L>(before, p));
                }
                if k < count && p >= other.nbits {
                    assert(!storage_bit::<B, L>(other.storage@, p));
                }
            }
            assert(storage_view::<B, L>(storage@, nbits as int) =~= bits_or_within(
                storage_view::<B, L>(before, nbits as int),
                other@,
            ));
        }
        *self = BitVecSimd { storage, nbits };
    }

    /// The complement: every bit below the length flipped.
    pub fn inverse(&self) -> (r: Self)
        ensures
            r@ == bits_not(self@),
    {
        proof {
            use_type_invariant(self);
            lemma_storage_span::<B, L>(self.nbits as int);
        }
        let (i, bytes, bits) = bit_to_len::<B, L>(self.nbits);
        let mut storage: Vec<B> = Vec::new();
        let mut k: usize = 0;
        while k < self.storage.len()
            invariant
                k <= self.storage.len(),
                storage.len() == k,
                forall|j: int, q: int|
                    0 <= j < k && 0 <= q < block_bits::<B, L>() ==> #[trigger] storage[j].bit(q)
                        == !self.storage[j].bit(q),
            decreases self.storage.len() - k,
        {
            storage.push(self.storage[k].not());
            k += 1;
        }
        if bytes > 0 || bits > 0 {
            let last = clear_high_bits(storage[i], bytes, bits);
            storage.set(i, last);
        }
        proof {
            let bw = block_bits::<B, L>();
            assert forall|p: int| 0 <= p < storage.len() * bw implies #[trigger] storage_bit::<B, L>(
                storage@,
                p,
            ) == (p < self.nbits && !storage_bit::<B, L>(self.storage@, p)) by {
                lemma_storage_index::<B, L>(storage.len() as int, p);
                lemma_block_of::<B, L>(p, i as int);
            }
            assert(storage_view::<B, L>(storage@, self.nbits as int) =~= bits_not(self@));
        }
        BitVecSimd { storage, nbits: self.nbits }
    }

    /// What is set in `self` and not in `other`, of the same length.
    pub fn difference(self, other: Self) -> (r: Self)
        requires
            self@.len() == other@.len(),
        ensures
            r@ == bits_difference(self@, other@),
    {
        self.and(other.inverse())
    }

    /// What is set in `self` and not in `other`, of the same length; the
    /// operands are kept.
    pub fn difference_cloned(&self, other: &Self) -> (r: Self)
        requires
            self@.len() == other@.len(),
        ensures
            r@ == bits_difference(self@, other@),
    {
        self.and_cloned(&other.inverse())
    }
}

} // verus!
