//! Mutation of whole bit vectors: resizing, truncation, filling, and
//! replacing the storage.
use vstd::prelude::*;
use crate::bits::{filled, resized};
use crate::bitvec::{
    extend_with, lemma_block_below, lemma_block_bits, lemma_block_of, lemma_storage_index,
    lemma_storage_span, storage_bit, storage_view, BitVecSimd,
};
use crate::block::BitBlock;
use crate::layout::{bit_to_len, block_bits, blocks_for, lane_bits, lemma_blocks_for_monotonic};
use crate::mask::{clear_high_bits, fill_high_bits, fix_high_bits};

verus! {

/// Replaces every block of `storage` by `block`.
fn fill_blocks<B: BitBlock<L>, const L: usize>(storage: &mut Vec<B>, block: B)
    ensures
        final(storage)@ == Seq::new(old(storage).len() as nat, |k: int| block),
{
    let mut k: usize = 0;
    while k < storage.len()
        invariant
            k <= storage.len() == old(storage).len(),
            forall|j: int| 0 <= j < k ==> storage[j] == block,
        decreases storage.len() - k,
    {
        storage.set(k, block);
        k += 1;
    }
    proof {
        assert(storage@ =~= Seq::new(old(storage).len() as nat, |k: int| block));
    }
}

impl<B: BitBlock<L>, const L: usize> BitVecSimd<B, L> {
    /// Cuts or extends the vector to `nbits` bits; new bits hold `value`.
    pub fn resize(&mut self, nbits: usize, value: bool)
        ensures
            final(self)@ == resized(old(self)@, nbits as nat, value),
    {
        let (mut storage, old_nbits) = self.take_parts();
        let ghost before = storage@;
        let ghost bw = block_bits::<B, L>();
        let ghost w = lane_bits::<B, L>();
        let (i, bytes, bits) = bit_to_len::<B, L>(nbits);
        let (old_i, old_bytes, old_bits) = bit_to_len::<B, L>(old_nbits);
        proof {
            lemma_block_bits::<B, L>();
            lemma_storage_span::<B, L>(nbits as int);
            lemma_storage_span::<B, L>(old_nbits as int);
            if nbits <= old_nbits {
                lemma_blocks_for_monotonic(nbits as int, old_nbits as int, bw);
            } else {
                lemma_blocks_for_monotonic(old_nbits as int, nbits as int, bw);
            }
            lemma_block_below::<B, L>(nbits as int, old_i as int);
            lemma_block_below::<B, L>(old_nbits as int, i as int);
            lemma_block_of::<B, L>(nbits as int, i as int);
            lemma_block_of::<B, L>(old_nbits as int, old_i as int);
        }
        let new_len = if bytes > 0 || bits > 0 {
            i + 1
        } else {
            i
        };
        let fill = if value {
            B::max()
        } else {
            B::zero()
        };
        storage.truncate(new_len);
        extend_with(&mut storage, new_len, fill);
        let ghost sized = storage@;
        proof {
            assert forall|p: int| 0 <= p < new_len * bw implies #[trigger] storage_bit::<B, L>(
                sized,
                p,
            ) == if p < before.len() * bw {
                storage_bit::<B, L>(before, p)
            } else {
                value
            } by {
                lemma_storage_index::<B, L>(new_len as int, p);
                lemma_block_below::<B, L>(p, before.len() as int);
            }
        }
        if nbits < old_nbits {
            if bytes > 0 || bits > 0 {
                let last = clear_high_bits(storage[i], bytes, bits);
                storage.set(i, last);
            }
        } else if value {
            if old_i < i {
                if old_bytes > 0 || old_bits > 0 {
                    let edge = fill_high_bits(storage[old_i], old_bytes, old_bits, L);
                    storage.set(old_i, edge);
                }
                if bytes > 0 || bits > 0 {
                    let last = clear_high_bits(storage[i], bytes, bits);
                    storage.set(i, last);
                }
            } else if bytes > 0 || bits > 0 {
                proof {
                    let x = old_bytes * w + old_bits;
                    crate::layout::lemma_join(old_bytes as int, old_bits as int, w);
                    crate::layout::lemma_join(bytes as int, bits as int, w);
                    crate::layout::lemma_lex(x, w, bytes as int, bits as int);
                }
                let last = fix_high_bits(storage[i], old_bytes, old_bits, bytes, bits);
                storage.set(i, last);
            }
        }
        proof {
            let low = if nbits < old_nbits {
                nbits as int
            } else {
                old_nbits as int
            };
            assert forall|p: int| 0 <= p < new_len * bw implies #[trigger] storage_bit::<B, L>(
                storage@,
                p,
            ) == if p < low {
                storage_bit::<B, L>(before, p)
            } else {
                p < nbits && value
            } by {
                lemma_storage_index::<B, L>(new_len as int, p);
                lemma_block_below::<B, L>(p, before.len() as int);
                lemma_block_of::<B, L>(p, i as int);
                lemma_block_of::<B, L>(p, old_i as int);
                assert(storage_bit::<B, L>(sized, p) == if p < before.len() * bw {
                    storage_bit::<B, L>(before, p)
                } else {
                    value
                });
                if old_nbits <= p < before.len() * bw {
                    assert(!storage_bit::<B, L>(before, p));
                }
                assert(L * w == bw);
            }
            assert(storage_view::<B, L>(storage@, nbits as int) =~= resized(
                storage_view::<B, L>(before, old_nbits as int),
                nbits as nat,
                value,
            ));
        }
        *self = BitVecSimd { storage, nbits };
    }

    /// Cuts the vector down to `nbits` bits, fewer than it has.
    pub fn shrink_to(&mut self, nbits: usize)
        requires
            nbits < old(self)@.len(),
        ensures
            final(self)@ == old(self)@.take(nbits as int),
    {
        self.resize(nbits, false);
    }

    /// Clears every bit.
    pub fn set_all_false(&mut self)
        ensures
            final(self)@ == filled(old(self)@.len(), false),
    {
        let (mut storage, nbits) = self.take_parts();
        let zero = B::zero();
        fill_blocks(&mut storage, zero);
        proof {
            let bw = block_bits::<B, L>();
            lemma_storage_span::<B, L>(nbits as int);
            assert forall|p: int| 0 <= p < storage.len() * bw implies !#[trigger] storage_bit::<B, L>(
                storage@,
                p,
            ) by {
                lemma_storage_index::<B, L>(storage.len() as int, p);
            }
            assert(storage_view::<B, L>(storage@, nbits as int) =~= filled(nbits as nat, false));
        }
        *self = BitVecSimd { storage, nbits };
    }

    /// Sets every bit.
    pub fn set_all_true(&mut self)
        ensures
            final(self)@ == filled(old(self)@.len(), true),
    {
        let (mut storage, nbits) = self.take_parts();
        let (i, bytes, bits) = bit_to_len::<B, L>(nbits);
        let max = B::max();
        fill_blocks(&mut storage, max);
        proof {
            lemma_storage_span::<B, L>(nbits as int);
        }
        if bytes > 0 || bits > 0 {
            let last = clear_high_bits(max, bytes, bits);
            storage.set(i, last);
        }
        proof {
            let bw = block_bits::<B, L>();
            assert forall|p: int| 0 <= p < storage.len() * bw implies #[trigger] storage_bit::<B, L>(
                storage@,
                p,
            ) == (p < nbits) by {
                lemma_storage_index::<B, L>(storage.len() as int, p);
                lemma_block_of::<B, L>(p, i as int);
            }
            assert(storage_view::<B, L>(storage@, nbits as int) =~= filled(nbits as nat, true));
        }
        *self = BitVecSimd { storage, nbits };
    }

    /// Sets every bit to `flag`.
    pub fn set_all(&mut self, flag: bool)
        ensures
            final(self)@ == filled(old(self)@.len(), flag),
    {
        if flag {
            self.set_all_true()
        } else {
            self.set_all_false()
        }
    }

    /// Replaces the vector by the first `nbits` bits of the blocks in
    /// `storage`, which it takes over. There must be enough blocks for
    /// `nbits` bits; blocks and bits beyond them are dropped.
    pub fn set_raw(&mut self, storage: Vec<B>, nbits: usize)
        requires
            blocks_for(nbits as int, block_bits::<B, L>()) <= storage.len(),
        ensures
            final(self)@ == storage_view::<B, L>(storage@, nbits as int),
    {
        let ghost given = storage@;
        let mut storage = storage;
        let (i, bytes, bits) = bit_to_len::<B, L>(nbits);
        let new_len = if bytes > 0 || bits > 0 {
            i + 1
        } else {
            i
        };
        storage.truncate(new_len);
        proof {
            lemma_storage_span::<B, L>(nbits as int);
        }
        if bytes > 0 || bits > 0 {
            let last = clear_high_bits(storage[i], bytes, bits);
            storage.set(i, last);
        }
        proof {
            let bw = block_bits::<B, L>();
            assert forall|p: int| 0 <= p < storage.len() * bw implies #[trigger] storage_bit::<B, L>(
                storage@,
                p,
            ) == (p < nbits && storage_bit::<B, L>(given, p)) by {
                lemma_storage_index::<B, L>(storage.len() as int, p);
                lemma_block_of::<B, L>(p, i as int);
            }
            assert(storage_view::<B, L>(storage@, nbits as int) =~= storage_view::<B, L>(
                given,
                nbits as int,
            ));
        }
        *self = BitVecSimd { storage, nbits };
    }

    /// Replaces the vector by a copy of the first `nbits` bits of the first
    /// `buffer_len` blocks of `buffer`. Those blocks are at least the blocks
    /// that `nbits` bits take; nothing beyond them is read.
    pub fn set_raw_copy(&mut self, buffer: &[B], buffer_len: usize, nbits: usize)
        requires
            buffer_len <= buffer.len(),
            blocks_for(nbits as int, block_bits::<B, L>()) <= buffer_len,
        ensures
            final(self)@ == storage_view::<B, L>(buffer@, nbits as int),
    {
        let (i, bytes, bits) = bit_to_len::<B, L>(nbits);
        let new_len = if bytes > 0 || bits > 0 {
            i + 1
        } else {
            i
        };
        let mut storage: Vec<B> = Vec::new();
        let mut k: usize = 0;
        while k < new_len
            invariant
                k <= new_len <= buffer.len(),
                storage@ == buffer@.take(k as int),
            decreases new_len - k,
        {
            storage.push(buffer[k]);
            proof {
                assert(storage@ =~= buffer@.take(k + 1));
            }
            k += 1;
        }
        self.set_raw(storage, nbits);
        proof {
            let bw = block_bits::<B, L>();
            lemma_storage_span::<B, L>(nbits as int);
            assert forall|p: int| 0 <= p < nbits implies storage_bit::<B, L>(
                buffer@.take(new_len as int),
                p,
            ) == storage_bit::<B, L>(buffer@, p) by {
                lemma_storage_index::<B, L>(new_len as int, p);
            }
            assert(storage_view::<B, L>(buffer@.take(new_len as int), nbits as int)
                =~= storage_view::<B, L>(buffer@, nbits as int));
        }
    }
}

} // verus!
