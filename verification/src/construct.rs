//! Construction of bit vectors from booleans, from indices and from lanes.
use vstd::prelude::*;
use vstd::std_specs::iter::IteratorSpec;
use crate::bits::{from_indices, index_bound};
use crate::bitvec::{
    lemma_block_below, lemma_block_bits, lemma_block_of, lemma_storage_push, lemma_storage_span,
    storage_bit, storage_view, storage_wf, BitVecSimd,
};
use crate::block::BitBlock;
use crate::lane::BitBlockElement;
use crate::layout::{
    bit_to_len, block_bit_width, block_bits, blocks_for, lane_bits, lemma_join, lemma_split,
};
use crate::mask::{array_bit, clear_arr_high_bits, set_bit};

verus! {

/// The bit at position `p` of a flat sequence of lanes; clear beyond its end.
pub open spec fn lanes_bit<E: BitBlockElement>(lanes: Seq<E>, p: int) -> bool {
    p / (E::spec_bit_width() as int) < lanes.len() && lanes[p / (E::spec_bit_width() as int)].bit(
        p % (E::spec_bit_width() as int),
    )
}

/// The first `nbits` bits of a flat sequence of lanes, clear bits standing
/// in for missing lanes.
pub open spec fn lanes_view<E: BitBlockElement>(lanes: Seq<E>, nbits: int) -> Seq<bool> {
    Seq::new(nbits as nat, |p: int| lanes_bit(lanes, p))
}

/// Lane and offset of a position, counted over the whole storage.
pub proof fn lemma_flat_lane<B: BitBlock<L>, const L: usize>(k: int, q: int)
    requires
        0 <= k,
        0 <= q < block_bits::<B, L>(),
    ensures
        (k * block_bits::<B, L>() + q) / lane_bits::<B, L>() == k * L + q / lane_bits::<B, L>(),
        (k * block_bits::<B, L>() + q) % lane_bits::<B, L>() == q % lane_bits::<B, L>(),
        0 <= q / lane_bits::<B, L>() < L,
        0 <= q % lane_bits::<B, L>() < lane_bits::<B, L>(),
        q == (q / lane_bits::<B, L>()) * lane_bits::<B, L>() + q % lane_bits::<B, L>(),
        0 <= k * L,
        (k + 1) * L == k * L + L,
{
    lemma_block_bits::<B, L>();
    let w = lane_bits::<B, L>();
    let bw = block_bits::<B, L>();
    lemma_split(q, w, L as int);
    let j = q / w;
    let o = q % w;
    assert(k * bw + q == (k * L + j) * w + o) by (nonlinear_arith)
        requires
            bw == L * w,
            q == j * w + o,
    ;
    lemma_join(k * L + j, o, w);
    assert(0 <= k * L) by (nonlinear_arith)
        requires
            0 <= k,
            0 < L,
    ;
    assert((k + 1) * L == k * L + L) by (nonlinear_arith);
}

/// Groups a flat sequence of lanes into blocks that hold `nbits` bits,
/// clear lanes standing in for missing ones.
fn pack_lanes<B: BitBlock<L>, const L: usize>(slice: &[B::Element], nbits: usize) -> (storage: Vec<
    B,
>)
    ensures
        storage_wf::<B, L>(storage@, nbits as int),
        storage_view::<B, L>(storage@, nbits as int) == lanes_view::<B::Element>(
            slice@,
            nbits as int,
        ),
{
    let ghost bw = block_bits::<B, L>();
    let ghost w = lane_bits::<B, L>();
    let (i, bytes, bits) = bit_to_len::<B, L>(nbits);
    proof {
        lemma_storage_span::<B, L>(nbits as int);
    }
    let new_len = if bytes > 0 || bits > 0 {
        i + 1
    } else {
        i
    };
    let zero = B::Element::zero();
    let zeros = B::zero().to_array();
    let mut storage: Vec<B> = Vec::new();
    let mut next: usize = 0;
    let mut k: usize = 0;
    proof {
        lemma_block_bits::<B, L>();
        lemma_storage_span::<B, L>(nbits as int);
        lemma_flat_lane::<B, L>(0, 0);
        lemma_block_of::<B, L>(0, 0);
    }
    while k < new_len
        invariant
            k <= new_len,
            new_len == blocks_for(nbits as int, bw),
            new_len == if bytes > 0 || bits > 0 {
                i + 1
            } else {
                i as int
            },
            bw == block_bits::<B, L>(),
            w == lane_bits::<B, L>(),
            0 < w <= bw <= u16::MAX,
            bits < w,
            bytes < L,
            nbits == i * bw + bytes * w + bits,
            storage.len() == k,
            next == if k * L <= slice.len() {
                k * L
            } else {
                slice.len() as int
            },
            0 <= k * L,
            forall|p: int|
                0 <= p < k * bw ==> #[trigger] storage_bit::<B, L>(storage@, p) == (p < nbits
                    && lanes_bit::<B::Element>(slice@, p)),
            forall|j: int| 0 <= j < w ==> !#[trigger] zero.bit(j),
        decreases new_len - k,
    {
        let mut arr = zeros;
        let mut j: usize = 0;
        while j < L
            invariant
                j <= L,
                0 <= k * L,
                next == if k * L + j <= slice.len() {
                    k * L + j
                } else {
                    slice.len() as int
                },
                forall|t: int|
                    0 <= t < j ==> #[trigger] arr[t] == if k * L + t < slice.len() {
                        slice[k * L + t]
                    } else {
                        zero
                    },
            decreases L - j,
        {
            if next < slice.len() {
                arr[j] = slice[next];
                next += 1;
            } else {
                arr[j] = zero;
            }
            j += 1;
        }
        let ghost lanes = arr;
        if k == i && (bytes > 0 || bits > 0) {
            clear_arr_high_bits(&mut arr, bytes, bits);
        }
        let block = B::from_array(arr);
        proof {
            lemma_flat_lane::<B, L>(k as int, 0);
            assert forall|p: int| 0 <= p < (k + 1) * bw implies #[trigger] storage_bit::<B, L>(
                storage@.push(block),
                p,
            ) == (p < nbits && lanes_bit::<B::Element>(slice@, p)) by {
                lemma_storage_push::<B, L>(storage@, block, p);
                lemma_block_of::<B, L>(p, k as int);
                lemma_block_below::<B, L>(p, i as int);
                lemma_block_of::<B, L>(p, i as int);
                if p >= k * bw {
                    let q = p - k * bw;
                    lemma_flat_lane::<B, L>(k as int, q);
                    crate::layout::lemma_lex(q, w, bytes as int, bits as int);
                    assert(block.bit(q) == array_bit(arr, q));
                    assert(lanes[q / w].bit(q % w) == lanes_bit::<B::Element>(slice@, p));
                }
            }
        }
        storage.push(block);
        k += 1;
    }
    proof {
        assert(storage_view::<B, L>(storage@, nbits as int) =~= lanes_view::<B::Element>(
            slice@,
            nbits as int,
        ));
    }
    storage
}

impl<B: BitBlock<L>, const L: usize> BitVecSimd<B, L> {
    /// The vector that holds exactly the positions listed in `slice`. It is
    /// as long as the list, or reaches just past the largest index listed,
    /// whichever is more.
    pub fn from_slice(slice: &[usize]) -> (r: Self)
        requires
            forall|k: int| 0 <= k < slice.len() ==> slice[k] < usize::MAX,
        ensures
            r@ == from_indices(slice@),
    {
        let mut bv = Self::zeros(slice.len());
        let mut k: usize = 0;
        proof {
            assert(slice@.take(0) =~= Seq::<usize>::empty());
        }
        while k < slice.len()
            invariant
                k <= slice.len(),
                forall|j: int| 0 <= j < slice.len() ==> slice[j] < usize::MAX,
                bv@.len() == if slice.len() > index_bound(slice@.take(k as int)) {
                    slice.len() as nat
                } else {
                    index_bound(slice@.take(k as int))
                },
                forall|i: int|
                    0 <= i < bv@.len() ==> bv@[i] == (exists|j: int|
                        0 <= j < k && #[trigger] slice@[j] == i),
            decreases slice.len() - k,
        {
            let ghost before = bv@;
            let index = slice[k];
            bv.set(index, true);
            proof {
                assert(slice@.take(k + 1).drop_last() =~= slice@.take(k as int));
                assert forall|i: int| 0 <= i < bv@.len() implies bv@[i] == (exists|j: int|
                    0 <= j < k + 1 && #[trigger] slice@[j] == i) by {
                    let listed = exists|j: int| 0 <= j < k + 1 && #[trigger] slice@[j] == i;
                    if i == index {
                        assert(slice@[k as int] == i);
                    } else {
                        if i < before.len() && before[i] {
                            let j = choose|j: int| 0 <= j < k && #[trigger] slice@[j] == i;
                            assert(0 <= j < k + 1 && slice@[j] == i);
                        }
                        if listed {
                            let j = choose|j: int| 0 <= j < k + 1 && #[trigger] slice@[j] == i;
                            crate::bits::lemma_index_bound(slice@.take(k as int));
                            assert(slice@.take(k as int)[j] == slice@[j]);
                            assert(i < before.len());
                            assert(before[i]);
                        }
                    }
                }
            }
            k += 1;
        }
        proof {
            assert(slice@.take(slice.len() as int) =~= slice@);
            assert(bv@ =~= from_indices(slice@));
        }
        bv
    }

    /// The vector of the first `nbits` bits of the lanes in `slice`, lowest
    /// lane and lowest bit first. The slice holds at least the lanes that
    /// `nbits` bits take; lanes and bits beyond them are ignored.
    pub fn from_slice_copy(slice: &[B::Element], nbits: usize) -> (r: Self)
        requires
            blocks_for(nbits as int, lane_bits::<B, L>()) <= slice.len(),
        ensures
            r@ == lanes_view::<B::Element>(slice@, nbits as int),
    {
        let storage = pack_lanes::<B, L>(slice, nbits);
        BitVecSimd { storage, nbits }
    }

    /// The vector of the first `nbits` bits of the first `buffer_len` lanes
    /// of `buffer`, which are copied. Those lanes are at least the lanes that
    /// `nbits` bits take; nothing beyond them is read.
    pub fn from_raw_copy(buffer: &[B::Element], buffer_len: usize, nbits: usize) -> (r: Self)
        requires
            buffer_len <= buffer.len(),
            blocks_for(nbits as int, lane_bits::<B, L>()) <= buffer_len,
        ensures
            r@ == lanes_view::<B::Element>(buffer@.take(buffer_len as int), nbits as int),
    {
        Self::from_slice_copy(vstd::slice::slice_subrange(buffer, 0, buffer_len), nbits)
    }

    /// The vector of `nbits` bits that a flat sequence of lanes encodes:
    /// the first `nbits` bits of the lanes, lowest lane and lowest bit
    /// first, with clear bits where the sequence ends early.
    pub fn decode(lanes: &[B::Element], nbits: usize) -> (r: Self)
        ensures
            r@ == lanes_view::<B::Element>(lanes@, nbits as int),
    {
        let storage = pack_lanes::<B, L>(lanes, nbits);
        BitVecSimd { storage, nbits }
    }


    /// The vector that holds the booleans that `i` yields, in order. The
    /// iterator is one that ends, after no more items than a length can
    /// count.
    pub fn from_bool_iterator<I: Iterator<Item = bool>>(i: I) -> (r: Self)
        requires
            i.obeys_prophetic_iter_laws(),
            i.decrease() is Some,
            i.remaining().len() <= usize::MAX,
        ensures
            r@ == i.remaining(),
    {
        let mut iter = i;
        let ghost all = i.remaining();
        let ghost bw = block_bits::<B, L>();
        let ghost w = lane_bits::<B, L>();
        let mut storage: Vec<B> = Vec::new();
        let zero = B::zero();
        let mut current_slice = zero.to_array();
        let mut nbits: usize = 0;
        proof {
            lemma_block_bits::<B, L>();
            lemma_block_of::<B, L>(0, 0);
            assert(all.take(0) =~= Seq::<bool>::empty());
            assert(all =~= all.take(0) + iter.remaining());
            assert forall|q: int| 0 <= q < bw implies !#[trigger] array_bit(current_slice, q) by {
                lemma_split(q, w, L as int);
            }
        }
        loop
            invariant
                iter.obeys_prophetic_iter_laws(),
                iter.decrease() is Some,
                all.len() <= usize::MAX,
                bw == block_bits::<B, L>(),
                w == lane_bits::<B, L>(),
                0 < w <= bw <= u16::MAX,
                nbits <= all.len(),
                all == all.take(nbits as int) + iter.remaining(),
                storage.len() == nbits as int / bw,
                nbits == storage.len() * bw + nbits as int % bw,
                0 <= nbits as int % bw < bw,
                forall|p: int|
                    0 <= p < storage.len() * bw ==> #[trigger] storage_bit::<B, L>(storage@, p)
                        == all[p],
                forall|q: int|
                    0 <= q < bw ==> #[trigger] array_bit(current_slice, q) == (q < nbits as int % bw
                        && all[storage.len() * bw + q]),
                forall|q: int| 0 <= q < bw ==> !#[trigger] zero.bit(q),
            ensures
                nbits == all.len(),
            decreases iter.decrease()->0,
        {
            let ghost rest = iter.remaining();
            let next = iter.next();
            match next {
                None => {
                    proof {
                        assert(rest.len() == 0);
                        assert(all.len() == all.take(nbits as int).len() + rest.len());
                    }
                    break ;
                },
                Some(b) => {
                    proof {
                        assert(rest.len() > 0);
                        assert(all.len() == all.take(nbits as int).len() + rest.len());
                        assert(all[nbits as int] == (all.take(nbits as int) + rest)[nbits as int]);
                        assert(all[nbits as int] == b);
                        assert(all =~= all.take(nbits + 1) + iter.remaining());
                        lemma_storage_span::<B, L>(nbits as int);
                        lemma_block_of::<B, L>(nbits as int, storage.len() as int);
                    }
                    let (_, bytes, bits) = bit_to_len::<B, L>(nbits);
                    let ghost before = current_slice;
                    if b {
                        proof {
                            vstd::arithmetic::div_mod::lemma_small_mod(bits as nat, w as nat);
                        }
                        current_slice[bytes] = set_bit(true, current_slice[bytes], bits as u32);
                    }
                    proof {
                        let fill = nbits as int % bw;
                        lemma_join(bytes as int, bits as int, w);
                        assert forall|q: int| 0 <= q < bw implies #[trigger] array_bit(
                            current_slice,
                            q,
                        ) == (q < fill + 1 && all[storage.len() * bw + q]) by {
                            lemma_split(q, w, L as int);
                            assert(array_bit(before, q) == (q < fill && all[storage.len() * bw
                                + q]));
                        }
                    }
                    nbits += 1;
                    proof {
                        lemma_block_of::<B, L>(nbits as int, storage.len() as int);
                        lemma_block_of::<B, L>(nbits as int, storage.len() + 1);
                        lemma_storage_span::<B, L>(nbits as int);
                    }
                    let bw_exec = block_bit_width::<B, L>();
                    if nbits % bw_exec == 0 {
                        let block = B::from_array(current_slice);
                        proof {
                            assert forall|p: int|
                                0 <= p < (storage.len() + 1) * bw implies #[trigger] storage_bit::<
                                B,
                                L,
                            >(storage@.push(block), p) == all[p] by {
                                lemma_storage_push::<B, L>(storage@, block, p);
                                if p >= storage.len() * bw {
                                    assert(block.bit(p - storage.len() * bw) == array_bit(
                                        current_slice,
                                        p - storage.len() * bw,
                                    ));
                                }
                            }
                        }
                        storage.push(block);
                        current_slice = zero.to_array();
                        proof {
                            assert forall|q: int| 0 <= q < bw implies !#[trigger] array_bit(
                                current_slice,
                                q,
                            ) by {
                                lemma_split(q, w, L as int);
                            }
                        }
                    }
                },
            }
        }
        let bw_exec = block_bit_width::<B, L>();
        proof {
            lemma_storage_span::<B, L>(nbits as int);
        }
        if nbits % bw_exec > 0 {
            let block = B::from_array(current_slice);
            proof {
                assert forall|p: int|
                    0 <= p < (storage.len() + 1) * bw implies #[trigger] storage_bit::<B, L>(
                    storage@.push(block),
                    p,
                ) == (p < nbits && all[p]) by {
                    lemma_storage_push::<B, L>(storage@, block, p);
                    lemma_block_of::<B, L>(nbits as int, storage.len() as int);
                    if p >= storage.len() * bw {
                        assert(block.bit(p - storage.len() * bw) == array_bit(
                            current_slice,
                            p - storage.len() * bw,
                        ));
                    }
                }
            }
            storage.push(block);
        }
        proof {
            assert(storage_view::<B, L>(storage@, nbits as int) =~= all);
        }
        BitVecSimd { storage, nbits }
    }
}

} // verus!
