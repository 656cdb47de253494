//! Masking of lanes, lane arrays and blocks: the routines that keep the bits
//! beyond a logical length clear, or fill them.
use vstd::prelude::*;
use vstd::arithmetic::div_mod::lemma_small_mod;
use crate::block::BitBlock;
use crate::lane::BitBlockElement;
use crate::layout::{block_bits, lane_bits, lemma_lex, lemma_split};

verus! {

/// The bit at position `q` of an array of lanes: bit `q % W` of lane `q / W`,
/// `W` being the width of a lane.
pub open spec fn array_bit<E: BitBlockElement, const L: usize>(arr: [E; L], q: int) -> bool {
    arr[q / E::spec_bit_width() as int].bit(q % E::spec_bit_width() as int)
}

/// `bytes` with the bit at `offset` modulo the width set to `flag`.
pub fn set_bit<E: BitBlockElement>(flag: bool, bytes: E, offset: u32) -> (r: E)
    ensures
        forall|j: int|
            0 <= j < E::spec_bit_width() ==> #[trigger] r.bit(j) == if j == offset as int
                % E::spec_bit_width() as int {
                flag
            } else {
                bytes.bit(j)
            },
{
    proof {
        E::lemma_bit_width();
    }
    let mask = E::one().wrapping_shl(offset);
    if flag {
        bytes.or(mask)
    } else {
        bytes.and(mask.not())
    }
}

/// Whether the bit of `bytes` at `offset` modulo the width is set.
pub fn test_bit<E: BitBlockElement>(bytes: E, offset: u32) -> (r: bool)
    ensures
        r == bytes.bit(offset as int % E::spec_bit_width() as int),
{
    proof {
        E::lemma_bit_width();
    }
    let mask = E::one().wrapping_shl(offset);
    let probe = bytes.and(mask);
    let r = !probe.eq(E::zero());
    proof {
        let s = offset as int % E::spec_bit_width() as int;
        assert(probe.bit(s) == bytes.bit(s));
    }
    r
}

/// Clears, in an array of lanes, every bit at or above bit `bits` of lane
/// `bytes`.
pub fn clear_arr_high_bits<E: BitBlockElement, const L: usize>(
    arr: &mut [E; L],
    bytes: usize,
    bits: usize,
)
    requires
        bits < E::spec_bit_width(),
        bytes <= L,
        bits > 0 ==> bytes < L,
    ensures
        forall|i: int, j: int|
            0 <= i < L && 0 <= j < E::spec_bit_width() ==> #[trigger] final(arr)[i].bit(j) == (old(arr)[i].bit(j) && (i < bytes || (i == bytes && j < bits))),
{
    proof {
        E::lemma_bit_width();
    }
    let w = E::bit_width();
    let mut end_bytes = bytes;
    if bits > 0 {
        proof {
            lemma_small_mod((w - bits) as nat, w as nat);
        }
        arr[end_bytes] = arr[end_bytes].clear_high_bits((w - bits) as u32);
        end_bytes += 1;
    }
    let mut i = end_bytes;
    while i < L
        invariant
            end_bytes <= i <= L,
            end_bytes == if bits > 0 {
                bytes + 1
            } else {
                bytes as int
            },
            bits < E::spec_bit_width(),
            forall|k: int, j: int|
                0 <= k < L && 0 <= j < E::spec_bit_width() ==> #[trigger] arr[k].bit(j) == (old(arr)[k].bit(j) && (k < bytes || (k == bytes && j < bits) || k >= i)),
        decreases L - i,
    {
        arr[i] = E::zero();
        i += 1;
    }
}

/// Sets, in an array of lanes, every bit from bit `bits` of lane `bytes` up
/// to the end of lane `bytes_max - 1`.
pub fn fill_arr_high_bits<E: BitBlockElement, const L: usize>(
    arr: &mut [E; L],
    bytes: usize,
    bits: usize,
    bytes_max: usize,
)
    requires
        bits < E::spec_bit_width(),
        bytes <= bytes_max <= L,
        bits > 0 ==> bytes < bytes_max,
    ensures
        forall|i: int, j: int|
            0 <= i < L && 0 <= j < E::spec_bit_width() ==> #[trigger] final(arr)[i].bit(j) == (old(arr)[i].bit(j) || (i < bytes_max && (i > bytes || (i == bytes && j >= bits)))),
{
    proof {
        E::lemma_bit_width();
    }
    let mut end_bytes = bytes;
    if bits > 0 {
        proof {
            lemma_small_mod(bits as nat, E::spec_bit_width());
        }
        arr[end_bytes] = arr[end_bytes].or(E::max().clear_low_bits(bits as u32));
        end_bytes += 1;
    }
    let mut i = end_bytes;
    while i < bytes_max
        invariant
            end_bytes <= i <= bytes_max <= L,
            end_bytes == if bits > 0 {
                bytes + 1
            } else {
                bytes as int
            },
            bits < E::spec_bit_width(),
            forall|k: int, j: int|
                0 <= k < L && 0 <= j < E::spec_bit_width() ==> #[trigger] arr[k].bit(j) == (old(arr)[k].bit(j) || (k < i && (k > bytes || (k == bytes && j >= bits)))),
        decreases bytes_max - i,
    {
        arr[i] = E::max();
        i += 1;
    }
}

/// The block `b` with every bit at or above position `bytes * W + bits`
/// cleared, `W` being the width of a lane.
pub fn clear_high_bits<B: BitBlock<L>, const L: usize>(b: B, bytes: usize, bits: usize) -> (r: B)
    requires
        bits < lane_bits::<B, L>(),
        bytes < L,
    ensures
        forall|q: int|
            0 <= q < block_bits::<B, L>() ==> #[trigger] r.bit(q) == (b.bit(q) && q < bytes
                * lane_bits::<B, L>() + bits),
{
    let mut arr = b.to_array();
    let ghost before = arr;
    clear_arr_high_bits(&mut arr, bytes, bits);
    let r = B::from_array(arr);
    proof {
        let w = lane_bits::<B, L>();
        B::lemma_shape();
        B::Element::lemma_bit_width();
        assert forall|q: int| 0 <= q < block_bits::<B, L>() implies #[trigger] r.bit(q) == (b.bit(q)
            && q < bytes * w + bits) by {
            lemma_split(q, w, L as int);
            lemma_lex(q, w, bytes as int, bits as int);
            let i = q / w;
            let j = q % w;
            assert(arr[i].bit(j) == (before[i].bit(j) && (i < bytes || (i == bytes && j < bits))));
            assert(before[i].bit(j) == b.bit(i * w + j));
        }
    }
    r
}

/// The block `b` with every bit from position `bytes * W + bits` up to
/// position `bytes_max * W` set, `W` being the width of a lane.
pub fn fill_high_bits<B: BitBlock<L>, const L: usize>(
    b: B,
    bytes: usize,
    bits: usize,
    bytes_max: usize,
) -> (r: B)
    requires
        bits < lane_bits::<B, L>(),
        bytes <= bytes_max <= L,
        bits > 0 ==> bytes < bytes_max,
    ensures
        forall|q: int|
            0 <= q < block_bits::<B, L>() ==> #[trigger] r.bit(q) == (b.bit(q) || (bytes
                * lane_bits::<B, L>() + bits <= q < bytes_max * lane_bits::<B, L>())),
{
    let mut arr = b.to_array();
    let ghost before = arr;
    fill_arr_high_bits(&mut arr, bytes, bits, bytes_max);
    let r = B::from_array(arr);
    proof {
        let w = lane_bits::<B, L>();
        B::lemma_shape();
        B::Element::lemma_bit_width();
        assert forall|q: int| 0 <= q < block_bits::<B, L>() implies #[trigger] r.bit(q) == (b.bit(q)
            || (bytes * w + bits <= q < bytes_max * w)) by {
            lemma_split(q, w, L as int);
            lemma_lex(q, w, bytes as int, bits as int);
            lemma_lex(q, w, bytes_max as int, 0);
            let i = q / w;
            let j = q % w;
            assert(arr[i].bit(j) == (before[i].bit(j) || (i < bytes_max && (i > bytes || (i == bytes
                && j >= bits)))));
            assert(before[i].bit(j) == b.bit(i * w + j));
        }
    }
    r
}

/// The block `b` after its logical end moved up from position
/// `old_bytes * W + old_bits` to position `bytes * W + bits` with set bits
/// filled in: what lay below the old end is kept, what lies between the two
/// ends is set, and what lies at or above the new end is cleared.
pub fn fix_high_bits<B: BitBlock<L>, const L: usize>(
    b: B,
    old_bytes: usize,
    old_bits: usize,
    bytes: usize,
    bits: usize,
) -> (r: B)
    requires
        old_bits < lane_bits::<B, L>(),
        bits < lane_bits::<B, L>(),
        bytes < L,
        old_bytes < bytes || (old_bytes == bytes && old_bits <= bits),
    ensures
        forall|q: int|
            0 <= q < block_bits::<B, L>() ==> #[trigger] r.bit(q) == (q < bytes * lane_bits::<
                B,
                L,
            >() + bits && (b.bit(q) || q >= old_bytes * lane_bits::<B, L>() + old_bits)),
{
    proof {
        B::Element::lemma_bit_width();
        lemma_small_mod(old_bits as nat, lane_bits::<B, L>() as nat);
    }
    let mut arr = b.to_array();
    let ghost before = arr;
    if old_bytes < bytes {
        fill_arr_high_bits(
            &mut arr,
            old_bytes,
            old_bits,
            if bits > 0 {
                bytes + 1
            } else {
                bytes
            },
        );
    } else if bits > old_bits {
        arr[bytes] = arr[bytes].or(B::Element::max().clear_low_bits(old_bits as u32));
    }
    let ghost filled = arr;
    clear_arr_high_bits(&mut arr, bytes, bits);
    let r = B::from_array(arr);
    proof {
        let w = lane_bits::<B, L>();
        B::lemma_shape();
        B::Element::lemma_bit_width();
        assert forall|q: int| 0 <= q < block_bits::<B, L>() implies #[trigger] r.bit(q) == (q
            < bytes * w + bits && (b.bit(q) || q >= old_bytes * w + old_bits)) by {
            lemma_split(q, w, L as int);
            lemma_lex(q, w, bytes as int, bits as int);
            lemma_lex(q, w, old_bytes as int, old_bits as int);
            let i = q / w;
            let j = q % w;
            assert(arr[i].bit(j) == (filled[i].bit(j) && (i < bytes || (i == bytes && j < bits))));
            assert(before[i].bit(j) == b.bit(i * w + j));
            if old_bytes < bytes {
                assert(filled[i].bit(j) == (before[i].bit(j) || (i < (if bits > 0 {
                    bytes + 1
                } else {
                    bytes as int
                }) && (i > old_bytes || (i == old_bytes && j >= old_bits)))));
            } else if bits > old_bits {
                if i == bytes {
                    assert(filled[i].bit(j) == (before[i].bit(j) || j >= old_bits));
                } else {
                    assert(filled[i] == before[i]);
                }
            }
        }
    }
    r
}

} // verus!
