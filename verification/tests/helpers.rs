use bitvec_simd::layout::{bit_to_len, block_bit_width, lane_bit_width};
use bitvec_simd::mask::{
    clear_arr_high_bits, clear_high_bits, fill_arr_high_bits, fill_high_bits, fix_high_bits,
    set_bit, test_bit,
};
use bitvec_simd::query::{count_ones_in_block, highest_set_in_block};
use wide::{u16x8, u32x4, u32x8, u64x2, u64x4, u8x16};

#[test]
fn widths_of_the_block_shapes() {
    assert_eq!(lane_bit_width::<u8x16, 16>(), 8);
    assert_eq!(lane_bit_width::<u16x8, 8>(), 16);
    assert_eq!(lane_bit_width::<u32x4, 4>(), 32);
    assert_eq!(lane_bit_width::<u32x8, 8>(), 32);
    assert_eq!(lane_bit_width::<u64x2, 2>(), 64);
    assert_eq!(lane_bit_width::<u64x4, 4>(), 64);
    assert_eq!(block_bit_width::<u8x16, 16>(), 128);
    assert_eq!(block_bit_width::<u16x8, 8>(), 128);
    assert_eq!(block_bit_width::<u32x4, 4>(), 128);
    assert_eq!(block_bit_width::<u32x8, 8>(), 256);
    assert_eq!(block_bit_width::<u64x2, 2>(), 128);
    assert_eq!(block_bit_width::<u64x4, 4>(), 256);
}

#[test]
fn bit_to_len_splits_a_position() {
    assert_eq!(bit_to_len::<u64x4, 4>(0), (0, 0, 0));
    assert_eq!(bit_to_len::<u64x4, 4>(1), (0, 0, 1));
    assert_eq!(bit_to_len::<u64x4, 4>(63), (0, 0, 63));
    assert_eq!(bit_to_len::<u64x4, 4>(64), (0, 1, 0));
    assert_eq!(bit_to_len::<u64x4, 4>(255), (0, 3, 63));
    assert_eq!(bit_to_len::<u64x4, 4>(256), (1, 0, 0));
    assert_eq!(bit_to_len::<u64x4, 4>(1000), (3, 3, 40));
    assert_eq!(bit_to_len::<u8x16, 16>(1000), (7, 13, 0));
    assert_eq!(bit_to_len::<u16x8, 8>(1001), (7, 6, 9));
    assert_eq!(bit_to_len::<u32x4, 4>(100), (0, 3, 4));
    assert_eq!(bit_to_len::<u32x8, 8>(300), (1, 1, 12));
    assert_eq!(bit_to_len::<u64x2, 2>(usize::MAX), (usize::MAX / 128, 1, 63));
}

#[test]
fn set_bit_writes_one_bit() {
    assert_eq!(set_bit(true, 0u8, 0), 1);
    assert_eq!(set_bit(true, 0u8, 7), 0x80);
    assert_eq!(set_bit(true, 0u8, 9), 2);
    assert_eq!(set_bit(false, 0xffu8, 3), 0xf7);
    assert_eq!(set_bit(true, 0xffu8, 3), 0xff);
    assert_eq!(set_bit(false, 0u16, 3), 0);
    assert_eq!(set_bit(true, 1u32, 31), 0x8000_0001);
    assert_eq!(set_bit(false, u64::MAX, 63), u64::MAX >> 1);
}

#[test]
fn test_bit_reads_one_bit() {
    assert!(test_bit(0b100u8, 2));
    assert!(!test_bit(0b100u8, 1));
    assert!(test_bit(0b100u8, 10));
    assert!(test_bit(0x8000u16, 15));
    assert!(!test_bit(0x7fff_ffffu32, 31));
    assert!(test_bit(1u64 << 40, 40));
}

#[test]
fn clear_arr_high_bits_keeps_what_lies_below() {
    let mut arr = [u64::MAX; 4];
    clear_arr_high_bits(&mut arr, 1, 3);
    assert_eq!(arr, [u64::MAX, 7, 0, 0]);
    let mut arr = [u64::MAX; 4];
    clear_arr_high_bits(&mut arr, 2, 0);
    assert_eq!(arr, [u64::MAX, u64::MAX, 0, 0]);
    let mut arr = [u64::MAX; 4];
    clear_arr_high_bits(&mut arr, 0, 0);
    assert_eq!(arr, [0, 0, 0, 0]);
    let mut arr = [u64::MAX; 4];
    clear_arr_high_bits(&mut arr, 4, 0);
    assert_eq!(arr, [u64::MAX; 4]);
    let mut arr = [0xffu8; 3];
    clear_arr_high_bits(&mut arr, 2, 7);
    assert_eq!(arr, [0xff, 0xff, 0x7f]);
}

#[test]
fn fill_arr_high_bits_sets_what_lies_above() {
    let mut arr = [0u64; 4];
    fill_arr_high_bits(&mut arr, 1, 3, 4);
    assert_eq!(arr, [0, !7u64, u64::MAX, u64::MAX]);
    let mut arr = [0u64; 4];
    fill_arr_high_bits(&mut arr, 1, 3, 2);
    assert_eq!(arr, [0, !7u64, 0, 0]);
    let mut arr = [1u64; 4];
    fill_arr_high_bits(&mut arr, 1, 0, 3);
    assert_eq!(arr, [1, u64::MAX, u64::MAX, 1]);
    let mut arr = [1u64; 4];
    fill_arr_high_bits(&mut arr, 2, 0, 2);
    assert_eq!(arr, [1, 1, 1, 1]);
}

#[test]
fn block_masks() {
    let max = u64x4::from([u64::MAX; 4]);
    let zero = u64x4::from([0u64; 4]);
    assert_eq!(clear_high_bits(max, 0, 10).to_array(), [1023, 0, 0, 0]);
    assert_eq!(clear_high_bits(max, 3, 0).to_array(), [u64::MAX, u64::MAX, u64::MAX, 0]);
    assert_eq!(fill_high_bits(zero, 0, 10, 4).to_array(), [!1023u64, u64::MAX, u64::MAX, u64::MAX]);
    assert_eq!(fill_high_bits(zero, 2, 0, 3).to_array(), [0, 0, u64::MAX, 0]);
    let some = u64x4::from([5u64, u64::MAX, 9, 9]);
    assert_eq!(fix_high_bits(some, 0, 3, 0, 6).to_array(), [0b111101, 0, 0, 0]);
    assert_eq!(fix_high_bits(some, 0, 3, 0, 3).to_array(), [5, 0, 0, 0]);
    assert_eq!(fix_high_bits(some, 0, 3, 2, 1).to_array(), [!2u64, u64::MAX, 1, 0]);
    assert_eq!(fix_high_bits(some, 0, 3, 2, 0).to_array(), [!2u64, u64::MAX, 0, 0]);
    assert_eq!(fix_high_bits(zero, 0, 0, 1, 1).to_array(), [u64::MAX, 1, 0, 0]);
}

#[test]
fn counting_within_a_block() {
    let block = u64x4::from([0b1011u64, u64::MAX, 1 << 63, 1]);
    assert_eq!(count_ones_in_block(block, 4, 0), 3 + 64 + 1 + 1);
    assert_eq!(count_ones_in_block(block, 0, 0), 0);
    assert_eq!(count_ones_in_block(block, 0, 2), 2);
    assert_eq!(count_ones_in_block(block, 0, 3), 2);
    assert_eq!(count_ones_in_block(block, 1, 5), 8);
    assert_eq!(count_ones_in_block(block, 2, 63), 67);
    assert_eq!(count_ones_in_block(block, 3, 0), 68);
    assert_eq!(count_ones_in_block(block, 3, 1), 69);
    let bytes = u8x16::from([0x81u8; 16]);
    assert_eq!(count_ones_in_block(bytes, 16, 0), 32);
    assert_eq!(count_ones_in_block(bytes, 2, 7), 5);
}

#[test]
fn highest_set_position_of_a_block() {
    assert_eq!(highest_set_in_block(u64x4::from([1u64, 0, 0, 0])), 0);
    assert_eq!(highest_set_in_block(u64x4::from([0b1011u64, 0, 0, 0])), 3);
    assert_eq!(highest_set_in_block(u64x4::from([u64::MAX, 2, 0, 0])), 65);
    assert_eq!(highest_set_in_block(u64x4::from([0u64, 0, 0, 1 << 63])), 255);
    assert_eq!(highest_set_in_block(u16x8::from([0u16, 0, 0x0100, 0, 0, 0, 0, 0])), 40);
    assert_eq!(highest_set_in_block(u32x4::from([0u32, 0, 0, 1])), 96);
    assert_eq!(highest_set_in_block(u32x8::from([0u32, 0, 0, 0, 0, 0, 0, 0x8000_0000])), 255);
    assert_eq!(highest_set_in_block(u64x2::from([0u64, 4])), 66);
}
