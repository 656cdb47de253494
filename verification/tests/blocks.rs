use bitvec_simd::{BitBlock, BitVecSimd};

#[test]
fn block_u8x16_conversions() {
    let mut lanes = [0u8; 16];
    for (i, lane) in lanes.iter_mut().enumerate() {
        *lane = (i as u8) * 3 + 1;
    }
    let block = <wide::u8x16 as BitBlock<16>>::from_array(lanes);
    assert_eq!(BitBlock::to_array(block), lanes);
    assert_eq!(BitBlock::to_array(<wide::u8x16 as BitBlock<16>>::zero()), [0u8; 16]);
    assert_eq!(BitBlock::to_array(<wide::u8x16 as BitBlock<16>>::max()), [0xffu8; 16]);
}

#[test]
fn block_u8x16_bitwise_operations() {
    let mut a = [0u8; 16];
    let mut b = [0u8; 16];
    for i in 0..16 {
        a[i] = (0b1100 as u8) << (i % 4);
        b[i] = (0b1010 as u8) << (i % 4);
    }
    let x = <wide::u8x16 as BitBlock<16>>::from_array(a);
    let y = <wide::u8x16 as BitBlock<16>>::from_array(b);
    let and = BitBlock::to_array(BitBlock::and(x, y));
    let or = BitBlock::to_array(BitBlock::or(x, y));
    let xor = BitBlock::to_array(BitBlock::xor(x, y));
    let not = BitBlock::to_array(BitBlock::not(x));
    for i in 0..16 {
        assert_eq!(and[i], a[i] & b[i]);
        assert_eq!(or[i], a[i] | b[i]);
        assert_eq!(xor[i], a[i] ^ b[i]);
        assert_eq!(not[i], !a[i]);
    }
    let mut z = x;
    BitBlock::and_inplace(&mut z, &y);
    assert_eq!(BitBlock::to_array(z), and);
    let mut z = x;
    BitBlock::or_inplace(&mut z, &y);
    assert_eq!(BitBlock::to_array(z), or);
    let mut z = x;
    BitBlock::xor_inplace(&mut z, &y);
    assert_eq!(BitBlock::to_array(z), xor);
}

#[test]
fn block_u8x16_equality() {
    let x = <wide::u8x16 as BitBlock<16>>::from_array([5u8; 16]);
    let mut lanes = [5u8; 16];
    assert!(BitBlock::eq(&x, &<wide::u8x16 as BitBlock<16>>::from_array(lanes)));
    lanes[16 - 1] = 4;
    assert!(!BitBlock::eq(&x, &<wide::u8x16 as BitBlock<16>>::from_array(lanes)));
    lanes[16 - 1] = 5;
    lanes[0] = 5 | (1 << 7);
    assert!(!BitBlock::eq(&x, &<wide::u8x16 as BitBlock<16>>::from_array(lanes)));
}

#[test]
fn vector_of_u8x16_blocks() {
    type V = BitVecSimd<wide::u8x16, 16>;
    let n = 3 * 128 + 8 + 3;
    let v = V::from_bool_iterator((0..n).map(|x| x % 3 == 0));
    assert_eq!(v.len(), n);
    assert_eq!(v.storage_len(), 4);
    assert_eq!(v.count_ones(), (n + 2) / 3);
    for i in 0..n {
        assert_eq!(v.get(i), Some(i % 3 == 0));
    }
    assert_eq!(v.get(n), None);
    for i in [0, 1, 8 - 1, 8, 8 + 1, 128 - 1, 128, 128 + 1, n - 1, n] {
        assert_eq!(v.count_ones_before(i), (i + 2) / 3);
    }
    let inverse = v.inverse();
    assert_eq!(inverse.count_ones(), n - (n + 2) / 3);
    assert!(v.and_cloned(&inverse).none());
    assert!(v.or_cloned(&inverse).all());
    assert!(v.xor_cloned(&inverse).eq(&V::ones(n)));
    assert!(!v.eq(&inverse));

    let mut w = V::zeros(n);
    w.set(n - 8 - 5, true);
    assert_eq!(w.leading_zeros(), 8 + 4);
    w.set(n + 10, true);
    assert_eq!(w.len(), n + 11);
    assert_eq!(w.leading_zeros(), 0);
    w.resize(2 * 128 + 1, true);
    assert_eq!(w.count_ones(), 0);
    w.resize(4 * 128, true);
    assert_eq!(w.count_ones(), 2 * 128 - 1);
    assert_eq!(w.leading_zeros(), 0);
    assert_eq!(w.clone().to_usizes(), (2 * 128 + 1..4 * 128).collect::<Vec<usize>>());
    w.set_all_true();
    assert_eq!(w.count_ones(), 4 * 128);
    w.shrink_to(8 + 1);
    assert_eq!(w.storage_len(), 1);
    assert_eq!(w.encode(), vec![0xffu8, 1]);
    assert!(V::decode(&[0xffu8, 1], 8 + 1).eq(&w));
    assert!(V::from_slice_copy(&[0xffu8, 0xffu8], 8 + 1).eq(&w));
    assert_eq!(V::ones(5).to_string(), "11111");
}

#[test]
fn block_u16x8_conversions() {
    let mut lanes = [0u16; 8];
    for (i, lane) in lanes.iter_mut().enumerate() {
        *lane = (i as u16) * 3 + 1;
    }
    let block = <wide::u16x8 as BitBlock<8>>::from_array(lanes);
    assert_eq!(BitBlock::to_array(block), lanes);
    assert_eq!(BitBlock::to_array(<wide::u16x8 as BitBlock<8>>::zero()), [0u16; 8]);
    assert_eq!(BitBlock::to_array(<wide::u16x8 as BitBlock<8>>::max()), [0xffffu16; 8]);
}

#[test]
fn block_u16x8_bitwise_operations() {
    let mut a = [0u16; 8];
    let mut b = [0u16; 8];
    for i in 0..8 {
        a[i] = (0b1100 as u16) << (i % 4);
        b[i] = (0b1010 as u16) << (i % 4);
    }
    let x = <wide::u16x8 as BitBlock<8>>::from_array(a);
    let y = <wide::u16x8 as BitBlock<8>>::from_array(b);
    let and = BitBlock::to_array(BitBlock::and(x, y));
    let or = BitBlock::to_array(BitBlock::or(x, y));
    let xor = BitBlock::to_array(BitBlock::xor(x, y));
    let not = BitBlock::to_array(BitBlock::not(x));
    for i in 0..8 {
        assert_eq!(and[i], a[i] & b[i]);
        assert_eq!(or[i], a[i] | b[i]);
        assert_eq!(xor[i], a[i] ^ b[i]);
        assert_eq!(not[i], !a[i]);
    }
    let mut z = x;
    BitBlock::and_inplace(&mut z, &y);
    assert_eq!(BitBlock::to_array(z), and);
    let mut z = x;
    BitBlock::or_inplace(&mut z, &y);
    assert_eq!(BitBlock::to_array(z), or);
    let mut z = x;
    BitBlock::xor_inplace(&mut z, &y);
    assert_eq!(BitBlock::to_array(z), xor);
}

#[test]
fn block_u16x8_equality() {
    let x = <wide::u16x8 as BitBlock<8>>::from_array([5u16; 8]);
    let mut lanes = [5u16; 8];
    assert!(BitBlock::eq(&x, &<wide::u16x8 as BitBlock<8>>::from_array(lanes)));
    lanes[8 - 1] = 4;
    assert!(!BitBlock::eq(&x, &<wide::u16x8 as BitBlock<8>>::from_array(lanes)));
    lanes[8 - 1] = 5;
    lanes[0] = 5 | (1 << 15);
    assert!(!BitBlock::eq(&x, &<wide::u16x8 as BitBlock<8>>::from_array(lanes)));
}

#[test]
fn vector_of_u16x8_blocks() {
    type V = BitVecSimd<wide::u16x8, 8>;
    let n = 3 * 128 + 16 + 3;
    let v = V::from_bool_iterator((0..n).map(|x| x % 3 == 0));
    assert_eq!(v.len(), n);
    assert_eq!(v.storage_len(), 4);
    assert_eq!(v.count_ones(), (n + 2) / 3);
    for i in 0..n {
        assert_eq!(v.get(i), Some(i % 3 == 0));
    }
    assert_eq!(v.get(n), None);
    for i in [0, 1, 16 - 1, 16, 16 + 1, 128 - 1, 128, 128 + 1, n - 1, n] {
        assert_eq!(v.count_ones_before(i), (i + 2) / 3);
    }
    let inverse = v.inverse();
    assert_eq!(inverse.count_ones(), n - (n + 2) / 3);
    assert!(v.and_cloned(&inverse).none());
    assert!(v.or_cloned(&inverse).all());
    assert!(v.xor_cloned(&inverse).eq(&V::ones(n)));
    assert!(!v.eq(&inverse));

    let mut w = V::zeros(n);
    w.set(n - 16 - 5, true);
    assert_eq!(w.leading_zeros(), 16 + 4);
    w.set(n + 10, true);
    assert_eq!(w.len(), n + 11);
    assert_eq!(w.leading_zeros(), 0);
    w.resize(2 * 128 + 1, true);
    assert_eq!(w.count_ones(), 0);
    w.resize(4 * 128, true);
    assert_eq!(w.count_ones(), 2 * 128 - 1);
    assert_eq!(w.leading_zeros(), 0);
    assert_eq!(w.clone().to_usizes(), (2 * 128 + 1..4 * 128).collect::<Vec<usize>>());
    w.set_all_true();
    assert_eq!(w.count_ones(), 4 * 128);
    w.shrink_to(16 + 1);
    assert_eq!(w.storage_len(), 1);
    assert_eq!(w.encode(), vec![0xffffu16, 1]);
    assert!(V::decode(&[0xffffu16, 1], 16 + 1).eq(&w));
    assert!(V::from_slice_copy(&[0xffffu16, 0xffffu16], 16 + 1).eq(&w));
    assert_eq!(V::ones(5).to_string(), "11111");
}

#[test]
fn block_u32x4_conversions() {
    let mut lanes = [0u32; 4];
    for (i, lane) in lanes.iter_mut().enumerate() {
        *lane = (i as u32) * 3 + 1;
    }
    let block = <wide::u32x4 as BitBlock<4>>::from_array(lanes);
    assert_eq!(BitBlock::to_array(block), lanes);
    assert_eq!(BitBlock::to_array(<wide::u32x4 as BitBlock<4>>::zero()), [0u32; 4]);
    assert_eq!(BitBlock::to_array(<wide::u32x4 as BitBlock<4>>::max()), [0xffff_ffffu32; 4]);
}

#[test]
fn block_u32x4_bitwise_operations() {
    let mut a = [0u32; 4];
    let mut b = [0u32; 4];
    for i in 0..4 {
        a[i] = (0b1100 as u32) << (i % 4);
        b[i] = (0b1010 as u32) << (i % 4);
    }
    let x = <wide::u32x4 as BitBlock<4>>::from_array(a);
    let y = <wide::u32x4 as BitBlock<4>>::from_array(b);
    let and = BitBlock::to_array(BitBlock::and(x, y));
    let or = BitBlock::to_array(BitBlock::or(x, y));
    let xor = BitBlock::to_array(BitBlock::xor(x, y));
    let not = BitBlock::to_array(BitBlock::not(x));
    for i in 0..4 {
        assert_eq!(and[i], a[i] & b[i]);
        assert_eq!(or[i], a[i] | b[i]);
        assert_eq!(xor[i], a[i] ^ b[i]);
        assert_eq!(not[i], !a[i]);
    }
    let mut z = x;
    BitBlock::and_inplace(&mut z, &y);
    assert_eq!(BitBlock::to_array(z), and);
    let mut z = x;
    BitBlock::or_inplace(&mut z, &y);
    assert_eq!(BitBlock::to_array(z), or);
    let mut z = x;
    BitBlock::xor_inplace(&mut z, &y);
    assert_eq!(BitBlock::to_array(z), xor);
}

#[test]
fn block_u32x4_equality() {
    let x = <wide::u32x4 as BitBlock<4>>::from_array([5u32; 4]);
    let mut lanes = [5u32; 4];
    assert!(BitBlock::eq(&x, &<wide::u32x4 as BitBlock<4>>::from_array(lanes)));
    lanes[4 - 1] = 4;
    assert!(!BitBlock::eq(&x, &<wide::u32x4 as BitBlock<4>>::from_array(lanes)));
    lanes[4 - 1] = 5;
    lanes[0] = 5 | (1 << 31);
    assert!(!BitBlock::eq(&x, &<wide::u32x4 as BitBlock<4>>::from_array(lanes)));
}

#[test]
fn vector_of_u32x4_blocks() {
    type V = BitVecSimd<wide::u32x4, 4>;
    let n = 3 * 128 + 32 + 3;
    let v = V::from_bool_iterator((0..n).map(|x| x % 3 == 0));
    assert_eq!(v.len(), n);
    assert_eq!(v.storage_len(), 4);
    assert_eq!(v.count_ones(), (n + 2) / 3);
    for i in 0..n {
        assert_eq!(v.get(i), Some(i % 3 == 0));
    }
    assert_eq!(v.get(n), None);
    for i in [0, 1, 32 - 1, 32, 32 + 1, 128 - 1, 128, 128 + 1, n - 1, n] {
        assert_eq!(v.count_ones_before(i), (i + 2) / 3);
    }
    let inverse = v.inverse();
    assert_eq!(inverse.count_ones(), n - (n + 2) / 3);
    assert!(v.and_cloned(&inverse).none());
    assert!(v.or_cloned(&inverse).all());
    assert!(v.xor_cloned(&inverse).eq(&V::ones(n)));
    assert!(!v.eq(&inverse));

    let mut w = V::zeros(n);
    w.set(n - 32 - 5, true);
    assert_eq!(w.leading_zeros(), 32 + 4);
    w.set(n + 10, true);
    assert_eq!(w.len(), n + 11);
    assert_eq!(w.leading_zeros(), 0);
    w.resize(2 * 128 + 1, true);
    assert_eq!(w.count_ones(), 0);
    w.resize(4 * 128, true);
    assert_eq!(w.count_ones(), 2 * 128 - 1);
    assert_eq!(w.leading_zeros(), 0);
    assert_eq!(w.clone().to_usizes(), (2 * 128 + 1..4 * 128).collect::<Vec<usize>>());
    w.set_all_true();
    assert_eq!(w.count_ones(), 4 * 128);
    w.shrink_to(32 + 1);
    assert_eq!(w.storage_len(), 1);
    assert_eq!(w.encode(), vec![0xffff_ffffu32, 1]);
    assert!(V::decode(&[0xffff_ffffu32, 1], 32 + 1).eq(&w));
    assert!(V::from_slice_copy(&[0xffff_ffffu32, 0xffff_ffffu32], 32 + 1).eq(&w));
    assert_eq!(V::ones(5).to_string(), "11111");
}

#[test]
fn block_u32x8_conversions() {
    let mut lanes = [0u32; 8];
    for (i, lane) in lanes.iter_mut().enumerate() {
        *lane = (i as u32) * 3 + 1;
    }
    let block = <wide::u32x8 as BitBlock<8>>::from_array(lanes);
    assert_eq!(BitBlock::to_array(block), lanes);
    assert_eq!(BitBlock::to_array(<wide::u32x8 as BitBlock<8>>::zero()), [0u32; 8]);
    assert_eq!(BitBlock::to_array(<wide::u32x8 as BitBlock<8>>::max()), [0xffff_ffffu32; 8]);
}

#[test]
fn block_u32x8_bitwise_operations() {
    let mut a = [0u32; 8];
    let mut b = [0u32; 8];
    for i in 0..8 {
        a[i] = (0b1100 as u32) << (i % 4);
        b[i] = (0b1010 as u32) << (i % 4);
    }
    let x = <wide::u32x8 as BitBlock<8>>::from_array(a);
    let y = <wide::u32x8 as BitBlock<8>>::from_array(b);
    let and = BitBlock::to_array(BitBlock::and(x, y));
    let or = BitBlock::to_array(BitBlock::or(x, y));
    let xor = BitBlock::to_array(BitBlock::xor(x, y));
    let not = BitBlock::to_array(BitBlock::not(x));
    for i in 0..8 {
        assert_eq!(and[i], a[i] & b[i]);
        assert_eq!(or[i], a[i] | b[i]);
        assert_eq!(xor[i], a[i] ^ b[i]);
        assert_eq!(not[i], !a[i]);
    }
    let mut z = x;
    BitBlock::and_inplace(&mut z, &y);
    assert_eq!(BitBlock::to_array(z), and);
    let mut z = x;
    BitBlock::or_inplace(&mut z, &y);
    assert_eq!(BitBlock::to_array(z), or);
    let mut z = x;
    BitBlock::xor_inplace(&mut z, &y);
    assert_eq!(BitBlock::to_array(z), xor);
}

#[test]
fn block_u32x8_equality() {
    let x = <wide::u32x8 as BitBlock<8>>::from_array([5u32; 8]);
    let mut lanes = [5u32; 8];
    assert!(BitBlock::eq(&x, &<wide::u32x8 as BitBlock<8>>::from_array(lanes)));
    lanes[8 - 1] = 4;
    assert!(!BitBlock::eq(&x, &<wide::u32x8 as BitBlock<8>>::from_array(lanes)));
    lanes[8 - 1] = 5;
    lanes[0] = 5 | (1 << 31);
    assert!(!BitBlock::eq(&x, &<wide::u32x8 as BitBlock<8>>::from_array(lanes)));
}

#[test]
fn vector_of_u32x8_blocks() {
    type V = BitVecSimd<wide::u32x8, 8>;
    let n = 3 * 256 + 32 + 3;
    let v = V::from_bool_iterator((0..n).map(|x| x % 3 == 0));
    assert_eq!(v.len(), n);
    assert_eq!(v.storage_len(), 4);
    assert_eq!(v.count_ones(), (n + 2) / 3);
    for i in 0..n {
        assert_eq!(v.get(i), Some(i % 3 == 0));
    }
    assert_eq!(v.get(n), None);
    for i in [0, 1, 32 - 1, 32, 32 + 1, 256 - 1, 256, 256 + 1, n - 1, n] {
        assert_eq!(v.count_ones_before(i), (i + 2) / 3);
    }
    let inverse = v.inverse();
    assert_eq!(inverse.count_ones(), n - (n + 2) / 3);
    assert!(v.and_cloned(&inverse).none());
    assert!(v.or_cloned(&inverse).all());
    assert!(v.xor_cloned(&inverse).eq(&V::ones(n)));
    assert!(!v.eq(&inverse));

    let mut w = V::zeros(n);
    w.set(n - 32 - 5, true);
    assert_eq!(w.leading_zeros(), 32 + 4);
    w.set(n + 10, true);
    assert_eq!(w.len(), n + 11);
    assert_eq!(w.leading_zeros(), 0);
    w.resize(2 * 256 + 1, true);
    assert_eq!(w.count_ones(), 0);
    w.resize(4 * 256, true);
    assert_eq!(w.count_ones(), 2 * 256 - 1);
    assert_eq!(w.leading_zeros(), 0);
    assert_eq!(w.clone().to_usizes(), (2 * 256 + 1..4 * 256).collect::<Vec<usize>>());
    w.set_all_true();
    assert_eq!(w.count_ones(), 4 * 256);
    w.shrink_to(32 + 1);
    assert_eq!(w.storage_len(), 1);
    assert_eq!(w.encode(), vec![0xffff_ffffu32, 1]);
    assert!(V::decode(&[0xffff_ffffu32, 1], 32 + 1).eq(&w));
    assert!(V::from_slice_copy(&[0xffff_ffffu32, 0xffff_ffffu32], 32 + 1).eq(&w));
    assert_eq!(V::ones(5).to_string(), "11111");
}

#[test]
fn block_u64x2_conversions() {
    let mut lanes = [0u64; 2];
    for (i, lane) in lanes.iter_mut().enumerate() {
        *lane = (i as u64) * 3 + 1;
    }
    let block = <wide::u64x2 as BitBlock<2>>::from_array(lanes);
    assert_eq!(BitBlock::to_array(block), lanes);
    assert_eq!(BitBlock::to_array(<wide::u64x2 as BitBlock<2>>::zero()), [0u64; 2]);
    assert_eq!(BitBlock::to_array(<wide::u64x2 as BitBlock<2>>::max()), [0xffff_ffff_ffff_ffffu64; 2]);
}

#[test]
fn block_u64x2_bitwise_operations() {
    let mut a = [0u64; 2];
    let mut b = [0u64; 2];
    for i in 0..2 {
        a[i] = (0b1100 as u64) << (i % 4);
        b[i] = (0b1010 as u64) << (i % 4);
    }
    let x = <wide::u64x2 as BitBlock<2>>::from_array(a);
    let y = <wide::u64x2 as BitBlock<2>>::from_array(b);
    let and = BitBlock::to_array(BitBlock::and(x, y));
    let or = BitBlock::to_array(BitBlock::or(x, y));
    let xor = BitBlock::to_array(BitBlock::xor(x, y));
    let not = BitBlock::to_array(BitBlock::not(x));
    for i in 0..2 {
        assert_eq!(and[i], a[i] & b[i]);
        assert_eq!(or[i], a[i] | b[i]);
        assert_eq!(xor[i], a[i] ^ b[i]);
        assert_eq!(not[i], !a[i]);
    }
    let mut z = x;
    BitBlock::and_inplace(&mut z, &y);
    assert_eq!(BitBlock::to_array(z), and);
    let mut z = x;
    BitBlock::or_inplace(&mut z, &y);
    assert_eq!(BitBlock::to_array(z), or);
    let mut z = x;
    BitBlock::xor_inplace(&mut z, &y);
    assert_eq!(BitBlock::to_array(z), xor);
}

#[test]
fn block_u64x2_equality() {
    let x = <wide::u64x2 as BitBlock<2>>::from_array([5u64; 2]);
    let mut lanes = [5u64; 2];
    assert!(BitBlock::eq(&x, &<wide::u64x2 as BitBlock<2>>::from_array(lanes)));
    lanes[2 - 1] = 4;
    assert!(!BitBlock::eq(&x, &<wide::u64x2 as BitBlock<2>>::from_array(lanes)));
    lanes[2 - 1] = 5;
    lanes[0] = 5 | (1 << 63);
    assert!(!BitBlock::eq(&x, &<wide::u64x2 as BitBlock<2>>::from_array(lanes)));
}

#[test]
fn vector_of_u64x2_blocks() {
    type V = BitVecSimd<wide::u64x2, 2>;
    let n = 3 * 128 + 64 + 3;
    let v = V::from_bool_iterator((0..n).map(|x| x % 3 == 0));
    assert_eq!(v.len(), n);
    assert_eq!(v.storage_len(), 4);
    assert_eq!(v.count_ones(), (n + 2) / 3);
    for i in 0..n {
        assert_eq!(v.get(i), Some(i % 3 == 0));
    }
    assert_eq!(v.get(n), None);
    for i in [0, 1, 64 - 1, 64, 64 + 1, 128 - 1, 128, 128 + 1, n - 1, n] {
        assert_eq!(v.count_ones_before(i), (i + 2) / 3);
    }
    let inverse = v.inverse();
    assert_eq!(inverse.count_ones(), n - (n + 2) / 3);
    assert!(v.and_cloned(&inverse).none());
    assert!(v.or_cloned(&inverse).all());
    assert!(v.xor_cloned(&inverse).eq(&V::ones(n)));
    assert!(!v.eq(&inverse));

    let mut w = V::zeros(n);
    w.set(n - 64 - 5, true);
    assert_eq!(w.leading_zeros(), 64 + 4);
    w.set(n + 10, true);
    assert_eq!(w.len(), n + 11);
    assert_eq!(w.leading_zeros(), 0);
    w.resize(2 * 128 + 1, true);
    assert_eq!(w.count_ones(), 0);
    w.resize(4 * 128, true);
    assert_eq!(w.count_ones(), 2 * 128 - 1);
    assert_eq!(w.leading_zeros(), 0);
    assert_eq!(w.clone().to_usizes(), (2 * 128 + 1..4 * 128).collect::<Vec<usize>>());
    w.set_all_true();
    assert_eq!(w.count_ones(), 4 * 128);
    w.shrink_to(64 + 1);
    assert_eq!(w.storage_len(), 1);
    assert_eq!(w.encode(), vec![0xffff_ffff_ffff_ffffu64, 1]);
    assert!(V::decode(&[0xffff_ffff_ffff_ffffu64, 1], 64 + 1).eq(&w));
    assert!(V::from_slice_copy(&[0xffff_ffff_ffff_ffffu64, 0xffff_ffff_ffff_ffffu64], 64 + 1).eq(&w));
    assert_eq!(V::ones(5).to_string(), "11111");
}

#[test]
fn block_u64x4_conversions() {
    let mut lanes = [0u64; 4];
    for (i, lane) in lanes.iter_mut().enumerate() {
        *lane = (i as u64) * 3 + 1;
    }
    let block = <wide::u64x4 as BitBlock<4>>::from_array(lanes);
    assert_eq!(BitBlock::to_array(block), lanes);
    assert_eq!(BitBlock::to_array(<wide::u64x4 as BitBlock<4>>::zero()), [0u64; 4]);
    assert_eq!(BitBlock::to_array(<wide::u64x4 as BitBlock<4>>::max()), [0xffff_ffff_ffff_ffffu64; 4]);
}

#[test]
fn block_u64x4_bitwise_operations() {
    let mut a = [0u64; 4];
    let mut b = [0u64; 4];
    for i in 0..4 {
        a[i] = (0b1100 as u64) << (i % 4);
        b[i] = (0b1010 as u64) << (i % 4);
    }
    let x = <wide::u64x4 as BitBlock<4>>::from_array(a);
    let y = <wide::u64x4 as BitBlock<4>>::from_array(b);
    let and = BitBlock::to_array(BitBlock::and(x, y));
    let or = BitBlock::to_array(BitBlock::or(x, y));
    let xor = BitBlock::to_array(BitBlock::xor(x, y));
    let not = BitBlock::to_array(BitBlock::not(x));
    for i in 0..4 {
        assert_eq!(and[i], a[i] & b[i]);
        assert_eq!(or[i], a[i] | b[i]);
        assert_eq!(xor[i], a[i] ^ b[i]);
        assert_eq!(not[i], !a[i]);
    }
    let mut z = x;
    BitBlock::and_inplace(&mut z, &y);
    assert_eq!(BitBlock::to_array(z), and);
    let mut z = x;
    BitBlock::or_inplace(&mut z, &y);
    assert_eq!(BitBlock::to_array(z), or);
    let mut z = x;
    BitBlock::xor_inplace(&mut z, &y);
    assert_eq!(BitBlock::to_array(z), xor);
}

#[test]
fn block_u64x4_equality() {
    let x = <wide::u64x4 as BitBlock<4>>::from_array([5u64; 4]);
    let mut lanes = [5u64; 4];
    assert!(BitBlock::eq(&x, &<wide::u64x4 as BitBlock<4>>::from_array(lanes)));
    lanes[4 - 1] = 4;
    assert!(!BitBlock::eq(&x, &<wide::u64x4 as BitBlock<4>>::from_array(lanes)));
    lanes[4 - 1] = 5;
    lanes[0] = 5 | (1 << 63);
    assert!(!BitBlock::eq(&x, &<wide::u64x4 as BitBlock<4>>::from_array(lanes)));
}

#[test]
fn vector_of_u64x4_blocks() {
    type V = BitVecSimd<wide::u64x4, 4>;
    let n = 3 * 256 + 64 + 3;
    let v = V::from_bool_iterator((0..n).map(|x| x % 3 == 0));
    assert_eq!(v.len(), n);
    assert_eq!(v.storage_len(), 4);
    assert_eq!(v.count_ones(), (n + 2) / 3);
    for i in 0..n {
        assert_eq!(v.get(i), Some(i % 3 == 0));
    }
    assert_eq!(v.get(n), None);
    for i in [0, 1, 64 - 1, 64, 64 + 1, 256 - 1, 256, 256 + 1, n - 1, n] {
        assert_eq!(v.count_ones_before(i), (i + 2) / 3);
    }
    let inverse = v.inverse();
    assert_eq!(inverse.count_ones(), n - (n + 2) / 3);
    assert!(v.and_cloned(&inverse).none());
    assert!(v.or_cloned(&inverse).all());
    assert!(v.xor_cloned(&inverse).eq(&V::ones(n)));
    assert!(!v.eq(&inverse));

    let mut w = V::zeros(n);
    w.set(n - 64 - 5, true);
    assert_eq!(w.leading_zeros(), 64 + 4);
    w.set(n + 10, true);
    assert_eq!(w.len(), n + 11);
    assert_eq!(w.leading_zeros(), 0);
    w.resize(2 * 256 + 1, true);
    assert_eq!(w.count_ones(), 0);
    w.resize(4 * 256, true);
    assert_eq!(w.count_ones(), 2 * 256 - 1);
    assert_eq!(w.leading_zeros(), 0);
    assert_eq!(w.clone().to_usizes(), (2 * 256 + 1..4 * 256).collect::<Vec<usize>>());
    w.set_all_true();
    assert_eq!(w.count_ones(), 4 * 256);
    w.shrink_to(64 + 1);
    assert_eq!(w.storage_len(), 1);
    assert_eq!(w.encode(), vec![0xffff_ffff_ffff_ffffu64, 1]);
    assert!(V::decode(&[0xffff_ffff_ffff_ffffu64, 1], 64 + 1).eq(&w));
    assert!(V::from_slice_copy(&[0xffff_ffff_ffff_ffffu64, 0xffff_ffff_ffff_ffffu64], 64 + 1).eq(&w));
    assert_eq!(V::ones(5).to_string(), "11111");
}
