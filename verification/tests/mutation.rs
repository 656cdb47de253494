use bitvec_simd::BitVec;

#[test]
fn set_beyond_the_end_grows_the_vector() {
    let mut bitvec = BitVec::zeros(10);
    assert_eq!(bitvec.len(), 10);
    bitvec.set(15, true);
    assert_eq!(bitvec.len(), 16);
    assert_eq!(bitvec.get(15), Some(true));
    assert_eq!(bitvec.get(14), Some(false));
}

#[test]
fn set_and_clear_within_the_vector() {
    let mut bitvec = BitVec::ones(1_000);
    bitvec.set(1_999, true);
    bitvec.set(500, false);
    assert_eq!(bitvec.len(), 2_000);
    assert_eq!(bitvec.get(500), Some(false));
    assert_eq!(bitvec.get(499), Some(true));
    assert_eq!(bitvec.get(501), Some(true));
    assert_eq!(bitvec.get(999), Some(true));
    assert_eq!(bitvec.get(1_000), Some(false));
    assert_eq!(bitvec.get(1_998), Some(false));
    assert_eq!(bitvec.get(1_999), Some(true));
    assert_eq!(bitvec.get(5_000), None);
    assert_eq!(bitvec.count_ones(), 1_000);
}

#[test]
fn set_false_beyond_the_end_grows_with_clear_bits() {
    let mut bitvec = BitVec::ones(3);
    bitvec.set(300, false);
    assert_eq!(bitvec.len(), 301);
    assert_eq!(bitvec.to_usizes(), vec![0, 1, 2]);
}

#[test]
fn set_in_an_empty_vector() {
    let mut bitvec = BitVec::zeros(0);
    bitvec.set(0, true);
    assert_eq!(bitvec.len(), 1);
    assert_eq!(bitvec.get(0), Some(true));
}

#[test]
fn resize_changes_the_length() {
    let mut bitvec = BitVec::ones(3);
    bitvec.resize(5, false);
    assert_eq!(bitvec.len(), 5);
    assert_eq!(bitvec.clone().into_bools(), vec![true, true, true, false, false]);
    bitvec.resize(2, false);
    assert_eq!(bitvec.len(), 2);
    assert_eq!(bitvec.into_bools(), vec![true, true]);
}

#[test]
fn resize_with_set_bits_fills_the_new_range() {
    for (old, new) in [
        (0usize, 1usize),
        (3, 5),
        (3, 64),
        (3, 70),
        (60, 200),
        (64, 65),
        (64, 128),
        (100, 256),
        (100, 257),
        (100, 1000),
        (256, 300),
        (256, 512),
        (255, 513),
        (10, 10),
    ] {
        let mut bitvec = BitVec::from_bool_iterator((0..old).map(|x| x % 3 == 0));
        bitvec.resize(new, true);
        assert_eq!(bitvec.len(), new);
        for i in 0..old {
            assert_eq!(bitvec.get(i), Some(i % 3 == 0));
        }
        for i in old..new {
            assert_eq!(bitvec.get(i), Some(true));
        }
        assert_eq!(bitvec.get(new), None);
        assert_eq!(bitvec.count_ones(), (old + 2) / 3 + (new - old));
        assert_eq!(bitvec.storage_len(), (new + 255) / 256);
    }
}

#[test]
fn resize_with_clear_bits_extends_with_zeros() {
    let mut bitvec = BitVec::ones(100);
    bitvec.resize(700, false);
    assert_eq!(bitvec.len(), 700);
    assert_eq!(bitvec.count_ones(), 100);
    assert_eq!(bitvec.get(99), Some(true));
    assert_eq!(bitvec.get(100), Some(false));
    assert_eq!(bitvec.get(699), Some(false));
}

#[test]
fn resize_down_clears_what_is_cut_off() {
    for (old, new) in [(1000usize, 300usize), (1000, 256), (1000, 255), (300, 0), (70, 64), (70, 1)] {
        let mut bitvec = BitVec::ones(old);
        bitvec.resize(new, true);
        assert_eq!(bitvec.len(), new);
        assert_eq!(bitvec.count_ones(), new);
        bitvec.resize(old, false);
        assert_eq!(bitvec.len(), old);
        assert_eq!(bitvec.count_ones(), new);
        assert_eq!(bitvec.leading_zeros(), old - new);
    }
}

#[test]
fn shrink_to_cuts_the_vector() {
    let mut bitvec = BitVec::ones(3);
    bitvec.shrink_to(2);
    assert_eq!(bitvec.len(), 2);
    assert_eq!(bitvec.into_bools(), vec![true, true]);
    let mut bitvec = BitVec::from_slice(&[0, 5, 300]);
    bitvec.shrink_to(6);
    assert_eq!(bitvec.to_usizes(), vec![0, 5]);
}

#[test]
fn set_all_fills_every_position() {
    for n in [0usize, 1, 10, 64, 100, 256, 257, 1000] {
        let mut bitvec = BitVec::from_bool_iterator((0..n).map(|x| x % 2 == 0));
        bitvec.set_all_true();
        assert_eq!(bitvec.len(), n);
        assert_eq!(bitvec.count_ones(), n);
        bitvec.set_all_false();
        assert_eq!(bitvec.len(), n);
        assert_eq!(bitvec.count_ones(), 0);
        bitvec.set_all(true);
        assert_eq!(bitvec.count_ones(), n);
        assert!(bitvec.all());
        bitvec.set_all(false);
        assert!(bitvec.none());
    }
}

#[test]
fn set_raw_copy_takes_the_first_bits_of_the_blocks() {
    let blocks = [
        wide::u64x4::from([1u64, 0, 0, u64::MAX]),
        wide::u64x4::from([u64::MAX, u64::MAX, 0, 0]),
        wide::u64x4::from([7u64, 7, 7, 7]),
    ];
    let mut bitvec = BitVec::zeros(5);
    bitvec.set_raw_copy(&blocks, 3, 256 + 70);
    assert_eq!(bitvec.len(), 326);
    assert_eq!(bitvec.storage_len(), 2);
    assert_eq!(bitvec.count_ones(), 1 + 64 + 70);
    assert_eq!(bitvec.get(0), Some(true));
    assert_eq!(bitvec.get(1), Some(false));
    assert_eq!(bitvec.get(192), Some(true));
    assert_eq!(bitvec.get(325), Some(true));
    assert_eq!(bitvec.get(326), None);
}

#[test]
fn set_raw_takes_over_the_blocks() {
    let blocks = vec![
        wide::u64x4::from([u64::MAX, u64::MAX, u64::MAX, u64::MAX]),
        wide::u64x4::from([u64::MAX, u64::MAX, u64::MAX, u64::MAX]),
    ];
    let mut bitvec = BitVec::ones(1000);
    bitvec.set_raw(blocks, 10);
    assert_eq!(bitvec.len(), 10);
    assert_eq!(bitvec.storage_len(), 1);
    assert_eq!(bitvec.count_ones(), 10);
    assert_eq!(bitvec.as_slice().len(), 1);
    assert_eq!(bitvec.as_slice()[0].to_array(), [1023u64, 0, 0, 0]);
}
