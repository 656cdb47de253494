use bitvec_simd::BitVec;

#[test]
fn zeros_has_the_length_asked_for() {
    let bitvec = BitVec::zeros(10);
    assert_eq!(bitvec.len(), 10);
    for i in 0..10 {
        assert_eq!(bitvec.get(i), Some(false));
    }
    assert_eq!(bitvec.get(10), None);
    assert_eq!(bitvec.count_ones(), 0);
}

#[test]
fn zeros_of_length_zero_is_empty() {
    let bitvec = BitVec::zeros(0);
    assert_eq!(bitvec.len(), 0);
    assert_eq!(bitvec.storage_len(), 0);
    assert_eq!(bitvec.get(0), None);
}

#[test]
fn ones_has_the_length_asked_for() {
    let bitvec = BitVec::ones(10);
    assert_eq!(bitvec.len(), 10);
    for i in 0..10 {
        assert_eq!(bitvec.get(i), Some(true));
    }
    assert_eq!(bitvec.get(10), None);
    assert_eq!(bitvec.count_ones(), 10);
}

#[test]
fn ones_keeps_the_tail_clear_at_a_lane_boundary() {
    for n in [64usize, 128, 192, 256, 320, 512, 63, 65, 255, 257] {
        let bitvec = BitVec::ones(n);
        assert_eq!(bitvec.len(), n);
        assert_eq!(bitvec.count_ones(), n);
        assert!(bitvec.all());
        assert_eq!(bitvec.leading_zeros(), 0);
    }
}

#[test]
fn storage_len_is_the_block_count() {
    assert_eq!(BitVec::zeros(1).storage_len(), 1);
    assert_eq!(BitVec::zeros(256).storage_len(), 1);
    assert_eq!(BitVec::zeros(257).storage_len(), 2);
    assert_eq!(BitVec::ones(1000).storage_len(), 4);
    assert!(BitVec::ones(1000).storage_capacity() >= 4);
}

#[test]
fn from_bool_iterator_keeps_every_boolean() {
    let bitvec = BitVec::from_bool_iterator((0..10).map(|x| x % 2 == 0));
    assert_eq!(bitvec.len(), 10);
    assert_eq!(
        bitvec.into_bools(),
        vec![true, false, true, false, true, false, true, false, true, false]
    );

    let bitvec = BitVec::from_bool_iterator((0..1000).map(|x| x < 50));
    assert_eq!(bitvec.len(), 1000);
    assert_eq!(bitvec.get(49), Some(true));
    assert_eq!(bitvec.get(50), Some(false));
    assert_eq!(bitvec.get(999), Some(false));
    assert_eq!(bitvec.into_bools(), (0..1000).map(|x| x < 50).collect::<Vec<bool>>());
}

#[test]
fn from_bool_iterator_of_nothing_is_empty() {
    let bitvec = BitVec::from_bool_iterator(Vec::<bool>::new().into_iter());
    assert_eq!(bitvec.len(), 0);
    assert_eq!(bitvec.storage_len(), 0);
}

#[test]
fn from_bool_iterator_at_block_boundaries() {
    for n in [255usize, 256, 257, 511, 512, 513] {
        let bools: Vec<bool> = (0..n).map(|x| x % 7 == 3 || x + 1 == n).collect();
        let bitvec = BitVec::from_bool_iterator(bools.clone().into_iter());
        assert_eq!(bitvec.len(), n);
        assert_eq!(bitvec.storage_len(), (n + 255) / 256);
        assert_eq!(bitvec.into_bools(), bools);
    }
}

#[test]
fn predicate_over_fifteen_positions() {
    let bitvec = BitVec::from_bool_iterator((0..15).map(|x| x % 3 == 0));
    assert_eq!(bitvec.get(3), Some(true));
    assert_eq!(bitvec.get(5), Some(false));
    assert_eq!(bitvec.get(14), Some(false));
    assert_eq!(bitvec.get(15), None);
    assert!(bitvec.get_unchecked(3));
    assert!(!bitvec.get_unchecked(5));
    assert!(!bitvec.get_unchecked(14));
}

#[test]
fn from_slice_sets_the_listed_positions() {
    let bitvec = BitVec::from_slice(&[0, 5, 9]);
    assert_eq!(
        bitvec.into_bools(),
        vec![true, false, false, false, false, true, false, false, false, true]
    );
}

#[test]
fn from_slice_reads_back_membership() {
    let indices = [3usize, 700, 41, 3, 256];
    let bitvec = BitVec::from_slice(&indices);
    assert_eq!(bitvec.len(), 701);
    for i in 0..701 {
        assert_eq!(bitvec.get(i), Some(indices.contains(&i)));
    }
    assert_eq!(bitvec.get(701), None);
    assert_eq!(bitvec.get(5000), None);
}

#[test]
fn from_slice_is_at_least_as_long_as_the_list() {
    let bitvec = BitVec::from_slice(&[1, 1, 1, 1, 1]);
    assert_eq!(bitvec.len(), 5);
    assert_eq!(bitvec.to_usizes(), vec![1]);
    let bitvec = BitVec::from_slice(&[]);
    assert_eq!(bitvec.len(), 0);
}

#[test]
fn from_slice_copy_takes_the_low_bits() {
    let bitvec = BitVec::from_slice_copy(&[3], 3);
    assert_eq!(bitvec.get(0), Some(true));
    assert_eq!(bitvec.get(1), Some(true));
    assert_eq!(bitvec.get(2), Some(false));
    assert_eq!(bitvec.get(3), None);
}

#[test]
fn from_slice_copy_clears_what_lies_beyond_the_length() {
    let bitvec = BitVec::from_slice_copy(&[u64::MAX, u64::MAX, u64::MAX, u64::MAX, u64::MAX], 70);
    assert_eq!(bitvec.len(), 70);
    assert_eq!(bitvec.storage_len(), 1);
    assert_eq!(bitvec.count_ones(), 70);
    assert!(bitvec.all());
    let bitvec = BitVec::from_slice_copy(&[1, 2, 4, 8, 16, 32], 6 * 64);
    assert_eq!(bitvec.storage_len(), 2);
    assert_eq!(bitvec.to_usizes(), vec![0, 65, 130, 195, 260, 325]);
}

#[test]
fn decode_pads_missing_lanes_with_clear_bits() {
    let bitvec = BitVec::decode(&[5], 600);
    assert_eq!(bitvec.len(), 600);
    assert_eq!(bitvec.storage_len(), 3);
    assert_eq!(bitvec.to_usizes(), vec![0, 2]);
    let bitvec = BitVec::decode(&[], 0);
    assert_eq!(bitvec.len(), 0);
    let bitvec = BitVec::decode(&[u64::MAX, u64::MAX], 65);
    assert_eq!(bitvec.count_ones(), 65);
}
