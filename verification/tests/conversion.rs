use bitvec_simd::BitVec;

#[test]
fn into_bools_lists_every_position() {
    let bitvec = BitVec::from_bool_iterator((0..10).map(|i| i % 3 == 0));
    assert_eq!(
        bitvec.into_bools(),
        vec![true, false, false, true, false, false, true, false, false, true]
    );
    assert_eq!(BitVec::zeros(0).into_bools(), Vec::<bool>::new());
}

#[test]
fn usizes_lists_the_set_positions() {
    let bitvec = BitVec::from_bool_iterator((0..10).map(|i| i % 3 == 0));
    assert_eq!(bitvec.usizes(), vec![0, 3, 6, 9]);
    assert_eq!(bitvec.to_usizes(), vec![0, 3, 6, 9]);
    assert_eq!(BitVec::zeros(500).to_usizes(), Vec::<usize>::new());
}

#[test]
fn index_sequence_of_a_boolean_sequence() {
    let bools: Vec<bool> = (0..777).map(|x| x % 5 == 1 || x % 64 == 63).collect();
    let expected: Vec<usize> = (0..777).filter(|x| bools[*x]).collect();
    let bitvec = BitVec::from_bool_iterator(bools.into_iter());
    assert_eq!(bitvec.to_usizes(), expected);
}

#[test]
fn to_string_writes_one_digit_per_position() {
    let bitvec = BitVec::from_slice(&[0, 5, 9]);
    assert_eq!(bitvec.to_string(), "1000010001");
    assert_eq!(BitVec::zeros(0).to_string(), "");
    assert_eq!(BitVec::ones(3).to_string(), "111");
}

#[test]
fn encode_trims_clear_lanes_of_the_last_block() {
    assert_eq!(BitVec::zeros(0).encode(), Vec::<u64>::new());
    assert_eq!(BitVec::zeros(10).encode(), Vec::<u64>::new());
    assert_eq!(BitVec::from_slice(&[0, 1]).encode(), vec![3u64]);
    assert_eq!(BitVec::from_slice(&[65]).encode(), vec![0u64, 2]);
    assert_eq!(BitVec::zeros(300).encode(), vec![0u64, 0, 0, 0]);
    assert_eq!(BitVec::from_slice(&[299]).encode(), vec![0u64, 0, 0, 0, 1 << 43]);
    assert_eq!(BitVec::ones(256).encode(), vec![u64::MAX; 4]);
}

#[test]
fn decode_of_encode_gives_the_vector_back() {
    for n in [0usize, 1, 64, 65, 200, 256, 257, 600, 1024] {
        for step in [1usize, 2, 7, 64, 5000] {
            let bitvec = BitVec::from_bool_iterator((0..n).map(|x| x % step == step / 2));
            let lanes = bitvec.encode();
            let decoded = BitVec::decode(&lanes, bitvec.len());
            assert_eq!(decoded.len(), n);
            assert!(decoded.eq(&bitvec));
            assert_eq!(decoded.storage_len(), bitvec.storage_len());
        }
    }
}

#[test]
fn as_slice_shows_the_blocks() {
    let bitvec = BitVec::from_slice(&[0, 64, 257]);
    let blocks = bitvec.as_slice();
    assert_eq!(blocks.len(), 2);
    assert_eq!(blocks[0].to_array(), [1u64, 1, 0, 0]);
    assert_eq!(blocks[1].to_array(), [2u64, 0, 0, 0]);
}
