use bitvec_simd::BitVec;

#[test]
fn count_ones_counts_the_set_positions() {
    let bitvec = BitVec::from_bool_iterator((0..10_000).map(|x| x % 2 == 0));
    assert_eq!(bitvec.count_ones(), 5000);
    let bitvec = BitVec::from_bool_iterator((0..30_000).map(|x| x % 3 == 0));
    assert_eq!(bitvec.count_ones(), 10_000);
}

#[test]
fn count_ones_before_counts_below_the_index() {
    let bitvec = BitVec::from_bool_iterator((0..10_000).map(|x| x % 2 == 0));
    assert_eq!(bitvec.count_ones_before(5000), 2500);
    assert_eq!(bitvec.count_ones_before(10_000), 5000);

    let bitvec = BitVec::from_bool_iterator((0..30_000).map(|x| x % 3 == 0));
    assert_eq!(bitvec.count_ones_before(10000), 3334);

    let bitvec = BitVec::from_bool_iterator((0..1).map(|_| true));
    assert_eq!(bitvec.count_ones_before(0), 0);
    assert_eq!(bitvec.count_ones_before(1), 1);
}

#[test]
fn count_ones_before_on_ten_set_bits() {
    let bitvec = BitVec::from_bool_iterator((0..10).map(|_| true));
    for i in 0..10 {
        assert_eq!(bitvec.count_ones_before(i), i);
    }
    assert_eq!(bitvec.count_ones_before(10), 10);
}

#[test]
fn count_ones_before_with_one_set_bit() {
    let bitvec = BitVec::from_bool_iterator((0..10).map(|x| x == 0));
    assert_eq!(bitvec.count_ones_before(0), 0);
    for i in 1..10 {
        assert_eq!(bitvec.count_ones_before(i), 1);
    }
}

#[test]
fn count_ones_before_near_a_lane_boundary() {
    for n in [31usize, 32, 63, 64, 65, 255, 256, 257, 600] {
        let bitvec = BitVec::from_bool_iterator((0..n).map(|_| true));
        for i in 0..=n {
            assert_eq!(bitvec.count_ones_before(i), i);
        }
    }
}

#[test]
fn leading_zeros_of_a_single_set_bit() {
    let mut bitvec = BitVec::zeros(10);
    bitvec.set(3, true);
    assert_eq!(bitvec.leading_zeros(), 6);
}

#[test]
fn leading_zeros_of_clear_vectors_is_the_length() {
    for n in [0usize, 1, 10, 64, 256, 257, 1000] {
        assert_eq!(BitVec::zeros(n).leading_zeros(), n);
    }
}

#[test]
fn leading_zeros_across_blocks_and_lanes() {
    for n in [1usize, 10, 64, 65, 256, 257, 700, 1024] {
        for at in [0usize, n / 3, n / 2, n - 1] {
            let mut bitvec = BitVec::zeros(n);
            bitvec.set(at, true);
            bitvec.set(0, true);
            assert_eq!(bitvec.leading_zeros(), n - 1 - at);
        }
    }
}

#[test]
fn any_all_none_agree_with_the_counts() {
    let empty = BitVec::zeros(0);
    assert!(!empty.any());
    assert!(empty.all());
    assert!(empty.none());
    assert!(empty.is_empty());

    let zeros = BitVec::zeros(300);
    assert!(!zeros.any());
    assert!(!zeros.all());
    assert!(zeros.none());
    assert!(zeros.is_empty());

    let ones = BitVec::ones(300);
    assert!(ones.any());
    assert!(ones.all());
    assert!(!ones.none());
    assert!(!ones.is_empty());

    let mut some = BitVec::zeros(300);
    some.set(299, true);
    assert!(some.any());
    assert!(!some.all());
    assert!(!some.none());
    assert!(!some.is_empty());
}

#[test]
fn eq_compares_the_bits() {
    let a = BitVec::from_slice(&[1, 5, 300]);
    let mut b = BitVec::zeros(301);
    b.set(300, true);
    b.set(5, true);
    assert!(!a.eq(&b));
    b.set(1, true);
    assert!(a.eq(&b));
    b.set(300, false);
    assert!(!a.eq(&b));
    assert!(BitVec::zeros(0).eq(&BitVec::ones(0)));
}

#[test]
fn get_unchecked_reads_a_position() {
    let bitvec = BitVec::from_slice(&[7, 64, 255, 256]);
    for i in 0..257 {
        assert_eq!(bitvec.get_unchecked(i), [7usize, 64, 255, 256].contains(&i));
    }
}
