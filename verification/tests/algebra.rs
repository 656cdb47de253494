use bitvec_simd::BitVec;

fn evens(n: usize) -> BitVec {
    BitVec::from_bool_iterator((0..n).map(|x| x % 2 == 0))
}

fn thirds(n: usize) -> BitVec {
    BitVec::from_bool_iterator((0..n).map(|x| x % 3 == 0))
}

#[test]
fn and_is_the_intersection() {
    let expected = BitVec::from_bool_iterator((0..10).map(|x| x % 6 == 0));
    assert!(evens(10).and(thirds(10)).eq(&expected));
    assert!(evens(10).and_cloned(&thirds(10)).eq(&expected));
    let mut a = evens(10);
    a.and_inplace(&thirds(10));
    assert!(a.eq(&expected));
    assert_eq!(a.to_usizes(), vec![0, 6]);
}

#[test]
fn and_with_zeros_and_ones() {
    let mut bitvec = BitVec::ones(1_000);
    bitvec.set(1_999, true);
    bitvec.set(500, false);
    let zeros = BitVec::zeros(2000);
    assert!(bitvec.and_cloned(&zeros).none());
    let ones = BitVec::ones(2000);
    assert!(bitvec.and_cloned(&ones).eq(&bitvec));
}

#[test]
fn or_is_the_union() {
    let n = 700;
    let expected = BitVec::from_bool_iterator((0..n).map(|x| x % 2 == 0 || x % 3 == 0));
    assert!(evens(n).or(thirds(n)).eq(&expected));
    assert!(evens(n).or_cloned(&thirds(n)).eq(&expected));
    let mut a = evens(n);
    a.or_inplace(&thirds(n));
    assert!(a.eq(&expected));
    assert_eq!(a.count_ones(), 350 + 234 - 117);
}

#[test]
fn xor_is_the_symmetric_difference() {
    let n = 700;
    let expected = BitVec::from_bool_iterator((0..n).map(|x| (x % 2 == 0) != (x % 3 == 0)));
    assert!(evens(n).xor(thirds(n)).eq(&expected));
    assert!(evens(n).xor_cloned(&thirds(n)).eq(&expected));
    let mut a = evens(n);
    a.xor_inplace(&thirds(n));
    assert!(a.eq(&expected));
    assert!(evens(n).xor(evens(n)).none());
}

#[test]
fn or_inplace_mismatched_len_keeps_the_length() {
    let mut short = BitVec::from_slice(&[1, 9]);
    let long = BitVec::from_slice(&[0, 9, 11, 100, 999]);
    short.or_inplace_mismatched_len(&long);
    assert_eq!(short.len(), 10);
    assert_eq!(short.clone().to_usizes(), vec![0, 1, 9]);
    assert_eq!(short.count_ones(), 3);

    let mut long = BitVec::from_slice(&[0, 9, 11, 100, 999]);
    let short = BitVec::from_slice(&[1, 9]);
    long.or_inplace_mismatched_len(&short);
    assert_eq!(long.len(), 1000);
    assert_eq!(long.to_usizes(), vec![0, 1, 9, 11, 100, 999]);
}

#[test]
fn inverse_flips_every_position() {
    let mut bitvec = BitVec::zeros(1_000);
    bitvec.set(1, true);
    bitvec.set(5, true);
    let inverse = bitvec.inverse();
    assert_eq!(inverse.len(), 1_000);
    assert_eq!(inverse.count_ones(), 998);
    assert_eq!(inverse.get(0), Some(true));
    assert_eq!(inverse.get(1), Some(false));
    assert_eq!(inverse.get(5), Some(false));
    assert_eq!(inverse.get(999), Some(true));
    assert_eq!(inverse.get(1_000), None);
}

#[test]
fn inverse_keeps_the_tail_clear() {
    for n in [0usize, 1, 63, 64, 65, 128, 255, 256, 257, 512] {
        let inverse = BitVec::zeros(n).inverse();
        assert_eq!(inverse.len(), n);
        assert_eq!(inverse.count_ones(), n);
        assert!(inverse.eq(&BitVec::ones(n)));
        assert!(inverse.inverse().eq(&BitVec::zeros(n)));
    }
}

#[test]
fn difference_removes_the_second_set() {
    let n = 5_000;
    let expected = BitVec::from_bool_iterator((0..n).map(|x| x % 2 == 0 && x % 3 != 0));
    assert!(evens(n).difference_cloned(&thirds(n)).eq(&expected));
    assert!(evens(n).difference(thirds(n)).eq(&expected));
}

#[test]
fn difference_of_small_sets() {
    let mut a = BitVec::zeros(6);
    for i in [1, 2, 3] {
        a.set(i, true);
    }
    let mut b = BitVec::zeros(6);
    for i in [2, 4, 5] {
        b.set(i, true);
    }
    assert_eq!(a.difference(b).to_usizes(), vec![1, 3]);
}

#[test]
fn clone_is_an_independent_copy() {
    let a = evens(300);
    let mut b = a.clone();
    b.set(1, true);
    assert_eq!(a.get(1), Some(false));
    assert_eq!(b.get(1), Some(true));
    assert!(!a.eq(&b));
    assert!(a.eq(&a.clone()));
}
