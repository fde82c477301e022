use conjecture_test::conjecture::{
    count_1s, count_factors_of_2, is_even, n_c_k, next_batch_end, process_batch, test_num,
    BigNat, BATCH_SIZE, FIRST_NUMBER,
};

fn to_u128(b: &BigNat) -> u128 {
    let mut v: u128 = 0;
    for d in b.digits.iter().rev() {
        v = (v << 32) | (*d as u128);
    }
    v
}

#[test]
fn binomial_small_values() {
    assert_eq!(to_u128(&n_c_k(10, 5)), 252);
    assert_eq!(to_u128(&n_c_k(20, 10)), 184756);
    assert_eq!(to_u128(&n_c_k(7, 0)), 1);
    assert_eq!(to_u128(&n_c_k(7, 7)), 1);
    assert_eq!(to_u128(&n_c_k(7, 8)), 0);
}

#[test]
fn binomial_beyond_one_digit() {
    assert_eq!(to_u128(&n_c_k(100, 50)), 100891344545564193334812497256);
    assert!(n_c_k(100, 50).digits.len() > 1);
}

#[test]
fn evenness() {
    assert!(is_even(&BigNat { digits: vec![] }));
    assert!(is_even(&BigNat { digits: vec![6] }));
    assert!(!is_even(&BigNat { digits: vec![7] }));
    assert!(is_even(&BigNat { digits: vec![0, 1] }));
    assert!(!is_even(&BigNat { digits: vec![1, 1] }));
}

#[test]
fn factors_of_two_counts() {
    assert_eq!(count_factors_of_2(BigNat { digits: vec![] }), 0);
    assert_eq!(count_factors_of_2(BigNat { digits: vec![7] }), 0);
    assert_eq!(count_factors_of_2(BigNat { digits: vec![184756] }), 2);
    assert_eq!(count_factors_of_2(BigNat { digits: vec![0, 0, 8] }), 67);
}

#[test]
fn bit_counts() {
    assert_eq!(count_1s(0), 0);
    assert_eq!(count_1s(10), 2);
    assert_eq!(count_1s(255), 8);
    assert_eq!(count_1s(u128::MAX), 128);
}

#[test]
fn property_on_small_numbers() {
    for k in 0..64 {
        assert!(test_num(k));
    }
    // C(20, 10) = 184756 has two factors of two, and 10 = 0b1010 has two ones.
    assert!(test_num(10));
}

#[test]
fn batch_without_failure() {
    assert_eq!(process_batch(FIRST_NUMBER, 200), None);
    assert_eq!(process_batch(50, 50), None);
    assert_eq!(process_batch(u128::MAX, 3), None);
}

#[test]
fn batch_bounds_saturate() {
    assert_eq!(next_batch_end(FIRST_NUMBER + BATCH_SIZE), 20001);
    assert_eq!(next_batch_end(u128::MAX - BATCH_SIZE), u128::MAX);
    assert_eq!(next_batch_end(u128::MAX - 5), u128::MAX);
    assert_eq!(next_batch_end(u128::MAX), u128::MAX);
}
