use gerryaway::wide::Wide;

#[test]
fn product_of_small_numbers() {
    assert_eq!(Wide::product(6, 7), Wide { hi: 0, lo: 42 });
    assert_eq!(Wide::product(0, u128::MAX), Wide { hi: 0, lo: 0 });
}

#[test]
fn product_carries_into_the_upper_half() {
    assert_eq!(Wide::product(1u128 << 64, 1u128 << 64), Wide { hi: 1, lo: 0 });
    assert_eq!(Wide::product(1u128 << 127, 2), Wide { hi: 1, lo: 0 });
    assert_eq!(Wide::product(u128::MAX, 2), Wide { hi: 1, lo: u128::MAX - 1 });
}

#[test]
fn product_of_the_largest_numbers() {
    // (2^128 - 1)^2 = (2^128 - 2) * 2^128 + 1
    assert_eq!(Wide::product(u128::MAX, u128::MAX), Wide { hi: u128::MAX - 1, lo: 1 });
}

#[test]
fn product_of_mixed_halves() {
    // (2^64 + 3) * (2^64 + 5) = 2^128 + 8 * 2^64 + 15
    let a: u128 = (1u128 << 64) + 3;
    let b: u128 = (1u128 << 64) + 5;
    assert_eq!(Wide::product(a, b), Wide { hi: 1, lo: (8u128 << 64) + 15 });
}

#[test]
fn less_than_looks_at_the_upper_half_first() {
    let small = Wide { hi: 1, lo: u128::MAX };
    let large = Wide { hi: 2, lo: 0 };
    assert!(small.less_than(&large));
    assert!(!large.less_than(&small));
    assert!(!small.less_than(&small));
    assert!(Wide { hi: 1, lo: 4 }.less_than(&Wide { hi: 1, lo: 5 }));
}

#[test]
fn times_scales_both_halves() {
    let w = Wide { hi: 3, lo: 1u128 << 127 };
    // (3 * 2^128 + 2^127) * 6 = 21 * 2^128
    assert_eq!(w.times(6), Wide { hi: 21, lo: 0 });
    assert_eq!(w.times(0), Wide { hi: 0, lo: 0 });
    assert_eq!(w.times(1), w);
}
