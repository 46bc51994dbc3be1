use gini_tree::natural::Natural;

fn n(x: u64) -> Natural {
    Natural::from_u64(x)
}

fn factorial(k: u32) -> Natural {
    let mut acc = n(1);
    for i in 1..=k {
        acc = acc.mul_small(i);
    }
    acc
}

#[test]
fn small_numbers_come_back() {
    assert_eq!(n(0).to_u64(), Some(0));
    assert_eq!(n(1).to_u64(), Some(1));
    assert_eq!(n(0xffff_ffff).to_u64(), Some(0xffff_ffff));
    assert_eq!(n(0x1_0000_0000).to_u64(), Some(0x1_0000_0000));
    assert_eq!(n(u64::MAX).to_u64(), Some(u64::MAX));
}

#[test]
fn sum_carries_into_the_next_limb() {
    assert_eq!(n(0xffff_ffff).add(&n(1)).to_u64(), Some(0x1_0000_0000));
    assert_eq!(n(u64::MAX - 1).add(&n(1)).to_u64(), Some(u64::MAX));
    assert_eq!(n(123).add(&n(0)).to_u64(), Some(123));
}

#[test]
fn sum_outgrows_sixty_four_bits() {
    let big = n(u64::MAX).add(&n(1));
    assert_eq!(big.to_u64(), None);
    let two_to_32 = n(1 << 32);
    assert!(big.same(&two_to_32.mul(&two_to_32)));
    assert!(n(u64::MAX).lt(&big));
    assert!(!big.lt(&n(u64::MAX)));
}

#[test]
fn product_of_small_numbers() {
    assert_eq!(n(6).mul(&n(7)).to_u64(), Some(42));
    assert_eq!(n(6).mul_small(7).to_u64(), Some(42));
    assert_eq!(n(0).mul(&n(7)).to_u64(), Some(0));
    assert_eq!(n(7).mul(&n(0)).to_u64(), Some(0));
    assert_eq!(n(7).mul_small(0).to_u64(), Some(0));
    assert_eq!(n(0xffff_ffff).mul(&n(0xffff_ffff)).to_u64(), Some(0xffff_fffe_0000_0001));
    assert_eq!(n(0xffff_ffff).mul_small(0xffff_ffff).to_u64(), Some(0xffff_fffe_0000_0001));
}

#[test]
fn square_of_a_two_limb_number() {
    // (2^32 + 1)^2 = 2^64 + 2^33 + 1
    let x = n((1 << 32) + 1);
    let square = x.mul(&x);
    let two_to_64 = n(1 << 32).mul(&n(1 << 32));
    let expected = two_to_64.add(&n(1 << 33)).add(&n(1));
    assert!(square.same(&expected));
    assert_eq!(square.to_u64(), None);
}

#[test]
fn square_of_the_largest_u64() {
    // (2^64 - 1)^2 + 2 (2^64 - 1) + 1 = (2^64)^2
    let x = n(u64::MAX);
    let left = x.mul(&x).add(&x.mul_small(2)).add(&n(1));
    let two_to_64 = x.add(&n(1));
    assert!(left.same(&two_to_64.mul(&two_to_64)));
}

#[test]
fn factorials() {
    assert_eq!(factorial(0).to_u64(), Some(1));
    assert_eq!(factorial(10).to_u64(), Some(3_628_800));
    assert_eq!(factorial(20).to_u64(), Some(2_432_902_008_176_640_000));
    assert_eq!(factorial(21).to_u64(), None);
    // 25! = 20! * (21 * 22 * 23 * 24 * 25)
    let tail = n(21 * 22 * 23 * 24 * 25);
    assert!(factorial(25).same(&factorial(20).mul(&tail)));
    assert!(factorial(24).lt(&factorial(25)));
    assert!(!factorial(25).lt(&factorial(24)));
}

#[test]
fn product_distributes_over_sum() {
    let a = factorial(23);
    let b = n(u64::MAX);
    let c = factorial(30);
    let left = a.mul(&b.add(&c));
    let right = a.mul(&b).add(&a.mul(&c));
    assert!(left.same(&right));
    assert!(a.mul(&b).same(&b.mul(&a)));
}

#[test]
fn order_of_numbers() {
    assert!(n(3).lt(&n(4)));
    assert!(!n(4).lt(&n(3)));
    assert!(!n(4).lt(&n(4)));
    assert!(n(4).same(&n(4)));
    assert!(!n(4).same(&n(5)));
    assert!(n(0).lt(&n(1)));
    assert!(n(0xffff_ffff).lt(&n(0x1_0000_0000)));
    assert!(n(0x1_0000_0000).lt(&n(0x1_0000_0001)));
    assert!(n(0x2_0000_0000).lt(&n(0x3_0000_0000)));
    assert!(!n(0x3_0000_0000).lt(&n(0x2_ffff_ffff)));
}

#[test]
fn a_number_with_leading_zero_limbs_is_the_same_number() {
    // A product with zero has as many limbs as its factors and is still zero.
    let zero = factorial(30).mul(&n(0));
    assert!(zero.same(&n(0)));
    assert_eq!(zero.to_u64(), Some(0));
    assert!(zero.lt(&n(1)));
    assert!(!n(1).lt(&zero));
    assert_eq!(zero.add(&n(5)).to_u64(), Some(5));
}
