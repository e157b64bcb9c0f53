use order_book::u256::U256;

#[test]
fn zero_and_max_are_the_ends_of_the_range() {
    assert!(U256::zero().is_zero());
    assert!(U256::max_value().is_max());
    assert!(!U256::zero().is_max());
    assert!(!U256::max_value().is_zero());
    assert_eq!(U256::zero().into_limbs(), [0u64, 0, 0, 0]);
    assert_eq!(U256::max_value().into_limbs(), [u64::MAX, u64::MAX, u64::MAX, u64::MAX]);
}

#[test]
fn order_follows_the_most_significant_limb() {
    let low = U256::from_limbs([u64::MAX, 0, 0, 0]);
    let high = U256::from_limbs([0, 1, 0, 0]);
    assert!(low.lt(&high));
    assert!(high.gt(&low));
    assert!(low.le(&high));
    assert!(!low.ge(&high));
    assert!(low.le(&low));
    assert!(low.ge(&low));
    assert!(!low.lt(&low));
    assert!(low.same(&low));
    assert!(!low.same(&high));
}

#[test]
fn checked_sub_borrows_across_limbs() {
    let a = U256::from_limbs([0, 1, 0, 0]);
    let b = U256::from_u64(1);
    assert_eq!(a.checked_sub(b), Some(U256::from_limbs([u64::MAX, 0, 0, 0])));
    assert_eq!(b.checked_sub(a), None);
    assert_eq!(a.checked_sub(a), Some(U256::zero()));
}

#[test]
fn checked_add_carries_across_limbs_and_detects_overflow() {
    let a = U256::from_limbs([u64::MAX, 0, 0, 0]);
    let b = U256::from_u64(1);
    assert_eq!(a.checked_add(b), Some(U256::from_limbs([0, 1, 0, 0])));
    assert_eq!(U256::max_value().checked_add(b), None);
    assert_eq!(U256::max_value().checked_add(U256::zero()), Some(U256::max_value()));
    assert_eq!(U256::from_u64(7).checked_add(U256::from_u64(5)), Some(U256::from_u64(12)));
}
