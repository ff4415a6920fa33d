use bignum::natural::Natural;

#[test]
fn small_arithmetic_round_trip() {
    let a = Natural::from_limb(456);
    let b = Natural::from_limb(123);
    let d = a.checked_sub(&b).unwrap();
    assert_eq!(d, Natural::from_limb(333));
    assert!(d.is_valid());
    assert_eq!(d.plus(&b), a);
}
