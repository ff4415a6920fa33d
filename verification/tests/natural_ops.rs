use bignum::natural::Natural;
use bignum::natural_submul::{mpn_sub_1_in_place, mpn_submul_1, sub_mul_assign_u32_helper};
use std::cmp::Ordering;

fn n(s: &str) -> Natural {
    Natural::from_str_natural(s).unwrap()
}

#[test]
fn checked_sub_scenarios() {
    assert!(Natural::from_limb(15).checked_sub_limb(20).is_none());
    assert_eq!(
        Natural::from_limb(456).checked_sub_limb(123),
        Some(Natural::from_limb(333))
    );
    assert_eq!(Natural::from_limb(123).checked_sub_limb(123), Some(Natural::zero()));
    assert_eq!(Natural::from_limb(123).checked_sub_limb(0), Some(Natural::from_limb(123)));
    assert_eq!(
        n("1000000000000").checked_sub_limb(123).unwrap(),
        n("999999999877")
    );
    assert!(Natural::from_limb(123).checked_sub_limb(456).is_none());
}

#[test]
fn sub_then_add_round_trip() {
    let pairs = [
        ("456", "123"),
        ("1000000000000", "999999999999"),
        ("340282366920938463463374607431768211456", "1"),
        ("123", "123"),
    ];
    for (a, b) in pairs {
        let x = n(a);
        let y = n(b);
        let d = x.checked_sub(&y).unwrap();
        assert!(d.is_valid());
        assert_eq!(d.plus(&y), x);
    }
}

#[test]
fn sub_from_limb() {
    assert_eq!(n("123").checked_sub_from_limb(123), Some(Natural::zero()));
    assert_eq!(Natural::zero().checked_sub_from_limb(123), Some(Natural::from_limb(123)));
    assert_eq!(n("123").checked_sub_from_limb(456), Some(Natural::from_limb(333)));
    assert!(n("456").checked_sub_from_limb(123).is_none());
    assert!(n("1000000000000").checked_sub_from_limb(123).is_none());
}

#[test]
fn sub_mul_scenarios() {
    assert!(Natural::from_limb(10).sub_mul(&Natural::from_limb(3), 4).is_none());
    assert_eq!(
        Natural::from_limb(15).sub_mul(&Natural::from_limb(3), 4),
        Some(Natural::from_limb(3))
    );
    assert_eq!(
        n("1000000000000").sub_mul(&Natural::from_limb(0x1_0000), 0x1_0000).unwrap(),
        n("995705032704")
    );
    let mut x = Natural::from_limb(15);
    x.sub_mul_assign(&Natural::from_limb(3), 4);
    assert_eq!(x, Natural::from_limb(3));
    let mut y = n("1000000000000");
    let underflow = sub_mul_assign_u32_helper(&mut y, &Natural::from_limb(0x1_0000), 0x1_0000);
    assert!(!underflow);
    assert_eq!(y, n("995705032704"));
}

#[test]
fn submul_limb_pass() {
    // 10 - 3 * 3 == 1 in a one-limb buffer
    let mut r = vec![10u32];
    let borrow = mpn_submul_1(&mut r, &[3], 3);
    assert_eq!(borrow, 0);
    assert_eq!(r, vec![1]);
    // borrow out of the covered range
    let mut r = vec![1u32, 5];
    let borrow = mpn_submul_1(&mut r, &[2], 3);
    assert_eq!(borrow, 1);
    assert_eq!(r[1], 5);
    let underflowed = mpn_sub_1_in_place(&mut r, 1, borrow);
    assert!(!underflowed);
    assert_eq!(r, vec![0xffff_fffb, 4]);
}

#[test]
fn div_mod_and_gcd() {
    let (q, r) = n("1000000000000").div_mod(&n("3"));
    assert_eq!(q, n("333333333333"));
    assert_eq!(r, n("1"));
    let (q, r) = n("123456789123456789").div_mod(&n("1000000000"));
    assert_eq!(q, n("123456789"));
    assert_eq!(r, n("123456789"));
    assert_eq!(n("12").gcd(&n("18")), n("6"));
    assert_eq!(n("0").gcd(&n("5")), n("5"));
    assert_eq!(n("8388607").gcd(&n("713623846352979940529142984724747568191373312")), n("1"));
    assert_eq!(n("100").div_exact(&n("25")), n("4"));
}

#[test]
fn decimal_round_trip() {
    for s in ["0", "1", "123", "4294967295", "4294967296", "1000000000000",
        "340282366920938463463374607431768211456"] {
        let x = n(s);
        assert!(x.is_valid());
        assert_eq!(x.to_string(), s);
    }
    assert!(Natural::from_str_natural("").is_none());
    assert!(Natural::from_str_natural("12a").is_none());
}

#[test]
fn parity_and_bits() {
    assert!(Natural::zero().is_even());
    assert!(!Natural::zero().is_odd());
    assert!(!n("123").is_even());
    assert!(n("123").is_odd());
    assert!(n("128").is_even());
    assert!(n("1000000000000").is_even());
    assert!(n("1000000000001").is_odd());
    assert_eq!(n("6").get_bit(0), false);
    assert_eq!(n("6").get_bit(1), true);
    assert_eq!(n("6").get_bit(2), true);
    assert_eq!(n("6").get_bit(3), false);
    assert_eq!(n("1000000000000").significant_bits(), 40);
    assert_eq!(Natural::zero().significant_bits(), 0);
}

#[test]
fn multiplication_and_powers() {
    assert_eq!(n("123456789").times(&n("987654321")), n("121932631112635269"));
    assert_eq!(n("0").times(&n("987654321")), Natural::zero());
    assert_eq!(Natural::from_limb(10).pow(12), n("1000000000000"));
    assert_eq!(Natural::from_limb(2).pow(128), n("340282366920938463463374607431768211456"));
    assert_eq!(n("123").times_limb(1000), n("123000"));
}

#[test]
fn comparison_is_total() {
    let xs = ["0", "1", "122", "123", "4294967296", "1000000000000"];
    for (i, a) in xs.iter().enumerate() {
        for (j, b) in xs.iter().enumerate() {
            let expected = i.cmp(&j);
            assert_eq!(n(a).cmp(&n(b)), expected);
        }
    }
    assert_eq!(n("123").cmp(&n("123")), Ordering::Equal);
}

#[test]
fn canonical_form_is_kept() {
    // a three-limb value minus itself collapses to the inline form
    let x = n("340282366920938463463374607431768211456");
    let d = x.checked_sub(&x).unwrap();
    assert!(d.is_valid());
    assert_eq!(d, Natural::zero());
    // building from limbs trims high zeros
    let y = Natural::from_limbs_asc(vec![7, 0, 0]);
    assert!(y.is_valid());
    assert_eq!(y, Natural::from_limb(7));
    let z = Natural::from_limbs_asc(vec![1, 2, 0]);
    assert!(z.is_valid());
    assert_eq!(z.to_limbs_asc(), vec![1, 2]);
}

#[test]
fn mod_family() {
    let m = n("512");
    assert_eq!(n("123").mod_neg(&m), n("389"));
    assert_eq!(Natural::zero().mod_neg(&m), Natural::zero());
    assert_eq!(n("100").mod_sub(&n("300"), &m), n("312"));
    assert_eq!(n("300").mod_sub(&n("100"), &m), n("200"));
    assert_eq!(n("3").mod_shl(4, &m), n("48"));
    assert_eq!(n("3").mod_shl(9, &m), n("0"));
}
