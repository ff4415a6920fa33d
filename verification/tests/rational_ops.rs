use bignum::natural::Natural;
use bignum::rational::Rational;

fn q(s: &str) -> Rational {
    Rational::from_str_rational(s).unwrap()
}

#[test]
fn add_reduces_fully() {
    let r = q("22/7").add(&q("99/100"));
    assert!(r.is_valid());
    assert_eq!(r.to_string(), "2893/700");

    let r = q("1/2").add(&q("1/2"));
    assert!(r.is_valid());
    assert_eq!(r.to_string(), "1");

    let r = q("1/3").add(&q("-1/3"));
    assert!(r.is_valid());
    assert_eq!(r.to_string(), "0");

    let r = q("-1/4").add(&q("1/6"));
    assert!(r.is_valid());
    assert_eq!(r.to_string(), "-1/12");
}

#[test]
fn add_zero_returns_operand_unchanged() {
    let x = q("-22/7");
    let r = x.add(&Rational::zero());
    assert_eq!(r, x);
    let r = Rational::zero().add(&x);
    assert_eq!(r, x);
}

#[test]
fn add_is_commutative() {
    let values = ["0", "1", "-1", "1/2", "-1/3", "22/7", "99/100", "-1000000000000/7"];
    for a in values {
        for b in values {
            assert_eq!(q(a).add(&q(b)), q(b).add(&q(a)));
        }
    }
}

#[test]
fn sum_of_harmonic_fractions() {
    let xs = vec![q("1/2"), q("1/3"), q("1/4")];
    let s = Rational::sum(xs);
    assert!(s.is_valid());
    assert_eq!(s.to_string(), "13/12");

    let ys = vec![q("2"), q("-3"), q("5"), q("7")];
    assert_eq!(Rational::sum(ys).to_string(), "11");

    let zs = vec![
        q("0"), q("1"), q("2/3"), q("3/4"), q("4/5"), q("5/6"), q("6/7"), q("7/8"), q("8/9"),
        q("9/10"),
    ];
    assert_eq!(Rational::sum(zs).to_string(), "19079/2520");
}

#[test]
fn renormalize_is_identity_on_canonical_values() {
    let values = ["0", "1", "-1", "1/2", "-22/7", "13/12", "2893/700"];
    for s in values {
        let x = q(s);
        let y = x.renormalize();
        assert_eq!(x, y);
        let z = y.renormalize();
        assert_eq!(y, z);
    }
    // adding and re-normalizing twice yields a bit-identical representation
    let a = q("22/7").add(&q("99/100"));
    let b = a.renormalize();
    assert_eq!(a, b);
    assert_eq!(a.to_numerator(), b.to_numerator());
    assert_eq!(a.to_denominator(), b.to_denominator());
}

#[test]
fn from_str_reduces_and_normalizes() {
    assert_eq!(q("4/6").to_string(), "2/3");
    assert_eq!(q("-0/5").to_string(), "0");
    assert_eq!(q("7/1").to_string(), "7");
    assert!(Rational::from_str_rational("1/0").is_none());
    assert!(Rational::from_str_rational("").is_none());
    assert!(Rational::from_str_rational("-").is_none());
    assert!(Rational::from_str_rational("1/").is_none());
}

#[test]
fn invariants_hold_for_reachable_values() {
    let values = ["0", "5", "-5", "1/2", "22/7", "-2893/700"];
    for s in values {
        let x = q(s);
        assert!(x.is_valid());
        let d = x.to_denominator();
        assert!(!d.is_zero());
        let g = x.to_numerator().gcd(&d);
        assert_eq!(g, Natural::from_limb(1));
    }
}
