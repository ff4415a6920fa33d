use bignum::natural::Natural;

fn n(s: &str) -> Natural {
    Natural::from_str_natural(s).unwrap()
}

#[test]
fn test_mod_add() {
    let test = |r: &str, s: &str, t: &str, out: &str| {
        let u = n(r);
        let v = n(s);
        let m = n(t);

        assert!(u.mod_is_reduced(&m));
        assert!(v.mod_is_reduced(&m));

        let mut w = u.clone();
        w.mod_add_assign(&v, &m);
        assert_eq!(w.to_string(), out);
        assert!(w.is_valid());
        assert!(w.mod_is_reduced(&m));

        let w = u.mod_add(&v, &m);
        assert_eq!(w.to_string(), out);
        assert!(w.is_valid());

        let sum = u.plus(&v).rem_nat(&m);
        assert_eq!(sum.to_string(), out);
    };
    test("0", "0", "1", "0");
    test("0", "0", "32", "0");
    test("0", "2", "32", "2");
    test("10", "14", "16", "8");
    test("0", "123", "128", "123");
    test("123", "0", "128", "123");
    test("123", "456", "512", "67");
    test("0", "3", "5", "3");
    test("7", "5", "10", "2");
}

#[test]
fn mod_add_properties() {
    let triples = [
        ("0", "0", "1"),
        ("1", "1", "2"),
        ("10", "14", "16"),
        ("123", "456", "512"),
        ("7", "5", "10"),
        ("999999999999", "123456789", "1000000000000"),
        ("340282366920938463463374607431768211455", "1", "340282366920938463463374607431768211456"),
    ];
    for (a, b, c) in triples {
        let x = n(a);
        let y = n(b);
        let m = n(c);
        assert!(x.mod_is_reduced(&m));
        assert!(y.mod_is_reduced(&m));
        let sum = x.mod_add(&y, &m);
        assert!(sum.is_valid());
        assert!(sum.mod_is_reduced(&m));

        let mut mut_x = x.clone();
        mut_x.mod_add_assign(&y, &m);
        assert!(mut_x.is_valid());
        assert_eq!(mut_x, sum);

        assert_eq!(x.plus(&y).rem_nat(&m), sum);
        assert_eq!(y.mod_add(&x, &m), sum);
        assert_eq!(x.mod_sub(&y.mod_neg(&m), &m), sum);
        assert_eq!(sum.mod_sub(&x, &m), y);
        assert_eq!(sum.mod_sub(&y, &m), x);
    }

    let pairs = [("0", "1"), ("3", "5"), ("123", "512"), ("999", "1000000")];
    for (a, c) in pairs {
        let x = n(a);
        let m = n(c);
        let zero = Natural::zero();
        assert_eq!(x.mod_add(&zero, &m), x);
        assert_eq!(zero.mod_add(&x, &m), x);
        assert_eq!(x.mod_add(&x, &m), x.mod_shl(1, &m));
    }

    let quads = [("1", "2", "3", "5"), ("10", "14", "3", "16"), ("100", "200", "300", "512")];
    for (a, b, cc, d) in quads {
        let x = n(a);
        let y = n(b);
        let z = n(cc);
        let m = n(d);
        assert_eq!(x.mod_add(&y, &m).mod_add(&z, &m), x.mod_add(&y.mod_add(&z, &m), &m));
    }

    let u32_triples: [(u32, u32, u32); 5] =
        [(0, 0, 1), (3, 4, 5), (100, 27, 128), (123, 456, 512), (4000000000, 294967295, 4294967295)];
    for (x, y, m) in u32_triples {
        let expected = ((x as u64 + y as u64) % m as u64) as u32;
        assert_eq!(
            Natural::from_limb(x).mod_add(&Natural::from_limb(y), &Natural::from_limb(m)),
            Natural::from_limb(expected)
        );
    }
}
