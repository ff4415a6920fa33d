use bignum::natural::Natural;
use std::cmp::Ordering;

fn n(s: &str) -> Natural {
    Natural::from_str_natural(s).unwrap()
}

#[test]
fn test_partial_cmp_abs_primitive_float() {
    let test = |u: &str, v: f32, out: Option<Ordering>| {
        let out_rev = out.map(Ordering::reverse);
        let x = n(u);
        assert_eq!(x.partial_cmp_abs_f32_bits(v.to_bits()), out);
        assert_eq!(x.partial_cmp_abs_f32_bits(v.to_bits()).map(Ordering::reverse), out_rev);

        let w = f64::from(v);
        assert_eq!(x.partial_cmp_abs_f64_bits(w.to_bits()), out);
        assert_eq!(x.partial_cmp_abs_f64_bits(w.to_bits()).map(Ordering::reverse), out_rev);
    };
    test("5", f32::NAN, None);
    test("5", f32::INFINITY, Some(Ordering::Less));
    test("5", f32::NEG_INFINITY, Some(Ordering::Less));

    test("0", 0.0, Some(Ordering::Equal));
    test("0", -0.0, Some(Ordering::Equal));
    test("0", 5.0, Some(Ordering::Less));
    test("0", -5.0, Some(Ordering::Less));
    test("123", 123.0, Some(Ordering::Equal));
    test("123", 5.0, Some(Ordering::Greater));
    test("123", -123.0, Some(Ordering::Equal));
    test("1000000000000", 123.0, Some(Ordering::Greater));

    test("1208925819614629174706175", 1.2089258e24, Some(Ordering::Less));
    test("1208925819614629174706176", 1.2089258e24, Some(Ordering::Equal));
    test("1208925819614629174706177", 1.2089258e24, Some(Ordering::Greater));
    test("1208925819614629174706175", -1.2089258e24, Some(Ordering::Less));
    test("1208925819614629174706176", -1.2089258e24, Some(Ordering::Equal));
    test("1208925819614629174706177", -1.2089258e24, Some(Ordering::Greater));
}

#[test]
fn partial_cmp_abs_primitive_float_properties() {
    let naturals = ["0", "1", "5", "123", "1000000000000", "1208925819614629174706176"];
    let floats: [f32; 9] = [0.0, -0.0, 1.0, -1.5, 123.0, -123.0, 1.0e30, -1.0e30, 0.5];
    for u in naturals {
        let x = n(u);
        for v in floats {
            let cmp_abs = x.partial_cmp_abs_f32_bits(v.to_bits());
            assert_eq!(x.partial_cmp_abs_f32_bits(v.abs().to_bits()), cmp_abs);
            assert_eq!(x.partial_cmp_f32_bits(v.abs().to_bits()), cmp_abs);
            let as_f64 = f64::from(v);
            assert_eq!(x.partial_cmp_abs_f64_bits(as_f64.to_bits()), cmp_abs);
        }
        assert_eq!(x.partial_cmp_abs_f32_bits(f32::NAN.to_bits()), None);
        assert_eq!(x.partial_cmp_abs_f32_bits(f32::INFINITY.to_bits()), Some(Ordering::Less));
        assert_eq!(x.partial_cmp_abs_f32_bits(f32::NEG_INFINITY.to_bits()), Some(Ordering::Less));
        assert_eq!(x.partial_cmp_abs_f32_bits(0.0f32.to_bits()) == Some(Ordering::Equal), u == "0");
    }
}

#[test]
fn test_partial_cmp_primitive_float() {
    let test = |u: &str, v: f32, out: Option<Ordering>| {
        let out_rev = out.map(Ordering::reverse);
        let x = n(u);
        assert_eq!(x.partial_cmp_f32_bits(v.to_bits()), out);
        assert_eq!(x.partial_cmp_f32_bits(v.to_bits()).map(Ordering::reverse), out_rev);

        let w = f64::from(v);
        assert_eq!(x.partial_cmp_f64_bits(w.to_bits()), out);
        assert_eq!(x.partial_cmp_f64_bits(w.to_bits()).map(Ordering::reverse), out_rev);
    };
    test("5", f32::NAN, None);
    test("5", f32::INFINITY, Some(Ordering::Less));
    test("5", f32::NEG_INFINITY, Some(Ordering::Greater));

    test("0", 0.0, Some(Ordering::Equal));
    test("0", -0.0, Some(Ordering::Equal));
    test("0", 5.0, Some(Ordering::Less));
    test("0", -5.0, Some(Ordering::Greater));
    test("123", 123.0, Some(Ordering::Equal));
    test("123", 5.0, Some(Ordering::Greater));
    test("123", -123.0, Some(Ordering::Greater));
    test("1000000000000", 123.0, Some(Ordering::Greater));

    test("1208925819614629174706175", 1.2089258e24, Some(Ordering::Less));
    test("1208925819614629174706176", 1.2089258e24, Some(Ordering::Equal));
    test("1208925819614629174706177", 1.2089258e24, Some(Ordering::Greater));
    test("1208925819614629174706175", -1.2089258e24, Some(Ordering::Greater));
    test("1208925819614629174706176", -1.2089258e24, Some(Ordering::Greater));
    test("1208925819614629174706177", -1.2089258e24, Some(Ordering::Greater));
}

#[test]
fn partial_cmp_primitive_float_properties() {
    let naturals = ["0", "1", "5", "123", "1000000000000"];
    let floats: [f32; 8] = [0.0, -0.0, 1.0, -1.5, 123.0, -123.0, 1.0e30, -1.0e30];
    for u in naturals {
        let x = n(u);
        for v in floats {
            let cmp = x.partial_cmp_f32_bits(v.to_bits());
            assert!(cmp.is_some());
            if v < 0.0 && v != -0.0 {
                assert_eq!(cmp, Some(Ordering::Greater));
            }
            let as_f64 = f64::from(v);
            assert_eq!(x.partial_cmp_f64_bits(as_f64.to_bits()), cmp);
        }
        assert_eq!(x.partial_cmp_f32_bits(f32::NAN.to_bits()), None);
        assert_eq!(x.partial_cmp_f32_bits(f32::NEG_INFINITY.to_bits()), Some(Ordering::Greater));
        assert_eq!(x.partial_cmp_f32_bits(f32::INFINITY.to_bits()), Some(Ordering::Less));
    }
}
