use bignum::float_bits::RoundingMode;
use bignum::float_bits::RoundingMode::{Ceiling, Down, Exact, Floor, Nearest, Up};
use bignum::rational::Rational;

fn q(s: &str) -> Rational {
    Rational::from_str_rational(s).unwrap()
}

fn f32_round(s: &str, rm: RoundingMode) -> u32 {
    q(s).f32_rounding_bits(rm).unwrap()
}

fn f64_round(s: &str, rm: RoundingMode) -> u64 {
    q(s).f64_rounding_bits(rm).unwrap()
}

const F32_MIN_POS_SUB: f32 = 1.0e-45;
const F32_MAX_SUB: f32 = 1.1754942e-38;
const F32_MIN_POS_NORMAL: f32 = 1.1754944e-38;

#[test]
fn test_f32_rounding_from_rational() {
    let test = |s: &str, rm: RoundingMode, out: f32| {
        assert_eq!(f32_round(s, rm), out.to_bits());
    };
    test("3", Exact, 3.0);
    test("-3", Exact, -3.0);
    test("123", Exact, 123.0);
    test("-123", Exact, -123.0);
    test("0", Exact, 0.0);
    test("1000000000", Exact, 1.0e9);
    test("-1000000000", Exact, -1.0e9);
    test("16777216", Exact, 1.6777216e7);
    test("-16777216", Exact, -1.6777216e7);
    test("16777218", Exact, 1.6777218e7);
    test("-16777218", Exact, -1.6777218e7);
    test("16777217", Floor, 1.6777216e7);
    test("16777217", Down, 1.6777216e7);
    test("16777217", Ceiling, 1.6777218e7);
    test("16777217", Up, 1.6777218e7);
    test("16777217", Nearest, 1.6777216e7);
    test("-16777217", Floor, -1.6777218e7);
    test("-16777217", Down, -1.6777216e7);
    test("-16777217", Ceiling, -1.6777216e7);
    test("-16777217", Up, -1.6777218e7);
    test("-16777217", Nearest, -1.6777216e7);
    test("33554432", Exact, 3.3554432e7);
    test("-33554432", Exact, -3.3554432e7);
    test("33554436", Exact, 3.3554436e7);
    test("-33554436", Exact, -3.3554436e7);
    test("33554433", Floor, 3.3554432e7);
    test("33554433", Down, 3.3554432e7);
    test("33554433", Ceiling, 3.3554436e7);
    test("33554433", Up, 3.3554436e7);
    test("33554433", Nearest, 3.3554432e7);
    test("-33554433", Floor, -3.3554436e7);
    test("-33554433", Down, -3.3554432e7);
    test("-33554433", Ceiling, -3.3554432e7);
    test("-33554433", Up, -3.3554436e7);
    test("-33554433", Nearest, -3.3554432e7);
    test("33554434", Nearest, 3.3554432e7);
    test("-33554434", Nearest, -3.3554432e7);
    test("33554435", Nearest, 3.3554436e7);
    test("-33554435", Nearest, -3.3554436e7);
    test("340282346638528859811704183484516925439", Floor, 3.4028233e38);
    test("340282346638528859811704183484516925439", Down, 3.4028233e38);
    test("340282346638528859811704183484516925439", Ceiling, 3.4028235e38);
    test("340282346638528859811704183484516925439", Up, 3.4028235e38);
    test("340282346638528859811704183484516925439", Nearest, 3.4028235e38);
    test("-340282346638528859811704183484516925439", Floor, -3.4028235e38);
    test("-340282346638528859811704183484516925439", Down, -3.4028233e38);
    test("-340282346638528859811704183484516925439", Ceiling, -3.4028233e38);
    test("-340282346638528859811704183484516925439", Up, -3.4028235e38);
    test("-340282346638528859811704183484516925439", Nearest, -3.4028235e38);
    test("340282346638528859811704183484516925440", Exact, 3.4028235e38);
    test("-340282346638528859811704183484516925440", Exact, -3.4028235e38);
    test("340282346638528859811704183484516925441", Floor, 3.4028235e38);
    test("340282346638528859811704183484516925441", Down, 3.4028235e38);
    test("340282346638528859811704183484516925441", Nearest, 3.4028235e38);
    test("340282346638528859811704183484516925441", Ceiling, f32::INFINITY);
    test("340282346638528859811704183484516925441", Up, f32::INFINITY);
    test("-340282346638528859811704183484516925441", Floor, f32::NEG_INFINITY);
    test("-340282346638528859811704183484516925441", Down, -3.4028235e38);
    test("-340282346638528859811704183484516925441", Nearest, -3.4028235e38);
    test("-340282346638528859811704183484516925441", Ceiling, -3.4028235e38);
    test("-340282346638528859811704183484516925441", Up, f32::NEG_INFINITY);
    test("10000000000000000000000000000000000000000000000000000", Floor, 3.4028235e38);
    test("10000000000000000000000000000000000000000000000000000", Down, 3.4028235e38);
    test("10000000000000000000000000000000000000000000000000000", Nearest, 3.4028235e38);
    test("10000000000000000000000000000000000000000000000000000", Ceiling, f32::INFINITY);
    test("10000000000000000000000000000000000000000000000000000", Up, f32::INFINITY);
    test("-10000000000000000000000000000000000000000000000000000", Floor, f32::NEG_INFINITY);
    test("-10000000000000000000000000000000000000000000000000000", Down, -3.4028235e38);
    test("-10000000000000000000000000000000000000000000000000000", Nearest, -3.4028235e38);
    test("-10000000000000000000000000000000000000000000000000000", Ceiling, -3.4028235e38);
    test("-10000000000000000000000000000000000000000000000000000", Up, f32::NEG_INFINITY);
    test("1125899873419263", Floor, 1.12589984e15);
    test("1125899873419263", Down, 1.12589984e15);
    test("1125899873419263", Ceiling, 1.1258999e15);
    test("1125899873419263", Up, 1.1258999e15);
    test("1125899873419263", Nearest, 1.1258999e15);
    test("-1125899873419263", Floor, -1.1258999e15);
    test("-1125899873419263", Down, -1.12589984e15);
    test("-1125899873419263", Ceiling, -1.12589984e15);
    test("-1125899873419263", Up, -1.1258999e15);
    test("-1125899873419263", Nearest, -1.1258999e15);

    test("1/2", Floor, 0.5);
    test("1/2", Down, 0.5);
    test("1/2", Ceiling, 0.5);
    test("1/2", Up, 0.5);
    test("1/2", Nearest, 0.5);
    test("1/2", Exact, 0.5);
    test("-1/2", Floor, -0.5);
    test("-1/2", Down, -0.5);
    test("-1/2", Ceiling, -0.5);
    test("-1/2", Up, -0.5);
    test("-1/2", Nearest, -0.5);
    test("-1/2", Exact, -0.5);
    test("1/3", Floor, 0.3333333);
    test("1/3", Down, 0.3333333);
    test("1/3", Ceiling, 0.33333334);
    test("1/3", Up, 0.33333334);
    test("1/3", Nearest, 0.33333334);
    test("-1/3", Floor, -0.33333334);
    test("-1/3", Down, -0.3333333);
    test("-1/3", Ceiling, -0.3333333);
    test("-1/3", Up, -0.33333334);
    test("-1/3", Nearest, -0.33333334);

    // subnormal
    test("1/10000000000000000000000000000000000000000", Floor, 1.0e-40);
    test("1/10000000000000000000000000000000000000000", Down, 1.0e-40);
    test("1/10000000000000000000000000000000000000000", Ceiling, 1.00001e-40);
    test("1/10000000000000000000000000000000000000000", Up, 1.00001e-40);
    test("1/10000000000000000000000000000000000000000", Nearest, 1.0e-40);
    test("-1/10000000000000000000000000000000000000000", Floor, -1.00001e-40);
    test("-1/10000000000000000000000000000000000000000", Down, -1.0e-40);
    test("-1/10000000000000000000000000000000000000000", Ceiling, -1.0e-40);
    test("-1/10000000000000000000000000000000000000000", Up, -1.00001e-40);
    test("-1/10000000000000000000000000000000000000000", Nearest, -1.0e-40);

    // less than the least subnormal
    test("1/100000000000000000000000000000000000000000000000000", Floor, 0.0);
    test("1/100000000000000000000000000000000000000000000000000", Down, 0.0);
    test("1/100000000000000000000000000000000000000000000000000", Ceiling, 1.0e-45);
    test("1/100000000000000000000000000000000000000000000000000", Up, 1.0e-45);
    test("1/100000000000000000000000000000000000000000000000000", Nearest, 0.0);
    test("-1/100000000000000000000000000000000000000000000000000", Floor, -1.0e-45);
    test("-1/100000000000000000000000000000000000000000000000000", Down, -0.0);
    test("-1/100000000000000000000000000000000000000000000000000", Ceiling, -0.0);
    test("-1/100000000000000000000000000000000000000000000000000", Up, -1.0e-45);
    test("-1/100000000000000000000000000000000000000000000000000", Nearest, -0.0);

    // half of the least positive
    test("1/1427247692705959881058285969449495136382746624", Floor, 0.0);
    test("1/1427247692705959881058285969449495136382746624", Down, 0.0);
    test("1/1427247692705959881058285969449495136382746624", Ceiling, 1.0e-45);
    test("1/1427247692705959881058285969449495136382746624", Up, 1.0e-45);
    test("1/1427247692705959881058285969449495136382746624", Nearest, 0.0);
    test("-1/1427247692705959881058285969449495136382746624", Floor, -1.0e-45);
    test("-1/1427247692705959881058285969449495136382746624", Down, -0.0);
    test("-1/1427247692705959881058285969449495136382746624", Ceiling, -0.0);
    test("-1/1427247692705959881058285969449495136382746624", Up, -1.0e-45);
    test("-1/1427247692705959881058285969449495136382746624", Nearest, -0.0);

    // just over half of the least positive; Nearest rounds up
    test("88819109620612751463292030150471001/126765060022822940149670320537600000000000000000000000000000000000000000000000000", Floor, 0.0);
    test("88819109620612751463292030150471001/126765060022822940149670320537600000000000000000000000000000000000000000000000000", Down, 0.0);
    test("88819109620612751463292030150471001/126765060022822940149670320537600000000000000000000000000000000000000000000000000", Ceiling, 1.0e-45);
    test("88819109620612751463292030150471001/126765060022822940149670320537600000000000000000000000000000000000000000000000000", Up, 1.0e-45);
    test("88819109620612751463292030150471001/126765060022822940149670320537600000000000000000000000000000000000000000000000000", Nearest, 1.0e-45);
    test("-88819109620612751463292030150471001/126765060022822940149670320537600000000000000000000000000000000000000000000000000", Floor, -1.0e-45);
    test("-88819109620612751463292030150471001/126765060022822940149670320537600000000000000000000000000000000000000000000000000", Down, -0.0);
    test("-88819109620612751463292030150471001/126765060022822940149670320537600000000000000000000000000000000000000000000000000", Ceiling, -0.0);
    test("-88819109620612751463292030150471001/126765060022822940149670320537600000000000000000000000000000000000000000000000000", Up, -1.0e-45);
    test("-88819109620612751463292030150471001/126765060022822940149670320537600000000000000000000000000000000000000000000000000", Nearest, -1.0e-45);

    // halfway between the largest subnormal and the least normal
    test("16777215/1427247692705959881058285969449495136382746624", Floor, 1.1754942e-38);
    test("16777215/1427247692705959881058285969449495136382746624", Down, 1.1754942e-38);
    test("16777215/1427247692705959881058285969449495136382746624", Ceiling, 1.1754944e-38);
    test("16777215/1427247692705959881058285969449495136382746624", Up, 1.1754944e-38);
    test("16777215/1427247692705959881058285969449495136382746624", Nearest, 1.1754944e-38);
}

#[test]
fn f32_rounding_from_rational_fail() {
    assert!(q("340282346638528859811704183484516925439")
        .f32_rounding_bits(RoundingMode::Exact)
        .is_none());
    assert!(q("340282346638528859811704183484516925441")
        .f32_rounding_bits(RoundingMode::Exact)
        .is_none());
    assert!(q("16777217").f32_rounding_bits(RoundingMode::Exact).is_none());
    assert!(q("10000000000000000000000000000000000000000000000000000")
        .f32_rounding_bits(RoundingMode::Exact)
        .is_none());
    assert!(q("1/10").f32_rounding_bits(RoundingMode::Exact).is_none());
}

#[test]
fn f32_rounding_from_rational_ref_fail() {
    let xs = [
        "340282346638528859811704183484516925439",
        "340282346638528859811704183484516925441",
        "16777217",
        "10000000000000000000000000000000000000000000000000000",
        "1/10",
    ];
    for s in xs {
        let x = q(s);
        assert!(x.f32_rounding_bits(RoundingMode::Exact).is_none());
    }
}

#[test]
fn test_f64_rounding_from_rational() {
    let test = |s: &str, rm: RoundingMode, out: f64| {
        assert_eq!(f64_round(s, rm), out.to_bits());
    };
    test("3", Exact, 3.0);
    test("-3", Exact, -3.0);
    test("123", Exact, 123.0);
    test("-123", Exact, -123.0);
    test("0", Exact, 0.0);
    test("100000000000000000000", Exact, 1.0e20);
    test("-100000000000000000000", Exact, -1.0e20);
    test("9007199254740992", Exact, 9.007199254740992e15);
    test("-9007199254740992", Exact, -9.007199254740992e15);
    test("9007199254740994", Exact, 9.007199254740994e15);
    test("-9007199254740994", Exact, -9.007199254740994e15);
    test("9007199254740993", Floor, 9.007199254740992e15);
    test("9007199254740993", Down, 9.007199254740992e15);
    test("9007199254740993", Ceiling, 9.007199254740994e15);
    test("9007199254740993", Up, 9.007199254740994e15);
    test("9007199254740993", Nearest, 9.007199254740992e15);
    test("-9007199254740993", Floor, -9.007199254740994e15);
    test("-9007199254740993", Down, -9.007199254740992e15);
    test("-9007199254740993", Ceiling, -9.007199254740992e15);
    test("-9007199254740993", Up, -9.007199254740994e15);
    test("-9007199254740993", Nearest, -9.007199254740992e15);
    test("18014398509481984", Exact, 1.8014398509481984e16);
    test("-18014398509481984", Exact, -1.8014398509481984e16);
    test("18014398509481988", Exact, 1.8014398509481988e16);
    test("-18014398509481988", Exact, -1.8014398509481988e16);
    test("18014398509481985", Floor, 1.8014398509481984e16);
    test("18014398509481985", Down, 1.8014398509481984e16);
    test("18014398509481985", Ceiling, 1.8014398509481988e16);
    test("18014398509481985", Up, 1.8014398509481988e16);
    test("18014398509481985", Nearest, 1.8014398509481984e16);
    test("-18014398509481985", Floor, -1.8014398509481988e16);
    test("-18014398509481985", Down, -1.8014398509481984e16);
    test("-18014398509481985", Ceiling, -1.8014398509481984e16);
    test("-18014398509481985", Up, -1.8014398509481988e16);
    test("-18014398509481985", Nearest, -1.8014398509481984e16);
    test("18014398509481986", Nearest, 1.8014398509481984e16);
    test("-18014398509481986", Nearest, -1.8014398509481984e16);
    test("18014398509481987", Nearest, 1.8014398509481988e16);
    test("-18014398509481987", Nearest, -1.8014398509481988e16);

    test("1/2", Floor, 0.5);
    test("1/2", Down, 0.5);
    test("1/2", Ceiling, 0.5);
    test("1/2", Up, 0.5);
    test("1/2", Nearest, 0.5);
    test("1/2", Exact, 0.5);
    test("-1/2", Floor, -0.5);
    test("-1/2", Down, -0.5);
    test("-1/2", Ceiling, -0.5);
    test("-1/2", Up, -0.5);
    test("-1/2", Nearest, -0.5);
    test("-1/2", Exact, -0.5);
    test("1/3", Floor, 0.3333333333333333);
    test("1/3", Down, 0.3333333333333333);
    test("1/3", Ceiling, 0.33333333333333337);
    test("1/3", Up, 0.33333333333333337);
    test("1/3", Nearest, 0.3333333333333333);
    test("-1/3", Floor, -0.33333333333333337);
    test("-1/3", Down, -0.3333333333333333);
    test("-1/3", Ceiling, -0.3333333333333333);
    test("-1/3", Up, -0.33333333333333337);
    test("-1/3", Nearest, -0.3333333333333333);
}

const F64_TOP_EVEN: &str = "179769313486231570814527423731704356798070567525844996598917476803157260780028538760589558632766878171540458953514382464234321326889464182768467546703537516986049910576551282076245490090389328944075868508455133942304583236903222948165808559332123348274797826204144723168738177180919299881250404026184124858368";
const F64_TOP_M1: &str = "179769313486231570814527423731704356798070567525844996598917476803157260780028538760589558632766878171540458953514382464234321326889464182768467546703537516986049910576551282076245490090389328944075868508455133942304583236903222948165808559332123348274797826204144723168738177180919299881250404026184124858367";
const F64_TOP_P1: &str = "179769313486231570814527423731704356798070567525844996598917476803157260780028538760589558632766878171540458953514382464234321326889464182768467546703537516986049910576551282076245490090389328944075868508455133942304583236903222948165808559332123348274797826204144723168738177180919299881250404026184124858369";

#[test]
fn f64_rounding_from_rational_fail() {
    assert!(q(F64_TOP_M1).f64_rounding_bits(RoundingMode::Exact).is_none());
    assert!(q(F64_TOP_P1).f64_rounding_bits(RoundingMode::Exact).is_none());
    assert!(q("9007199254740993").f64_rounding_bits(RoundingMode::Exact).is_none());
    assert!(q("1/10").f64_rounding_bits(RoundingMode::Exact).is_none());
}

#[test]
fn f64_rounding_from_rational_ref_fail() {
    let xs = [F64_TOP_M1, F64_TOP_P1, "9007199254740993", "1/10"];
    for s in xs {
        let x = q(s);
        assert!(x.f64_rounding_bits(RoundingMode::Exact).is_none());
    }
}

#[test]
fn test_f32_try_from_rational() {
    let test = |s: &str, out: Option<f32>| {
        let u = q(s);
        assert_eq!(u.f32_try_bits(), out.map(|f| f.to_bits()));
        assert_eq!(u.f32_convertible(), out.is_some());
    };
    test("3", Some(3.0));
    test("-3", Some(-3.0));
    test("123", Some(123.0));
    test("-123", Some(-123.0));
    test("0", Some(0.0));
    test("1000000000", Some(1.0e9));
    test("-1000000000", Some(-1.0e9));
    test("16777216", Some(1.6777216e7));
    test("-16777216", Some(-1.6777216e7));
    test("16777218", Some(1.6777218e7));
    test("-16777218", Some(-1.6777218e7));
    test("16777217", None);
    test("-16777217", None);
    test("33554432", Some(3.3554432e7));
    test("-33554432", Some(-3.3554432e7));
    test("33554436", Some(3.3554436e7));
    test("-33554436", Some(-3.3554436e7));
    test("33554433", None);
    test("-33554433", None);
    test("33554434", None);
    test("-33554434", None);
    test("33554435", None);
    test("-33554435", None);
    test("340282346638528859811704183484516925439", None);
    test("-340282346638528859811704183484516925439", None);
    test("340282346638528859811704183484516925440", Some(3.4028235e38));
    test("-340282346638528859811704183484516925440", Some(-3.4028235e38));
    test("340282346638528859811704183484516925441", None);
    test("-340282346638528859811704183484516925441", None);
    test("10000000000000000000000000000000000000000000000000000", None);
    test("-10000000000000000000000000000000000000000000000000000", None);

    test("1/2", Some(0.5));
    test("-1/2", Some(-0.5));
    test("1/3", None);
    test("-1/3", None);
    test("1/713623846352979940529142984724747568191373312", Some(F32_MIN_POS_SUB));
    test("-1/713623846352979940529142984724747568191373312", Some(-F32_MIN_POS_SUB));
    test("8388607/713623846352979940529142984724747568191373312", Some(F32_MAX_SUB));
    test("-8388607/713623846352979940529142984724747568191373312", Some(-F32_MAX_SUB));
    test("1/85070591730234615865843651857942052864", Some(F32_MIN_POS_NORMAL));
    test("-1/85070591730234615865843651857942052864", Some(-F32_MIN_POS_NORMAL));
}

#[test]
fn test_f64_try_from_rational() {
    let test = |s: &str, out: Option<f64>| {
        let u = q(s);
        assert_eq!(u.f64_try_bits(), out.map(|f| f.to_bits()));
        assert_eq!(u.f64_convertible(), out.is_some());
    };
    test("3", Some(3.0));
    test("-3", Some(-3.0));
    test("123", Some(123.0));
    test("-123", Some(-123.0));
    test("0", Some(0.0));
    test("1000000000", Some(1.0e9));
    test("-1000000000", Some(-1.0e9));
    test("9007199254740992", Some(9.007199254740992e15));
    test("-9007199254740992", Some(-9.007199254740992e15));
    test("9007199254740994", Some(9.007199254740994e15));
    test("-9007199254740994", Some(-9.007199254740994e15));
    test("9007199254740993", None);
    test("-9007199254740993", None);
    test("18014398509481984", Some(1.8014398509481984e16));
    test("-18014398509481984", Some(-1.8014398509481984e16));
    test("18014398509481988", Some(1.8014398509481988e16));
    test("-18014398509481988", Some(-1.8014398509481988e16));
    test("18014398509481985", None);
    test("-18014398509481985", None);
    test("18014398509481986", None);
    test("-18014398509481986", None);
    test("18014398509481987", None);
    test("-18014398509481987", None);
    test(F64_TOP_M1, None);
    test(F64_TOP_EVEN, Some(1.7976931348623157e308));
    test(F64_TOP_P1, None);

    test("1/2", Some(0.5));
    test("-1/2", Some(-0.5));
    test("1/3", None);
    test("-1/3", None);
}

#[test]
fn test_f32_exact_from_rational() {
    let test = |s: &str, out: f32| {
        let u = q(s);
        assert_eq!(u.f32_try_bits().unwrap(), out.to_bits());
        assert_eq!(u.f32_rounding_bits(RoundingMode::Exact).unwrap(), out.to_bits());
    };
    test("3", 3.0);
    test("-3", -3.0);
    test("123", 123.0);
    test("-123", -123.0);
    test("0", 0.0);
    test("1000000000", 1.0e9);
    test("-1000000000", -1.0e9);
    test("16777216", 1.6777216e7);
    test("-16777216", -1.6777216e7);
    test("16777218", 1.6777218e7);
    test("-16777218", -1.6777218e7);
    test("33554432", 3.3554432e7);
    test("-33554432", -3.3554432e7);
    test("33554436", 3.3554436e7);
    test("-33554436", -3.3554436e7);
    test("340282346638528859811704183484516925440", 3.4028235e38);
    test("-340282346638528859811704183484516925440", -3.4028235e38);
}

#[test]
fn f32_exact_from_rational_fail() {
    let xs = [
        "16777217",
        "-16777217",
        "33554433",
        "-33554433",
        "33554434",
        "-33554434",
        "33554435",
        "-33554435",
        "340282346638528859811704183484516925439",
        "-340282346638528859811704183484516925439",
        "340282346638528859811704183484516925441",
        "-340282346638528859811704183484516925441",
        "10000000000000000000000000000000000000000000000000000",
        "-10000000000000000000000000000000000000000000000000000",
        "1/3",
        "-1/3",
    ];
    for s in xs {
        assert!(q(s).f32_try_bits().is_none());
    }
}

#[test]
fn f32_exact_from_rational_ref_fail() {
    let xs = [
        "16777217",
        "-16777217",
        "33554433",
        "-33554433",
        "33554434",
        "-33554434",
        "33554435",
        "-33554435",
        "340282346638528859811704183484516925439",
        "-340282346638528859811704183484516925439",
        "340282346638528859811704183484516925441",
        "-340282346638528859811704183484516925441",
        "10000000000000000000000000000000000000000000000000000",
        "-10000000000000000000000000000000000000000000000000000",
        "1/3",
        "-1/3",
    ];
    for s in xs {
        let x = q(s);
        assert!(x.f32_rounding_bits(RoundingMode::Exact).is_none());
    }
}

#[test]
fn test_f64_exact_from_rational() {
    let test = |s: &str, out: f64| {
        let u = q(s);
        assert_eq!(u.f64_try_bits().unwrap(), out.to_bits());
        assert_eq!(u.f64_rounding_bits(RoundingMode::Exact).unwrap(), out.to_bits());
    };
    test("3", 3.0);
    test("-3", -3.0);
    test("123", 123.0);
    test("-123", -123.0);
    test("0", 0.0);
    test("1000000000", 1.0e9);
    test("-1000000000", -1.0e9);
    test("9007199254740992", 9.007199254740992e15);
    test("-9007199254740992", -9.007199254740992e15);
    test("9007199254740994", 9.007199254740994e15);
    test("-9007199254740994", -9.007199254740994e15);
    test("18014398509481984", 1.8014398509481984e16);
    test("-18014398509481984", -1.8014398509481984e16);
    test("18014398509481988", 1.8014398509481988e16);
    test("-18014398509481988", -1.8014398509481988e16);
    test(F64_TOP_EVEN, 1.7976931348623157e308);
}

#[test]
fn f64_exact_from_rational_fail() {
    let xs = [
        "18014398509481983",
        "-18014398509481983",
        "18014398509481985",
        "-18014398509481985",
        "18014398509481986",
        "-18014398509481986",
        "18014398509481987",
        "-18014398509481987",
        F64_TOP_M1,
        F64_TOP_P1,
        "1/3",
        "-1/3",
    ];
    for s in xs {
        assert!(q(s).f64_try_bits().is_none());
    }
}

#[test]
fn f64_exact_from_rational_ref_fail() {
    let xs = [
        "18014398509481983",
        "-18014398509481983",
        "18014398509481985",
        "-18014398509481985",
        "18014398509481986",
        "-18014398509481986",
        "18014398509481987",
        "-18014398509481987",
        F64_TOP_M1,
        F64_TOP_P1,
        "1/3",
        "-1/3",
    ];
    for s in xs {
        let x = q(s);
        assert!(x.f64_rounding_bits(RoundingMode::Exact).is_none());
    }
}

#[test]
fn test_f32_convertible_from_rational() {
    let test = |s: &str, out: bool| {
        let u = q(s);
        assert_eq!(u.f32_convertible(), out);
    };
    test("3", true);
    test("-3", true);
    test("123", true);
    test("-123", true);
    test("0", true);
    test("1000000000", true);
    test("-1000000000", true);
    test("16777216", true);
    test("-16777216", true);
    test("16777218", true);
    test("-16777218", true);
    test("16777217", false);
    test("-16777217", false);
    test("33554432", true);
    test("-33554432", true);
    test("33554436", true);
    test("-33554436", true);
    test("33554433", false);
    test("-33554433", false);
    test("33554434", false);
    test("-33554434", false);
    test("33554435", false);
    test("-33554435", false);
    test("340282346638528859811704183484516925439", false);
    test("-340282346638528859811704183484516925439", false);
    test("340282346638528859811704183484516925440", true);
    test("-340282346638528859811704183484516925440", true);
    test("340282346638528859811704183484516925441", false);
    test("-340282346638528859811704183484516925441", false);
    test("10000000000000000000000000000000000000000000000000000", false);
    test("-10000000000000000000000000000000000000000000000000000", false);
    test("1/3", false);
    test("-1/3", false);
}

#[test]
fn test_f64_convertible_from_rational() {
    let test = |s: &str, out: bool| {
        let u = q(s);
        assert_eq!(u.f64_convertible(), out);
    };
    test("3", true);
    test("-3", true);
    test("123", true);
    test("-123", true);
    test("0", true);
    test("1000000000", true);
    test("-1000000000", true);
    test("9007199254740992", true);
    test("-9007199254740992", true);
    test("9007199254740994", true);
    test("-9007199254740994", true);
    test("9007199254740993", false);
    test("-9007199254740993", false);
    test("18014398509481984", true);
    test("-18014398509481984", true);
    test("18014398509481988", true);
    test("-18014398509481988", true);
    test("18014398509481985", false);
    test("-18014398509481985", false);
    test("18014398509481986", false);
    test("-18014398509481986", false);
    test("18014398509481987", false);
    test("-18014398509481987", false);
    test(F64_TOP_M1, false);
    test(F64_TOP_EVEN, true);
    test(F64_TOP_P1, false);
    test("1/3", false);
    test("-1/3", false);
}

#[test]
fn float_try_from_rational_properties() {
    let xs = [
        "0", "3", "-3", "1/2", "-1/2", "1/3", "-1/3", "16777216", "16777217", "123", "-123",
        "9007199254740993", "340282346638528859811704183484516925440",
    ];
    for s in xs {
        let x = q(s);
        let f32_bits = x.f32_try_bits();
        assert_eq!(f32_bits.is_some(), x.f32_convertible());
        if let Some(b) = f32_bits {
            assert_eq!(x.f32_rounding_bits(RoundingMode::Exact), Some(b));
            assert_eq!(x.f32_rounding_bits(RoundingMode::Floor), Some(b));
            assert_eq!(x.f32_rounding_bits(RoundingMode::Ceiling), Some(b));
            assert_eq!(x.f32_rounding_bits(RoundingMode::Nearest), Some(b));
        }
        let f64_bits = x.f64_try_bits();
        assert_eq!(f64_bits.is_some(), x.f64_convertible());
        if let Some(b) = f64_bits {
            assert_eq!(x.f64_rounding_bits(RoundingMode::Exact), Some(b));
            assert_eq!(x.f64_rounding_bits(RoundingMode::Floor), Some(b));
            assert_eq!(x.f64_rounding_bits(RoundingMode::Ceiling), Some(b));
            assert_eq!(x.f64_rounding_bits(RoundingMode::Nearest), Some(b));
        }
    }
}

#[test]
fn float_convertible_from_rational_properties() {
    let xs = ["0", "3", "1/2", "1/3", "16777216", "16777217", "9007199254740993"];
    for s in xs {
        let x = q(s);
        let c32 = x.f32_convertible();
        assert_eq!(c32, x.f32_try_bits().is_some());
        let c64 = x.f64_convertible();
        assert_eq!(c64, x.f64_try_bits().is_some());
        // every value exactly representable in 32 bits also is in 64 bits
        if c32 {
            assert!(c64);
        }
    }
}
