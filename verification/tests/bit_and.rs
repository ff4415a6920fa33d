use bignum::integer::Integer;
use bignum::natural_and::{limbs_and_pos_neg, limbs_and_pos_neg_in_place_left};
use bignum::natural_and_neg::{
    limbs_and_neg_neg, limbs_slice_and_neg_neg_in_place_left, limbs_vec_and_neg_neg_in_place_left,
};

fn integer_of(s: &str) -> Integer {
    Integer::from_str_integer(s).unwrap()
}

#[test]
fn bitand_matches_known_values() {
    let test = |a: &str, b: &str, out: &str| {
        let x = integer_of(a);
        let y = integer_of(b);
        let r = x.bitand(&y);
        assert!(r.is_valid());
        assert_eq!(r.to_string(), out);
        let mut z = x.clone();
        z.bitand_assign(&y);
        assert_eq!(z, r);
    };
    test("-123", "-456", "-512");
    test("123", "456", "72");
    test("-123", "456", "384");
    test("123", "-456", "56");
    test("0", "-123", "0");
    test("-1", "-1", "-1");
    test("-1000000000000", "-1000000000001", "-1000000004096");
    test(
        "3332140978726732268209104861552",
        "-478178031043645514337313657924474082957368",
        "2539024739207132029580719268160",
    );
}

#[test]
fn bitand_is_commutative_and_idempotent() {
    let values = ["0", "1", "-1", "123", "-123", "456", "-456", "1000000000000", "-1000000000000"];
    for a in values {
        for b in values {
            let x = integer_of(a);
            let y = integer_of(b);
            assert_eq!(x.bitand(&y), y.bitand(&x));
        }
        let x = integer_of(a);
        assert_eq!(x.bitand(&x), x);
    }
}

#[test]
fn bitand_agrees_with_machine_words() {
    let values: [i64; 8] = [0, 1, -1, 123, -456, 0x70ff_ffff, -0x70f0_f0f0, 99999];
    for a in values {
        for b in values {
            let x = Integer::from_i64(a);
            let y = Integer::from_i64(b);
            let r = x.bitand(&y);
            assert_eq!(r, Integer::from_i64(a & b));
        }
    }
}

#[test]
fn bitand_assign_chain() {
    let mut x = integer_of("-1");
    x.bitand_assign(&Integer::from_i64(0x70ff_ffff));
    x.bitand_assign(&Integer::from_i64(0x7ff0_ffff));
    x.bitand_assign(&Integer::from_i64(0x7fff_f0ff));
    x.bitand_assign(&Integer::from_i64(0x7fff_fff0));
    assert_eq!(x, Integer::from_i64(0x70f0_f0f0));
}

#[test]
fn limbs_and_pos_neg_matches_words() {
    // 5 & -3 == 5 & ...11101 == 5 - (5 & 2)
    assert_eq!(limbs_and_pos_neg(&[5], &[3]), vec![5]);
    assert_eq!(limbs_and_pos_neg(&[6], &[4]), vec![4]);
    assert_eq!(limbs_and_pos_neg(&[0, 1], &[1]), vec![0, 1]);
    assert_eq!(limbs_and_pos_neg(&[1], &[0, 1]), Vec::<u32>::new());
    let mut xs = vec![6u32, 7];
    limbs_and_pos_neg_in_place_left(&mut xs, &[4]);
    assert_eq!(xs, vec![4, 7]);
}

#[test]
fn limbs_and_neg_neg_matches_words() {
    // -1 & -1 == -1: magnitudes [1] and [1] give magnitude [1]
    assert_eq!(limbs_and_neg_neg(&[1], &[1]), vec![1]);
    // -(2^32) & -1 == -(2^32)
    assert_eq!(limbs_and_neg_neg(&[0, 1], &[1]), vec![0, 1]);
    // -123 & -456 == -512
    assert_eq!(limbs_and_neg_neg(&[123], &[456]), vec![512]);
    let mut xs = vec![123u32];
    let seen = limbs_slice_and_neg_neg_in_place_left(&mut xs, &[456]);
    assert!(seen);
    assert_eq!(xs, vec![512]);
    let mut ys = vec![0xffff_ffffu32];
    let seen = limbs_slice_and_neg_neg_in_place_left(&mut ys, &[0xffff_ffff]);
    assert!(seen);
    assert_eq!(ys, vec![0xffff_ffff]);
    // the deferred carry runs off the top: the result needs one more limb
    let mut zs = vec![0xffff_0001u32];
    let seen = limbs_slice_and_neg_neg_in_place_left(&mut zs, &[0x0001_0000]);
    assert!(!seen);
    assert_eq!(zs, vec![0]);
    let mut ws = vec![0xffff_0001u32];
    limbs_vec_and_neg_neg_in_place_left(&mut ws, &[0x0001_0000]);
    assert_eq!(ws, vec![0, 1]);
    assert_eq!(limbs_and_neg_neg(&[0xffff_0001], &[0x0001_0000]), vec![0, 1]);
}

#[test]
fn bitand_with_large_powers() {
    // (-(10^12)) & (-(10^12 + 1)) == -1000000004096
    let ten = Integer::from_i64(10);
    let mut p = ten.pow(12);
    assert_eq!(p.to_string(), "1000000000000");
    p = p.neg();
    let q = integer_of("-1000000000001");
    let r = p.bitand(&q);
    assert_eq!(r.to_string(), "-1000000004096");
}
