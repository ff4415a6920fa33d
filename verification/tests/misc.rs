use bignum::integer::Integer;
use bignum::natural::Natural;
use std::cmp::Ordering;
use bignum::primes::{limbs_index_of_next_false_bit, PrimesIterator, PrimesLessThanIterator};
use bignum::util::{
    integer_bit_bucketer, natural_bit_bucketer, natural_bit_ratio_bucketer,
    pair_1_natural_bit_bucketer, rle_decode, test_cmp_helper, test_custom_cmp_helper,
    test_eq_helper, triple_3_integer_bit_bucketer, triple_3_natural_bit_bucketer,
};

fn n(s: &str) -> Natural {
    Natural::from_str_natural(s).unwrap()
}

fn integer_of(s: &str) -> Integer {
    Integer::from_str_integer(s).unwrap()
}

#[test]
fn integer_flip_bit() {
    let test = |start: &str, index: u64, out: &str| {
        let mut x = integer_of(start);
        x.flip_bit(index);
        assert!(x.is_valid());
        assert_eq!(x.to_string(), out);
        x.flip_bit(index);
        assert_eq!(x.to_string(), start);
    };
    test("0", 10, "1024");
    test("100", 0, "101");
    test("1000000000000", 10, "1000000001024");
    test("-1", 10, "-1025");
    test("-33", 5, "-1");
    test("-32", 0, "-31");
    test("-1000000000000", 10, "-999999998976");
}

#[test]
fn integer_ordering() {
    assert_eq!(integer_of("-123").cmp(&integer_of("-122")), Ordering::Less);
    assert_eq!(integer_of("-123").cmp(&integer_of("-124")), Ordering::Greater);
    assert_eq!(integer_of("-123").cmp(&integer_of("123")), Ordering::Less);
    assert_eq!(integer_of("123").cmp(&integer_of("123")), Ordering::Equal);
    assert_eq!(integer_of("-123").partial_cmp(&integer_of("-122")), Some(Ordering::Less));
    assert_eq!(integer_of("-5").cmp_abs(&integer_of("3")), Ordering::Greater);
    assert_eq!(integer_of("-5").cmp_abs(&integer_of("-5")), Ordering::Equal);
    let increasing: Vec<Integer> =
        ["-1000000000000", "-123", "-1", "0", "5", "123", "1000000000000"]
            .iter()
            .map(|s| integer_of(s))
            .collect();
    assert_eq!(test_custom_cmp_helper(&increasing), None);
}

#[test]
fn integer_times_i32() {
    assert_eq!(Integer::zero().times_i32(123).to_string(), "0");
    assert_eq!(integer_of("123").times_i32(1).to_string(), "123");
    assert_eq!(integer_of("123").times_i32(-456).to_string(), "-56088");
    assert_eq!(integer_of("-1000000000000").times_i32(123).to_string(), "-123000000000000");
    assert_eq!(integer_of("-1").times_i32(i32::MIN).to_string(), "2147483648");
    let mut x = integer_of("-1");
    for m in [-1, -2, -3, -4] {
        x = x.times_i32(m);
    }
    assert_eq!(x.to_string(), "-24");
}

#[test]
fn natural_helpers_accept_increasing_lists() {
    let increasing: Vec<Natural> =
        ["0", "1", "122", "123", "4294967296", "1000000000000"].iter().map(|s| n(s)).collect();
    assert_eq!(test_eq_helper(&increasing), None);
    assert_eq!(test_cmp_helper(&increasing), None);
    let bad: Vec<Natural> = ["5", "5"].iter().map(|s| n(s)).collect();
    assert!(test_eq_helper(&bad).is_some());
    assert!(test_cmp_helper(&bad).is_some());
}

#[test]
fn rle_decode_expands_runs() {
    assert_eq!(rle_decode(&vec![(7, 3), (9, 1), (0, 0), (2, 2)]), vec![7, 7, 7, 9, 2, 2]);
    assert_eq!(rle_decode(&vec![]), Vec::<u32>::new());
}

#[test]
fn bucketers_report_bit_sizes() {
    assert_eq!(natural_bit_bucketer(&n("0")), 0);
    assert_eq!(natural_bit_bucketer(&n("1")), 1);
    assert_eq!(natural_bit_bucketer(&n("255")), 8);
    assert_eq!(natural_bit_bucketer(&n("256")), 9);
    assert_eq!(pair_1_natural_bit_bucketer(&n("255"), 7), 8);
    assert_eq!(triple_3_natural_bit_bucketer(1, 2, &n("1000000000000")), 40);
    assert_eq!(integer_bit_bucketer(&integer_of("-255")), 8);
    assert_eq!(triple_3_integer_bit_bucketer(1, 2, &integer_of("-256")), 9);
    assert_eq!(natural_bit_ratio_bucketer(&n("65536"), &n("255")), 2);
}

#[test]
fn primes_less_than_iterator_yields_all_primes() {
    let mut it = PrimesLessThanIterator::new(30);
    let mut got = Vec::new();
    while let Some(p) = it.next() {
        got.push(p);
    }
    assert_eq!(got, vec![2, 3, 5, 7, 11, 13, 17, 19, 23, 29]);
    let mut none = PrimesLessThanIterator::new(1);
    assert_eq!(none.next(), None);
}

#[test]
fn primes_iterator_yields_primes_in_order() {
    let mut it = PrimesIterator::new();
    let mut got = Vec::new();
    for _ in 0..10 {
        got.push(it.next().unwrap());
    }
    assert_eq!(got, vec![2, 3, 5, 7, 11, 13, 17, 19, 23, 29]);
}

#[test]
fn integer_invariants() {
    for s in ["0", "1", "-1", "123", "-1000000000000"] {
        let x = integer_of(s);
        assert!(x.is_valid());
        if x.abs.is_zero() {
            assert!(x.sign);
        }
    }
    // every Natural reachable from the public operations is canonical
    let v = Natural::from_limbs_asc(vec![0, 0, 0]);
    assert!(v.is_valid());
    assert!(v.is_zero());
}

#[test]
fn integer_plus_and_neg() {
    assert_eq!(integer_of("123").plus(&integer_of("-456")).to_string(), "-333");
    assert_eq!(integer_of("-123").plus(&integer_of("456")).to_string(), "333");
    assert_eq!(integer_of("-123").plus(&integer_of("-456")).to_string(), "-579");
    assert_eq!(integer_of("123").neg().to_string(), "-123");
    assert_eq!(integer_of("0").neg().to_string(), "0");
}

#[test]
fn next_false_bit_scan() {
    assert_eq!(limbs_index_of_next_false_bit(&[0b1011], 0), Some(2));
    assert_eq!(limbs_index_of_next_false_bit(&[0b1011], 3), Some(4));
    assert_eq!(limbs_index_of_next_false_bit(&[u64::MAX], 0), None);
    assert_eq!(limbs_index_of_next_false_bit(&[u64::MAX, 0b1], 0), Some(65));
    assert_eq!(limbs_index_of_next_false_bit(&[], 0), None);
    assert_eq!(limbs_index_of_next_false_bit(&[0], 100), None);
}
