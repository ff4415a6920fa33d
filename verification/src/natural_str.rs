//! Decimal reading and writing for `Natural`.

use crate::natural::Natural;
use vstd::prelude::*;
use vstd::string::{StrSliceExecFns, StringExecFns};

verus! {

/// The number a sequence of decimal digit characters denotes, most
/// significant digit first.
pub open spec fn dec_val(s: Seq<char>) -> nat
    decreases s.len(),
{
    if s.len() == 0 {
        0
    } else {
        (dec_val(s.drop_last()) * 10 + (s.last() as u32) - 48) as nat
    }
}

/// Whether every character is a decimal digit.
pub open spec fn all_digits(s: Seq<char>) -> bool {
    forall|j: int| 0 <= j < s.len() ==> 48 <= #[trigger] (s[j] as u32) <= 57
}

/// A canonical decimal numeral: nonempty, digits only, no leading zero.
pub open spec fn is_dec_str(s: Seq<char>) -> bool {
    s.len() > 0 && all_digits(s) && (s.len() > 1 ==> s[0] as u32 != 48)
}

/// The digit characters, least significant first, that a digit-value vector
/// spells when read back to front.
spec fn digits_val(s: Seq<u32>) -> nat
    decreases s.len(),
{
    if s.len() == 0 {
        0
    } else {
        (s[0] + 10 * digits_val(s.drop_first())) as nat
    }
}

/// Returns the one-character numeral of a digit.
fn digit_str(d: u32) -> (r: &'static str)
    requires
        d < 10,
    ensures
        r@.len() == 1,
        r@[0] as u32 == 48 + d,
{
    let r = match d {
        0 => "0",
        1 => "1",
        2 => "2",
        3 => "3",
        4 => "4",
        5 => "5",
        6 => "6",
        7 => "7",
        8 => "8",
        _ => "9",
    };
    proof {
        reveal_strlit("0");
        reveal_strlit("1");
        reveal_strlit("2");
        reveal_strlit("3");
        reveal_strlit("4");
        reveal_strlit("5");
        reveal_strlit("6");
        reveal_strlit("7");
        reveal_strlit("8");
        reveal_strlit("9");
    }
    r
}

impl Natural {
    /// Writes the value in decimal.
    pub fn to_string(&self) -> (r: String)
        requires
            self.wf(),
        ensures
            is_dec_str(r@),
            dec_val(r@) == self@,
    {
        if self.is_zero() {
            let s = "0";
            proof {
                reveal_strlit("0");
                reveal_with_fuel(dec_val, 3);
                assert(s@.len() == 1);
                assert(s@.drop_last() =~= Seq::<char>::empty());
            }
            return s.to_owned();
        }
        let ten = Natural::from_limb(10);
        let mut digits: Vec<u32> = Vec::new();
        let mut n = self.clone();
        proof {
            assert(digits_val(digits@) == 0);
            assert(n@ * pow10(0) == n@) by (nonlinear_arith)
                requires pow10(0) == 1;
        }
        while !n.is_zero()
            invariant
                n.wf(),
                ten.wf(),
                ten@ == 10,
                self@ == digits_val(digits@) + n@ * pow10(digits@.len()),
                forall|j: int| 0 <= j < digits@.len() ==> #[trigger] digits@[j] < 10,
                n@ == 0 ==> digits@.len() > 0 && digits@.last() != 0,
                digits@.len() > 0 && n@ == 0 ==> digits@.last() != 0,
            decreases n@,
        {
            let (q, rem) = n.div_mod(&ten);
            let d: u32 = match rem.to_u32() {
                Some(d) => d,
                None => {
                    proof {
                        assert(false);
                    }
                    0
                }
            };
            proof {
                lemma_digits_push_inner(digits@, d, q@, n@);
            }
            digits.push(d);
            n = q;
        }
        proof {
            assert(n@ * pow10(digits@.len()) == 0) by (nonlinear_arith)
                requires n@ == 0;
        }
        let ghost total = digits@;
        let mut out = String::new();
        let mut i: usize = digits.len();
        proof {
            assert(digits@.skip(i as int) =~= Seq::<u32>::empty());
            assert(out@ =~= Seq::<char>::empty());
        }
        while i > 0
            invariant
                i <= digits@.len(),
                digits@.len() > 0,
                digits@.last() != 0,
                digits_val(digits@) == self@,
                forall|j: int| 0 <= j < digits@.len() ==> #[trigger] digits@[j] < 10,
                out@.len() == digits@.len() - i,
                dec_val(out@) == digits_val(digits@.skip(i as int)),
                all_digits(out@),
                out@.len() > 0 ==> out@[0] as u32 == 48 + digits@.last(),
            decreases i,
        {
            i -= 1;
            let c = digit_str(digits[i]);
            let ghost s0 = out@;
            out.append(c);
            proof {
                assert(out@.drop_last() =~= s0);
                assert(out@.last() == c@[0]);
                lemma_digits_prepend(digits@, i as int);
                assert(dec_val(out@) == dec_val(s0) * 10 + digits@[i as int]);
                assert(digits_val(digits@.skip(i as int))
                    == digits@[i as int] + 10 * dec_val(s0));
            }
        }
        proof {
            assert(digits@.skip(0) =~= digits@);
        }
        out
    }

    /// Reads a decimal numeral; any nonempty string of digits is accepted.
    pub fn from_str_natural(s: &str) -> (r: Option<Natural>)
        ensures
            match r {
                Some(n) => n.wf() && s@.len() > 0 && all_digits(s@) && n@ == dec_val(s@),
                None => s@.len() == 0 || !all_digits(s@),
            },
    {
        let len = s.unicode_len();
        if len == 0 {
            return None;
        }
        let mut n = Natural::zero();
        let mut i: usize = 0;
        proof {
            assert(s@.take(0) =~= Seq::<char>::empty());
        }
        while i < len
            invariant
                i <= len,
                len == s@.len(),
                n.wf(),
                n@ == dec_val(s@.take(i as int)),
                forall|j: int| 0 <= j < i ==> 48 <= #[trigger] (s@[j] as u32) <= 57,
            decreases len - i,
        {
            let c = s.get_char(i);
            let cv = c as u32;
            if cv < 48 || cv > 57 {
                proof {
                    assert(!(48 <= (s@[i as int] as u32) <= 57));
                    assert(!all_digits(s@));
                }
                return None;
            }
            let d = cv - 48;
            let next = n.times_limb(10).plus(&Natural::from_limb(d));
            proof {
                assert(s@.take(i + 1).drop_last() =~= s@.take(i as int));
                assert(s@.take(i + 1).last() == s@[i as int]);
            }
            n = next;
            i += 1;
        }
        proof {
            assert(s@.take(len as int) =~= s@);
        }
        Some(n)
    }
}

/// Powers of ten.
pub open spec fn pow10(k: nat) -> nat
    decreases k,
{
    if k == 0 {
        1
    } else {
        10 * pow10((k - 1) as nat)
    }
}

/// Pushing a digit onto the little-endian digit vector absorbs one
/// division step.
proof fn lemma_digits_push_inner(ds: Seq<u32>, d: u32, q: nat, n: nat)
    requires
        n == q * 10 + d,
    ensures
        digits_val(ds) + n * pow10(ds.len()) == digits_val(ds.push(d)) + q * pow10(ds.len() + 1),
    decreases ds.len(),
{
    if ds.len() == 0 {
        reveal_with_fuel(digits_val, 3);
        reveal_with_fuel(pow10, 3);
        assert(ds.push(d).drop_first() =~= Seq::<u32>::empty());
        assert(digits_val(ds.push(d)) == d);
        assert(n * 1 == n) by (nonlinear_arith);
        assert(q * pow10(1) == q * 10) by (nonlinear_arith)
            requires pow10(1) == 10;
    } else {
        let tail = ds.drop_first();
        let w = pow10(tail.len());
        lemma_digits_push_inner(tail, d, q, n);
        assert(ds.push(d).drop_first() =~= tail.push(d));
        assert(n * pow10(ds.len()) == 10 * (n * w)) by (nonlinear_arith)
            requires pow10(ds.len()) == 10 * w;
        assert(q * pow10(ds.len() + 1) == 10 * (q * pow10(tail.len() + 1))) by (nonlinear_arith)
            requires pow10(ds.len() + 1) == 10 * pow10(tail.len() + 1);
    }
}

/// Reading one more digit from the big end of the little-endian digit vector.
proof fn lemma_digits_prepend(ds: Seq<u32>, i: int)
    requires
        0 <= i < ds.len(),
    ensures
        digits_val(ds.skip(i)) == ds[i] + 10 * digits_val(ds.skip(i + 1)),
{
    assert(ds.skip(i).drop_first() =~= ds.skip(i + 1));
    assert(ds.skip(i)[0] == ds[i]);
}

} // verus!
