//! Reading, writing and summing `Rational` values.

use crate::natural::Natural;
use crate::natural_str::{dec_val, is_dec_str};
use crate::rational::Rational;
use vstd::prelude::*;
use vstd::string::{StrSliceExecFns, StringExecFns};

verus! {

/// The running sum of a sequence of rationals as an unreduced fraction:
/// numerator of the fold.
pub open spec fn sum_num(s: Seq<Rational>) -> int
    decreases s.len(),
{
    if s.len() == 0 {
        0
    } else {
        sum_num(s.drop_last()) * s.last().den() + s.last().num() * sum_den(s.drop_last())
    }
}

/// The denominator of the unreduced running sum.
pub open spec fn sum_den(s: Seq<Rational>) -> nat
    decreases s.len(),
{
    if s.len() == 0 {
        1
    } else {
        sum_den(s.drop_last()) * s.last().den()
    }
}

/// Whether `s` spells the numerals of `n` and `d` around a fraction bar.
pub open spec fn fraction_str(s: Seq<char>, n: nat, d: nat) -> bool {
    exists|k: int|
        0 <= k < s.len() && #[trigger] (s[k] as u32) == 47
            && is_dec_str(s.take(k)) && dec_val(s.take(k)) == n
            && is_dec_str(s.skip(k + 1)) && dec_val(s.skip(k + 1)) == d
}

/// Whether no character is a fraction bar.
pub open spec fn no_slash(s: Seq<char>) -> bool {
    forall|j: int| 0 <= j < s.len() ==> ((#[trigger] s[j]) as u32) != 47
}

/// Whether position `k` holds the first fraction bar.
pub open spec fn first_slash_at(s: Seq<char>, k: int) -> bool {
    &&& 0 <= k < s.len()
    &&& (s[k] as u32) == 47
    &&& forall|j: int| 0 <= j < k ==> ((#[trigger] s[j]) as u32) != 47
}

impl Rational {
    /// Adds up a vector of values; the result is the fully reduced sum.
    pub fn sum(xs: Vec<Rational>) -> (r: Rational)
        requires
            forall|i: int| 0 <= i < xs@.len() ==> #[trigger] xs@[i].wf(),
        ensures
            r.wf(),
            r.num() * sum_den(xs@) == sum_num(xs@) * r.den(),
    {
        let mut acc = Rational::zero();
        let mut i: usize = 0;
        proof {
            assert(xs@.take(0) =~= Seq::<Rational>::empty());
        }
        while i < xs.len()
            invariant
                i <= xs@.len(),
                forall|j: int| 0 <= j < xs@.len() ==> #[trigger] xs@[j].wf(),
                acc.wf(),
                acc.num() * sum_den(xs@.take(i as int)) == sum_num(xs@.take(i as int)) * acc.den(),
                sum_den(xs@.take(i as int)) > 0,
            decreases xs@.len() - i,
        {
            let x = &xs[i];
            proof {
                assert(xs@[i as int].wf());
            }
            let next = acc.add(x);
            proof {
                let pre = xs@.take(i as int);
                let post = xs@.take(i + 1);
                assert(post.drop_last() =~= pre);
                assert(post.last() == xs@[i as int]);
                lemma_frac_eq_add(
                    next.num(),
                    next.den() as int,
                    acc.num(),
                    acc.den() as int,
                    x.num(),
                    x.den() as int,
                    sum_num(pre),
                    sum_den(pre) as int,
                );
                assert(sum_den(post) == sum_den(pre) * x.den());
                assert(sum_den(pre) * x.den() > 0) by (nonlinear_arith)
                    requires sum_den(pre) > 0, x.den() > 0;
            }
            acc = next;
            i += 1;
        }
        proof {
            assert(xs@.take(xs@.len() as int) =~= xs@);
        }
        acc
    }

    /// Reads a value written as a numeral or a fraction of numerals, with an
    /// optional leading minus sign; the result is reduced. A plain numeral
    /// comes back verbatim over a denominator of one.
    pub fn from_str_rational(s: &str) -> (r: Option<Rational>)
        ensures
            r is Some ==> r->0.wf(),
            ({
                let neg = s@.len() > 0 && s@[0] == '-';
                let body = if neg { s@.skip(1) } else { s@ };
                &&& (no_slash(body) ==> (match r {
                    Some(q) => q.den() == 1 && body.len() > 0
                        && crate::natural_str::all_digits(body)
                        && q.num() == (if neg {
                            -(dec_val(body) as int)
                        } else {
                            dec_val(body) as int
                        }),
                    None => body.len() == 0 || !crate::natural_str::all_digits(body),
                }))
                &&& (forall|k: int| #[trigger] first_slash_at(body, k) ==> (match r {
                    Some(q) => ({
                        let np = body.take(k);
                        let dp = body.skip(k + 1);
                        let g = crate::natural_div::gcd_nat(dec_val(np), dec_val(dp));
                        &&& np.len() > 0 && crate::natural_str::all_digits(np)
                        &&& dp.len() > 0 && crate::natural_str::all_digits(dp)
                        &&& dec_val(dp) > 0
                        &&& q.num() * dec_val(dp) == (if neg {
                            -(dec_val(np) as int)
                        } else {
                            dec_val(np) as int
                        }) * q.den()
                        &&& q.numerator@ == dec_val(np) / g
                        &&& q.denominator@ == dec_val(dp) / g
                    }),
                    None => ({
                        let np = body.take(k);
                        let dp = body.skip(k + 1);
                        np.len() == 0 || !crate::natural_str::all_digits(np)
                            || dp.len() == 0 || !crate::natural_str::all_digits(dp)
                            || dec_val(dp) == 0
                    }),
                }))
            }),
    {
        let len = s.unicode_len();
        if len == 0 {
            return None;
        }
        let (sign, digits_from) = if s.get_char(0) == '-' {
            (false, 1usize)
        } else {
            (true, 0usize)
        };
        let ghost body = if digits_from == 1 { s@.skip(1) } else { s@ };
        proof {
            assert(body.len() == len - digits_from);
            assert forall|j: int| 0 <= j < body.len() implies body[j] == s@[j + digits_from] by {}
        }
        if digits_from >= len {
            return None;
        }
        let slash = find_slash(s, digits_from, len);
        let ghost k0: int = slash - digits_from;
        proof {
            if slash < len {
                assert(first_slash_at(body, k0));
                assert forall|k: int| #[trigger] first_slash_at(body, k) implies k == k0 by {
                    if k < k0 {
                        assert((body[k] as u32) == 47);
                        assert(false);
                    }
                    if k > k0 {
                        assert((body[k0] as u32) != 47);
                        assert(false);
                    }
                }
            } else {
                assert(no_slash(body));
                assert forall|k: int| !(#[trigger] first_slash_at(body, k)) by {
                    if first_slash_at(body, k) {
                        assert((body[k] as u32) == 47);
                    }
                }
            }
        }
        if slash == len {
            let rest = s.substring_char(digits_from, len);
            proof {
                assert(rest@ =~= body);
            }
            match Natural::from_str_natural(rest) {
                Some(n) => {
                    let r = Rational::from_sign_and_naturals(sign, n, Natural::from_limb(1));
                    proof {
                        lemma_gcd_with_one(n@);
                        assert(r.num() * 1 == r.num()) by (nonlinear_arith);
                        assert((if sign { n@ as int } else { -(n@ as int) }) * r.den()
                            == (if sign { n@ as int } else { -(n@ as int) }) * 1)
                            by (nonlinear_arith)
                            requires r.den() == 1;
                    }
                    Some(r)
                }
                None => None,
            }
        } else {
            if slash <= digits_from || slash + 1 >= len {
                proof {
                    if slash <= digits_from {
                        assert(body.take(k0).len() == 0);
                    } else {
                        assert(body.skip(k0 + 1).len() == 0);
                    }
                }
                return None;
            }
            let np = s.substring_char(digits_from, slash);
            let dp = s.substring_char(slash + 1, len);
            proof {
                assert(np@ =~= body.take(k0));
                assert(dp@ =~= body.skip(k0 + 1));
            }
            match (Natural::from_str_natural(np), Natural::from_str_natural(dp)) {
                (Some(n), Some(d)) => {
                    if d.is_zero() {
                        None
                    } else {
                        Some(Rational::from_sign_and_naturals(sign, n, d))
                    }
                }
                _ => None,
            }
        }
    }

    /// Writes the value, as a numeral when the denominator is one and as a
    /// fraction otherwise, with a minus sign when negative.
    pub fn to_string(&self) -> (r: String)
        requires
            self.wf(),
        ensures
            self.num() >= 0 && self.den() == 1 ==> is_dec_str(r@) && dec_val(r@) == self.num(),
            self.num() < 0 && self.den() == 1 ==> r@.len() > 1 && r@[0] as u32 == 45
                && is_dec_str(r@.skip(1)) && dec_val(r@.skip(1)) == -self.num(),
            self.den() > 1 && self.num() >= 0 ==> fraction_str(r@, self.numerator@, self.den()),
            self.den() > 1 && self.num() < 0 ==> r@.len() > 0 && r@[0] as u32 == 45
                && fraction_str(r@.skip(1), self.numerator@, self.den()),
    {
        let mut out = String::new();
        if !self.sign {
            let minus = "-";
            proof {
                reveal_strlit("-");
            }
            out.append(minus);
        }
        let ns = self.numerator.to_string();
        out.append(ns.as_str());
        let one = Natural::from_limb(1);
        proof {
            if self.denominator@ == 1 {
                Natural::lemma_canonical_unique(&self.denominator, &one);
            }
        }
        let ghost head = out@;
        if !self.denominator.eq(&one) {
            let slash = "/";
            proof {
                reveal_strlit("/");
            }
            out.append(slash);
            let ds = self.denominator.to_string();
            out.append(ds.as_str());
            proof {
                let k = head.len() as int;
                assert(out@[k] as u32 == 47);
                assert(out@.skip(k + 1) =~= ds@);
                if self.denominator@ > 1 {
                    assert(self.numerator@ > 0);
                    let kk = ns@.len() as int;
                    if !self.sign {
                        assert(self.num() < 0);
                        let body = out@.skip(1);
                        assert(body.take(kk) =~= ns@);
                        assert((body[kk] as u32) == 47);
                        assert(body.skip(kk + 1) =~= ds@);
                        assert(fraction_str(body, self.numerator@, self.den()));
                    } else {
                        assert(self.num() >= 0);
                        let body = out@;
                        assert(body.take(kk) =~= ns@);
                        assert((body[kk] as u32) == 47);
                        assert(body.skip(kk + 1) =~= ds@);
                        assert(fraction_str(body, self.numerator@, self.den()));
                    }
                }
            }
        }
        proof {
            if self.num() >= 0 && self.den() == 1 {
                assert(out@ =~= ns@);
            }
            if self.num() < 0 && self.den() == 1 {
                assert(out@.skip(1) =~= ns@);
            }
        }
        out
    }

    /// The numerator as a natural number.
    pub fn to_numerator(&self) -> (r: Natural)
        ensures
            r@ == self.numerator@,
            r.wf() == self.numerator.wf(),
    {
        self.numerator.clone()
    }

    /// The denominator as a natural number.
    pub fn to_denominator(&self) -> (r: Natural)
        ensures
            r@ == self.denominator@,
            r.wf() == self.denominator.wf(),
    {
        self.denominator.clone()
    }
}

/// Scans for the first fraction bar, reporting the length when there is
/// none.
fn find_slash(s: &str, from: usize, len: usize) -> (k: usize)
    requires
        from <= len,
        len == s@.len(),
    ensures
        from <= k <= len,
        k < len ==> (s@[k as int] as u32) == 47,
        forall|j: int| from <= j < k ==> ((#[trigger] s@[j]) as u32) != 47,
{
    let mut i: usize = from;
    while i < len
        invariant
            from <= i <= len,
            len == s@.len(),
            forall|j: int| from <= j < i ==> ((#[trigger] s@[j]) as u32) != 47,
        decreases len - i,
    {
        if s.get_char(i) == '/' {
            return i;
        }
        i += 1;
    }
    len
}

/// One is coprime to everything, and dividing by it changes nothing.
proof fn lemma_gcd_with_one(n: nat)
    ensures
        crate::natural_div::gcd_nat(n, 1) == 1,
        n / crate::natural_div::gcd_nat(n, 1) == n,
        1nat / crate::natural_div::gcd_nat(n, 1) == 1,
{
    vstd::arithmetic::div_mod::lemma_small_mod(0, 1);
    assert(n % 1 == 0) by {
        vstd::arithmetic::div_mod::lemma_mod_multiples_basic(n as int, 1);
        assert(n as int * 1 == n) by (nonlinear_arith);
    }
    assert(crate::natural_div::gcd_nat(n, 1) == crate::natural_div::gcd_nat(1, n % 1));
    assert(crate::natural_div::gcd_nat(1, 0) == 1);
}

/// Adding equal fractions to the same value yields equal fractions: the sum
/// identity carries across a cross-multiplied equality of the accumulator.
#[verifier::rlimit(60)]
proof fn lemma_frac_eq_add(
    rn: int,
    rd: int,
    an: int,
    ad: int,
    xn: int,
    xd: int,
    sn: int,
    sd: int,
)
    requires
        rd > 0,
        ad > 0,
        xd > 0,
        sd > 0,
        rn * (ad * xd) == (an * xd + xn * ad) * rd,
        an * sd == sn * ad,
    ensures
        rn * (sd * xd) == (sn * xd + xn * sd) * rd,
{
    assert((rn * (ad * xd)) * sd == ((an * xd + xn * ad) * rd) * sd) by (nonlinear_arith)
        requires rn * (ad * xd) == (an * xd + xn * ad) * rd;
    assert(((an * xd + xn * ad) * rd) * sd == ((an * sd) * xd + xn * ad * sd) * rd)
        by (nonlinear_arith);
    assert(((an * sd) * xd + xn * ad * sd) * rd == ((sn * ad) * xd + xn * ad * sd) * rd)
        by (nonlinear_arith)
        requires an * sd == sn * ad;
    assert((sn * ad) * xd + xn * ad * sd == ad * (sn * xd + xn * sd)) by (nonlinear_arith);
    assert((ad * (sn * xd + xn * sd)) * rd == ad * ((sn * xd + xn * sd) * rd))
        by (nonlinear_arith);
    assert((rn * (ad * xd)) * sd == ad * (rn * (sd * xd))) by (nonlinear_arith);
    assert(ad * (rn * (sd * xd)) == ad * ((sn * xd + xn * sd) * rd));
    assert(rn * (sd * xd) == (sn * xd + xn * sd) * rd) by (nonlinear_arith)
        requires
            ad * (rn * (sd * xd)) == ad * ((sn * xd + xn * sd) * rd),
            ad > 0,
    ;
}

} // verus!
