//! The `Integer` type: a sign flag over a `Natural` magnitude.
//!
//! The sign is `true` for non-negative values; zero always carries the
//! positive sign, so every value has exactly one representation.

use crate::natural::Natural;
use crate::natural_str::{all_digits, dec_val, is_dec_str};
use core::cmp::Ordering;
use vstd::arithmetic::power2::*;
use vstd::prelude::*;
use vstd::string::{StrSliceExecFns, StringExecFns};

verus! {

#[derive(Debug)]
pub struct Integer {
    pub sign: bool,
    pub abs: Natural,
}

impl View for Integer {
    type V = int;

    /// The signed value this representation denotes.
    open spec fn view(&self) -> int {
        if self.sign {
            self.abs@ as int
        } else {
            -(self.abs@ as int)
        }
    }
}

impl Integer {
    /// Canonical form: the magnitude is canonical and zero is non-negative.
    pub open spec fn wf(&self) -> bool {
        self.abs.wf() && (self.abs@ == 0 ==> self.sign)
    }

    /// Checks the canonical-form invariant.
    pub fn is_valid(&self) -> (r: bool)
        ensures
            r == self.wf(),
    {
        let av = self.abs.is_valid();
        if !av {
            return false;
        }
        if self.sign {
            return true;
        }
        !self.abs.is_zero()
    }

    /// A canonical zero.
    pub fn zero() -> (r: Integer)
        ensures
            r.wf(),
            r@ == 0,
    {
        Integer { sign: true, abs: Natural::zero() }
    }

    /// Builds the canonical value of a sign and a magnitude; a zero magnitude
    /// always comes out non-negative.
    pub fn from_sign_and_abs(sign: bool, abs: Natural) -> (r: Integer)
        requires
            abs.wf(),
        ensures
            r.wf(),
            r@ == if sign { abs@ as int } else { -(abs@ as int) },
            r.abs@ == abs@,
    {
        let z = abs.is_zero();
        Integer { sign: sign || z, abs }
    }

    /// As `from_sign_and_abs`, copying the magnitude.
    pub fn from_sign_and_abs_ref(sign: bool, abs: &Natural) -> (r: Integer)
        requires
            abs.wf(),
        ensures
            r.wf(),
            r@ == if sign { abs@ as int } else { -(abs@ as int) },
            r.abs@ == abs@,
    {
        Integer::from_sign_and_abs(sign, abs.clone())
    }

    /// The magnitude.
    pub fn unsigned_abs(self) -> (r: Natural)
        ensures
            r == self.abs,
    {
        self.abs
    }

    /// A borrow of the magnitude.
    pub fn unsigned_abs_ref(&self) -> (r: &Natural)
        ensures
            r == &self.abs,
    {
        &self.abs
    }

    /// The value of a machine integer.
    pub fn from_i64(x: i64) -> (r: Integer)
        ensures
            r.wf(),
            r@ == x,
    {
        if x >= 0 {
            Integer { sign: true, abs: Natural::from_u64(x as u64) }
        } else if x == i64::MIN {
            Integer { sign: false, abs: Natural::from_u64(0x8000_0000_0000_0000) }
        } else {
            Integer { sign: false, abs: Natural::from_u64((-x) as u64) }
        }
    }

    /// Whether the value is zero.
    pub fn is_zero(&self) -> (r: bool)
        requires
            self.wf(),
        ensures
            r == (self@ == 0),
    {
        self.abs.is_zero()
    }

    /// The negated value.
    pub fn neg(&self) -> (r: Integer)
        requires
            self.wf(),
        ensures
            r.wf(),
            r@ == -self@,
    {
        Integer::from_sign_and_abs(!self.sign, self.abs.clone())
    }

    /// Compares two values: negatives come first, and within one sign the
    /// magnitudes decide, reversed on the negative side.
    pub fn cmp(&self, other: &Integer) -> (r: Ordering)
        requires
            self.wf(),
            other.wf(),
        ensures
            r == Ordering::Less <==> self@ < other@,
            r == Ordering::Equal <==> self@ == other@,
            r == Ordering::Greater <==> self@ > other@,
    {
        match (self.sign, other.sign) {
            (true, false) => Ordering::Greater,
            (false, true) => Ordering::Less,
            (true, true) => self.abs.cmp(&other.abs),
            (false, false) => other.abs.cmp(&self.abs),
        }
    }

    /// As `cmp`, under the partial-order interface.
    pub fn partial_cmp(&self, other: &Integer) -> (r: Option<Ordering>)
        requires
            self.wf(),
            other.wf(),
        ensures
            r == Some(self.cmp_spec(other)),
            r == Some(Ordering::Less) <==> self@ < other@,
            r == Some(Ordering::Equal) <==> self@ == other@,
            r == Some(Ordering::Greater) <==> self@ > other@,
    {
        Some(self.cmp(other))
    }

    /// The ordering of two values, as a specification.
    pub open spec fn cmp_spec(&self, other: &Integer) -> Ordering {
        if self@ < other@ {
            Ordering::Less
        } else if self@ == other@ {
            Ordering::Equal
        } else {
            Ordering::Greater
        }
    }

    /// Compares magnitudes only.
    pub fn cmp_abs(&self, other: &Integer) -> (r: Ordering)
        requires
            self.wf(),
            other.wf(),
        ensures
            r == Ordering::Less <==> self.abs@ < other.abs@,
            r == Ordering::Equal <==> self.abs@ == other.abs@,
            r == Ordering::Greater <==> self.abs@ > other.abs@,
    {
        self.abs.cmp(&other.abs)
    }

    /// The sum of two values, by case split on the signs.
    pub fn plus(&self, other: &Integer) -> (r: Integer)
        requires
            self.wf(),
            other.wf(),
        ensures
            r.wf(),
            r@ == self@ + other@,
    {
        if self.sign == other.sign {
            Integer::from_sign_and_abs(self.sign, self.abs.plus(&other.abs))
        } else {
            match self.abs.checked_sub(&other.abs) {
                Some(d) => Integer::from_sign_and_abs(self.sign, d),
                None => {
                    let d = match other.abs.checked_sub(&self.abs) {
                        Some(d) => d,
                        None => {
                            proof {
                                assert(false);
                            }
                            Natural::zero()
                        }
                    };
                    Integer::from_sign_and_abs(other.sign, d)
                }
            }
        }
    }

    /// The product of the value and a signed machine word.
    pub fn times_i32(&self, other: i32) -> (r: Integer)
        requires
            self.wf(),
        ensures
            r.wf(),
            r@ == self@ * other,
    {
        let mag: u32 = if other == i32::MIN {
            0x8000_0000
        } else if other < 0 {
            (-other) as u32
        } else {
            other as u32
        };
        let abs = self.abs.times_limb(mag);
        let r = Integer::from_sign_and_abs(if other < 0 { !self.sign } else { self.sign }, abs);
        proof {
            let m = mag as int;
            let a = self.abs@ as int;
            assert(abs@ == self.abs@ * mag);
            if other < 0 {
                assert(self@ * other == (if self.sign { -(a * m) } else { a * m })) by (nonlinear_arith)
                    requires m == -(other as int), self@ == if self.sign { a } else { -a };
            } else {
                assert(self@ * other == (if self.sign { a * m } else { -(a * m) })) by (nonlinear_arith)
                    requires m == other as int, self@ == if self.sign { a } else { -a };
            }
        }
        r
    }

    /// The value raised to a power.
    pub fn pow(&self, exp: u64) -> (r: Integer)
        requires
            self.wf(),
        ensures
            r.wf(),
            r@ == vstd::arithmetic::power::pow(self@, exp as nat),
    {
        let mag = self.abs.pow(exp);
        let neg = !self.sign && exp % 2 == 1;
        let r = Integer::from_sign_and_abs(!neg, mag);
        proof {
            lemma_pow_sign(self.abs@, exp as nat, self.sign);
        }
        r
    }

    /// Reads a decimal numeral with an optional leading minus sign.
    pub fn from_str_integer(s: &str) -> (r: Option<Integer>)
        ensures
            ({
                let neg = s@.len() > 0 && s@[0] == '-';
                let digits = if neg { s@.skip(1) } else { s@ };
                match r {
                    Some(n) => n.wf() && digits.len() > 0 && all_digits(digits)
                        && n@ == if neg { -(dec_val(digits) as int) } else { dec_val(digits) as int },
                    None => digits.len() == 0 || !all_digits(digits),
                }
            }),
    {
        let len = s.unicode_len();
        if len == 0 {
            return None;
        }
        if s.get_char(0) == '-' {
            let rest = s.substring_char(1, len);
            proof {
                assert(rest@ =~= s@.skip(1));
            }
            match Natural::from_str_natural(rest) {
                Some(n) => Some(Integer::from_sign_and_abs(false, n)),
                None => None,
            }
        } else {
            match Natural::from_str_natural(s) {
                Some(n) => Some(Integer { sign: true, abs: n }),
                None => None,
            }
        }
    }

    /// Writes the value in decimal, with a minus sign when negative.
    pub fn to_string(&self) -> (r: String)
        requires
            self.wf(),
        ensures
            self@ >= 0 ==> is_dec_str(r@) && dec_val(r@) == self@,
            self@ < 0 ==> r@.len() > 1 && r@[0] as u32 == 45 && is_dec_str(r@.skip(1))
                && dec_val(r@.skip(1)) == -self@,
    {
        let digits = self.abs.to_string();
        if self.sign {
            digits
        } else {
            let mut out = String::new();
            let minus = "-";
            proof {
                reveal_strlit("-");
            }
            out.append(minus);
            let ghost before = out@;
            out.append(digits.as_str());
            proof {
                assert(out@.skip(1) =~= digits@);
            }
            out
        }
    }
}

impl Integer {
    /// Multiplies by a signed machine word in place.
    pub fn times_i32_assign(&mut self, other: i32)
        requires
            old(self).wf(),
        ensures
            final(self).wf(),
            final(self)@ == old(self)@ * other,
    {
        let r = self.times_i32(other);
        *self = r;
    }

    /// Canonical representations are unique: equal values mean equal sign
    /// flags and identical magnitudes.
    pub proof fn lemma_canonical_unique(a: &Integer, b: &Integer)
        requires
            a.wf(),
            b.wf(),
            a@ == b@,
        ensures
            a.sign == b.sign,
            a.abs.same_repr(&b.abs),
    {
        if a@ == 0 {
            assert(a.abs@ == 0 && b.abs@ == 0);
        }
        crate::natural::Natural::lemma_canonical_unique(&a.abs, &b.abs);
    }
}

impl Clone for Integer {
    /// Deep copy.
    fn clone(&self) -> (r: Integer)
        ensures
            r.sign == self.sign,
            r.abs@ == self.abs@,
            r@ == self@,
            r.wf() == self.wf(),
    {
        Integer { sign: self.sign, abs: self.abs.clone() }
    }
}

impl PartialEq for Integer {
    /// Equal canonical values are exactly those that denote the same number.
    fn eq(&self, other: &Integer) -> (r: bool) {
        self.sign == other.sign && self.abs.eq(&other.abs)
    }
}

impl vstd::std_specs::cmp::PartialEqSpecImpl for Integer {
    open spec fn obeys_eq_spec() -> bool {
        true
    }

    open spec fn eq_spec(&self, other: &Integer) -> bool {
        self.sign == other.sign && self.abs.same_repr(&other.abs)
    }
}

impl Eq for Integer {}

/// The sign of a power follows the base's sign and the exponent's parity.
proof fn lemma_pow_sign(a: nat, e: nat, sign: bool)
    ensures
        vstd::arithmetic::power::pow(if sign { a as int } else { -(a as int) }, e)
            == if sign || e % 2 == 0 {
                vstd::arithmetic::power::pow(a as int, e)
            } else {
                -vstd::arithmetic::power::pow(a as int, e)
            },
    decreases e,
{
    reveal(vstd::arithmetic::power::pow);
    let b = if sign { a as int } else { -(a as int) };
    if e == 0 {
    } else {
        lemma_pow_sign(a, (e - 1) as nat, sign);
        let pe1 = vstd::arithmetic::power::pow(a as int, (e - 1) as nat);
        assert(vstd::arithmetic::power::pow(b, e) == b * vstd::arithmetic::power::pow(b, (e - 1) as nat));
        assert(vstd::arithmetic::power::pow(a as int, e) == (a as int) * pe1);
        if !sign {
            assert((e - 1) % 2 == (if e % 2 == 0 { 1int } else { 0int }));
            if e % 2 == 0 {
                assert((-(a as int)) * (-pe1) == (a as int) * pe1) by (nonlinear_arith);
            } else {
                assert((-(a as int)) * pe1 == -((a as int) * pe1)) by (nonlinear_arith);
            }
        }
    }
}

} // verus!
