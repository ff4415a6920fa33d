//! The `Rational` type: a sign over a fully reduced fraction of `Natural`s.
//!
//! Invariants: the denominator is positive, numerator and denominator are
//! coprime, and zero is stored as `0/1` with the non-negative sign. Addition
//! goes through exact integer arithmetic on cross products and reduces the
//! result by the greatest common divisor.

use crate::integer::Integer;
use crate::natural::Natural;
use crate::natural_div::gcd_nat;
use vstd::arithmetic::div_mod::*;
use vstd::prelude::*;

verus! {

/// The greatest common divisor is positive when either argument is.
pub proof fn lemma_gcd_pos(a: nat, b: nat)
    requires
        a > 0 || b > 0,
    ensures
        gcd_nat(a, b) > 0,
    decreases b,
{
    if b == 0 {
    } else {
        lemma_mod_bound(a as int, b as int);
        if a % b == 0 {
            assert(gcd_nat(b, 0) == b);
        } else {
            lemma_gcd_pos(b, a % b);
        }
    }
}

/// The greatest common divisor divides both arguments.
pub proof fn lemma_gcd_divides(a: nat, b: nat)
    requires
        a > 0 || b > 0,
    ensures
        a % gcd_nat(a, b) == 0,
        b % gcd_nat(a, b) == 0,
    decreases b,
{
    lemma_gcd_pos(a, b);
    let g = gcd_nat(a, b);
    if b == 0 {
        lemma_mod_self_0(a as int);
        assert(0nat % a == 0) by {
            lemma_small_mod(0, a);
        }
    } else {
        lemma_mod_bound(a as int, b as int);
        if a % b == 0 && b > 0 {
            assert(gcd_nat(b, a % b) == gcd_nat(b, 0));
            assert(g == b);
            lemma_mod_self_0(b as int);
        } else {
            lemma_gcd_divides(b, a % b);
        }
        // g divides b and a % b, hence a
        lemma_fundamental_div_mod(a as int, b as int);
        lemma_div_mod_combine(a, b, g);
    }
}

/// If `g` divides `b` and `a % b`, it divides `a`.
proof fn lemma_div_mod_combine(a: nat, b: nat, g: nat)
    requires
        b > 0,
        g > 0,
        b % g == 0,
        (a % b) % g == 0,
    ensures
        a % g == 0,
{
    lemma_fundamental_div_mod(a as int, b as int);
    lemma_fundamental_div_mod(b as int, g as int);
    lemma_fundamental_div_mod((a % b) as int, g as int);
    let q = a as int / b as int;
    let bq = b as int / g as int;
    let rq = (a % b) as int / g as int;
    assert(a as int == (bq * q + rq) * g) by (nonlinear_arith)
        requires
            a as int == b * q + (a % b),
            b as int == g * bq,
            (a % b) as int == g * rq,
    ;
    lemma_mod_multiples_basic(bq * q + rq, g as int);
}

/// Any common divisor divides the greatest common divisor.
pub proof fn lemma_gcd_greatest(a: nat, b: nat, c: nat)
    requires
        c > 0,
        a % c == 0,
        b % c == 0,
    ensures
        gcd_nat(a, b) % c == 0,
    decreases b,
{
    if b == 0 {
    } else {
        // a % b is also a multiple of c
        lemma_fundamental_div_mod(a as int, b as int);
        lemma_fundamental_div_mod(a as int, c as int);
        lemma_fundamental_div_mod(b as int, c as int);
        let q = a as int / b as int;
        let ac = a as int / c as int;
        let bc = b as int / c as int;
        assert((a % b) as int == (ac - bc * q) * c) by (nonlinear_arith)
            requires
                a as int == b * q + (a % b),
                a as int == c * ac,
                b as int == c * bc,
        ;
        lemma_mod_bound(a as int, b as int);
        lemma_mod_multiples_basic(ac - bc * q, c as int);
        lemma_gcd_greatest(b, a % b, c);
    }
}

/// Dividing both arguments by their greatest common divisor leaves coprime
/// values.
pub proof fn lemma_gcd_reduce(a: nat, b: nat)
    requires
        a > 0 || b > 0,
    ensures
        gcd_nat(a / gcd_nat(a, b), b / gcd_nat(a, b)) == 1,
    decreases 0nat,
{
    let g = gcd_nat(a, b);
    lemma_gcd_pos(a, b);
    lemma_gcd_divides(a, b);
    let a1 = a / g;
    let b1 = b / g;
    lemma_fundamental_div_mod(a as int, g as int);
    lemma_fundamental_div_mod(b as int, g as int);
    assert(a1 > 0 || b1 > 0) by {
        if a > 0 && a1 == 0 {
            assert(a as int == g * 0 + a % g);
        }
        if b > 0 && b1 == 0 {
            assert(b as int == g * 0 + b % g);
        }
    }
    let d = gcd_nat(a1, b1);
    lemma_gcd_pos(a1, b1);
    lemma_gcd_divides(a1, b1);
    if d > 1 {
        // d * g divides a and b, so it divides g, which is impossible
        lemma_fundamental_div_mod(a1 as int, d as int);
        lemma_fundamental_div_mod(b1 as int, d as int);
        let a2 = a1 as int / d as int;
        let b2 = b1 as int / d as int;
        assert(a as int == a2 * (d * g) && b as int == b2 * (d * g)) by (nonlinear_arith)
            requires
                a as int == g * a1 + a % g,
                a % g == 0,
                a1 as int == d * a2 + a1 % d,
                a1 % d == 0,
                b as int == g * b1 + b % g,
                b % g == 0,
                b1 as int == d * b2 + b1 % d,
                b1 % d == 0,
        ;
        assert(d * g > 0) by (nonlinear_arith)
            requires d > 0, g > 0;
        lemma_mod_multiples_basic(a2, (d * g) as int);
        lemma_mod_multiples_basic(b2, (d * g) as int);
        lemma_gcd_greatest(a, b, (d * g) as nat);
        lemma_fundamental_div_mod(g as int, (d * g) as int);
        lemma_mod_bound(g as int, (d * g) as int);
        let gq = g as int / (d * g) as int;
        assert(g as int == (d * g) * gq) by {
            assert(g % (d * g) as nat == 0);
        }
        assert(false) by (nonlinear_arith)
            requires
                g as int == (d * g) * gq,
                d > 1,
                g > 0,
        ;
    }
}

#[derive(Debug)]
pub struct Rational {
    pub sign: bool,
    pub numerator: Natural,
    pub denominator: Natural,
}

impl Rational {
    /// Canonical form: positive denominator, coprime parts, and a zero
    /// stored as `0/1` with the non-negative sign.
    pub open spec fn wf(&self) -> bool {
        &&& self.numerator.wf()
        &&& self.denominator.wf()
        &&& self.denominator@ > 0
        &&& gcd_nat(self.numerator@, self.denominator@) == 1
        &&& (self.numerator@ == 0 ==> self.sign && self.denominator@ == 1)
    }

    /// The signed numerator.
    pub open spec fn num(&self) -> int {
        if self.sign {
            self.numerator@ as int
        } else {
            -(self.numerator@ as int)
        }
    }

    /// The denominator.
    pub open spec fn den(&self) -> nat {
        self.denominator@
    }

    /// Checks the canonical-form invariant.
    pub fn is_valid(&self) -> (r: bool)
        ensures
            r == self.wf(),
    {
        if !self.numerator.is_valid() || !self.denominator.is_valid() {
            return false;
        }
        if self.denominator.is_zero() {
            return false;
        }
        let g = self.numerator.gcd(&self.denominator);
        let one = Natural::from_limb(1);
        proof {
            if g@ == one@ {
                Natural::lemma_canonical_unique(&g, &one);
            }
            if self.denominator@ == one@ {
                Natural::lemma_canonical_unique(&self.denominator, &one);
            }
        }
        if !g.eq(&one) {
            return false;
        }
        if self.numerator.is_zero() {
            self.sign && self.denominator.eq(&one)
        } else {
            true
        }
    }

    /// A canonical zero.
    pub fn zero() -> (r: Rational)
        ensures
            r.wf(),
            r.num() == 0,
            r.den() == 1,
    {
        let r = Rational {
            sign: true,
            numerator: Natural::zero(),
            denominator: Natural::from_limb(1),
        };
        proof {
            lemma_small_mod(0, 1);
            assert(gcd_nat(1, 0) == 1);
            assert(gcd_nat(0, 1) == gcd_nat(1, 0nat % 1));
        }
        r
    }

    /// Builds the canonical fraction of a sign, numerator and denominator:
    /// the parts are reduced by their greatest common divisor and a zero
    /// numerator forces the canonical zero.
    pub fn from_sign_and_naturals(sign: bool, n: Natural, d: Natural) -> (r: Rational)
        requires
            n.wf(),
            d.wf(),
            d@ > 0,
        ensures
            r.wf(),
            r.num() * d@ == (if sign { n@ as int } else { -(n@ as int) }) * r.den(),
            n@ == 0 ==> r.num() == 0,
            n@ > 0 ==> (r.num() > 0 <==> sign) && (r.num() < 0 <==> !sign),
            r.numerator@ == n@ / gcd_nat(n@, d@),
            r.denominator@ == d@ / gcd_nat(n@, d@),
            n@ > 0 ==> r.sign == sign,
    {
        if n.is_zero() {
            let z = Rational::zero();
            proof {
                assert(z.num() * d@ == 0) by (nonlinear_arith)
                    requires z.num() == 0;
                assert(gcd_nat(0, d@) == gcd_nat(d@, 0nat % d@));
                lemma_small_mod(0, d@);
                assert(gcd_nat(0, d@) == d@);
                lemma_pow2ish_self_div(d@);
            }
            return z;
        }
        let g = n.gcd(&d);
        proof {
            lemma_gcd_pos(n@, d@);
            lemma_gcd_divides(n@, d@);
            lemma_gcd_reduce(n@, d@);
        }
        let n1 = n.div_exact(&g);
        let d1 = d.div_exact(&g);
        proof {
            lemma_fundamental_div_mod(n@ as int, g@ as int);
            lemma_fundamental_div_mod(d@ as int, g@ as int);
            lemma_div_pos_is_pos(d@ as int, g@ as int);
            if d1@ == 0 {
                assert(d@ as int == g@ * 0 + d@ % g@);
            }
            if n1@ == 0 {
                assert(n@ as int == g@ * 0 + n@ % g@);
            }
            // cross-multiplied equality of the reduced and unreduced fraction
            assert(n1@ * d@ == n@ * d1@) by (nonlinear_arith)
                requires
                    n@ == n1@ * g@,
                    d@ == d1@ * g@,
            ;
        }
        let r = Rational { sign, numerator: n1, denominator: d1 };
        proof {
            if !sign {
                assert(-(n1@ as int) * d@ == -(n@ as int) * d1@) by (nonlinear_arith)
                    requires n1@ * d@ == n@ * d1@;
            }
        }
        r
    }

    /// Whether the value is zero.
    pub fn is_zero(&self) -> (r: bool)
        requires
            self.wf(),
        ensures
            r == (self.num() == 0),
    {
        self.numerator.is_zero()
    }

    /// The sum of two values, reduced to canonical form.
    pub fn add(&self, other: &Rational) -> (r: Rational)
        requires
            self.wf(),
            other.wf(),
        ensures
            r.wf(),
            r.num() * (self.den() * other.den())
                == (self.num() * other.den() + other.num() * self.den()) * r.den(),
    {
        if self.is_zero() {
            let r = other.clone();
            proof {
                lemma_frac_scale(r.num(), r.den() as int, self.den() as int);
                assert(r.num() * (self.den() * other.den())
                    == (self.num() * other.den() + other.num() * self.den()) * r.den())
                    by (nonlinear_arith)
                    requires
                        r.num() == other.num(),
                        r.den() == other.den(),
                        self.num() == 0,
                ;
            }
            return r;
        }
        if other.is_zero() {
            let r = self.clone();
            proof {
                lemma_frac_scale(r.num(), r.den() as int, other.den() as int);
                assert(r.num() * (self.den() * other.den())
                    == (self.num() * other.den() + other.num() * self.den()) * r.den())
                    by (nonlinear_arith)
                    requires
                        r.num() == self.num(),
                        r.den() == self.den(),
                        other.num() == 0,
                        r.num() * (r.den() * other.den()) == (r.num() * other.den()) * r.den(),
                ;
            }
            return r;
        }
        let sum_n = Integer::from_sign_and_abs(
            self.sign,
            self.numerator.times(&other.denominator),
        ).plus(&Integer::from_sign_and_abs(other.sign, other.numerator.times(&self.denominator)));
        let sum_d = self.denominator.times(&other.denominator);
        proof {
            assert(sum_d@ > 0) by (nonlinear_arith)
                requires
                    sum_d@ == self.denominator@ * other.denominator@,
                    self.denominator@ > 0,
                    other.denominator@ > 0,
            ;
            lemma_sign_mag(self.sign, self.numerator@, other.denominator@, self.num());
            lemma_sign_mag(other.sign, other.numerator@, self.denominator@, other.num());
        }
        let r = Rational::from_sign_and_naturals(sum_n.sign, sum_n.unsigned_abs(), sum_d);
        proof {
            lemma_sum_cross(
                r.num(),
                r.den() as int,
                sum_n@,
                self.num(),
                self.den() as int,
                other.num(),
                other.den() as int,
            );
        }
        r
    }

    /// Adds a value in place.
    pub fn add_assign(&mut self, other: &Rational)
        requires
            old(self).wf(),
            other.wf(),
        ensures
            final(self).wf(),
            final(self).num() * (old(self).den() * other.den())
                == (old(self).num() * other.den() + other.num() * old(self).den())
                    * final(self).den(),
    {
        let r = self.add(other);
        *self = r;
    }
}

impl Rational {
    /// Re-normalizing a canonical value returns the identical
    /// representation: no hidden growth, bit for bit.
    pub fn renormalize(&self) -> (q: Rational)
        requires
            self.wf(),
        ensures
            q.wf(),
            q.sign == self.sign,
            q.numerator.same_repr(&self.numerator),
            q.denominator.same_repr(&self.denominator),
    {
        let q = Rational::from_sign_and_naturals(
            self.sign,
            self.numerator.clone(),
            self.denominator.clone(),
        );
        proof {
            let n = self.numerator@;
            let d = self.denominator@;
            assert(gcd_nat(n, d) == 1);
            assert(n / 1 == n && d / 1 == d);
            Natural::lemma_canonical_unique(&q.numerator, &self.numerator);
            Natural::lemma_canonical_unique(&q.denominator, &self.denominator);
            if n == 0 {
                assert(self.sign);
            }
        }
        q
    }
}

/// Dividing a positive value by itself gives one.
proof fn lemma_pow2ish_self_div(d: nat)
    requires
        d > 0,
    ensures
        0nat / d == 0,
        d / d == 1,
{
    lemma_basic_div(0, d as int);
    lemma_fundamental_div_mod_converse(d as int, d as int, 1, 0);
}

/// A product with a positive scale keeps cross-multiplied equalities.
proof fn lemma_frac_scale(n: int, d: int, s: int)
    ensures
        n * (d * s) == (n * s) * d,
{
    assert(n * (d * s) == (n * s) * d) by (nonlinear_arith);
}

/// The signed value of a sign-magnitude product.
proof fn lemma_sign_mag(sign: bool, n: nat, d: nat, v: int)
    requires
        v == if sign { n as int } else { -(n as int) },
    ensures
        (if sign { (n * d) as int } else { -((n * d) as int) }) == v * d,
{
    if sign {
    } else {
        assert(-((n * d) as int) == (-(n as int)) * d) by (nonlinear_arith);
    }
}

/// Relates the reduced sum to the exact cross-product identity.
proof fn lemma_sum_cross(rn: int, rd: int, s: int, an: int, ad: int, bn: int, bd: int)
    requires
        rd > 0,
        ad > 0,
        bd > 0,
        // the reduced fraction equals s / (ad * bd)
        rn * (ad * bd) == s * rd,
        // the integer sum is the cross product
        s == an * bd + bn * ad,
    ensures
        rn * (ad * bd) == (an * bd + bn * ad) * rd,
{
}

impl Clone for Rational {
    /// Deep copy.
    fn clone(&self) -> (r: Rational)
        ensures
            r.sign == self.sign,
            r.numerator@ == self.numerator@,
            r.denominator@ == self.denominator@,
            r.num() == self.num(),
            r.den() == self.den(),
            r.wf() == self.wf(),
    {
        Rational {
            sign: self.sign,
            numerator: self.numerator.clone(),
            denominator: self.denominator.clone(),
        }
    }
}

impl PartialEq for Rational {
    /// Canonical values are equal exactly when they denote the same number.
    fn eq(&self, other: &Rational) -> (r: bool) {
        self.sign == other.sign && self.numerator.eq(&other.numerator)
            && self.denominator.eq(&other.denominator)
    }
}

impl vstd::std_specs::cmp::PartialEqSpecImpl for Rational {
    open spec fn obeys_eq_spec() -> bool {
        true
    }

    open spec fn eq_spec(&self, other: &Rational) -> bool {
        self.sign == other.sign && self.numerator.same_repr(&other.numerator)
            && self.denominator.same_repr(&other.denominator)
    }
}

impl Eq for Rational {}

} // verus!
