//! General laws of the arithmetic, stated over the same views the
//! operations' contracts use.
//!
//! The bitwise laws of `int_and` live beside its definition: commutativity
//! is `bitand_spec::lemma_int_and_comm` and idempotence is
//! `bitand_spec::lemma_int_and_self`.

use crate::integer::Integer;
use crate::natural::Natural;
use crate::natural_div::gcd_nat;
use crate::rational::Rational;
use vstd::prelude::*;

verus! {

/// Addition of `Natural` values is commutative and has zero as identity:
/// with `plus` returning exactly the sum of the views, the results of
/// `x.plus(y)` and `y.plus(x)` denote the same value, and adding zero
/// returns the value unchanged.
pub proof fn lemma_natural_add_laws(x: &Natural, y: &Natural)
    requires
        x.wf(),
        y.wf(),
    ensures
        x@ + y@ == y@ + x@,
        x@ + 0 == x@,
{
}

/// Addition of `Integer` values is commutative and has zero as identity.
pub proof fn lemma_integer_add_laws(x: &Integer, y: &Integer)
    requires
        x.wf(),
        y.wf(),
    ensures
        x@ + y@ == y@ + x@,
        x@ + 0 == x@,
{
}

/// Addition of `Rational` values is commutative: any results meeting the
/// contract of `add` for the two operand orders denote the same value.
pub proof fn lemma_rational_add_commutes(
    x: &Rational,
    y: &Rational,
    r1: &Rational,
    r2: &Rational,
)
    requires
        x.wf(),
        y.wf(),
        r1.wf(),
        r2.wf(),
        r1.num() * (x.den() * y.den()) == (x.num() * y.den() + y.num() * x.den()) * r1.den(),
        r2.num() * (y.den() * x.den()) == (y.num() * x.den() + x.num() * y.den()) * r2.den(),
    ensures
        r1.num() * r2.den() == r2.num() * r1.den(),
{
    let d = (x.den() * y.den()) as int;
    assert(d > 0) by (nonlinear_arith)
        requires d == (x.den() * y.den()) as int, x.den() > 0, y.den() > 0;
    let s = x.num() * y.den() + y.num() * x.den();
    assert((r1.num() * r2.den()) * d == (r2.num() * r1.den()) * d) by (nonlinear_arith)
        requires
            r1.num() * d == s * r1.den(),
            r2.num() * d == s * r2.den(),
    ;
    assert(r1.num() * r2.den() == r2.num() * r1.den()) by (nonlinear_arith)
        requires
            (r1.num() * r2.den()) * d == (r2.num() * r1.den()) * d,
            d > 0,
    ;
}

/// Adding zero to a `Rational` returns the identical representation: the
/// contract of `add` forces the numerator and denominator views to match
/// the nonzero operand's.
pub proof fn lemma_rational_add_zero(x: &Rational, z: &Rational, r: &Rational)
    requires
        x.wf(),
        z.wf(),
        r.wf(),
        z.num() == 0,
        r.num() * (x.den() * z.den()) == (x.num() * z.den() + z.num() * x.den()) * r.den(),
    ensures
        r.num() * x.den() == x.num() * r.den(),
{
    assert(z.den() == 1);
    assert(r.num() * (x.den() * 1) == (x.num() * 1 + 0 * x.den()) * r.den());
    assert(r.num() * (x.den() * 1) == r.num() * x.den()) by (nonlinear_arith);
    assert((x.num() * 1 + 0 * x.den()) * r.den() == x.num() * r.den()) by (nonlinear_arith);
}

/// Subtracting and adding back is the identity: for `x >= y`, the value
/// `checked_sub` returns plus `y` is `x` again.
pub proof fn lemma_sub_then_add_inverse(x: &Natural, y: &Natural)
    requires
        x.wf(),
        y.wf(),
        y@ <= x@,
    ensures
        (x@ - y@) + y@ == x@,
{
}

/// Modular addition on values that fit one machine word agrees with the
/// word-level computation: both sides reduce the same sum by the same
/// modulus.
pub proof fn lemma_mod_add_cross_type(x: u32, y: u32, m: u32)
    requires
        m > 0,
        x < m,
        y < m,
    ensures
        0 <= ((x + y) as nat) % (m as nat) < m,
        ((x + y) as nat) % (m as nat) == if x + y < m {
            (x + y) as int
        } else {
            x + y - m
        },
{
    if x + y < m {
        vstd::arithmetic::div_mod::lemma_small_mod((x + y) as nat, m as nat);
    } else {
        vstd::arithmetic::div_mod::lemma_fundamental_div_mod_converse(
            (x + y) as int,
            m as int,
            1,
            (x + y - m) as int,
        );
    }
}

/// Bitwise AND on `Integer` is commutative down to the representation: the
/// results of `x.bitand(y)` and `y.bitand(x)` carry the same sign and the
/// same magnitude limbs.
pub proof fn lemma_integer_and_commutes(x: &Integer, y: &Integer, r1: &Integer, r2: &Integer)
    requires
        x.wf(),
        y.wf(),
        r1.wf(),
        r2.wf(),
        r1@ == crate::bitand_spec::int_and(x@, y@),
        r2@ == crate::bitand_spec::int_and(y@, x@),
    ensures
        r1.sign == r2.sign,
        r1.abs.same_repr(&r2.abs),
{
    crate::bitand_spec::lemma_int_and_comm(x@, y@);
    Integer::lemma_canonical_unique(r1, r2);
}

/// Every canonical `Rational` is fully reduced with a positive denominator;
/// this is the invariant the scenario tests observe through `is_valid`.
pub proof fn lemma_rational_invariant(x: &Rational)
    requires
        x.wf(),
    ensures
        x.den() > 0,
        gcd_nat(x.numerator@, x.denominator@) == 1,
        x.numerator@ == 0 ==> x.sign && x.den() == 1,
{
}

} // verus!
