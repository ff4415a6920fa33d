//! Public conversions from `Rational` to float bit patterns.
//!
//! Conversions return bit patterns, never floats: a caller reassembles the
//! float with a bit cast. `Exact`-mode conversion fails instead of rounding;
//! the try/convertible pair reports exact representability.

use crate::float_bits::{
    f32_assemble, f32_exp, f32_exp_field, f32_infinity, f32_is_finite, f32_is_infinite,
    f32_is_nan, f32_mant, f32_sign, f64_assemble, f64_exp, f64_exp_field, f64_infinity,
    f64_is_finite, f64_is_infinite, f64_is_nan, f64_mant, f64_sign, RoundingMode,
};
use crate::float_from::{round_mag, val_eq, val_ge, val_le, FloatRound};
use crate::natural::Natural;
use crate::rational::Rational;
use vstd::arithmetic::power2::*;
use vstd::prelude::*;

verus! {

/// The limb budget under which conversions are defined; a vector longer
/// than this cannot exist in memory.
pub open spec fn limbs_in_budget(n: &Natural) -> bool {
    n.limbs().len() < 0x0001_0000_0000_0000
}

impl Rational {
    /// What a successful 32-bit rounding guarantees.
    pub open spec fn f32_round_post(&self, rm: RoundingMode, b: u32) -> bool {
        let m = f32_mant(b);
        let e = f32_exp(b);
        let pv = self.numerator@;
        let qv = self.den();
        &&& f32_sign(b) == !self.sign
        &&& !f32_is_nan(b)
        &&& (f32_is_finite(b) ==> {
            &&& (rm == RoundingMode::Exact ==> val_eq(m, e, pv, qv))
            &&& (crate::float_from::mag_rounds_down(rm, !self.sign) && pv > 0
                ==> val_le(m, e, pv, qv) && (!val_le((m + 1) as nat, e, pv, qv)
                    || !val_ge(0xff_ffffnat, 104, pv, qv)))
            &&& (crate::float_from::mag_rounds_up(rm, !self.sign) && pv > 0
                ==> val_ge(m, e, pv, qv))
            &&& (rm == RoundingMode::Nearest && pv > 0 ==> (!val_le((m + 1) as nat, e, pv, qv)
                || !val_ge(0xff_ffffnat, 104, pv, qv))
                && (m == 0 || !val_ge((m - 1) as nat, e, pv, qv))
                && (val_ge((2 * m + 1) as nat, e - 1, pv, qv)
                    || !val_ge(0xff_ffffnat, 104, pv, qv))
                && (m == 0 || val_le((2 * m - 1) as nat, e - 1, pv, qv))
                && ((val_eq((2 * m + 1) as nat, e - 1, pv, qv)
                        && val_ge(0xff_ffffnat, 104, pv, qv)
                    || (m > 0 && val_eq((2 * m - 1) as nat, e - 1, pv, qv)))
                    ==> m % 2 == 0))
            &&& (pv == 0 ==> m == 0)
        })
        &&& (f32_is_infinite(b) ==> !val_ge(0xff_ffffnat, 104, pv, qv))
    }

    /// What a successful 64-bit rounding guarantees.
    pub open spec fn f64_round_post(&self, rm: RoundingMode, b: u64) -> bool {
        let m = f64_mant(b);
        let e = f64_exp(b);
        let pv = self.numerator@;
        let qv = self.den();
        &&& f64_sign(b) == !self.sign
        &&& !f64_is_nan(b)
        &&& (f64_is_finite(b) ==> {
            &&& (rm == RoundingMode::Exact ==> val_eq(m, e, pv, qv))
            &&& (crate::float_from::mag_rounds_down(rm, !self.sign) && pv > 0
                ==> val_le(m, e, pv, qv) && (!val_le((m + 1) as nat, e, pv, qv)
                    || !val_ge(0x1f_ffff_ffff_ffffnat, 971, pv, qv)))
            &&& (crate::float_from::mag_rounds_up(rm, !self.sign) && pv > 0
                ==> val_ge(m, e, pv, qv))
            &&& (rm == RoundingMode::Nearest && pv > 0 ==> (!val_le((m + 1) as nat, e, pv, qv)
                || !val_ge(0x1f_ffff_ffff_ffffnat, 971, pv, qv))
                && (m == 0 || !val_ge((m - 1) as nat, e, pv, qv))
                && (val_ge((2 * m + 1) as nat, e - 1, pv, qv)
                    || !val_ge(0x1f_ffff_ffff_ffffnat, 971, pv, qv))
                && (m == 0 || val_le((2 * m - 1) as nat, e - 1, pv, qv))
                && ((val_eq((2 * m + 1) as nat, e - 1, pv, qv)
                        && val_ge(0x1f_ffff_ffff_ffffnat, 971, pv, qv)
                    || (m > 0 && val_eq((2 * m - 1) as nat, e - 1, pv, qv)))
                    ==> m % 2 == 0))
            &&& (pv == 0 ==> m == 0)
        })
        &&& (f64_is_infinite(b) ==> !val_ge(0x1f_ffff_ffff_ffffnat, 971, pv, qv))
    }

    /// The value rounded to a 32-bit float, as its bit pattern; `None` only
    /// in `Exact` mode, when the value is not representable.
    pub fn f32_rounding_bits(&self, rm: RoundingMode) -> (r: Option<u32>)
        requires
            self.wf(),
            limbs_in_budget(&self.numerator),
        ensures
            rm != RoundingMode::Exact ==> r is Some,
            rm == RoundingMode::Exact && r is Some ==> f32_is_finite(r->0),
            match r {
                Some(b) => self.f32_round_post(rm, b),
                None => rm == RoundingMode::Exact
                    && crate::float_from::no_representation(24, -149, 128, self.numerator@,
                        self.den()),
            },
    {
        let neg = !self.sign;
        if self.numerator.is_zero() {
            let b = f32_assemble(neg, 0, -149);
            proof {
                lemma_zero_val(self.den());
                assert(self.f32_round_post(rm, b));
            }
            return Some(b);
        }
        let out = round_mag(&self.numerator, &self.denominator, neg, rm, 24, -149, 128);
        match out {
            FloatRound::Finite { m, e, exact: _ } => {
                proof {
                    lemma2_to64();
                    assert(pow2(24) == 0x100_0000);
                    assert(pow2(23) == 0x80_0000);
                }
                let b = f32_assemble(neg, m as u32, e as i32);
                proof {
                    assert(f32_mant(b) == m as nat);
                    if m == 0 {
                        assert(f32_exp_field(b) == 0);
                        assert(e == -149);
                    }
                    assert(f32_exp(b) == e as int);
                    assert(self.f32_round_post(rm, b));
                }
                Some(b)
            }
            FloatRound::TooLarge => {
                if matches!(rm, RoundingMode::Exact) {
                    None
                } else if (matches!(rm, RoundingMode::Floor) && !neg)
                    || (matches!(rm, RoundingMode::Ceiling) && neg)
                    || matches!(rm, RoundingMode::Down)
                    || matches!(rm, RoundingMode::Nearest) {
                    proof {
                        lemma2_to64();
                        lemma2_to64_rest();
                        assert(pow2(24) == 0x100_0000);
                        assert(pow2(23) == 0x80_0000);
                    }
                    let b = f32_assemble(neg, 0xff_ffff, 104);
                    proof {
                        assert(val_le(0xff_ffffnat, 104, self.numerator@, self.den()));
                        crate::float_from::lemma_ge_monotone(
                            0xff_fffe,
                            0xff_ffff,
                            104,
                            self.numerator@,
                            self.den(),
                        );
                        crate::float_from::lemma_saturate_mid(
                            0xff_ffffnat,
                            104,
                            self.numerator@,
                            self.den(),
                        );
                        assert(self.f32_round_post(rm, b));
                    }
                    Some(b)
                } else {
                    let b = f32_infinity(neg);
                    proof {
                        lemma2_to64();
                        assert(pow2(24) == 0x100_0000);
                        assert(self.f32_round_post(rm, b));
                    }
                    Some(b)
                }
            }
            FloatRound::NotExact => None,
        }
    }

    /// The exact 32-bit float of the value, as its bit pattern, or `None`
    /// when the value is not representable.
    pub fn f32_try_bits(&self) -> (r: Option<u32>)
        requires
            self.wf(),
            limbs_in_budget(&self.numerator),
        ensures
            match r {
                Some(b) => f32_is_finite(b) && f32_sign(b) == !self.sign
                    && val_eq(f32_mant(b), f32_exp(b), self.numerator@, self.den()),
                None => forall|b2: u32|
                    f32_is_finite(b2) ==> !#[trigger] val_eq(f32_mant(b2), f32_exp(b2),
                        self.numerator@, self.den()),
            },
    {
        let r = self.f32_rounding_bits(RoundingMode::Exact);
        proof {
            if r is None {
                assert forall|b2: u32|
                    f32_is_finite(b2) implies !#[trigger] val_eq(f32_mant(b2), f32_exp(b2),
                        self.numerator@, self.den()) by {
                    let bb = b2;
                    assert(((bb >> 23u32) & 0xff) <= 0xff && (bb & 0x7f_ffff) <= 0x7f_ffff)
                        by (bit_vector);
                    assert(f32_mant(b2) < pow2(24) && -149 <= f32_exp(b2) <= 104) by {
                        lemma2_to64();
                        assert(pow2(24) == 0x100_0000);
                    }
                }
            }
        }
        r
    }

    /// Whether the value is exactly representable as a 32-bit float.
    pub fn f32_convertible(&self) -> (r: bool)
        requires
            self.wf(),
            limbs_in_budget(&self.numerator),
        ensures
            r ==> exists|b: u32|
                #[trigger] f32_is_finite(b) && f32_sign(b) == !self.sign
                    && val_eq(f32_mant(b), f32_exp(b), self.numerator@, self.den()),
            !r ==> forall|b: u32|
                f32_is_finite(b) ==> !#[trigger] val_eq(f32_mant(b), f32_exp(b),
                    self.numerator@, self.den()),
    {
        match self.f32_try_bits() {
            Some(b) => {
                proof {
                    assert(f32_is_finite(b));
                }
                true
            }
            None => false,
        }
    }

    /// The value rounded to a 64-bit float, as its bit pattern; `None` only
    /// in `Exact` mode, when the value is not representable.
    pub fn f64_rounding_bits(&self, rm: RoundingMode) -> (r: Option<u64>)
        requires
            self.wf(),
            limbs_in_budget(&self.numerator),
        ensures
            rm != RoundingMode::Exact ==> r is Some,
            rm == RoundingMode::Exact && r is Some ==> f64_is_finite(r->0),
            match r {
                Some(b) => self.f64_round_post(rm, b),
                None => rm == RoundingMode::Exact
                    && crate::float_from::no_representation(53, -1074, 1024, self.numerator@,
                        self.den()),
            },
    {
        let neg = !self.sign;
        if self.numerator.is_zero() {
            let b = f64_assemble(neg, 0, -1074);
            proof {
                lemma_zero_val(self.den());
                assert(self.f64_round_post(rm, b));
            }
            return Some(b);
        }
        let out = round_mag(&self.numerator, &self.denominator, neg, rm, 53, -1074, 1024);
        match out {
            FloatRound::Finite { m, e, exact: _ } => {
                proof {
                    lemma2_to64();
                    lemma2_to64_rest();
                    assert(pow2(53) == 0x20_0000_0000_0000);
                    assert(pow2(52) == 0x10_0000_0000_0000);
                }
                let b = f64_assemble(neg, m, e);
                proof {
                    assert(f64_mant(b) == m as nat);
                    if m == 0 {
                        assert(f64_exp_field(b) == 0);
                        assert(e == -1074);
                    }
                    assert(f64_exp(b) == e as int);
                    assert(self.f64_round_post(rm, b));
                }
                Some(b)
            }
            FloatRound::TooLarge => {
                if matches!(rm, RoundingMode::Exact) {
                    None
                } else if (matches!(rm, RoundingMode::Floor) && !neg)
                    || (matches!(rm, RoundingMode::Ceiling) && neg)
                    || matches!(rm, RoundingMode::Down)
                    || matches!(rm, RoundingMode::Nearest) {
                    proof {
                        lemma2_to64();
                        lemma2_to64_rest();
                        assert(pow2(53) == 0x20_0000_0000_0000);
                        assert(pow2(52) == 0x10_0000_0000_0000);
                    }
                    let b = f64_assemble(neg, 0x1f_ffff_ffff_ffff, 971);
                    proof {
                        assert(val_le(0x1f_ffff_ffff_ffffnat, 971, self.numerator@, self.den()));
                        crate::float_from::lemma_ge_monotone(
                            0x1f_ffff_ffff_fffe,
                            0x1f_ffff_ffff_ffff,
                            971,
                            self.numerator@,
                            self.den(),
                        );
                        crate::float_from::lemma_saturate_mid(
                            0x1f_ffff_ffff_ffffnat,
                            971,
                            self.numerator@,
                            self.den(),
                        );
                        assert(self.f64_round_post(rm, b));
                    }
                    Some(b)
                } else {
                    let b = f64_infinity(neg);
                    proof {
                        lemma2_to64();
                        lemma2_to64_rest();
                        assert(pow2(53) == 0x20_0000_0000_0000);
                        assert(self.f64_round_post(rm, b));
                    }
                    Some(b)
                }
            }
            FloatRound::NotExact => None,
        }
    }

    /// The exact 64-bit float of the value, as its bit pattern, or `None`
    /// when the value is not representable.
    pub fn f64_try_bits(&self) -> (r: Option<u64>)
        requires
            self.wf(),
            limbs_in_budget(&self.numerator),
        ensures
            match r {
                Some(b) => f64_is_finite(b) && f64_sign(b) == !self.sign
                    && val_eq(f64_mant(b), f64_exp(b), self.numerator@, self.den()),
                None => forall|b2: u64|
                    f64_is_finite(b2) ==> !#[trigger] val_eq(f64_mant(b2), f64_exp(b2),
                        self.numerator@, self.den()),
            },
    {
        let r = self.f64_rounding_bits(RoundingMode::Exact);
        proof {
            if r is None {
                assert forall|b2: u64|
                    f64_is_finite(b2) implies !#[trigger] val_eq(f64_mant(b2), f64_exp(b2),
                        self.numerator@, self.den()) by {
                    let bb = b2;
                    assert(((bb >> 52u64) & 0x7ff) <= 0x7ff
                        && (bb & 0xf_ffff_ffff_ffff) <= 0xf_ffff_ffff_ffff) by (bit_vector);
                    assert(f64_mant(b2) < pow2(53) && -1074 <= f64_exp(b2) <= 971) by {
                        lemma2_to64();
                        lemma2_to64_rest();
                        assert(pow2(53) == 0x20_0000_0000_0000);
                    }
                }
            }
        }
        r
    }

    /// Whether the value is exactly representable as a 64-bit float.
    pub fn f64_convertible(&self) -> (r: bool)
        requires
            self.wf(),
            limbs_in_budget(&self.numerator),
        ensures
            r ==> exists|b: u64|
                #[trigger] f64_is_finite(b) && f64_sign(b) == !self.sign
                    && val_eq(f64_mant(b), f64_exp(b), self.numerator@, self.den()),
            !r ==> forall|b: u64|
                f64_is_finite(b) ==> !#[trigger] val_eq(f64_mant(b), f64_exp(b),
                    self.numerator@, self.den()),
    {
        match self.f64_try_bits() {
            Some(b) => {
                proof {
                    assert(f64_is_finite(b));
                }
                true
            }
            None => false,
        }
    }
}

/// A zero numerator makes every cross product vanish.
proof fn lemma_zero_val(qv: nat)
    ensures
        forall|m: nat, e: int| m == 0 ==> #[trigger] val_eq(m, e, 0, qv),
{
    assert forall|m: nat, e: int| m == 0 implies #[trigger] val_eq(m, e, 0, qv) by {
        lemma_pow2_pos(e as nat);
        lemma_pow2_pos((-e) as nat);
        assert(m * pow2(e as nat) * qv == 0) by (nonlinear_arith)
            requires m == 0;
        assert(m * qv == 0) by (nonlinear_arith)
            requires m == 0;
        assert(0nat * pow2((-e) as nat) == 0) by (nonlinear_arith);
    }
}

} // verus!
