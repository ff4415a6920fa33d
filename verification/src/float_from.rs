//! Conversion from `Rational` to float bit patterns under a rounding mode.
//!
//! The magnitude `p/q` is scaled so that the least representable exponent
//! becomes the unit, divided exactly with remainder, and the quotient is cut
//! to the target precision; the dropped bits and the division remainder
//! decide the rounding. `Exact` mode reports failure instead of rounding.

use crate::float_bits::RoundingMode;
use crate::limbs::{lemma_limbs_val_lower, lemma_limbs_val_singleton, limb_weight};
use crate::natural::Natural;
use vstd::arithmetic::div_mod::*;
use vstd::arithmetic::power2::*;
use vstd::prelude::*;

verus! {

/// `m * 2^e <= p / q`, cross-multiplied.
pub open spec fn val_le(m: nat, e: int, p: nat, q: nat) -> bool {
    if e >= 0 {
        m * pow2(e as nat) * q <= p
    } else {
        m * q <= p * pow2((-e) as nat)
    }
}

/// `m * 2^e >= p / q`, cross-multiplied.
pub open spec fn val_ge(m: nat, e: int, p: nat, q: nat) -> bool {
    if e >= 0 {
        m * pow2(e as nat) * q >= p
    } else {
        m * q >= p * pow2((-e) as nat)
    }
}

/// `m * 2^e == p / q`, cross-multiplied.
pub open spec fn val_eq(m: nat, e: int, p: nat, q: nat) -> bool {
    val_le(m, e, p, q) && val_ge(m, e, p, q)
}

/// No mantissa and exponent within the format's ranges hits the value
/// exactly.
pub open spec fn no_representation(prec: nat, min_e: int, emax_pow: int, pv: nat, qv: nat) -> bool {
    forall|m2: nat, e2: int|
        m2 < pow2(prec) && min_e <= e2 <= emax_pow - prec ==> !#[trigger] val_eq(m2, e2, pv, qv)
}

/// The outcome of rounding a positive magnitude to a float format.
pub enum FloatRound {
    /// A representable mantissa and exponent; `exact` says whether the
    /// value was hit exactly.
    Finite { m: u64, e: i64, exact: bool },
    /// The rounded value is larger than the largest finite value.
    TooLarge,
    /// `Exact` mode was asked for and the value is not representable.
    NotExact,
}

/// The rounding direction applied to a magnitude.
enum MagMode {
    MDown,
    MUp,
    MNearest,
    MExact,
}

/// A power of two as a `Natural`.
fn pow2_natural(k: u64) -> (r: Natural)
    ensures
        r.wf(),
        r@ == pow2(k as nat),
{
    let one = Natural::from_limb(1);
    let r = one.shl_bits(k);
    proof {
        assert(1nat * pow2(k as nat) == pow2(k as nat)) by (nonlinear_arith);
    }
    r
}

impl Natural {
    /// The value as a 64-bit word, if it fits.
    pub fn to_u64(&self) -> (r: Option<u64>)
        requires
            self.wf(),
        ensures
            match r {
                Some(x) => self@ == x,
                None => self@ > u64::MAX,
            },
    {
        match self {
            Natural::Small(x) => Some(*x as u64),
            Natural::Large(v) => {
                if v.len() == 2 {
                    let lo = v[0] as u64;
                    let hi = v[1] as u64;
                    proof {
                        lemma_limbs_val_singleton(v@.drop_last());
                        assert(v@.drop_last() =~= seq![v@[0]]);
                        lemma2_to64();
                        assert(32 * ((v@.len() - 1) as nat) == 32);
                        assert(self@ == v@[0] + (v@[1] as nat) * pow2(32));
                        assert((v@[1] as u64) * 0x1_0000_0000 + v@[0]
                            <= 0xffff_ffff_ffff_ffff) by (nonlinear_arith)
                            requires v@[1] <= 0xffff_ffffu32, v@[0] <= 0xffff_ffffu32;
                        let hh = hi;
                        assert(hh << 32u64 == hh * 0x1_0000_0000) by (bit_vector)
                            requires hh <= 0xffff_ffffu64;
                    }
                    Some(lo + (hi << 32))
                } else {
                    proof {
                        lemma_limbs_val_lower(v@);
                        if 64 < 32 * ((v@.len() - 1) as nat) {
                            lemma_pow2_strictly_increases(64, 32 * ((v@.len() - 1) as nat));
                        }
                        assert(pow2(64) == 0x1_0000_0000_0000_0000) by {
                            lemma_pow2_adds(32, 32);
                            lemma2_to64();
                        }
                    }
                    None
                }
            }
        }
    }
}

/// Rounds the positive magnitude `p / q` to `prec` mantissa bits with least
/// exponent `min_e`, overflowing past `2^emax_pow`.
#[verifier::rlimit(100)]
pub fn round_mag(
    p: &Natural,
    q: &Natural,
    neg: bool,
    rm: RoundingMode,
    prec: u64,
    min_e: i64,
    emax_pow: i64,
) -> (r: FloatRound)
    requires
        p.wf(),
        q.wf(),
        p@ > 0,
        q@ > 0,
        2 <= prec <= 53,
        -1075 <= min_e < 0,
        emax_pow > prec + 1,
        emax_pow <= 1024,
        p.limbs().len() < 0x0001_0000_0000_0000,
    ensures
        ({
            let pv = p@;
            let qv = q@;
            match r {
                FloatRound::Finite { m, e, exact } => {
                    &&& m < pow2(prec as nat)
                    &&& min_e <= e
                    &&& e + prec <= emax_pow
                    &&& (m >= pow2((prec - 1) as nat) || e == min_e)
                    &&& (exact <==> val_eq(m as nat, e as int, pv, qv))
                    &&& (rm == RoundingMode::Exact ==> exact)
                    &&& (mag_rounds_down(rm, neg) ==> val_le(m as nat, e as int, pv, qv)
                        && !val_le((m + 1) as nat, e as int, pv, qv))
                    &&& (mag_rounds_up(rm, neg) ==> val_ge(m as nat, e as int, pv, qv)
                        && (m == 0 || exact || !val_ge((m - 1) as nat, e as int, pv, qv)))
                    &&& (rm == RoundingMode::Nearest ==> !val_le((m + 1) as nat, e as int, pv, qv)
                        && (m == 0 || !val_ge((m - 1) as nat, e as int, pv, qv))
                        && val_ge((2 * m + 1) as nat, e as int - 1, pv, qv)
                        && (m == 0 || val_le((2 * m - 1) as nat, e as int - 1, pv, qv))
                        && ((val_eq((2 * m + 1) as nat, e as int - 1, pv, qv)
                            || (m > 0 && val_eq((2 * m - 1) as nat, e as int - 1, pv, qv)))
                            ==> m % 2 == 0))
                }
                FloatRound::TooLarge => !val_ge(
                    (pow2(prec as nat) - 1) as nat,
                    emax_pow - prec,
                    pv,
                    qv,
                ) && no_representation(prec as nat, min_e as int, emax_pow as int, pv, qv),
                FloatRound::NotExact => rm == RoundingMode::Exact
                    && no_representation(prec as nat, min_e as int, emax_pow as int, pv, qv),
            }
        }),
{
    let s = (-min_e) as u64;
    let pm = p.shl_bits(s);
    let (big_m, rem) = pm.div_mod(q);
    proof {
        lemma_big_m_len(p, pm, big_m, q, s);
    }
    let lbits = big_m.significant_bits();
    proof {
        big_m.lemma_limbs_denote_value();
        crate::limbs::lemma_limbs_val_bound(big_m.limbs());
        if big_m@ > 0 {
            if (lbits - 1) as nat >= 32 * big_m.limbs().len() {
                if (lbits - 1) as nat > 32 * big_m.limbs().len() {
                    lemma_pow2_strictly_increases(
                        32 * big_m.limbs().len(),
                        (lbits - 1) as nat,
                    );
                }
                assert(false);
            }
            assert(lbits <= 32 * big_m.limbs().len() + 1);
        }
        assert(big_m.limbs().len() < 0x0400_0000_0000_0000);
        assert(big_m@ == 0 ==> lbits == 0);
        lemma2_to64();
        if big_m@ > 0 && lbits == 0 {
            assert(pow2(0) == 1);
            assert(false);
        }
    }
    let d: u64 = if lbits > prec {
        lbits - prec
    } else {
        0
    };
    let e: i64 = min_e + d as i64;
    let pd = pow2_natural(d);
    proof {
        lemma_pow2_pos(d as nat);
    }
    let (mq, dropped) = big_m.div_mod(&pd);
    let inexact_low = !rem.is_zero() || !dropped.is_zero();
    let m0: u64 = match mq.to_u64() {
        Some(x) => x,
        None => {
            proof {
                lemma_mq_bound(big_m@, mq@, dropped@, d as nat, lbits as nat, prec as nat);
                lemma_pow2_strictly_increases(prec as nat, 64);
                lemma2_to64_rest();
            }
            0
        }
    };
    proof {
        lemma_mq_bound(big_m@, mq@, dropped@, d as nat, lbits as nat, prec as nat);
        lemma_pow2_strictly_increases(prec as nat, 54);
        assert(pow2(54) == 0x40_0000_0000_0000) by {
            lemma2_to64();
            lemma2_to64_rest();
        }
    }
    let mdown: bool = matches!(rm, RoundingMode::Down)
        || (matches!(rm, RoundingMode::Floor) && !neg)
        || (matches!(rm, RoundingMode::Ceiling) && neg)
        || matches!(rm, RoundingMode::Exact);
    let mup: bool = matches!(rm, RoundingMode::Up)
        || (matches!(rm, RoundingMode::Floor) && neg)
        || (matches!(rm, RoundingMode::Ceiling) && !neg);
    proof {
        assert(mdown == mag_rounds_down(rm, neg));
        assert(mup == mag_rounds_up(rm, neg));
    }
    if matches!(rm, RoundingMode::Exact) && inexact_low {
        proof {
            lemma_inexact_no_representation(
                p@, q@, pm@, big_m@, rem@, dropped@, mq@, s as nat, d as nat, lbits as nat,
                prec as nat, min_e as int, emax_pow as int,
            );
        }
        return FloatRound::NotExact;
    }
    let up: bool = if mdown {
        false
    } else if mup {
        inexact_low
    } else {
        decide_nearest(&rem, &dropped, q, &pd, d, m0)
    };
    proof {
        lemma_round_core(
            p@, q@, pm@, big_m@, rem@, mq@, dropped@, m0 as nat, s as nat, d as nat,
            e as int,
        );
        if !inexact_low {
            assert(!up);
        }
    }
    let renorm: bool = {
        proof {
            lemma_pow2_shift(prec);
        }
        up && m1_would_overflow(m0, prec)
    };
    let m1: u64;
    let e1: i64;
    if renorm {
        proof {
            lemma_pow2_shift((prec - 1) as u64);
            lemma_pow2_adds((prec - 1) as nat, 1);
            lemma2_to64();
        }
        m1 = 1u64 << (prec - 1);
        e1 = e + 1;
    } else if up {
        m1 = m0 + 1;
        e1 = e;
    } else {
        m1 = m0;
        e1 = e;
    }
    proof {
        lemma_pow2_shift((prec - 1) as u64);
        lemma_pow2_shift(prec);
        lemma_pow2_adds((prec - 1) as nat, 1);
        lemma2_to64();
    }
    if e1 > emax_pow - prec as i64 {
        proof {
            let pv = p@;
            let qv = q@;
            // overflow forces a scaled exponent, hence a full-width quotient
            assert(d > 0);
            assert(big_m@ > 0);
            assert(m0 >= pow2((prec - 1) as nat));
            if renorm {
                lemma_overflow(m0 as nat, e as int, prec as nat, emax_pow as int, pv, qv, true);
            } else {
                lemma_overflow(m0 as nat, e as int, prec as nat, emax_pow as int, pv, qv, false);
            }
        }
        proof {
            lemma_too_large_no_representation(
                prec as nat, min_e as int, emax_pow as int, p@, q@,
            );
        }
        return FloatRound::TooLarge;
    }
    proof {
        let pv = p@;
        let qv = q@;
        let mn = m1 as nat;
        let en = e1 as int;
        // mantissa range and normalization
        if d > 0 {
            assert(big_m@ > 0);
            assert(m0 >= pow2((prec - 1) as nat));
        } else {
            assert(e == min_e);
        }
        if renorm {
            lemma_val_shift(mn, e as int, pv, qv);
            lemma_val_shift((mn + 1) as nat, e as int, pv, qv);
            lemma_val_shift((mn - 1) as nat, e as int, pv, qv);
            assert(2 * mn == m0 + 1);
        }
        // exactness in both directions
        if !inexact_low {
            assert(val_eq(mn, en, pv, qv));
        } else {
            assert(!val_ge(m0 as nat, e as int, pv, qv));
            if renorm {
                assert(2 * (mn as int) == m0 + 1);
                assert(!val_le((m0 + 1) as nat, e as int, pv, qv));
                assert(!val_eq(mn, en, pv, qv));
            } else if up {
                assert(!val_le(mn, en, pv, qv));
            } else {
                assert(!val_ge(mn, en, pv, qv));
            }
        }
        // the mode brackets
        if mag_rounds_down(rm, neg) {
            assert(!up && !renorm);
            assert(val_le(mn, en, pv, qv));
            assert(!val_le((mn + 1) as nat, en, pv, qv));
        }
        if mag_rounds_up(rm, neg) {
            if !inexact_low {
                assert(val_ge(mn, en, pv, qv));
            } else if renorm {
                assert(val_ge(2 * mn, e as int, pv, qv)) by {
                    assert(!val_le((m0 + 1) as nat, e as int, pv, qv));
                    lemma_not_le_means_ge((m0 + 1) as nat, e as int, pv, qv);
                }
                assert(!val_ge((mn - 1) as nat, en, pv, qv)) by {
                    assert(2 * (mn - 1) <= m0);
                    lemma_val_monotone_ge(2 * ((mn - 1) as nat), m0 as nat, e as int, pv, qv);
                }
            } else {
                assert(mn == m0 + 1);
                lemma_not_le_means_ge(mn, en, pv, qv);
                assert(!val_ge((mn - 1) as nat, en, pv, qv));
            }
        }
        if rm == RoundingMode::Nearest {
            if renorm {
                assert(!val_le(2 * (mn + 1), e as int, pv, qv)) by {
                    lemma_val_monotone((m0 + 1) as nat, 2 * ((mn + 1) as nat), e as int, pv, qv);
                }
                assert(!val_ge((mn - 1) as nat, en, pv, qv)) by {
                    assert(!val_ge(m0 as nat, e as int, pv, qv));
                    lemma_val_monotone_ge(2 * ((mn - 1) as nat), m0 as nat, e as int, pv, qv);
                }
            } else if up {
                lemma_val_monotone((m0 + 1) as nat, (mn + 1) as nat, en, pv, qv);
                assert(!val_ge((mn - 1) as nat, en, pv, qv));
            } else {
                assert(!val_le((mn + 1) as nat, en, pv, qv));
                if mn > 0 {
                    lemma_strict_below(mn, en, pv, qv);
                }
            }
            // midpoint bracketing and the tie rule, over the cut-off tail
            let lhs: nat = 2 * (dropped@ * qv + rem@);
            let rhs: nat = pow2(d as nat) * qv;
            let pmv = pm@;
            let bm = big_m@;
            lemma_pow2_pos(d as nat);
            assert(2 * pmv == (2 * (m0 as nat)) * pow2(d as nat) * qv + lhs) by (nonlinear_arith)
                requires
                    pmv == bm * qv + rem@,
                    bm == (m0 as nat) * pow2(d as nat) + dropped@,
                    lhs == 2 * (dropped@ * qv + rem@),
            ;
            if renorm {
                assert(2 * mn == m0 + 1);
                lemma_scale((2 * mn + 1) as nat, e as int, pv, qv, s as nat, d as nat, pmv);
                assert((2 * mn + 1) * pow2(d as nat) * qv >= pmv) by (nonlinear_arith)
                    requires
                        2 * mn == m0 + 1,
                        pmv == bm * qv + rem@,
                        rem@ < qv,
                        bm == (m0 as nat) * pow2(d as nat) + dropped@,
                        dropped@ < pow2(d as nat),
                        qv > 0,
                        pow2(d as nat) > 0,
                ;
                assert(val_ge((2 * mn + 1) as nat, en - 1, pv, qv));
                assert(val_le((2 * mn - 1) as nat, en - 1, pv, qv)) by {
                    assert((2 * mn - 1) as nat == m0 as nat);
                    assert(val_le(m0 as nat, e as int, pv, qv));
                }
                assert(pow2((prec - 1) as nat) == 2 * pow2((prec - 2) as nat)) by {
                    lemma_pow2_adds((prec - 2) as nat, 1);
                }
                assert(mn % 2 == 0) by (nonlinear_arith)
                    requires mn == 2 * pow2((prec - 2) as nat);
            } else {
                lemma_nearest_mid((2 * mn + 1) as nat, e as int, pv, qv, s as nat, d as nat, pmv);
                if mn > 0 {
                    lemma_nearest_mid(
                        (2 * mn - 1) as nat, e as int, pv, qv, s as nat, d as nat, pmv,
                    );
                }
                if up {
                    assert(mn == m0 + 1);
                    assert((2 * mn + 1) * pow2(d as nat) * qv >= 2 * pmv) by (nonlinear_arith)
                        requires
                            mn == m0 + 1,
                            2 * pmv == (2 * (m0 as nat)) * pow2(d as nat) * qv + lhs,
                            lhs == 2 * (dropped@ * qv + rem@),
                            dropped@ < pow2(d as nat),
                            rem@ < qv,
                            qv > 0,
                            pow2(d as nat) > 0,
                    ;
                    assert(val_ge((2 * mn + 1) as nat, en - 1, pv, qv));
                    assert(lhs >= rhs);
                    assert((2 * mn - 1) * pow2(d as nat) * qv <= 2 * pmv) by (nonlinear_arith)
                        requires
                            mn == m0 + 1,
                            2 * pmv == (2 * (m0 as nat)) * pow2(d as nat) * qv + lhs,
                            lhs >= rhs,
                            rhs == pow2(d as nat) * qv,
                    ;
                    assert(val_le((2 * mn - 1) as nat, en - 1, pv, qv));
                    if val_eq((2 * mn + 1) as nat, en - 1, pv, qv) {
                        assert(((2 * mn + 1) as nat) * pow2(d as nat) * qv <= 2 * pmv);
                        assert(false) by (nonlinear_arith)
                            requires
                                mn == m0 + 1,
                                ((2 * mn + 1) as nat) * pow2(d as nat) * qv <= 2 * pmv,
                                2 * pmv == (2 * (m0 as nat)) * pow2(d as nat) * qv + lhs,
                                lhs == 2 * (dropped@ * qv + rem@),
                                dropped@ < pow2(d as nat),
                                rem@ < qv,
                                qv > 0,
                                pow2(d as nat) > 0,
                        ;
                    }
                    if val_eq((2 * mn - 1) as nat, en - 1, pv, qv) {
                        assert(((2 * mn - 1) as nat) * pow2(d as nat) * qv >= 2 * pmv);
                        assert(lhs == rhs) by (nonlinear_arith)
                            requires
                                mn == m0 + 1,
                                ((2 * mn - 1) as nat) * pow2(d as nat) * qv == 2 * pmv,
                                2 * pmv == (2 * (m0 as nat)) * pow2(d as nat) * qv + lhs,
                                rhs == pow2(d as nat) * qv,
                        ;
                        assert(m0 % 2 == 1);
                        assert(mn % 2 == 0);
                    }
                } else {
                    assert(mn == m0);
                    assert(lhs <= rhs);
                    assert((2 * mn + 1) * pow2(d as nat) * qv >= 2 * pmv) by (nonlinear_arith)
                        requires
                            mn == m0 as nat,
                            2 * pmv == (2 * (m0 as nat)) * pow2(d as nat) * qv + lhs,
                            lhs <= rhs,
                            rhs == pow2(d as nat) * qv,
                    ;
                    assert(val_ge((2 * mn + 1) as nat, en - 1, pv, qv));
                    if mn > 0 {
                        assert((2 * mn - 1) * pow2(d as nat) * qv <= 2 * pmv) by (nonlinear_arith)
                            requires
                                mn == m0 as nat,
                                2 * pmv == (2 * (m0 as nat)) * pow2(d as nat) * qv + lhs,
                                qv > 0,
                                pow2(d as nat) > 0,
                        ;
                        assert(val_le((2 * mn - 1) as nat, en - 1, pv, qv));
                    }
                    if val_eq((2 * mn + 1) as nat, en - 1, pv, qv) {
                        assert(((2 * mn + 1) as nat) * pow2(d as nat) * qv >= 2 * pmv);
                        assert(lhs == rhs) by (nonlinear_arith)
                            requires
                                mn == m0 as nat,
                                ((2 * mn + 1) as nat) * pow2(d as nat) * qv == 2 * pmv,
                                2 * pmv == (2 * (m0 as nat)) * pow2(d as nat) * qv + lhs,
                                rhs == pow2(d as nat) * qv,
                        ;
                        assert(m0 % 2 == 0);
                    }
                    if mn > 0 && val_eq((2 * mn - 1) as nat, en - 1, pv, qv) {
                        assert(((2 * mn - 1) as nat) * pow2(d as nat) * qv >= 2 * pmv);
                        assert(false) by (nonlinear_arith)
                            requires
                                mn == m0 as nat,
                                mn > 0,
                                ((2 * mn - 1) as nat) * pow2(d as nat) * qv == 2 * pmv,
                                2 * pmv == (2 * (m0 as nat)) * pow2(d as nat) * qv + lhs,
                                qv > 0,
                                pow2(d as nat) > 0,
                        ;
                    }
                }
            }
        }
    }
    FloatRound::Finite { m: m1, e: e1, exact: !inexact_low }
}

/// Whether incrementing the cut mantissa spills into one more bit.
fn m1_would_overflow(m0: u64, prec: u64) -> (r: bool)
    requires
        prec < 64,
    ensures
        r == (m0 + 1 == pow2(prec as nat)),
{
    proof {
        lemma_pow2_shift(prec);
        lemma_pow2_pos(prec as nat);
    }
    m0 == (1u64 << prec) - 1
}

/// Decides whether round-to-nearest moves the magnitude up, by comparing
/// twice the cut-off tail against one unit in the last place; a tie keeps an
/// even mantissa, and any upward move means the value was not exactly
/// representable at the target exponent.
fn decide_nearest(rem: &Natural, dropped: &Natural, q: &Natural, pd: &Natural, d: u64, m0: u64)
    -> (up: bool)
    requires
        rem.wf(),
        dropped.wf(),
        q.wf(),
        pd.wf(),
        q@ > 0,
        rem@ < q@,
        dropped@ < pd@,
        pd@ == pow2(d as nat),
    ensures
        up ==> rem@ != 0 || dropped@ != 0,
        2 * (dropped@ * q@ + rem@) > pow2(d as nat) * q@ ==> up,
        2 * (dropped@ * q@ + rem@) < pow2(d as nat) * q@ ==> !up,
        2 * (dropped@ * q@ + rem@) == pow2(d as nat) * q@ ==> up == (m0 % 2 == 1),
{
    let ghost lhs: nat = 2 * (dropped@ * q@ + rem@);
    let ghost rhs: nat = pow2(d as nat) * q@;
    let half_cmp: core::cmp::Ordering = if d == 0 {
        proof {
            assert(rem@ + rem@ <= 2 * q@);
            lemma2_to64();
            assert(dropped@ == 0);
            assert(rhs == q@) by (nonlinear_arith)
                requires rhs == pow2(0) * q@, pow2(0) == 1;
            assert(lhs == rem@ + rem@) by (nonlinear_arith)
                requires lhs == 2 * (dropped@ * q@ + rem@), dropped@ == 0;
        }
        rem.plus(&rem).cmp(q)
    } else {
        let half = pow2_natural(d - 1);
        proof {
            lemma_pow2_pos((d - 1) as nat);
            lemma_pow2_adds((d - 1) as nat, 1);
            lemma2_to64();
            assert(pow2(d as nat) == 2 * pow2((d - 1) as nat));
        }
        match dropped.cmp(&half) {
            core::cmp::Ordering::Less => {
                proof {
                    assert(lhs < rhs) by (nonlinear_arith)
                        requires
                            lhs == 2 * (dropped@ * q@ + rem@),
                            rhs == pow2(d as nat) * q@,
                            pow2(d as nat) == 2 * half@,
                            dropped@ < half@,
                            rem@ < q@,
                            q@ > 0,
                    ;
                }
                core::cmp::Ordering::Less
            }
            core::cmp::Ordering::Greater => {
                proof {
                    assert(lhs > rhs) by (nonlinear_arith)
                        requires
                            lhs == 2 * (dropped@ * q@ + rem@),
                            rhs == pow2(d as nat) * q@,
                            pow2(d as nat) == 2 * half@,
                            dropped@ > half@,
                            q@ > 0,
                    ;
                }
                core::cmp::Ordering::Greater
            }
            core::cmp::Ordering::Equal => {
                if rem.is_zero() {
                    proof {
                        assert(lhs == rhs) by (nonlinear_arith)
                            requires
                                lhs == 2 * (dropped@ * q@ + rem@),
                                rhs == pow2(d as nat) * q@,
                                pow2(d as nat) == 2 * half@,
                                dropped@ == half@,
                                rem@ == 0,
                        ;
                    }
                    core::cmp::Ordering::Equal
                } else {
                    proof {
                        assert(lhs > rhs) by (nonlinear_arith)
                            requires
                                lhs == 2 * (dropped@ * q@ + rem@),
                                rhs == pow2(d as nat) * q@,
                                pow2(d as nat) == 2 * half@,
                                dropped@ == half@,
                                rem@ > 0,
                        ;
                    }
                    core::cmp::Ordering::Greater
                }
            }
        }
    };
    match half_cmp {
        core::cmp::Ordering::Greater => {
            proof {
                lemma_pow2_pos(d as nat);
                assert(rhs > 0) by (nonlinear_arith)
                    requires rhs == pow2(d as nat) * q@, pow2(d as nat) > 0, q@ > 0;
                assert(dropped@ != 0 || rem@ != 0) by (nonlinear_arith)
                    requires lhs > 0, lhs == 2 * (dropped@ * q@ + rem@);
            }
            true
        }
        core::cmp::Ordering::Equal => {
            proof {
                lemma_pow2_pos(d as nat);
                assert(rhs > 0) by (nonlinear_arith)
                    requires rhs == pow2(d as nat) * q@, pow2(d as nat) > 0, q@ > 0;
                assert(dropped@ != 0 || rem@ != 0) by (nonlinear_arith)
                    requires lhs > 0, lhs == 2 * (dropped@ * q@ + rem@);
            }
            m0 % 2 == 1
        }
        core::cmp::Ordering::Less => false,
    }
}

/// `!val_le(m, e, p, q)` bounds the value strictly above: then `m` itself
/// bounds it from above.
proof fn lemma_not_le_means_ge(m: nat, e: int, pv: nat, qv: nat)
    requires
        !val_le(m, e, pv, qv),
    ensures
        val_ge(m, e, pv, qv),
{
}

/// An inexact division at the finest exponent rules out every exact
/// representation: a representable value would make both the remainder and
/// the dropped bits vanish.
#[verifier::rlimit(100)]
proof fn lemma_inexact_no_representation(
    pv: nat,
    qv: nat,
    pmv: nat,
    bm: nat,
    rem: nat,
    dropped: nat,
    mq: nat,
    s: nat,
    d: nat,
    l: nat,
    prec: nat,
    min_e: int,
    emax_pow: int,
)
    requires
        qv > 0,
        prec >= 2,
        min_e == -(s as int),
        pmv == pv * pow2(s),
        pmv == bm * qv + rem,
        rem < qv,
        bm == mq * pow2(d) + dropped,
        dropped < pow2(d),
        bm == 0 || (l > 0 && pow2((l - 1) as nat) <= bm < pow2(l)),
        d == if l > prec { (l - prec) as nat } else { 0 },
        rem != 0 || dropped != 0,
    ensures
        no_representation(prec, min_e, emax_pow, pv, qv),
{
    assert forall|m2: nat, e2: int|
        m2 < pow2(prec) && min_e <= e2 <= emax_pow - prec
            implies !#[trigger] val_eq(m2, e2, pv, qv) by {
        if val_eq(m2, e2, pv, qv) {
            let d2 = (e2 + s) as nat;
            lemma_pow2_pos(d2);
            lemma_pow2_pos(d);
            lemma_pow2_pos(s);
            lemma_scale(m2, e2, pv, qv, s, d2, pmv);
            assert(m2 * pow2(d2) * qv == pmv);
            // the division is exact with quotient m2 * 2^(e2 + s)
            assert(m2 * pow2(d2) * qv == (m2 * pow2(d2)) * qv + 0) by (nonlinear_arith);
            lemma_fundamental_div_mod_converse(
                pmv as int,
                qv as int,
                (m2 * pow2(d2)) as int,
                0,
            );
            lemma_fundamental_div_mod_converse(pmv as int, qv as int, bm as int, rem as int);
            assert(bm == m2 * pow2(d2) && rem == 0);
            // the cut position lies at or below the representation's scale
            assert(d <= d2) by {
                if d > 0 {
                    lemma_pow2_adds(prec, d2);
                    assert(bm < pow2(prec) * pow2(d2)) by (nonlinear_arith)
                        requires bm == m2 * pow2(d2), m2 < pow2(prec), pow2(d2) > 0;
                    assert(pow2((l - 1) as nat) <= bm);
                    if (l - 1) as nat >= prec + d2 {
                        if (l - 1) as nat > prec + d2 {
                            lemma_pow2_strictly_increases(prec + d2, (l - 1) as nat);
                        }
                        assert(false);
                    }
                }
            }
            // so the dropped bits are a multiple of the cut, hence zero
            lemma_pow2_adds(d, (d2 - d) as nat);
            assert(bm == (m2 * pow2((d2 - d) as nat)) * pow2(d) + 0) by (nonlinear_arith)
                requires
                    bm == m2 * pow2(d2),
                    pow2(d2) == pow2(d) * pow2((d2 - d) as nat),
            ;
            lemma_fundamental_div_mod_converse(
                bm as int,
                pow2(d) as int,
                (m2 * pow2((d2 - d) as nat)) as int,
                0,
            );
            lemma_fundamental_div_mod_converse(
                bm as int,
                pow2(d) as int,
                mq as int,
                dropped as int,
            );
            assert(dropped == 0);
            assert(false);
        }
    }
}

/// A value beyond the largest finite representation has no exact
/// representation within the format's ranges.
proof fn lemma_too_large_no_representation(
    prec: nat,
    min_e: int,
    emax_pow: int,
    pv: nat,
    qv: nat,
)
    requires
        qv > 0,
        prec >= 2,
        emax_pow > prec + 1,
        !val_ge((pow2(prec) - 1) as nat, emax_pow - prec, pv, qv),
    ensures
        no_representation(prec, min_e, emax_pow, pv, qv),
{
    let maxm = (pow2(prec) - 1) as nat;
    let maxe = emax_pow - prec;
    lemma_pow2_pos(prec);
    assert(maxm >= 1) by {
        lemma_pow2_strictly_increases(0, prec);
        lemma2_to64();
    }
    assert forall|m2: nat, e2: int|
        m2 < pow2(prec) && min_e <= e2 <= emax_pow - prec
            implies !#[trigger] val_eq(m2, e2, pv, qv) by {
        if val_eq(m2, e2, pv, qv) {
            // the representation bounds the value by the largest finite one
            let k = (maxe - e2) as nat;
            lemma_ge_shift_iff(maxm, e2, maxe, pv, qv);
            assert(m2 <= maxm * pow2(k)) by {
                lemma_pow2_pos(k);
                if k == 0 {
                    lemma2_to64();
                    assert(maxm * pow2(0) == maxm) by (nonlinear_arith)
                        requires pow2(0) == 1;
                } else {
                    assert(pow2(k) >= 2) by {
                        if k > 1 {
                            lemma_pow2_strictly_increases(1, k);
                        }
                        lemma2_to64();
                    }
                    assert(maxm * pow2(k) >= maxm * 2) by (nonlinear_arith)
                        requires pow2(k) >= 2, maxm >= 0;
                    assert(maxm * 2 >= pow2(prec)) by (nonlinear_arith)
                        requires maxm + 1 == pow2(prec), maxm >= 1;
                }
            }
            lemma_ge_up(m2, (maxm * pow2(k)) as nat, e2, pv, qv);
            assert(val_ge((maxm * pow2(k)) as nat, e2, pv, qv));
            assert(val_ge(maxm, maxe, pv, qv));
            assert(false);
        }
    }
}

/// `val_ge` is preserved when the mantissa grows.
proof fn lemma_ge_up(m1: nat, m2: nat, e: int, pv: nat, qv: nat)
    requires
        m1 <= m2,
        val_ge(m1, e, pv, qv),
    ensures
        val_ge(m2, e, pv, qv),
{
    lemma_pow2_pos(e as nat);
    lemma_pow2_pos((-e) as nat);
    if e >= 0 {
        assert(m1 * pow2(e as nat) * qv <= m2 * pow2(e as nat) * qv) by (nonlinear_arith)
            requires m1 <= m2, pow2(e as nat) > 0, qv >= 0;
    } else {
        assert(m1 * qv <= m2 * qv) by (nonlinear_arith)
            requires m1 <= m2, qv >= 0;
    }
}

/// A bound at a high exponent is the same bound with a scaled mantissa at a
/// lower exponent.
proof fn lemma_ge_shift_iff(m: nat, etarget: int, e: int, pv: nat, qv: nat)
    requires
        etarget <= e,
    ensures
        val_ge(m, e, pv, qv) <==> val_ge((m * pow2((e - etarget) as nat)) as nat, etarget, pv, qv),
    decreases e - etarget,
{
    if etarget == e {
        lemma2_to64();
        assert(m * pow2(0) == m) by (nonlinear_arith)
            requires pow2(0) == 1;
    } else {
        lemma_val_shift(m, e - 1, pv, qv);
        lemma_ge_shift_iff(2 * m, etarget, e - 1, pv, qv);
        lemma_pow2_adds((e - 1 - etarget) as nat, 1);
        lemma2_to64();
        assert((2 * m) * pow2((e - 1 - etarget) as nat) == m * pow2((e - etarget) as nat))
            by (nonlinear_arith)
            requires pow2((e - etarget) as nat) == pow2((e - 1 - etarget) as nat) * 2;
    }
}

/// Whether a rounding mode truncates the magnitude toward zero.

pub open spec fn mag_rounds_down(rm: RoundingMode, neg: bool) -> bool {
    ||| rm == RoundingMode::Down
    ||| (rm == RoundingMode::Floor && !neg)
    ||| (rm == RoundingMode::Ceiling && neg)
    ||| rm == RoundingMode::Exact
}

/// Whether a rounding mode grows the magnitude away from zero.
pub open spec fn mag_rounds_up(rm: RoundingMode, neg: bool) -> bool {
    ||| rm == RoundingMode::Up
    ||| (rm == RoundingMode::Floor && neg)
    ||| (rm == RoundingMode::Ceiling && !neg)
}

/// `1 << k` is `pow2(k)`.
proof fn lemma_pow2_shift(k: u64)
    requires
        k < 64,
    ensures
        (1u64 << k) == pow2(k as nat),
{
    vstd::bits::lemma_u64_pow2_no_overflow(k as nat);
    assert(1 * pow2(k as nat) == pow2(k as nat)) by (nonlinear_arith);
    vstd::bits::lemma_u64_shl_is_mul(1, k);
}

/// The scaled dividend keeps the limb-length budget.
proof fn lemma_big_m_len(p: &Natural, pm: Natural, big_m: Natural, q: &Natural, s: u64)
    requires
        p.wf(),
        pm.wf(),
        big_m.wf(),
        q.wf(),
        q@ > 0,
        s <= 1075,
        p.limbs().len() < 0x0001_0000_0000_0000,
        pm@ == p@ * pow2(s as nat),
        big_m@ <= pm@,
    ensures
        big_m.limbs().len() < 0x0400_0000_0000_0000,
{
    let k = p.limbs().len() + 34;
    p.lemma_limbs_denote_value();
    crate::limbs::lemma_limbs_val_bound(p.limbs());
    lemma_pow2_adds(32 * p.limbs().len(), s as nat);
    lemma_pow2_pos(s as nat);
    assert(p@ * pow2(s as nat) < limb_weight(p.limbs().len()) * pow2(s as nat))
        by (nonlinear_arith)
        requires p@ < limb_weight(p.limbs().len()), pow2(s as nat) > 0,
    ;
    lemma_pow2_pos(s as nat);
    if 32 * p.limbs().len() + s < 32 * k {
        lemma_pow2_strictly_increases(32 * p.limbs().len() + (s as nat), 32 * k);
    }
    assert(big_m@ < pow2(32 * k));
    match big_m {
        Natural::Small(_) => {
        }
        Natural::Large(v) => {
            lemma_limbs_val_lower(v@);
            if k <= v@.len() - 1 {
                crate::natural::lemma_weight_monotonic(k, (v@.len() - 1) as nat);
            }
        }
    }
}

/// The cut quotient fits the precision.
proof fn lemma_mq_bound(bm: nat, mq: nat, dropped: nat, d: nat, l: nat, prec: nat)
    requires
        bm == mq * pow2(d) + dropped,
        dropped < pow2(d),
        prec >= 1,
        bm == 0 || (l > 0 && pow2((l - 1) as nat) <= bm < pow2(l)),
        d == if l > prec { (l - prec) as nat } else { 0 },
    ensures
        mq < pow2(prec),
        l > prec ==> (bm > 0 ==> mq >= pow2((prec - 1) as nat)),
    decreases 0nat,
{
    lemma_pow2_pos(d);
    lemma_pow2_pos(prec);
    if bm == 0 {
        assert(mq * pow2(d) <= 0);
        assert(mq == 0) by (nonlinear_arith)
            requires mq * pow2(d) <= 0, pow2(d) > 0;
    } else if l > prec {
        lemma_pow2_adds(prec, d);
        assert(mq * pow2(d) <= bm);
        assert(mq < pow2(prec)) by (nonlinear_arith)
            requires
                mq * pow2(d) <= bm,
                bm < pow2(prec) * pow2(d),
                pow2(d) > 0,
        ;
        lemma_pow2_adds((prec - 1) as nat, d);
        assert((l - 1) as nat == (prec - 1) as nat + d);
        assert(pow2((l - 1) as nat) == pow2((prec - 1) as nat) * pow2(d));
        assert(mq >= pow2((prec - 1) as nat)) by (nonlinear_arith)
            requires
                mq * pow2(d) + dropped >= pow2((prec - 1) as nat) * pow2(d),
                dropped < pow2(d),
                pow2(d) > 0,
        ;
    } else {
        lemma2_to64();
        assert(mq * 1 == mq) by (nonlinear_arith);
        if l < prec {
            lemma_pow2_strictly_increases(l, prec);
        }
    }
}

/// The division facts, restated as value bounds at the target exponent.
#[verifier::rlimit(100)]
proof fn lemma_round_core(
    pv: nat,
    qv: nat,
    pmv: nat,
    bm: nat,
    rem: nat,
    mq: nat,
    dropped: nat,
    m0: nat,
    s: nat,
    d: nat,
    e: int,
)
    requires
        qv > 0,
        pmv == pv * pow2(s),
        pmv == bm * qv + rem,
        rem < qv,
        bm == mq * pow2(d) + dropped,
        dropped < pow2(d),
        m0 == mq,
        e == d - s,
    ensures
        val_le(m0, e, pv, qv),
        !val_le(m0 + 1, e, pv, qv),
        (rem == 0 && dropped == 0) <==> val_eq(m0, e, pv, qv),
        (rem != 0 || dropped != 0) ==> !val_ge(m0, e, pv, qv),
{
    lemma_pow2_pos(s);
    lemma_pow2_pos(d);
    // m0 * 2^d * q <= p * 2^s < (m0 + 1) * 2^d * q
    assert(m0 * pow2(d) * qv <= pmv) by (nonlinear_arith)
        requires
            pmv == bm * qv + rem,
            bm == m0 * pow2(d) + dropped,
            qv > 0,
    ;
    assert(pmv < (m0 + 1) * pow2(d) * qv) by (nonlinear_arith)
        requires
            pmv == bm * qv + rem,
            rem < qv,
            bm == m0 * pow2(d) + dropped,
            dropped < pow2(d),
            qv > 0,
    ;
    assert((rem == 0 && dropped == 0) <==> m0 * pow2(d) * qv == pmv) by (nonlinear_arith)
        requires
            pmv == bm * qv + rem,
            rem < qv,
            bm == m0 * pow2(d) + dropped,
            dropped < pow2(d),
            qv > 0,
    ;
    lemma_scale(m0, e, pv, qv, s, d, pmv);
    lemma_scale(m0 + 1, e, pv, qv, s, d, pmv);
}

/// Transfers bounds at the scaled level to `val_le` / `val_ge` at `e`.
#[verifier::rlimit(100)]
proof fn lemma_scale(m: nat, e: int, pv: nat, qv: nat, s: nat, d: nat, pmv: nat)
    requires
        qv > 0,
        pmv == pv * pow2(s),
        e == d - s,
    ensures
        m * pow2(d) * qv <= pmv <==> val_le(m, e, pv, qv),
        m * pow2(d) * qv >= pmv <==> val_ge(m, e, pv, qv),
{
    lemma_pow2_pos(s);
    lemma_pow2_pos(d);
    if e >= 0 {
        lemma_pow2_adds(e as nat, s);
        assert(pow2(d) == pow2(e as nat) * pow2(s));
        assert(m * pow2(d) * qv == (m * pow2(e as nat) * qv) * pow2(s)) by (nonlinear_arith)
            requires pow2(d) == pow2(e as nat) * pow2(s);
        assert((m * pow2(e as nat) * qv) * pow2(s) <= pv * pow2(s)
            <==> m * pow2(e as nat) * qv <= pv) by (nonlinear_arith)
            requires pow2(s) > 0;
        assert((m * pow2(e as nat) * qv) * pow2(s) >= pv * pow2(s)
            <==> m * pow2(e as nat) * qv >= pv) by (nonlinear_arith)
            requires pow2(s) > 0;
    } else {
        lemma_pow2_adds(d, (-e) as nat);
        assert(pow2(s) == pow2(d) * pow2((-e) as nat));
        assert(pv * pow2(s) == (pv * pow2((-e) as nat)) * pow2(d)) by (nonlinear_arith)
            requires pow2(s) == pow2(d) * pow2((-e) as nat);
        assert(m * pow2(d) * qv == (m * qv) * pow2(d)) by (nonlinear_arith);
        assert((m * qv) * pow2(d) <= (pv * pow2((-e) as nat)) * pow2(d)
            <==> m * qv <= pv * pow2((-e) as nat)) by (nonlinear_arith)
            requires pow2(d) > 0;
        assert((m * qv) * pow2(d) >= (pv * pow2((-e) as nat)) * pow2(d)
            <==> m * qv >= pv * pow2((-e) as nat)) by (nonlinear_arith)
            requires pow2(d) > 0;
    }
}

/// Midpoint comparisons at `e - 1`, read off the scaled division data: the
/// doubled dividend plays the role of the scaled value one exponent lower.
proof fn lemma_nearest_mid(a: nat, e: int, pv: nat, qv: nat, s: nat, d: nat, pmv: nat)
    requires
        qv > 0,
        pmv == pv * pow2(s),
        e == d - s,
    ensures
        a * pow2(d) * qv <= 2 * pmv <==> val_le(a, e - 1, pv, qv),
        a * pow2(d) * qv >= 2 * pmv <==> val_ge(a, e - 1, pv, qv),
{
    lemma_pow2_adds(s, 1);
    lemma2_to64();
    assert(pv * pow2(s + 1) == 2 * pmv) by (nonlinear_arith)
        requires pmv == pv * pow2(s), pow2(s + 1) == pow2(s) * 2;
    lemma_scale(a, e - 1, pv, qv, s + 1, d, 2 * pmv);
}

/// Renormalization keeps the value bounds: `2^prec` at `e` is `2^(prec-1)`
/// at `e + 1`.
proof fn lemma_renorm(m0: nat, e: int, prec: nat, pv: nat, qv: nat)
    requires
        qv > 0,
        prec >= 2,
        m0 + 1 == pow2(prec),
        val_le(m0, e, pv, qv),
        !val_le(m0 + 1, e, pv, qv),
    ensures
        val_ge(pow2((prec - 1) as nat) as nat, e + 1, pv, qv),
        !val_le((pow2((prec - 1) as nat) + 1) as nat, e + 1, pv, qv),
        !val_ge((pow2((prec - 1) as nat) - 1) as nat, e + 1, pv, qv),
    decreases 0nat,
{
    let h = pow2((prec - 1) as nat);
    lemma_pow2_pos((prec - 1) as nat);
    lemma_pow2_adds((prec - 1) as nat, 1);
    lemma2_to64();
    assert(pow2(prec) == 2 * h);
    lemma_val_shift(h, e, pv, qv);
    lemma_val_shift((h + 1) as nat, e, pv, qv);
    lemma_val_shift((h - 1) as nat, e, pv, qv);
    // 2 h == m0 + 1; 2 (h + 1) >= m0 + 1; 2 (h - 1) < m0
    assert(!val_le(2 * (h + 1), e, pv, qv)) by {
        lemma_val_monotone(m0 + 1, 2 * (h + 1), e, pv, qv);
    }
    assert(!val_ge((2 * (h - 1)) as nat, e, pv, qv)) by {
        lemma_strict_below(m0, e, pv, qv);
        assert(2 * (h - 1) == m0 - 1);
        lemma_val_monotone_ge((2 * (h - 1)) as nat, (m0 - 1) as nat, e, pv, qv);
    }
}

/// `m` at `e + 1` is `2 m` at `e`.
proof fn lemma_val_shift(m: nat, e: int, pv: nat, qv: nat)
    ensures
        val_le(m, e + 1, pv, qv) <==> val_le(2 * m, e, pv, qv),
        val_ge(m, e + 1, pv, qv) <==> val_ge(2 * m, e, pv, qv),
{
    lemma_pow2_pos((e + 1) as nat);
    if e >= 0 {
        lemma_pow2_adds(e as nat, 1);
        lemma2_to64();
        assert(m * pow2((e + 1) as nat) * qv == (2 * m) * pow2(e as nat) * qv)
            by (nonlinear_arith)
            requires pow2((e + 1) as nat) == pow2(e as nat) * 2;
    } else if e == -1 {
        lemma2_to64();
        assert(m * pow2(0) * qv == m * qv) by (nonlinear_arith)
            requires pow2(0) == 1;
        assert((2 * m) * qv <= pv * pow2(1) <==> m * qv <= pv) by (nonlinear_arith)
            requires pow2(1) == 2;
        assert((2 * m) * qv >= pv * pow2(1) <==> m * qv >= pv) by (nonlinear_arith)
            requires pow2(1) == 2;
    } else {
        lemma_pow2_adds((-e - 1) as nat, 1);
        lemma2_to64();
        assert(pow2((-e) as nat) == pow2((-e - 1) as nat) * 2);
        assert(m * qv <= pv * pow2((-e - 1) as nat) <==> (2 * m) * qv <= pv * pow2((-e) as nat))
            by (nonlinear_arith)
            requires pow2((-e) as nat) == pow2((-e - 1) as nat) * 2;
        assert(m * qv >= pv * pow2((-e - 1) as nat) <==> (2 * m) * qv >= pv * pow2((-e) as nat))
            by (nonlinear_arith)
            requires pow2((-e) as nat) == pow2((-e - 1) as nat) * 2;
    }
}

/// A value strictly above a mantissa also lies strictly above that
/// mantissa's lower midpoint, one exponent down.
pub proof fn lemma_saturate_mid(m: nat, e: int, pv: nat, qv: nat)
    requires
        qv > 0,
        m >= 1,
        !val_ge(m, e, pv, qv),
    ensures
        val_le((2 * m - 1) as nat, e - 1, pv, qv),
        !val_ge((2 * m - 1) as nat, e - 1, pv, qv),
{
    lemma_val_shift(m, e - 1, pv, qv);
    assert(!val_ge(2 * m, e - 1, pv, qv));
    lemma_val_monotone_ge((2 * m - 1) as nat, 2 * m, e - 1, pv, qv);
    assert(val_le(2 * m, e - 1, pv, qv));
    lemma_le_up(2 * m, (2 * m - 1) as nat, e - 1, pv, qv);
}

/// A smaller mantissa keeps a strict lower bound on the value.
pub proof fn lemma_ge_monotone(m1: nat, m2: nat, e: int, pv: nat, qv: nat)
    requires
        m1 <= m2,
        !val_ge(m2, e, pv, qv),
    ensures
        !val_ge(m1, e, pv, qv),
{
    lemma_val_monotone_ge(m1, m2, e, pv, qv);
}

/// A larger mantissa at the same exponent bounds the value at least as
/// tightly from above.
proof fn lemma_val_monotone(m1: nat, m2: nat, e: int, pv: nat, qv: nat)
    requires
        m1 <= m2,
        !val_le(m1, e, pv, qv),
    ensures
        !val_le(m2, e, pv, qv),
{
    lemma_pow2_pos(e as nat);
    lemma_pow2_pos((-e) as nat);
    if e >= 0 {
        assert(m1 * pow2(e as nat) * qv <= m2 * pow2(e as nat) * qv) by (nonlinear_arith)
            requires m1 <= m2, pow2(e as nat) > 0, qv >= 0;
    } else {
        assert(m1 * qv <= m2 * qv) by (nonlinear_arith)
            requires m1 <= m2, qv >= 0;
    }
}

/// A smaller mantissa at the same exponent bounds the value at least as
/// tightly from below.
proof fn lemma_val_monotone_ge(m1: nat, m2: nat, e: int, pv: nat, qv: nat)
    requires
        m1 <= m2,
        !val_ge(m2, e, pv, qv),
    ensures
        !val_ge(m1, e, pv, qv),
{
    lemma_pow2_pos(e as nat);
    lemma_pow2_pos((-e) as nat);
    if e >= 0 {
        assert(m1 * pow2(e as nat) * qv <= m2 * pow2(e as nat) * qv) by (nonlinear_arith)
            requires m1 <= m2, pow2(e as nat) > 0, qv >= 0;
    } else {
        assert(m1 * qv <= m2 * qv) by (nonlinear_arith)
            requires m1 <= m2, qv >= 0;
    }
}

/// When the final exponent exceeds the format's range, the magnitude is
/// beyond the largest finite value.
proof fn lemma_overflow(
    m0: nat,
    e: int,
    prec: nat,
    emax_pow: int,
    pv: nat,
    qv: nat,
    renorm: bool,
)
    requires
        qv > 0,
        prec >= 2,
        val_le(m0, e, pv, qv),
        !renorm ==> m0 >= pow2((prec - 1) as nat) && e >= emax_pow - prec + 1,
        renorm ==> m0 + 1 == pow2(prec) && e >= emax_pow - prec && !val_ge(m0, e, pv, qv),
    ensures
        !val_ge((pow2(prec) - 1) as nat, emax_pow - prec, pv, qv),
    decreases 0nat,
{
    let bigm = (pow2(prec) - 1) as nat;
    let bige = emax_pow - prec;
    if !renorm {
        // value >= 2^(prec-1) * 2^e >= 2^prec * 2^bige > (2^prec - 1) * 2^bige
        lemma_le_up(m0, pow2((prec - 1) as nat), e, pv, qv);
        lemma_val_shift_many(pow2((prec - 1) as nat), bige, e, pv, qv);
        let k = (e - bige) as nat;
        assert(k >= 1);
        lemma_pow2_adds((prec - 1) as nat, k);
        lemma_pow2_adds((prec - 1) as nat, 1);
        lemma2_to64();
        lemma_pow2_pos((prec - 1) as nat);
        if 1 < k {
            lemma_pow2_strictly_increases(1, k);
        }
        assert(pow2((prec - 1) as nat) * pow2(k) >= pow2(prec)) by (nonlinear_arith)
            requires
                pow2(k) >= 2,
                pow2((prec - 1) as nat) * 2 == pow2(prec),
                pow2((prec - 1) as nat) > 0,
        ;
        lemma_le_up((pow2((prec - 1) as nat) * pow2(k)) as nat, pow2(prec), bige, pv, qv);
        lemma_strict_below(pow2(prec), bige, pv, qv);
    } else {
        // value > (2^prec - 1) * 2^e >= (2^prec - 1) * 2^bige
        lemma_gt_shift_many(m0, bige, e, pv, qv);
    }
}

/// `val_le` is antitone in the mantissa.
proof fn lemma_le_up(m1: nat, m2: nat, e: int, pv: nat, qv: nat)
    requires
        m2 <= m1,
        val_le(m1, e, pv, qv),
    ensures
        val_le(m2, e, pv, qv),
{
    lemma_pow2_pos(e as nat);
    lemma_pow2_pos((-e) as nat);
    if e >= 0 {
        assert(m2 * pow2(e as nat) * qv <= m1 * pow2(e as nat) * qv) by (nonlinear_arith)
            requires m2 <= m1, pow2(e as nat) > 0, qv >= 0;
    } else {
        assert(m2 * qv <= m1 * qv) by (nonlinear_arith)
            requires m2 <= m1, qv >= 0;
    }
}

/// Pushing a lower bound down in exponent doubles the mantissa each step.
proof fn lemma_val_shift_many(m: nat, etarget: int, e: int, pv: nat, qv: nat)
    requires
        etarget <= e,
        val_le(m, e, pv, qv),
    ensures
        val_le(m * pow2((e - etarget) as nat), etarget, pv, qv),
    decreases e - etarget,
{
    if etarget == e {
        lemma2_to64();
        assert(m * pow2(0) == m) by (nonlinear_arith)
            requires pow2(0) == 1;
    } else {
        lemma_val_shift(m, e - 1, pv, qv);
        assert(val_le(2 * m, e - 1, pv, qv));
        lemma_val_shift_many(2 * m, etarget, e - 1, pv, qv);
        lemma_pow2_adds((e - 1 - etarget) as nat, 1);
        lemma2_to64();
        assert((2 * m) * pow2((e - 1 - etarget) as nat) == m * pow2((e - etarget) as nat))
            by (nonlinear_arith)
            requires pow2((e - etarget) as nat) == pow2((e - 1 - etarget) as nat) * 2;
    }
}

/// A mantissa below an established lower bound bounds the value strictly
/// from below.
proof fn lemma_strict_below(mbig: nat, e: int, pv: nat, qv: nat)
    requires
        qv > 0,
        mbig >= 1,
        val_le(mbig, e, pv, qv),
    ensures
        !val_ge((mbig - 1) as nat, e, pv, qv),
{
    lemma_pow2_pos(e as nat);
    lemma_pow2_pos((-e) as nat);
    if e >= 0 {
        assert((mbig - 1) * pow2(e as nat) * qv < mbig * pow2(e as nat) * qv)
            by (nonlinear_arith)
            requires mbig >= 1, pow2(e as nat) > 0, qv > 0;
    } else {
        assert((mbig - 1) * qv < mbig * qv) by (nonlinear_arith)
            requires mbig >= 1, qv > 0;
    }
}

/// A strict lower bound survives moving to a lower exponent with any smaller
/// mantissa.
proof fn lemma_gt_shift_many(m0: nat, etarget: int, e: int, pv: nat, qv: nat)
    requires
        qv > 0,
        etarget <= e,
        !val_ge(m0, e, pv, qv),
    ensures
        !val_ge(m0, etarget, pv, qv),
    decreases e - etarget,
{
    if etarget == e {
    } else {
        lemma_val_shift(m0, e - 1, pv, qv);
        assert(!val_ge(2 * m0, e - 1, pv, qv));
        lemma_val_monotone_ge(m0, 2 * m0, e - 1, pv, qv);
        lemma_gt_shift_many(m0, etarget, e - 1, pv, qv);
    }
}

} // verus!
