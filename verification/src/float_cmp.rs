//! Comparison of a `Natural` against float bit patterns.
//!
//! A NaN compares as unordered; infinities sit beyond every finite value.
//! A finite float is decomposed into its integer mantissa and binary
//! exponent and compared exactly, by scaling whichever side has the smaller
//! exponent.

use crate::float_bits::{
    f32_exp, f32_is_infinite, f32_is_nan, f32_mant, f32_sign, f64_exp, f64_is_infinite,
    f64_is_nan, f64_mant, f64_sign,
};
use crate::float_from::{val_eq, val_ge, val_le};
use crate::natural::Natural;
use core::cmp::Ordering;
use vstd::arithmetic::power2::*;
use vstd::prelude::*;

verus! {

/// What a comparison of `n` against a finite float's magnitude `m * 2^e`
/// reports.
pub open spec fn cmp_mag_post(r: Ordering, m: nat, e: int, n: nat) -> bool {
    &&& (r == Ordering::Less <==> !val_le(m, e, n, 1))
    &&& (r == Ordering::Equal <==> val_eq(m, e, n, 1))
    &&& (r == Ordering::Greater <==> !val_ge(m, e, n, 1))
}

impl Natural {
    /// Compares the value against a finite float magnitude given as an
    /// integer mantissa and binary exponent.
    fn cmp_mag(&self, m: u64, e: i64) -> (r: Ordering)
        requires
            self.wf(),
            -1075 <= e <= 1024,
        ensures
            cmp_mag_post(r, m as nat, e as int, self@),
    {
        let mn = Natural::from_u64(m);
        if e >= 0 {
            let rhs = mn.shl_bits(e as u64);
            let r = self.cmp(&rhs);
            proof {
                assert(rhs@ == (m as nat) * pow2(e as nat));
                assert((m as nat) * pow2(e as nat) * 1 == rhs@) by (nonlinear_arith)
                    requires rhs@ == (m as nat) * pow2(e as nat);
            }
            r
        } else {
            let lhs = self.shl_bits((-e) as u64);
            let r = lhs.cmp(&mn);
            proof {
                assert(lhs@ == self@ * pow2((-e) as nat));
                assert((m as nat) * 1 == m as nat) by (nonlinear_arith);
            }
            r
        }
    }

    /// Compares the value against the absolute value of a 32-bit float
    /// given by its bit pattern: `None` exactly for a NaN, and every
    /// infinity is larger than the value.
    pub fn partial_cmp_abs_f32_bits(&self, bits: u32) -> (r: Option<Ordering>)
        requires
            self.wf(),
        ensures
            f32_is_nan(bits) <==> r is None,
            f32_is_infinite(bits) ==> r == Some(Ordering::Less),
            !f32_is_nan(bits) && !f32_is_infinite(bits) ==> r is Some
                && cmp_mag_post(r->0, f32_mant(bits), f32_exp(bits), self@),
    {
        let ef = (bits >> 23) & 0xff;
        let frac = bits & 0x7f_ffff;
        proof {
            let bb = bits;
            assert(((bb >> 23u32) & 0xff) <= 0xff && (bb & 0x7f_ffff) <= 0x7f_ffff)
                by (bit_vector);
        }
        if ef == 0xff {
            if frac != 0 {
                return None;
            }
            return Some(Ordering::Less);
        }
        let m: u64 = if ef == 0 {
            frac as u64
        } else {
            frac as u64 + 0x80_0000
        };
        let e: i64 = if ef == 0 {
            -149
        } else {
            ef as i64 - 150
        };
        Some(self.cmp_mag(m, e))
    }

    /// As `partial_cmp_abs_f32_bits`, against the float's signed value:
    /// negative finite values and the negative infinity are below every
    /// `Natural`, except that a negative zero equals zero.
    pub fn partial_cmp_f32_bits(&self, bits: u32) -> (r: Option<Ordering>)
        requires
            self.wf(),
        ensures
            f32_is_nan(bits) <==> r is None,
            f32_is_infinite(bits) && !f32_sign(bits) ==> r == Some(Ordering::Less),
            f32_is_infinite(bits) && f32_sign(bits) ==> r == Some(Ordering::Greater),
            !f32_is_nan(bits) && !f32_is_infinite(bits) && !f32_sign(bits) ==> r is Some
                && cmp_mag_post(r->0, f32_mant(bits), f32_exp(bits), self@),
            !f32_is_nan(bits) && !f32_is_infinite(bits) && f32_sign(bits)
                && f32_mant(bits) > 0 ==> r == Some(Ordering::Greater),
            !f32_is_nan(bits) && !f32_is_infinite(bits) && f32_sign(bits)
                && f32_mant(bits) == 0 ==> r is Some
                && cmp_mag_post(r->0, 0, f32_exp(bits), self@),
    {
        let sign = (bits >> 31) == 1;
        let ef = (bits >> 23) & 0xff;
        let frac = bits & 0x7f_ffff;
        proof {
            let bb = bits;
            assert(((bb >> 23u32) & 0xff) <= 0xff && (bb & 0x7f_ffff) <= 0x7f_ffff)
                by (bit_vector);
        }
        if ef == 0xff {
            if frac != 0 {
                return None;
            }
            if sign {
                return Some(Ordering::Greater);
            }
            return Some(Ordering::Less);
        }
        let m: u64 = if ef == 0 {
            frac as u64
        } else {
            frac as u64 + 0x80_0000
        };
        let e: i64 = if ef == 0 {
            -149
        } else {
            ef as i64 - 150
        };
        if sign && m != 0 {
            return Some(Ordering::Greater);
        }
        Some(self.cmp_mag(m, e))
    }

    /// Compares the value against the absolute value of a 64-bit float
    /// given by its bit pattern.
    pub fn partial_cmp_abs_f64_bits(&self, bits: u64) -> (r: Option<Ordering>)
        requires
            self.wf(),
        ensures
            f64_is_nan(bits) <==> r is None,
            f64_is_infinite(bits) ==> r == Some(Ordering::Less),
            !f64_is_nan(bits) && !f64_is_infinite(bits) ==> r is Some
                && cmp_mag_post(r->0, f64_mant(bits), f64_exp(bits), self@),
    {
        let ef = (bits >> 52) & 0x7ff;
        let frac = bits & 0xf_ffff_ffff_ffff;
        proof {
            let bb = bits;
            assert(((bb >> 52u64) & 0x7ff) <= 0x7ff
                && (bb & 0xf_ffff_ffff_ffff) <= 0xf_ffff_ffff_ffff) by (bit_vector);
        }
        if ef == 0x7ff {
            if frac != 0 {
                return None;
            }
            return Some(Ordering::Less);
        }
        let m: u64 = if ef == 0 {
            frac
        } else {
            frac + 0x10_0000_0000_0000
        };
        let e: i64 = if ef == 0 {
            -1074
        } else {
            ef as i64 - 1075
        };
        Some(self.cmp_mag(m, e))
    }

    /// As `partial_cmp_abs_f64_bits`, against the float's signed value.
    pub fn partial_cmp_f64_bits(&self, bits: u64) -> (r: Option<Ordering>)
        requires
            self.wf(),
        ensures
            f64_is_nan(bits) <==> r is None,
            f64_is_infinite(bits) && !f64_sign(bits) ==> r == Some(Ordering::Less),
            f64_is_infinite(bits) && f64_sign(bits) ==> r == Some(Ordering::Greater),
            !f64_is_nan(bits) && !f64_is_infinite(bits) && !f64_sign(bits) ==> r is Some
                && cmp_mag_post(r->0, f64_mant(bits), f64_exp(bits), self@),
            !f64_is_nan(bits) && !f64_is_infinite(bits) && f64_sign(bits)
                && f64_mant(bits) > 0 ==> r == Some(Ordering::Greater),
            !f64_is_nan(bits) && !f64_is_infinite(bits) && f64_sign(bits)
                && f64_mant(bits) == 0 ==> r is Some
                && cmp_mag_post(r->0, 0, f64_exp(bits), self@),
    {
        let sign = (bits >> 63) == 1;
        let ef = (bits >> 52) & 0x7ff;
        let frac = bits & 0xf_ffff_ffff_ffff;
        proof {
            let bb = bits;
            assert(((bb >> 52u64) & 0x7ff) <= 0x7ff
                && (bb & 0xf_ffff_ffff_ffff) <= 0xf_ffff_ffff_ffff) by (bit_vector);
        }
        if ef == 0x7ff {
            if frac != 0 {
                return None;
            }
            if sign {
                return Some(Ordering::Greater);
            }
            return Some(Ordering::Less);
        }
        let m: u64 = if ef == 0 {
            frac
        } else {
            frac + 0x10_0000_0000_0000
        };
        let e: i64 = if ef == 0 {
            -1074
        } else {
            ef as i64 - 1075
        };
        if sign && m != 0 {
            return Some(Ordering::Greater);
        }
        Some(self.cmp_mag(m, e))
    }
}

} // verus!
