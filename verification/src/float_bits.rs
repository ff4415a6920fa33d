//! The IEEE 754 bit layouts, read and written as plain integers.
//!
//! A finite float is modelled as a mantissa and a binary exponent: the
//! absolute value of the float with bit pattern `b` is `mant(b) * 2^exp(b)`.
//! Nothing here is a floating-point number; only bit patterns move in and
//! out.

use vstd::prelude::*;

verus! {

/// A rounding mode for conversions to a float.
#[derive(Clone, Copy, PartialEq, Eq, Structural, Debug)]
pub enum RoundingMode {
    Floor,
    Ceiling,
    Down,
    Up,
    Nearest,
    Exact,
}

/// The sign bit of a 32-bit float pattern.
pub open spec fn f32_sign(b: u32) -> bool {
    (b >> 31) == 1
}

/// The exponent field of a 32-bit float pattern.
pub open spec fn f32_exp_field(b: u32) -> u32 {
    (b >> 23) & 0xff
}

/// The fraction field of a 32-bit float pattern.
pub open spec fn f32_frac_field(b: u32) -> u32 {
    b & 0x7f_ffff
}

pub open spec fn f32_is_nan(b: u32) -> bool {
    f32_exp_field(b) == 0xff && f32_frac_field(b) != 0
}

pub open spec fn f32_is_infinite(b: u32) -> bool {
    f32_exp_field(b) == 0xff && f32_frac_field(b) == 0
}

pub open spec fn f32_is_finite(b: u32) -> bool {
    f32_exp_field(b) != 0xff
}

/// The integer mantissa of a finite 32-bit float.
pub open spec fn f32_mant(b: u32) -> nat {
    if f32_exp_field(b) == 0 {
        f32_frac_field(b) as nat
    } else {
        (f32_frac_field(b) + 0x80_0000nat) as nat
    }
}

/// The binary exponent attached to `f32_mant`.
pub open spec fn f32_exp(b: u32) -> int {
    if f32_exp_field(b) == 0 {
        -149
    } else {
        f32_exp_field(b) - 150
    }
}

/// The sign bit of a 64-bit float pattern.
pub open spec fn f64_sign(b: u64) -> bool {
    (b >> 63) == 1
}

/// The exponent field of a 64-bit float pattern.
pub open spec fn f64_exp_field(b: u64) -> u64 {
    (b >> 52) & 0x7ff
}

/// The fraction field of a 64-bit float pattern.
pub open spec fn f64_frac_field(b: u64) -> u64 {
    b & 0xf_ffff_ffff_ffff
}

pub open spec fn f64_is_nan(b: u64) -> bool {
    f64_exp_field(b) == 0x7ff && f64_frac_field(b) != 0
}

pub open spec fn f64_is_infinite(b: u64) -> bool {
    f64_exp_field(b) == 0x7ff && f64_frac_field(b) == 0
}

pub open spec fn f64_is_finite(b: u64) -> bool {
    f64_exp_field(b) != 0x7ff
}

/// The integer mantissa of a finite 64-bit float.
pub open spec fn f64_mant(b: u64) -> nat {
    if f64_exp_field(b) == 0 {
        f64_frac_field(b) as nat
    } else {
        (f64_frac_field(b) + 0x10_0000_0000_0000nat) as nat
    }
}

/// The binary exponent attached to `f64_mant`.
pub open spec fn f64_exp(b: u64) -> int {
    if f64_exp_field(b) == 0 {
        -1074
    } else {
        f64_exp_field(b) - 1075
    }
}

/// Builds a finite 32-bit pattern from a sign, mantissa and exponent.
pub fn f32_assemble(neg: bool, m: u32, e: i32) -> (b: u32)
    requires
        m < 0x100_0000,
        -149 <= e <= 104,
        m < 0x80_0000 ==> e == -149,
    ensures
        f32_is_finite(b),
        f32_sign(b) == neg,
        f32_mant(b) == m,
        m > 0 ==> f32_exp(b) == e,
        m == 0 ==> f32_frac_field(b) == 0 && f32_exp_field(b) == 0,
{
    let ef: u32 = if m >= 0x80_0000 {
        (e + 150) as u32
    } else {
        0
    };
    let frac: u32 = if m >= 0x80_0000 {
        m - 0x80_0000
    } else {
        m
    };
    let sign_bit: u32 = if neg {
        1
    } else {
        0
    };
    let b = (sign_bit << 31) | (ef << 23) | frac;
    proof {
        assert((((sign_bit << 31u32) | (ef << 23u32) | frac) >> 31u32) == sign_bit
            && ((((sign_bit << 31u32) | (ef << 23u32) | frac) >> 23u32) & 0xff) == ef
            && (((sign_bit << 31u32) | (ef << 23u32) | frac) & 0x7f_ffff) == frac) by (bit_vector)
            requires sign_bit <= 1, ef <= 0xfe, frac < 0x80_0000;
    }
    b
}

/// Builds a finite 64-bit pattern from a sign, mantissa and exponent.
pub fn f64_assemble(neg: bool, m: u64, e: i64) -> (b: u64)
    requires
        m < 0x20_0000_0000_0000,
        -1074 <= e <= 971,
        m < 0x10_0000_0000_0000 ==> e == -1074,
    ensures
        f64_is_finite(b),
        f64_sign(b) == neg,
        f64_mant(b) == m,
        m > 0 ==> f64_exp(b) == e,
        m == 0 ==> f64_frac_field(b) == 0 && f64_exp_field(b) == 0,
{
    let ef: u64 = if m >= 0x10_0000_0000_0000 {
        (e + 1075) as u64
    } else {
        0
    };
    let frac: u64 = if m >= 0x10_0000_0000_0000 {
        m - 0x10_0000_0000_0000
    } else {
        m
    };
    let sign_bit: u64 = if neg {
        1
    } else {
        0
    };
    let b = (sign_bit << 63) | (ef << 52) | frac;
    proof {
        assert((((sign_bit << 63u64) | (ef << 52u64) | frac) >> 63u64) == sign_bit
            && ((((sign_bit << 63u64) | (ef << 52u64) | frac) >> 52u64) & 0x7ff) == ef
            && (((sign_bit << 63u64) | (ef << 52u64) | frac) & 0xf_ffff_ffff_ffff) == frac)
            by (bit_vector)
            requires sign_bit <= 1, ef <= 0x7fe, frac < 0x10_0000_0000_0000;
    }
    b
}

/// The infinity pattern of the requested sign.
pub fn f32_infinity(neg: bool) -> (b: u32)
    ensures
        f32_is_infinite(b),
        f32_sign(b) == neg,
{
    let b: u32 = if neg {
        0xff80_0000
    } else {
        0x7f80_0000
    };
    proof {
        assert(((0x7f80_0000u32 >> 23u32) & 0xff) == 0xff && (0x7f80_0000u32 & 0x7f_ffff) == 0
            && (0x7f80_0000u32 >> 31u32) == 0) by (bit_vector);
        assert(((0xff80_0000u32 >> 23u32) & 0xff) == 0xff && (0xff80_0000u32 & 0x7f_ffff) == 0
            && (0xff80_0000u32 >> 31u32) == 1) by (bit_vector);
    }
    b
}

/// The infinity pattern of the requested sign.
pub fn f64_infinity(neg: bool) -> (b: u64)
    ensures
        f64_is_infinite(b),
        f64_sign(b) == neg,
{
    let b: u64 = if neg {
        0xfff0_0000_0000_0000
    } else {
        0x7ff0_0000_0000_0000
    };
    proof {
        assert(((0x7ff0_0000_0000_0000u64 >> 52u64) & 0x7ff) == 0x7ff
            && (0x7ff0_0000_0000_0000u64 & 0xf_ffff_ffff_ffff) == 0
            && (0x7ff0_0000_0000_0000u64 >> 63u64) == 0) by (bit_vector);
        assert(((0xfff0_0000_0000_0000u64 >> 52u64) & 0x7ff) == 0x7ff
            && (0xfff0_0000_0000_0000u64 & 0xf_ffff_ffff_ffff) == 0
            && (0xfff0_0000_0000_0000u64 >> 63u64) == 1) by (bit_vector);
    }
    b
}

} // verus!
