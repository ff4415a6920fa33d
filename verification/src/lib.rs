//! Arbitrary-precision arithmetic over limb vectors.
//!
//! The crate provides three number types: `Natural`, an unbounded non-negative
//! integer stored either inline (one machine word) or as a vector of 32-bit
//! limbs, least significant first; `Integer`, a sign/magnitude pair over
//! `Natural`; and `Rational`, a sign plus a fully reduced numerator/denominator
//! pair. Every operation returns values in canonical form: limb vectors are
//! trimmed, one-limb vectors are demoted to the inline form, zero carries a
//! non-negative sign, and fractions are reduced.

pub mod limbs;
pub mod natural;
pub mod natural_arith;
pub mod natural_mul;
pub mod natural_div;
pub mod natural_bits;
pub mod natural_str;
pub mod integer;
pub mod bitand_spec;
pub mod and_lemmas;
pub mod natural_and;
pub mod natural_and_neg;
pub mod integer_and;
pub mod natural_submul;
pub mod natural_mod;
pub mod rational;
pub mod rational_str;
pub mod float_bits;
pub mod float_from;
pub mod float_convert;
pub mod float_cmp;
pub mod integer_bits;
pub mod util;
pub mod primes;
pub mod laws;
