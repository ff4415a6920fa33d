//! Bit access on `Integer` values under two's-complement semantics.
//!
//! Bit `i` of an integer is the `i`-th binary digit of its Euclidean
//! quotient chain; a negative value carries infinitely many high one bits.

use crate::integer::Integer;
use crate::natural::Natural;
use vstd::arithmetic::div_mod::*;
use vstd::arithmetic::power2::*;
use vstd::prelude::*;

verus! {

/// Bit `i` of a signed value in two's complement.
pub open spec fn int_bit(v: int, i: nat) -> bool {
    ((v / pow2(i) as int) % 2) == 1
}

/// The bits of a negative value complement the bits of its magnitude less
/// one.
proof fn lemma_neg_bit(a: nat, i: nat)
    requires
        a >= 1,
    ensures
        int_bit(-(a as int), i) == !int_bit((a - 1) as int, i),
{
    lemma_pow2_pos(i);
    let p = pow2(i) as int;
    let b = (a - 1) as int;
    lemma_fundamental_div_mod(b, p);
    lemma_mod_bound(b, p);
    let q = b / p;
    let r = b % p;
    assert(-(a as int) == (-q - 1) * p + (p - r - 1)) by (nonlinear_arith)
        requires b == p * q + r, a as int == b + 1;
    lemma_fundamental_div_mod_converse(-(a as int), p, -q - 1, p - r - 1);
    lemma_fundamental_div_mod(q, 2);
    lemma_mod_bound(q, 2);
    if q % 2 == 0 {
        assert(-q - 1 == (-(q / 2) - 1) * 2 + 1) by (nonlinear_arith)
            requires q == 2 * (q / 2);
        lemma_fundamental_div_mod_converse(-q - 1, 2, -(q / 2) - 1, 1);
    } else {
        assert(-q - 1 == (-(q / 2) - 1) * 2 + 0) by (nonlinear_arith)
            requires q == 2 * (q / 2) + 1;
        lemma_fundamental_div_mod_converse(-q - 1, 2, -(q / 2) - 1, 0);
    }
}

impl Integer {
    /// Bit `i` of the value, in two's complement.
    pub fn get_bit(&self, i: u64) -> (r: bool)
        requires
            self.wf(),
        ensures
            r == int_bit(self@, i as nat),
    {
        if self.sign {
            self.abs.get_bit(i)
        } else {
            let m1 = match self.abs.checked_sub_limb(1) {
                Some(m1) => m1,
                None => {
                    proof {
                        assert(false);
                    }
                    Natural::zero()
                }
            };
            let r = !m1.get_bit(i);
            proof {
                lemma_neg_bit(self.abs@, i as nat);
            }
            r
        }
    }

    /// Flips bit `i` of the value: adds `2^i` when the bit is clear and
    /// subtracts it when the bit is set.
    pub fn flip_bit(&mut self, index: u64)
        requires
            old(self).wf(),
        ensures
            final(self).wf(),
            final(self)@ == old(self)@ + (if int_bit(old(self)@, index as nat) {
                -(pow2(index as nat) as int)
            } else {
                pow2(index as nat) as int
            }),
    {
        let bit = self.get_bit(index);
        let one = Natural::from_limb(1);
        let p2 = one.shl_bits(index);
        proof {
            assert(1nat * pow2(index as nat) == pow2(index as nat)) by (nonlinear_arith);
        }
        let delta = Integer::from_sign_and_abs(!bit, p2);
        let mut tmp = Integer::zero();
        core::mem::swap(self, &mut tmp);
        let r = tmp.plus(&delta);
        *self = r;
    }
}

} // verus!
