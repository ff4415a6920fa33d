//! Multiplication for `Natural`: full products, powers and shifts.
//!
//! The full product runs a Horner scheme over the right operand's limbs from
//! the most significant end; each step scales by the limb base and adds a
//! single-limb product.

use crate::limbs::{lemma_limbs_val_prepend, limbs_val};
use crate::natural::Natural;
use vstd::arithmetic::power2::*;
use vstd::prelude::*;

verus! {

impl Natural {
    /// The value scaled by one limb base, that is by `2^32`.
    pub fn shl_limb(&self) -> (r: Natural)
        requires
            self.wf(),
        ensures
            r.wf(),
            r@ == self@ * 0x1_0000_0000,
    {
        if let Natural::Small(0) = self {
            return Natural::Small(0);
        }
        let limbs = self.to_limbs_asc();
        let mut v: Vec<u32> = Vec::new();
        v.push(0);
        let mut i: usize = 0;
        while i < limbs.len()
            invariant
                i <= limbs@.len(),
                v@.len() == i + 1,
                v@[0] == 0,
                forall|j: int| 0 <= j < i ==> v@[j + 1] == limbs@[j],
            decreases limbs@.len() - i,
        {
            v.push(limbs[i]);
            i += 1;
        }
        proof {
            self.lemma_limbs_denote_value();
            assert(v@ =~= seq![0u32].add(limbs@));
            lemma_limbs_val_prepend(0, limbs@);
        }
        Natural::from_limbs_asc(v)
    }

    /// The product of two values.
    pub fn times(&self, other: &Natural) -> (r: Natural)
        requires
            self.wf(),
            other.wf(),
        ensures
            r.wf(),
            r@ == self@ * other@,
    {
        let b = other.to_limbs_asc();
        proof {
            other.lemma_limbs_denote_value();
        }
        let mut acc = Natural::zero();
        let mut j: usize = b.len();
        proof {
            assert(b@.skip(j as int) =~= Seq::<u32>::empty());
            assert(limbs_val(Seq::<u32>::empty()) == 0);
            assert(self@ * limbs_val(b@.skip(j as int)) == 0) by (nonlinear_arith)
                requires limbs_val(b@.skip(j as int)) == 0;
        }
        while j > 0
            invariant
                j <= b@.len(),
                self.wf(),
                acc.wf(),
                acc@ == self@ * limbs_val(b@.skip(j as int)),
            decreases j,
        {
            j -= 1;
            let shifted = acc.shl_limb();
            let part = self.times_limb(b[j]);
            let next = shifted.plus(&part);
            proof {
                assert(b@.skip(j as int) =~= seq![b@[j as int]].add(b@.skip(j + 1)));
                lemma_limbs_val_prepend(b@[j as int], b@.skip(j + 1));
                let hi = limbs_val(b@.skip(j + 1));
                assert((self@ * hi) * 0x1_0000_0000 + self@ * (b@[j as int] as nat)
                    == self@ * ((b@[j as int] as nat) + 0x1_0000_0000 * hi)) by (nonlinear_arith);
            }
            acc = next;
        }
        proof {
            assert(b@.skip(0) =~= b@);
        }
        acc
    }

    /// The value raised to a power.
    pub fn pow(&self, exp: u64) -> (r: Natural)
        requires
            self.wf(),
        ensures
            r.wf(),
            r@ == vstd::arithmetic::power::pow(self@ as int, exp as nat),
    {
        let mut acc = Natural::from_limb(1);
        let mut i: u64 = 0;
        proof {
            vstd::arithmetic::power::lemma_pow0(self@ as int);
        }
        while i < exp
            invariant
                i <= exp,
                self.wf(),
                acc.wf(),
                acc@ == vstd::arithmetic::power::pow(self@ as int, i as nat),
            decreases exp - i,
        {
            let next = acc.times(self);
            proof {
                vstd::arithmetic::power::lemma_pow1(self@ as int);
                vstd::arithmetic::power::lemma_pow_adds(self@ as int, i as nat, 1);
                assert(vstd::arithmetic::power::pow(self@ as int, 1) == self@ as int);
            }
            acc = next;
            i += 1;
        }
        acc
    }

    /// The value scaled by `2^k`.
    pub fn shl_bits(&self, k: u64) -> (r: Natural)
        requires
            self.wf(),
        ensures
            r.wf(),
            r@ == self@ * pow2(k as nat),
    {
        let mut acc = self.clone();
        let mut i: u64 = 0;
        proof {
            lemma2_to64();
            assert(self@ * pow2(0) == self@) by (nonlinear_arith)
                requires pow2(0) == 1;
        }
        while i < k
            invariant
                i <= k,
                self.wf(),
                acc.wf(),
                acc@ == self@ * pow2(i as nat),
            decreases k - i,
        {
            let next = acc.plus(&acc);
            proof {
                lemma_pow2_adds(i as nat, 1);
                lemma2_to64();
                assert(self@ * pow2(i as nat) + self@ * pow2(i as nat)
                    == self@ * (pow2(i as nat) * 2)) by (nonlinear_arith);
            }
            acc = next;
            i += 1;
        }
        acc
    }
}

} // verus!
