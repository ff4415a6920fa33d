//! Single-word subtraction and modular arithmetic for `Natural`.
//!
//! The modular operations require reduced operands and return reduced
//! results; a sum that overflows the modulus is corrected by one
//! subtraction.

use crate::natural::Natural;
use vstd::arithmetic::div_mod::*;
use vstd::arithmetic::power2::*;
use vstd::prelude::*;

verus! {

impl Natural {
    /// `self - other`, or `None` when the word exceeds the value.
    pub fn checked_sub_limb(&self, other: u32) -> (r: Option<Natural>)
        requires
            self.wf(),
        ensures
            match r {
                Some(d) => d.wf() && self@ >= other && d@ == self@ - other,
                None => self@ < other,
            },
    {
        self.checked_sub(&Natural::from_limb(other))
    }

    /// `self - other` in place; the caller promises no underflow.
    pub fn sub_assign_limb(&mut self, other: u32)
        requires
            old(self).wf(),
            old(self)@ >= other,
        ensures
            final(self).wf(),
            final(self)@ == old(self)@ - other,
    {
        let underflow = sub_assign_u32_helper(self, other);
        proof {
            assert(!underflow);
        }
    }

    /// `other - self`, or `None` when the value exceeds the word.
    pub fn checked_sub_from_limb(&self, other: u32) -> (r: Option<Natural>)
        requires
            self.wf(),
        ensures
            match r {
                Some(d) => d.wf() && other >= self@ && d@ == other - self@,
                None => other < self@,
            },
    {
        match self.to_u32() {
            Some(x) => {
                if other >= x {
                    Some(Natural::from_limb(other - x))
                } else {
                    None
                }
            }
            None => None,
        }
    }

    /// Whether the value is a canonical residue: strictly below the modulus.
    pub fn mod_is_reduced(&self, m: &Natural) -> (r: bool)
        requires
            self.wf(),
            m.wf(),
            m@ > 0,
        ensures
            r == (self@ < m@),
    {
        matches!(self.cmp(m), core::cmp::Ordering::Less)
    }

    /// Modular addition of two reduced residues.
    pub fn mod_add(&self, other: &Natural, m: &Natural) -> (r: Natural)
        requires
            self.wf(),
            other.wf(),
            m.wf(),
            m@ > 0,
            self@ < m@,
            other@ < m@,
        ensures
            r.wf(),
            r@ < m@,
            r@ == (self@ + other@) % m@,
    {
        let s = self.plus(other);
        let r = match s.cmp(m) {
            core::cmp::Ordering::Less => s,
            _ => {
                match s.checked_sub(m) {
                    Some(d) => d,
                    None => {
                        proof {
                            assert(false);
                        }
                        Natural::zero()
                    }
                }
            }
        };
        proof {
            if self@ + other@ < m@ {
                lemma_small_mod((self@ + other@) as nat, m@);
            } else {
                assert((self@ + other@) as int == 1 * (m@ as int) + (self@ + other@ - m@));
                lemma_fundamental_div_mod_converse(
                    (self@ + other@) as int,
                    m@ as int,
                    1,
                    (self@ + other@ - m@) as int,
                );
            }
        }
        r
    }

    /// Modular addition in place.
    pub fn mod_add_assign(&mut self, other: &Natural, m: &Natural)
        requires
            old(self).wf(),
            other.wf(),
            m.wf(),
            m@ > 0,
            old(self)@ < m@,
            other@ < m@,
        ensures
            final(self).wf(),
            final(self)@ < m@,
            final(self)@ == (old(self)@ + other@) % m@,
    {
        let r = self.mod_add(other, m);
        *self = r;
    }

    /// The additive inverse of a reduced residue.
    pub fn mod_neg(&self, m: &Natural) -> (r: Natural)
        requires
            self.wf(),
            m.wf(),
            m@ > 0,
            self@ < m@,
        ensures
            r.wf(),
            r@ < m@,
            r@ == (if self@ == 0 { 0int } else { m@ - self@ }),
            (r@ + self@) % m@ == 0,
    {
        let r = if self.is_zero() {
            Natural::zero()
        } else {
            match m.checked_sub(self) {
                Some(d) => d,
                None => {
                    proof {
                        assert(false);
                    }
                    Natural::zero()
                }
            }
        };
        proof {
            if self@ == 0 {
                lemma_small_mod(0, m@);
            } else {
                lemma_mod_self_0(m@ as int);
            }
        }
        r
    }

    /// Modular subtraction of two reduced residues.
    pub fn mod_sub(&self, other: &Natural, m: &Natural) -> (r: Natural)
        requires
            self.wf(),
            other.wf(),
            m.wf(),
            m@ > 0,
            self@ < m@,
            other@ < m@,
        ensures
            r.wf(),
            r@ < m@,
            r@ == (self@ - other@) % (m@ as int),
    {
        let r = match self.checked_sub(other) {
            Some(d) => d,
            None => {
                let t = self.plus(m);
                match t.checked_sub(other) {
                    Some(d) => d,
                    None => {
                        proof {
                            assert(false);
                        }
                        Natural::zero()
                    }
                }
            }
        };
        proof {
            if self@ >= other@ {
                lemma_small_mod((self@ - other@) as nat, m@);
            } else {
                assert(self@ - other@ == (-1) * (m@ as int) + (self@ + m@ - other@));
                lemma_fundamental_div_mod_converse(
                    self@ - other@,
                    m@ as int,
                    -1,
                    self@ + m@ - other@,
                );
            }
        }
        r
    }

    /// The residue shifted left by a bit count, reduced at each step.
    pub fn mod_shl(&self, bits: u64, m: &Natural) -> (r: Natural)
        requires
            self.wf(),
            m.wf(),
            m@ > 0,
            self@ < m@,
        ensures
            r.wf(),
            r@ < m@,
            r@ == (self@ * pow2(bits as nat)) % m@,
    {
        let mut acc = self.clone();
        let mut i: u64 = 0;
        proof {
            lemma2_to64();
            lemma_small_mod(self@, m@);
            assert(self@ * pow2(0) == self@) by (nonlinear_arith)
                requires pow2(0) == 1;
        }
        while i < bits
            invariant
                i <= bits,
                self.wf(),
                m.wf(),
                m@ > 0,
                self@ < m@,
                acc.wf(),
                acc@ < m@,
                acc@ == (self@ * pow2(i as nat)) % m@,
            decreases bits - i,
        {
            let next = acc.mod_add(&acc, m);
            proof {
                lemma_pow2_adds(i as nat, 1);
                lemma2_to64();
                let p = pow2(i as nat);
                lemma_mul_mod_noop_left((self@ * p) as int, 2, m@ as int);
                assert((acc@ + acc@) as int == (((self@ * p) % m@) as int) * 2);
                assert(self@ * p * 2 == self@ * (p * 2)) by (nonlinear_arith);
            }
            acc = next;
            i += 1;
        }
        acc
    }
}

/// Subtracts one word from a value in place; reports whether the word was
/// too large, leaving the value untouched in that case.
pub fn sub_assign_u32_helper(x: &mut Natural, y: u32) -> (underflow: bool)
    requires
        old(x).wf(),
    ensures
        final(x).wf(),
        underflow <==> old(x)@ < y,
        !underflow ==> final(x)@ == old(x)@ - y,
        underflow ==> final(x)@ == old(x)@,
{
    match x.checked_sub_limb(y) {
        Some(d) => {
            *x = d;
            false
        }
        None => true,
    }
}

} // verus!
