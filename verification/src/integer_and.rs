//! Bitwise AND for `Integer`, by case split on the four sign combinations.
//!
//! Each combination delegates to a specialized magnitude-level algorithm;
//! the result provably equals `int_and`, the two's-complement AND on
//! mathematical integers.

use crate::and_lemmas::neg_limb;
use crate::bitand_spec::{
    int_and, lemma_int_and_comm, lemma_int_and_neg_neg, lemma_int_and_pos_neg,
    lemma_int_and_pos_pos, lemma_nat_and_le, nat_and,
};
use crate::integer::Integer;
use crate::limbs::{
    lemma_limbs_val_bound, lemma_limbs_val_split, lemma_limbs_val_singleton, limb_weight, limbs_val,
};
use crate::natural::Natural;
use crate::natural_and::{
    and_pos_neg_val, lemma_and_result_value, limbs_and_pos_neg, limbs_and_pos_neg_in_place_left,
};
use crate::natural_and_neg::{
    and_neg_neg_val, limbs_and_neg_neg, limbs_vec_and_neg_neg_in_place_either,
};
use vstd::arithmetic::div_mod::*;
use vstd::prelude::*;

verus! {

/// A prefix of the limbs denotes the value modulo the prefix weight.
proof fn lemma_take_is_mod(s: Seq<u32>, k: nat)
    requires
        k <= s.len(),
    ensures
        limbs_val(s.take(k as int)) == limbs_val(s) % limb_weight(k),
{
    lemma_limbs_val_split(s, k);
    lemma_limbs_val_bound(s.take(k as int));
    crate::limbs::lemma_limb_weight_pos(k);
    assert(limbs_val(s)
        == limbs_val(s.skip(k as int)) * limb_weight(k) + limbs_val(s.take(k as int)))
        by (nonlinear_arith)
        requires limbs_val(s)
            == limbs_val(s.take(k as int)) + limb_weight(k) * limbs_val(s.skip(k as int));
    lemma_fundamental_div_mod_converse(
        limbs_val(s) as int,
        limb_weight(k) as int,
        limbs_val(s.skip(k as int)) as int,
        limbs_val(s.take(k as int)) as int,
    );
}

impl Natural {
    /// The bitwise AND of two non-negative values.
    pub fn and_natural(&self, other: &Natural) -> (r: Natural)
        requires
            self.wf(),
            other.wf(),
        ensures
            r.wf(),
            r@ == nat_and(self@, other@),
    {
        let xs = self.to_limbs_asc();
        let ys = other.to_limbs_asc();
        proof {
            self.lemma_limbs_denote_value();
            other.lemma_limbs_denote_value();
        }
        let n = if xs.len() < ys.len() {
            xs.len()
        } else {
            ys.len()
        };
        let mut out: Vec<u32> = Vec::new();
        let mut i: usize = 0;
        while i < n
            invariant
                i <= n,
                n == if xs@.len() < ys@.len() { xs@.len() } else { ys@.len() },
                out@.len() == i,
                forall|j: int| 0 <= j < i ==> out@[j] == (xs@[j] & ys@[j]),
            decreases n - i,
        {
            out.push(xs[i] & ys[i]);
            i += 1;
        }
        proof {
            let x = limbs_val(xs@);
            let y = limbs_val(ys@);
            let xt = xs@.take(n as int);
            let yt = ys@.take(n as int);
            assert(out@ =~= Seq::new(n as nat, |j: int| xt[j] & yt[j]));
            crate::and_lemmas::lemma_nat_and_limbs(xt, yt);
            lemma_take_is_mod(xs@, n as nat);
            lemma_take_is_mod(ys@, n as nat);
            if xs@.len() <= ys@.len() {
                assert(xt =~= xs@);
                lemma_limbs_val_bound(xs@);
                crate::and_lemmas::lemma_nat_and_mod(x, y, 32 * (n as nat));
            } else {
                assert(yt =~= ys@);
                lemma_limbs_val_bound(ys@);
                crate::bitand_spec::lemma_nat_and_comm_nat(x, y);
                crate::and_lemmas::lemma_nat_and_mod(y, x, 32 * (n as nat));
                crate::bitand_spec::lemma_nat_and_comm_nat(y, x % limb_weight(n as nat));
            }
        }
        Natural::from_limbs_asc(out)
    }

    /// The AND of a non-negative value with a negative operand's magnitude.
    pub fn and_pos_neg(&self, other: &Natural) -> (r: Natural)
        requires
            self.wf(),
            other.wf(),
            other@ > 0,
        ensures
            r.wf(),
            r@ == and_pos_neg_val(self@, other@),
    {
        let xs = self.to_limbs_asc();
        let ys = other.to_limbs_asc();
        proof {
            self.lemma_limbs_denote_value();
            other.lemma_limbs_denote_value();
        }
        Natural::from_limbs_asc(limbs_and_pos_neg(xs.as_slice(), ys.as_slice()))
    }

    /// As `and_pos_neg`, updating the non-negative operand in place.
    pub fn and_assign_pos_neg(&mut self, other: &Natural)
        requires
            old(self).wf(),
            other.wf(),
            other@ > 0,
        ensures
            final(self).wf(),
            final(self)@ == and_pos_neg_val(old(self)@, other@),
    {
        let ys = other.to_limbs_asc();
        proof {
            other.lemma_limbs_denote_value();
        }
        let mut tmp = Natural::zero();
        core::mem::swap(self, &mut tmp);
        match tmp {
            Natural::Small(x) => {
                let nl: u32 = if ys[0] == 0 {
                    0
                } else {
                    (0x1_0000_0000u64 - ys[0] as u64) as u32
                };
                proof {
                    crate::and_lemmas::lemma_first_nonzero_props(ys@);
                    if crate::and_lemmas::first_nonzero(ys@) == ys@.len() {
                        crate::limbs::lemma_limbs_val_zero(ys@);
                    }
                    let t = crate::and_lemmas::first_nonzero(ys@);
                    if ys@[0] == 0 {
                        assert(t > 0);
                        assert(neg_limb(ys@, 0) == 0);
                        let xv = x;
                        assert(xv & 0 == 0) by (bit_vector);
                    } else {
                        assert(t == 0);
                    }
                    let rr = seq![x & neg_limb(ys@, 0)];
                    lemma_limbs_val_singleton(rr);
                    lemma_limbs_val_singleton(seq![x]);
                    lemma_and_result_value(seq![x], ys@, rr);
                }
                *self = Natural::Small(x & nl);
            }
            Natural::Large(mut v) => {
                proof {
                    assert(limbs_val(v@) == old(self)@);
                }
                limbs_and_pos_neg_in_place_left(&mut v, ys.as_slice());
                *self = Natural::from_limbs_asc(v);
            }
        }
    }

    /// The AND of a negative operand's magnitude with a non-negative value,
    /// replacing the magnitude; the value operand is consumed.
    pub fn and_assign_neg_pos(&mut self, other: Natural)
        requires
            old(self).wf(),
            old(self)@ > 0,
            other.wf(),
        ensures
            final(self).wf(),
            final(self)@ == and_pos_neg_val(other@, old(self)@),
    {
        let mut other = other;
        other.and_assign_pos_neg(self);
        core::mem::swap(self, &mut other);
    }

    /// As `and_assign_neg_pos`, borrowing the value operand.
    pub fn and_assign_neg_pos_ref(&mut self, other: &Natural)
        requires
            old(self).wf(),
            old(self)@ > 0,
            other.wf(),
        ensures
            final(self).wf(),
            final(self)@ == and_pos_neg_val(other@, old(self)@),
    {
        let r = other.and_pos_neg(self);
        *self = r;
    }

    /// The AND of two negative operands' magnitudes.
    pub fn and_neg_neg(&self, other: &Natural) -> (r: Natural)
        requires
            self.wf(),
            other.wf(),
            self@ > 0,
            other@ > 0,
        ensures
            r.wf(),
            r@ == and_neg_neg_val(self@, other@),
            r@ > 0,
    {
        let xs = self.to_limbs_asc();
        let ys = other.to_limbs_asc();
        proof {
            self.lemma_limbs_denote_value();
            other.lemma_limbs_denote_value();
        }
        Natural::from_limbs_asc(limbs_and_neg_neg(xs.as_slice(), ys.as_slice()))
    }

    /// As `and_neg_neg`, consuming the second operand and updating the first
    /// in place.
    pub fn and_assign_neg_neg(&mut self, other: Natural)
        requires
            old(self).wf(),
            other.wf(),
            old(self)@ > 0,
            other@ > 0,
        ensures
            final(self).wf(),
            final(self)@ == and_neg_neg_val(old(self)@, other@),
            final(self)@ > 0,
    {
        let ys = other.to_limbs_asc();
        proof {
            other.lemma_limbs_denote_value();
        }
        self.and_neg_neg_vec(ys)
    }

    /// As `and_neg_neg`, borrowing the second operand and updating the first
    /// in place.
    pub fn and_assign_neg_neg_ref(&mut self, other: &Natural)
        requires
            old(self).wf(),
            other.wf(),
            old(self)@ > 0,
            other@ > 0,
        ensures
            final(self).wf(),
            final(self)@ == and_neg_neg_val(old(self)@, other@),
            final(self)@ > 0,
    {
        let ys = other.to_limbs_asc();
        proof {
            other.lemma_limbs_denote_value();
        }
        self.and_neg_neg_vec(ys)
    }

    /// The shared in-place body of the negative-negative forms.
    fn and_neg_neg_vec(&mut self, ys: Vec<u32>)
        requires
            old(self).wf(),
            old(self)@ > 0,
            limbs_val(ys@) > 0,
        ensures
            final(self).wf(),
            final(self)@ == and_neg_neg_val(old(self)@, limbs_val(ys@)),
            final(self)@ > 0,
    {
        let mut tmp = Natural::zero();
        core::mem::swap(self, &mut tmp);
        let mut xs = tmp.to_limbs_asc();
        proof {
            tmp.lemma_limbs_denote_value();
        }
        let mut ys = ys;
        if limbs_vec_and_neg_neg_in_place_either(&mut xs, &mut ys) {
            *self = Natural::from_limbs_asc(ys);
        } else {
            *self = Natural::from_limbs_asc(xs);
        }
    }
}

impl Integer {
    /// The bitwise AND of two values, as two's-complement integers.
    pub fn bitand(&self, other: &Integer) -> (r: Integer)
        requires
            self.wf(),
            other.wf(),
        ensures
            r.wf(),
            r@ == int_and(self@, other@),
    {
        match (self.sign, other.sign) {
            (true, true) => {
                let abs = self.abs.and_natural(&other.abs);
                proof {
                    lemma_int_and_pos_pos(self.abs@, other.abs@);
                }
                Integer::from_sign_and_abs(true, abs)
            }
            (true, false) => {
                let abs = self.abs.and_pos_neg(&other.abs);
                proof {
                    lemma_int_and_pos_neg(self.abs@, (other.abs@ - 1) as nat);
                    lemma_nat_and_le(self.abs@, (other.abs@ - 1) as nat);
                }
                Integer::from_sign_and_abs(true, abs)
            }
            (false, true) => {
                let abs = other.abs.and_pos_neg(&self.abs);
                proof {
                    lemma_int_and_pos_neg(other.abs@, (self.abs@ - 1) as nat);
                    lemma_nat_and_le(other.abs@, (self.abs@ - 1) as nat);
                    lemma_int_and_comm(self@, other@);
                }
                Integer::from_sign_and_abs(true, abs)
            }
            (false, false) => {
                let abs = self.abs.and_neg_neg(&other.abs);
                proof {
                    lemma_int_and_neg_neg((self.abs@ - 1) as nat, (other.abs@ - 1) as nat);
                }
                Integer::from_sign_and_abs(false, abs)
            }
        }
    }

    /// As `bitand`, updating the left operand in place.
    pub fn bitand_assign(&mut self, other: &Integer)
        requires
            old(self).wf(),
            other.wf(),
        ensures
            final(self).wf(),
            final(self)@ == int_and(old(self)@, other@),
    {
        if self.sign && other.sign {
            let mut tmp = Natural::zero();
            core::mem::swap(&mut self.abs, &mut tmp);
            let abs = tmp.and_natural(&other.abs);
            proof {
                lemma_int_and_pos_pos(old(self).abs@, other.abs@);
            }
            let r = Integer::from_sign_and_abs(true, abs);
            *self = r;
        } else if self.sign && !other.sign {
            self.abs.and_assign_pos_neg(&other.abs);
            proof {
                lemma_int_and_pos_neg(old(self).abs@, (other.abs@ - 1) as nat);
                lemma_nat_and_le(old(self).abs@, (other.abs@ - 1) as nat);
            }
            let mut tmp = Natural::zero();
            core::mem::swap(&mut self.abs, &mut tmp);
            let r = Integer::from_sign_and_abs(true, tmp);
            *self = r;
        } else if !self.sign && other.sign {
            self.abs.and_assign_neg_pos_ref(&other.abs);
            proof {
                lemma_int_and_pos_neg(other.abs@, (old(self).abs@ - 1) as nat);
                lemma_nat_and_le(other.abs@, (old(self).abs@ - 1) as nat);
                lemma_int_and_comm(old(self)@, other@);
            }
            let mut tmp = Natural::zero();
            core::mem::swap(&mut self.abs, &mut tmp);
            let r = Integer::from_sign_and_abs(true, tmp);
            *self = r;
        } else {
            self.abs.and_assign_neg_neg_ref(&other.abs);
            proof {
                lemma_int_and_neg_neg((old(self).abs@ - 1) as nat, (other.abs@ - 1) as nat);
            }
        }
    }
}

} // verus!
