//! Bitwise AND between magnitudes standing for operands of either sign.
//!
//! A negative operand is stored as its magnitude; its two's-complement limbs
//! are read through `neg_limb`. Each algorithm locates the first nonzero limb
//! of the negated operand, applies the negate-at-boundary transform there,
//! and a plain complement above it.

use crate::and_lemmas::{
    first_nonzero, lemma_first_nonzero_props, lemma_first_nonzero_unique, lemma_m1_limb_val,
    lemma_nat_and_limbs, lemma_nat_and_mod, lemma_neg_limb_val, neg_limb,
};
use crate::bitand_spec::{lemma_nat_and_le, nat_and};
use crate::limbs::{
    lemma_limbs_val_bound, lemma_limbs_val_zero, limbs_val, limbs_trailing_zero_limbs,
};
use crate::natural_arith::limb_at;
use vstd::arithmetic::div_mod::*;
use vstd::arithmetic::power2::*;
use vstd::prelude::*;

verus! {

/// What an AND against a negated operand computes: the bits of `x` that the
/// low bits of `y - 1` do not cover.
pub open spec fn and_pos_neg_val(x: nat, y: nat) -> nat {
    (x - nat_and(x, (y - 1) as nat)) as nat
}

/// The per-limb AND against `neg_limb` denotes `and_pos_neg_val`.
pub proof fn lemma_and_result_value(xs: Seq<u32>, ys: Seq<u32>, r: Seq<u32>)
    requires
        limbs_val(ys) > 0,
        r.len() == xs.len(),
        forall|i: int| 0 <= i < r.len() ==> r[i] == (xs[i] & neg_limb(ys, i)),
    ensures
        limbs_val(r) == and_pos_neg_val(limbs_val(xs), limbs_val(ys)),
{
    let x = limbs_val(xs);
    let y = limbs_val(ys);
    let l = xs.len();
    let w = 32 * l;
    let nlw = Seq::new(l, |i: int| neg_limb(ys, i));
    assert(r =~= Seq::new(l, |i: int| xs[i] & nlw[i]));
    lemma_nat_and_limbs(xs, nlw);
    lemma_neg_limb_val(ys, l);
    lemma_pow2_pos(w);
    lemma_limbs_val_bound(xs);
    lemma_nat_and_le(x, (y - 1) as nat);
    // the negated window is the complement of the low bits of y - 1
    let m1w = Seq::new(l, |i: int| crate::and_lemmas::m1_limb(ys, i));
    lemma_m1_limb_val(ys, l);
    lemma_first_nonzero_props(ys);
    if first_nonzero(ys) == ys.len() {
        lemma_limbs_val_zero(ys);
    }
    assert forall|i: int| 0 <= i < l implies #[trigger] (nlw[i] + m1w[i]) == 0xffff_ffffu32 + 0u32 by {
        crate::and_lemmas::lemma_neg_m1_complement(ys, i);
        let v = crate::and_lemmas::m1_limb(ys, i);
        assert(v + !v == 0xffff_ffffu32) by (bit_vector);
    }
    let z = ((y - 1) as int % pow2(w) as int) as nat;
    assert(limbs_val(m1w) == z);
    assert(limbs_val(nlw) == (-(y as int)) % (pow2(w) as int));
    // the two windows are complementary
    lemma_window_complement(y, w);
    assert(limbs_val(nlw) == pow2(w) - 1 - z);
    lemma_mod_bound((y - 1) as int, pow2(w) as int);
    crate::and_lemmas::lemma_nat_and_comp(x, z, w);
    lemma_nat_and_mod(x, (y - 1) as nat, w);
    assert(nat_and(x, (y - 1) as nat) == nat_and(x, z));
}

/// The negated window and the minus-one window partition the all-ones window.
proof fn lemma_window_complement(y: nat, w: nat)
    requires
        y > 0,
    ensures
        (-(y as int)) % (pow2(w) as int)
            == pow2(w) - 1 - ((y - 1) as int % pow2(w) as int),
{
    lemma_pow2_pos(w);
    let m = pow2(w);
    lemma_fundamental_div_mod((y - 1) as int, m as int);
    lemma_mod_bound((y - 1) as int, m as int);
    let q = (y - 1) as int / m as int;
    let rr = (y - 1) as int % m as int;
    assert(-(y as int) == (-q - 1) * m + (m - 1 - rr)) by (nonlinear_arith)
        requires (y - 1) as int == q * m + rr;
    lemma_fundamental_div_mod_converse(-(y as int), m as int, -q - 1, m as int - 1 - rr);
}

/// Takes the bitwise AND of a non-negative operand's limbs with a negative
/// operand's complement limbs, returning fresh limbs.
pub fn limbs_and_pos_neg(xs: &[u32], ys: &[u32]) -> (r: Vec<u32>)
    requires
        limbs_val(ys@) > 0,
    ensures
        limbs_val(r@) == and_pos_neg_val(limbs_val(xs@), limbs_val(ys@)),
        r@.len() == xs@.len() || r@.len() == 0,
{
    let xs_len = xs.len();
    let ys_len = ys.len();
    let x_i = limbs_trailing_zero_limbs(xs);
    let y_i = limbs_trailing_zero_limbs(ys);
    proof {
        lemma_first_nonzero_unique(ys@, y_i as int);
        lemma_first_nonzero_props(ys@);
        if first_nonzero(ys@) == ys@.len() {
            lemma_limbs_val_zero(ys@);
        }
    }
    if y_i >= xs_len {
        let r: Vec<u32> = Vec::new();
        proof {
            let ghost rr = Seq::new(xs@.len(), |i: int| xs@[i] & neg_limb(ys@, i));
            assert forall|i: int| 0 <= i < rr.len() implies rr[i] == 0 by {
                assert(neg_limb(ys@, i) == 0);
                let v = xs@[i];
                assert(v & 0 == 0) by (bit_vector);
            }
            lemma_limbs_val_zero(rr);
            lemma_and_result_value(xs@, ys@, rr);
        }
        return r;
    }
    if x_i >= ys_len {
        let r = slice_to_vec(xs);
        proof {
            let ghost rr = Seq::new(xs@.len(), |i: int| xs@[i] & neg_limb(ys@, i));
            assert forall|i: int| 0 <= i < rr.len() implies rr[i] == xs@[i] by {
                if i < x_i {
                    let v = neg_limb(ys@, i);
                    assert(0u32 & v == 0) by (bit_vector);
                } else {
                    assert(i >= ys@.len());
                    assert(neg_limb(ys@, i) == 0xffff_ffffu32);
                    let v = xs@[i];
                    assert(v & 0xffff_ffffu32 == v) by (bit_vector);
                }
            }
            assert(rr =~= xs@);
            lemma_and_result_value(xs@, ys@, rr);
        }
        return r;
    }
    let mut r: Vec<u32> = Vec::new();
    let mut i: usize = 0;
    while i < xs_len
        invariant
            i <= xs_len,
            xs_len == xs@.len(),
            ys_len == ys@.len(),
            y_i < ys@.len(),
            y_i == first_nonzero(ys@),
            forall|j: int| 0 <= j < y_i ==> ys@[j] == 0,
            ys@[y_i as int] != 0,
            r@.len() == i,
            forall|j: int| 0 <= j < i ==> r@[j] == (xs@[j] & neg_limb(ys@, j)),
        decreases xs_len - i,
    {
        let v: u32 = if i < y_i {
            proof {
                let xv = xs@[i as int];
                assert(xv & 0 == 0) by (bit_vector);
            }
            0
        } else if i == y_i {
            let nl = ((0x1_0000_0000u64 - ys[i] as u64) as u32);
            xs[i] & nl
        } else if i < ys_len {
            xs[i] & !ys[i]
        } else {
            proof {
                let xv = xs@[i as int];
                assert(xv & 0xffff_ffffu32 == xv) by (bit_vector);
            }
            xs[i]
        };
        r.push(v);
        i += 1;
    }
    proof {
        lemma_and_result_value(xs@, ys@, r@);
    }
    r
}

/// As `limbs_and_pos_neg`, writing the result over the first operand.
pub fn limbs_and_pos_neg_in_place_left(xs: &mut Vec<u32>, ys: &[u32])
    requires
        limbs_val(ys@) > 0,
    ensures
        final(xs)@.len() == old(xs)@.len(),
        limbs_val(final(xs)@) == and_pos_neg_val(limbs_val(old(xs)@), limbs_val(ys@)),
{
    let ghost xs0 = xs@;
    let ys_len = ys.len();
    let y_i = limbs_trailing_zero_limbs(ys);
    proof {
        lemma_first_nonzero_unique(ys@, y_i as int);
        lemma_first_nonzero_props(ys@);
        if first_nonzero(ys@) == ys@.len() {
            lemma_limbs_val_zero(ys@);
        }
    }
    let mut i: usize = 0;
    while i < xs.len()
        invariant
            i <= xs@.len(),
            xs@.len() == xs0.len(),
            ys_len == ys@.len(),
            y_i < ys@.len(),
            y_i == first_nonzero(ys@),
            forall|j: int| 0 <= j < y_i ==> ys@[j] == 0,
            ys@[y_i as int] != 0,
            limbs_val(ys@) > 0,
            forall|j: int| i <= j < xs@.len() ==> xs@[j] == xs0[j],
            forall|j: int| 0 <= j < i ==> xs@[j] == (xs0[j] & neg_limb(ys@, j)),
        decreases xs@.len() - i,
    {
        let xv = xs[i];
        let v: u32 = if i < y_i {
            proof {
                assert(xv & 0 == 0) by (bit_vector);
            }
            0
        } else if i == y_i {
            let nl = ((0x1_0000_0000u64 - ys[i] as u64) as u32);
            xv & nl
        } else if i < ys_len {
            xv & !ys[i]
        } else {
            proof {
                assert(xv & 0xffff_ffffu32 == xv) by (bit_vector);
            }
            xv
        };
        xs.set(i, v);
        i += 1;
    }
    proof {
        lemma_and_result_value(xs0, ys@, xs@);
    }
}

/// As `limbs_and_pos_neg`, writing into the second operand's limbs; limbs of
/// the result beyond the second operand's length are not produced, and limbs
/// beyond the first operand's length read as zero.
pub fn limbs_slice_and_pos_neg_in_place_right(xs: &[u32], ys: &mut Vec<u32>)
    requires
        limbs_val(old(ys)@) > 0,
    ensures
        final(ys)@.len() == old(ys)@.len(),
        forall|i: int| 0 <= i < old(ys)@.len()
            ==> final(ys)@[i] == (limb_at(xs@, i) & neg_limb(old(ys)@, i)),
{
    let ghost ys0 = ys@;
    let xs_len = xs.len();
    let y_i = limbs_trailing_zero_limbs(ys.as_slice());
    proof {
        lemma_first_nonzero_unique(ys@, y_i as int);
        lemma_first_nonzero_props(ys@);
        if first_nonzero(ys@) == ys@.len() {
            lemma_limbs_val_zero(ys@);
        }
    }
    let mut i: usize = 0;
    while i < ys.len()
        invariant
            i <= ys@.len(),
            ys@.len() == ys0.len(),
            xs_len == xs@.len(),
            y_i < ys0.len(),
            y_i == first_nonzero(ys0),
            forall|j: int| i <= j < ys@.len() ==> ys@[j] == ys0[j],
            forall|j: int| 0 <= j < i ==> ys@[j] == (limb_at(xs@, j) & neg_limb(ys0, j)),
        decreases ys@.len() - i,
    {
        let yv = ys[i];
        let xv: u32 = if i < xs_len {
            xs[i]
        } else {
            0
        };
        let v: u32 = if i < y_i {
            proof {
                assert(xv & 0 == 0) by (bit_vector);
            }
            0
        } else if i == y_i {
            let nl = ((0x1_0000_0000u64 - yv as u64) as u32);
            xv & nl
        } else {
            xv & !yv
        };
        ys.set(i, v);
        i += 1;
    }
}

/// As `limbs_and_pos_neg`, writing into the second operand and fixing its
/// length to the first operand's, so that the full result is kept.
pub fn limbs_vec_and_pos_neg_in_place_right(xs: &[u32], ys: &mut Vec<u32>)
    requires
        limbs_val(old(ys)@) > 0,
    ensures
        final(ys)@.len() == xs@.len(),
        limbs_val(final(ys)@) == and_pos_neg_val(limbs_val(xs@), limbs_val(old(ys)@)),
{
    let ghost ys0 = ys@;
    limbs_slice_and_pos_neg_in_place_right(xs, ys);
    let xs_len = xs.len();
    if xs_len > ys.len() {
        let mut i: usize = ys.len();
        while i < xs_len
            invariant
                ys0.len() <= i <= xs_len,
                xs_len == xs@.len(),
                ys@.len() == i,
                limbs_val(ys0) > 0,
                forall|j: int| 0 <= j < ys0.len()
                    ==> ys@[j] == (limb_at(xs@, j) & neg_limb(ys0, j)),
                forall|j: int| ys0.len() <= j < i ==> ys@[j] == xs@[j],
            decreases xs_len - i,
        {
            ys.push(xs[i]);
            i += 1;
        }
    } else if xs_len < ys.len() {
        ys.truncate(xs_len);
    }
    proof {
        let ghost rr = ys@;
        assert(rr.len() == xs@.len());
        assert forall|i: int| 0 <= i < rr.len() implies rr[i] == (xs@[i] & neg_limb(ys0, i)) by {
            if i < ys0.len() {
                assert(limb_at(xs@, i) == xs@[i]);
            } else {
                assert(neg_limb(ys0, i) == 0xffff_ffffu32) by {
                    lemma_first_nonzero_props(ys0);
                }
                let v = xs@[i];
                assert(v & 0xffff_ffffu32 == v) by (bit_vector);
            }
        }
        lemma_and_result_value(xs@, ys0, rr);
    }
}

/// Copies a slice of limbs.
fn slice_to_vec(xs: &[u32]) -> (r: Vec<u32>)
    ensures
        r@ == xs@,
{
    let mut r: Vec<u32> = Vec::new();
    let mut i: usize = 0;
    while i < xs.len()
        invariant
            i <= xs@.len(),
            r@ =~= xs@.take(i as int),
        decreases xs@.len() - i,
    {
        r.push(xs[i]);
        i += 1;
    }
    proof {
        assert(r@ =~= xs@);
    }
    r
}

} // verus!
