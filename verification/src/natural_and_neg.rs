//! Bitwise AND of two negative operands, in magnitude form.
//!
//! With both operands negative the identity `(-x) & (-y) == -(((x-1) |
//! (y-1)) + 1)` applies: the loops OR the minus-one limbs of both magnitudes
//! and add one back, rippling the carry until a boundary limb absorbs it;
//! `boundary_limb_seen` tracks whether the carry has stabilized.

use crate::and_lemmas::{
    first_nonzero, lemma_all_ones_take, lemma_first_nonzero_props, lemma_first_nonzero_unique,
    lemma_m1_limb_val, lemma_nat_or_limbs, m1_limb,
};
use crate::bitand_spec::nat_or;
use crate::limbs::{
    lemma_limbs_val_bound, lemma_limbs_val_take_succ, lemma_limbs_val_zero, limb_weight, limbs_val,
    limbs_trailing_zero_limbs,
};
use vstd::arithmetic::div_mod::*;
use vstd::arithmetic::power2::*;
use vstd::prelude::*;

verus! {

/// What an AND of two negative operands computes, as a magnitude.
pub open spec fn and_neg_neg_val(x: nat, y: nat) -> nat {
    nat_or((x - 1) as nat, (y - 1) as nat) + 1
}

/// The OR of the two minus-one limb windows denotes
/// `nat_or(x - 1, y - 1)`.
pub proof fn lemma_or_window_value(xs: Seq<u32>, ys: Seq<u32>, o: Seq<u32>, w: nat)
    requires
        limbs_val(xs) > 0,
        limbs_val(ys) > 0,
        xs.len() <= w,
        ys.len() <= w,
        o.len() == w,
        forall|i: int| 0 <= i < w ==> o[i] == (m1_limb(xs, i) | m1_limb(ys, i)),
    ensures
        limbs_val(o) == nat_or((limbs_val(xs) - 1) as nat, (limbs_val(ys) - 1) as nat),
{
    let x = limbs_val(xs);
    let y = limbs_val(ys);
    let m1x = Seq::new(w, |i: int| m1_limb(xs, i));
    let m1y = Seq::new(w, |i: int| m1_limb(ys, i));
    assert(o =~= Seq::new(w, |i: int| m1x[i] | m1y[i]));
    lemma_nat_or_limbs(m1x, m1y);
    lemma_m1_limb_val(xs, w);
    lemma_m1_limb_val(ys, w);
    lemma_limbs_val_bound(xs);
    lemma_limbs_val_bound(ys);
    lemma_pow2_pos(32 * w);
    crate::natural::lemma_weight_monotonic(xs.len(), w);
    crate::natural::lemma_weight_monotonic(ys.len(), w);
    lemma_small_mod((x - 1) as nat, pow2(32 * w));
    lemma_small_mod((y - 1) as nat, pow2(32 * w));
}

/// Adds the deferred carry to one limb of the OR of two negated operands:
/// until a boundary limb has been seen, the simulated two's complement still
/// owes an increment.
pub fn limbs_and_neg_neg_helper(input: u32, boundary_limb_seen: &mut bool) -> (r: u32)
    ensures
        *old(boundary_limb_seen) ==> r == input && *final(boundary_limb_seen),
        !*old(boundary_limb_seen) && input == 0xffff_ffff ==> r == 0
            && !*final(boundary_limb_seen),
        !*old(boundary_limb_seen) && input != 0xffff_ffff ==> r == input + 1
            && *final(boundary_limb_seen),
{
    if *boundary_limb_seen {
        input
    } else if input == 0xffff_ffff {
        0
    } else {
        *boundary_limb_seen = true;
        input + 1
    }
}

/// One limb of the minus-one reading of a positive magnitude.
fn m1_limb_exec(s: &[u32], t: usize, i: usize) -> (r: u32)
    requires
        t == first_nonzero(s@),
        t < s@.len(),
    ensures
        r == m1_limb(s@, i as int),
{
    proof {
        lemma_first_nonzero_props(s@);
    }
    if i >= s.len() {
        0
    } else if i < t {
        0xffff_ffff
    } else if i == t {
        s[i] - 1
    } else {
        s[i]
    }
}

/// Takes the bitwise AND of two negative operands' magnitudes, returning the
/// magnitude of the (negative) result.
pub fn limbs_and_neg_neg(xs: &[u32], ys: &[u32]) -> (r: Vec<u32>)
    requires
        limbs_val(xs@) > 0,
        limbs_val(ys@) > 0,
    ensures
        limbs_val(r@) == and_neg_neg_val(limbs_val(xs@), limbs_val(ys@)),
        ({
            let wlen = if xs@.len() >= ys@.len() { xs@.len() } else { ys@.len() };
            if and_neg_neg_val(limbs_val(xs@), limbs_val(ys@)) == limb_weight(wlen) {
                r@.len() == wlen + 1 && r@[wlen as int] == 1
            } else {
                r@.len() == wlen
            }
        }),
{
    let w = if xs.len() > ys.len() {
        xs.len()
    } else {
        ys.len()
    };
    let x_i = limbs_trailing_zero_limbs(xs);
    let y_i = limbs_trailing_zero_limbs(ys);
    proof {
        lemma_first_nonzero_unique(xs@, x_i as int);
        lemma_first_nonzero_unique(ys@, y_i as int);
        lemma_first_nonzero_props(xs@);
        lemma_first_nonzero_props(ys@);
        if first_nonzero(xs@) == xs@.len() {
            lemma_limbs_val_zero(xs@);
        }
        if first_nonzero(ys@) == ys@.len() {
            lemma_limbs_val_zero(ys@);
        }
    }
    let ghost owin = Seq::new(w as nat, |i: int| m1_limb(xs@, i) | m1_limb(ys@, i));
    let mut r: Vec<u32> = Vec::new();
    let mut seen = false;
    let mut i: usize = 0;
    while i < w
        invariant
            i <= w,
            w == if xs@.len() > ys@.len() { xs@.len() } else { ys@.len() },
            x_i == first_nonzero(xs@) && x_i < xs@.len(),
            y_i == first_nonzero(ys@) && y_i < ys@.len(),
            owin == Seq::new(w as nat, |i: int| m1_limb(xs@, i) | m1_limb(ys@, i)),
            r@.len() == i,
            !seen ==> (forall|j: int| 0 <= j < i ==> owin[j] == 0xffff_ffffu32)
                && (forall|j: int| 0 <= j < i ==> r@[j] == 0),
            seen ==> limbs_val(r@) == limbs_val(owin.take(i as int)) + 1,
        decreases w - i,
    {
        let ox = m1_limb_exec(xs, x_i, i);
        let oy = m1_limb_exec(ys, y_i, i);
        let o = ox | oy;
        let ghost seen0 = seen;
        let ghost r0 = r@;
        let v = limbs_and_neg_neg_helper(o, &mut seen);
        proof {
            assert(owin[i as int] == o);
            lemma_limbs_val_take_succ(owin, i as nat);
            assert(owin.take(i as int + 1).drop_last() =~= owin.take(i as int));
            lemma_limbs_val_take_succ(r0.push(v), i as nat);
            assert(r0.push(v).take(i as int) =~= r0);
            assert(r0.push(v).take(i as int + 1) =~= r0.push(v));
            if !seen0 {
                lemma_all_ones_take(owin, i as nat);
                lemma_limbs_val_zero(r0);
                if o != 0xffff_ffff {
                    assert(limbs_val(r0.push(v))
                        == (o + 1) * limb_weight(i as nat));
                    assert(limbs_val(owin.take(i as int + 1)) + 1
                        == pow2(32 * (i as nat)) - 1 + o * limb_weight(i as nat) + 1);
                    assert((o + 1) * limb_weight(i as nat)
                        == o * limb_weight(i as nat) + limb_weight(i as nat)) by (nonlinear_arith);
                } else {
                    lemma_limbs_val_zero(r0.push(v));
                }
            }
        }
        r.push(v);
        i += 1;
    }
    proof {
        assert(owin.take(w as int) =~= owin);
    }
    if !seen {
        proof {
            lemma_all_ones_take(owin, w as nat);
            lemma_limbs_val_zero(r@);
            lemma_limbs_val_take_succ(r@.push(1), w as nat);
            assert(r@.push(1).take(w as int) =~= r@);
            assert(r@.push(1).take(w as int + 1) =~= r@.push(1));
        }
        r.push(1);
    }
    proof {
        lemma_or_window_value(xs@, ys@, owin, w as nat);
        if seen {
            lemma_limbs_val_bound(r@);
        }
    }
    r
}

/// As `limbs_and_neg_neg`, writing into the first operand's limbs; the
/// returned flag says whether the deferred carry was absorbed, and when it
/// was not, the true result needs one limb more than the first operand has.
pub fn limbs_slice_and_neg_neg_in_place_left(xs: &mut Vec<u32>, ys: &[u32]) -> (seen: bool)
    requires
        limbs_val(old(xs)@) > 0,
        limbs_val(ys@) > 0,
        ys@.len() <= old(xs)@.len(),
    ensures
        final(xs)@.len() == old(xs)@.len(),
        seen ==> limbs_val(final(xs)@) == and_neg_neg_val(limbs_val(old(xs)@), limbs_val(ys@)),
        !seen ==> limbs_val(final(xs)@) == 0
            && and_neg_neg_val(limbs_val(old(xs)@), limbs_val(ys@))
                == limb_weight(old(xs)@.len()),
{
    let ghost xs0 = xs@;
    let w = xs.len();
    let x_i = limbs_trailing_zero_limbs(xs.as_slice());
    let y_i = limbs_trailing_zero_limbs(ys);
    proof {
        lemma_first_nonzero_unique(xs@, x_i as int);
        lemma_first_nonzero_unique(ys@, y_i as int);
        lemma_first_nonzero_props(xs@);
        lemma_first_nonzero_props(ys@);
        if first_nonzero(xs@) == xs@.len() {
            lemma_limbs_val_zero(xs@);
        }
        if first_nonzero(ys@) == ys@.len() {
            lemma_limbs_val_zero(ys@);
        }
    }
    let ghost owin = Seq::new(w as nat, |i: int| m1_limb(xs0, i) | m1_limb(ys@, i));
    let mut seen = false;
    let mut i: usize = 0;
    while i < w
        invariant
            i <= w,
            w == xs@.len() && w == xs0.len(),
            x_i == first_nonzero(xs0) && x_i < xs0.len(),
            y_i == first_nonzero(ys@) && y_i < ys@.len(),
            owin == Seq::new(w as nat, |i: int| m1_limb(xs0, i) | m1_limb(ys@, i)),
            forall|j: int| i <= j < w ==> xs@[j] == xs0[j],
            !seen ==> (forall|j: int| 0 <= j < i ==> owin[j] == 0xffff_ffffu32)
                && (forall|j: int| 0 <= j < i ==> xs@[j] == 0),
            seen ==> limbs_val(xs@.take(i as int)) == limbs_val(owin.take(i as int)) + 1,
        decreases w - i,
    {
        let ox = m1_limb_exec_vec(xs, x_i, i, Ghost(xs0));
        let oy = m1_limb_exec(ys, y_i, i);
        let o = ox | oy;
        let ghost seen0 = seen;
        let ghost r0 = xs@.take(i as int);
        let v = limbs_and_neg_neg_helper(o, &mut seen);
        proof {
            assert(owin[i as int] == o);
            lemma_limbs_val_take_succ(owin, i as nat);
            assert(owin.take(i as int + 1).drop_last() =~= owin.take(i as int));
            lemma_limbs_val_take_succ(xs@.update(i as int, v), i as nat);
            assert(xs@.update(i as int, v).take(i as int) =~= r0);
            assert(xs@.update(i as int, v).take(i as int + 1) =~= r0.push(v));
            lemma_limbs_val_take_succ(r0.push(v), i as nat);
            assert(r0.push(v).take(i as int) =~= r0);
            assert(r0.push(v).take(i as int + 1) =~= r0.push(v));
            if !seen0 {
                lemma_all_ones_take(owin, i as nat);
                lemma_limbs_val_zero(r0);
                if o != 0xffff_ffff {
                    assert((o + 1) * limb_weight(i as nat)
                        == o * limb_weight(i as nat) + limb_weight(i as nat)) by (nonlinear_arith);
                } else {
                    lemma_limbs_val_zero(r0.push(v));
                }
            }
        }
        xs.set(i, v);
        proof {
            assert(xs@.take(i as int + 1) =~= r0.push(v));
        }
        i += 1;
    }
    proof {
        assert(xs@.take(w as int) =~= xs@);
        assert(owin.take(w as int) =~= owin);
        lemma_or_window_value(xs0, ys@, owin, w as nat);
        if !seen {
            lemma_all_ones_take(owin, w as nat);
            lemma_limbs_val_zero(xs@);
        }
    }
    seen
}

/// One limb of the minus-one reading, against a vector that is being
/// rewritten below position `i`.
fn m1_limb_exec_vec(s: &Vec<u32>, t: usize, i: usize, Ghost(orig): Ghost<Seq<u32>>) -> (r: u32)
    requires
        s@.len() == orig.len(),
        forall|j: int| i <= j < orig.len() ==> s@[j] == orig[j],
        t == first_nonzero(orig),
        t < orig.len(),
    ensures
        r == m1_limb(orig, i as int),
{
    proof {
        lemma_first_nonzero_props(orig);
    }
    if i >= s.len() {
        0
    } else if i < t {
        0xffff_ffff
    } else if i == t {
        s[i] - 1
    } else {
        s[i]
    }
}

/// As `limbs_and_neg_neg`, writing into the first operand and growing it
/// when the result needs more limbs.
pub fn limbs_vec_and_neg_neg_in_place_left(xs: &mut Vec<u32>, ys: &[u32])
    requires
        limbs_val(old(xs)@) > 0,
        limbs_val(ys@) > 0,
    ensures
        limbs_val(final(xs)@) == and_neg_neg_val(limbs_val(old(xs)@), limbs_val(ys@)),
{
    let ghost xs0 = xs@;
    while xs.len() < ys.len()
        invariant
            limbs_val(xs@) == limbs_val(xs0),
            xs@.len() >= xs0.len(),
        decreases ys@.len() - xs@.len(),
    {
        proof {
            crate::limbs::lemma_limbs_val_drop_zero(xs@.push(0));
            assert(xs@.push(0).drop_last() =~= xs@);
        }
        xs.push(0);
    }
    let seen = limbs_slice_and_neg_neg_in_place_left(xs, ys);
    if !seen {
        proof {
            lemma_limbs_val_take_succ(xs@.push(1), xs@.len());
            assert(xs@.push(1).take(xs@.len() as int) =~= xs@);
            assert(xs@.push(1).take(xs@.len() as int + 1) =~= xs@.push(1));
        }
        xs.push(1);
    }
}

/// Applies `limbs_slice_and_neg_neg_in_place_left` to whichever operand is
/// long enough to hold the result; the first flag says whether the operands
/// were swapped, the second is the carry flag of the underlying call.
pub fn limbs_slice_and_neg_neg_in_place_either(xs: &mut Vec<u32>, ys: &mut Vec<u32>) -> (r: (
    bool,
    bool,
))
    requires
        limbs_val(old(xs)@) > 0,
        limbs_val(old(ys)@) > 0,
    ensures
        ({
            let target = if r.0 { final(ys)@ } else { final(xs)@ };
            let untouched = if r.0 { final(xs)@ } else { final(ys)@ };
            let wlen = if old(xs)@.len() >= old(ys)@.len() {
                old(xs)@.len()
            } else {
                old(ys)@.len()
            };
            &&& (r.0 <==> old(xs)@.len() < old(ys)@.len())
            &&& untouched == if r.0 { old(xs)@ } else { old(ys)@ }
            &&& target.len() == wlen
            &&& (r.1 ==> limbs_val(target)
                == and_neg_neg_val(limbs_val(old(xs)@), limbs_val(old(ys)@)))
            &&& (!r.1 ==> limbs_val(target) == 0
                && and_neg_neg_val(limbs_val(old(xs)@), limbs_val(old(ys)@))
                    == limb_weight(wlen))
        }),
{
    if xs.len() >= ys.len() {
        let seen = limbs_slice_and_neg_neg_in_place_left(xs, ys.as_slice());
        proof {
            lemma_or_comm_val(limbs_val(old(xs)@), limbs_val(old(ys)@));
        }
        (false, seen)
    } else {
        let seen = limbs_slice_and_neg_neg_in_place_left(ys, xs.as_slice());
        proof {
            lemma_or_comm_val(limbs_val(old(xs)@), limbs_val(old(ys)@));
        }
        (true, seen)
    }
}

/// As the slice version, growing the target when needed; the flag says
/// whether the result landed in the second operand.
pub fn limbs_vec_and_neg_neg_in_place_either(xs: &mut Vec<u32>, ys: &mut Vec<u32>) -> (r: bool)
    requires
        limbs_val(old(xs)@) > 0,
        limbs_val(old(ys)@) > 0,
    ensures
        r == (old(xs)@.len() < old(ys)@.len()),
        !r ==> limbs_val(final(xs)@)
            == and_neg_neg_val(limbs_val(old(xs)@), limbs_val(old(ys)@))
            && final(ys)@ == old(ys)@,
        r ==> limbs_val(final(ys)@)
            == and_neg_neg_val(limbs_val(old(xs)@), limbs_val(old(ys)@))
            && final(xs)@ == old(xs)@,
{
    if xs.len() >= ys.len() {
        limbs_vec_and_neg_neg_in_place_left(xs, ys.as_slice());
        false
    } else {
        limbs_vec_and_neg_neg_in_place_left(ys, xs.as_slice());
        proof {
            lemma_or_comm_val(limbs_val(old(xs)@), limbs_val(old(ys)@));
        }
        true
    }
}

/// The magnitude of a negative-negative AND does not depend on the operand
/// order.
pub proof fn lemma_or_comm_val(x: nat, y: nat)
    requires
        x > 0,
        y > 0,
    ensures
        and_neg_neg_val(x, y) == and_neg_neg_val(y, x),
{
    lemma_nat_or_comm((x - 1) as nat, (y - 1) as nat);
}

/// OR is commutative.
pub proof fn lemma_nat_or_comm(a: nat, b: nat)
    ensures
        nat_or(a, b) == nat_or(b, a),
    decreases a + b,
{
    if a == 0 || b == 0 {
    } else {
        lemma_nat_or_comm(a / 2, b / 2);
    }
}

} // verus!
