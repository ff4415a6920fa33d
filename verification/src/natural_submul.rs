//! Subtraction of a product in one pass: `self - b * c` without
//! materializing the product.
//!
//! The limb loop multiplies one limb at a time in double width and
//! propagates the combined multiply-and-subtract borrow; an overall borrow
//! left at the end means the subtrahend exceeded the minuend.

use crate::limbs::{
    lemma_limb_weight_pos, lemma_limb_weight_succ, lemma_limbs_val_bound, lemma_limbs_val_take_succ,
    limb_weight, limbs_val,
};
use crate::natural::Natural;
use crate::natural_arith::low_val;
use vstd::prelude::*;

verus! {

/// Subtracts one word from the limb sequence starting at `start`,
/// propagating the borrow upward; reports whether a borrow ran off the end.
pub fn mpn_sub_1_in_place(xs: &mut Vec<u32>, start: usize, y: u32) -> (r: bool)
    requires
        start < old(xs)@.len(),
    ensures
        final(xs)@.len() == old(xs)@.len(),
        forall|j: int| 0 <= j < start ==> final(xs)@[j] == old(xs)@[j],
        r <==> limbs_val(old(xs)@.skip(start as int)) < y,
        limbs_val(final(xs)@.skip(start as int)) as int
            == limbs_val(old(xs)@.skip(start as int)) - y
                + (if r { limb_weight((old(xs)@.len() - start) as nat) as int } else { 0 }),
{
    let ghost xs0 = xs@;
    let n = xs.len();
    let mut borrow: u32 = y;
    let mut i: usize = start;
    proof {
        assert(xs0.skip(start as int).take(0) =~= Seq::<u32>::empty());
        vstd::arithmetic::power2::lemma2_to64();
        assert(limb_weight(0) == 1);
        assert((borrow as nat) * limb_weight(0) == borrow) by (nonlinear_arith)
            requires limb_weight(0) == 1;
    }
    while i < n
        invariant
            start <= i <= n,
            n == xs@.len() && n == xs0.len(),
            forall|j: int| 0 <= j < start ==> xs@[j] == xs0[j],
            forall|j: int| i <= j < n ==> xs@[j] == xs0[j],
            i > start ==> borrow <= 1,
            limbs_val(xs@.skip(start as int).take(i - start)) as int
                == limbs_val(xs0.skip(start as int).take(i - start)) - y
                    + (borrow as nat) * limb_weight((i - start) as nat),
        decreases n - i,
    {
        let ghost j = i - start;
        let xv = xs[i];
        let nv: u32;
        let nb: u32;
        if xv >= borrow {
            nv = xv - borrow;
            nb = 0;
        } else {
            nv = ((0x1_0000_0000u64 + xv as u64 - borrow as u64) as u32);
            nb = 1;
        }
        proof {
            let olds = xs0.skip(start as int);
            let news = xs@.skip(start as int);
            let news2 = xs@.update(i as int, nv).skip(start as int);
            assert(news2.take(j + 1) =~= news.take(j).push(nv));
            assert(olds.take(j + 1) =~= olds.take(j).push(olds[j]));
            assert(olds[j] == xv);
            lemma_limbs_val_take_succ(news.take(j).push(nv), j as nat);
            assert(news.take(j).push(nv).take(j) =~= news.take(j));
            assert(news.take(j).push(nv).take(j + 1) =~= news.take(j).push(nv));
            lemma_limbs_val_take_succ(olds.take(j).push(olds[j]), j as nat);
            assert(olds.take(j).push(olds[j]).take(j) =~= olds.take(j));
            assert(olds.take(j).push(olds[j]).take(j + 1) =~= olds.take(j).push(olds[j]));
            let w = limb_weight(j as nat);
            lemma_limb_weight_succ(j as nat);
            assert(nv == xv + nb * 0x1_0000_0000 - borrow);
            assert((nv as int) * w == (xv + nb * 0x1_0000_0000 - borrow) * w) by (nonlinear_arith)
                requires nv == xv + nb * 0x1_0000_0000 - borrow;
            assert((xv + nb * 0x1_0000_0000 - borrow) * w
                == xv * w + nb * (w * 0x1_0000_0000) - borrow * w) by (nonlinear_arith);
        }
        xs.set(i, nv);
        borrow = nb;
        i += 1;
    }
    proof {
        assert(xs@.skip(start as int).take(n - start) =~= xs@.skip(start as int));
        assert(xs0.skip(start as int).take(n - start) =~= xs0.skip(start as int));
        if borrow == 0 {
            assert((borrow as nat) * limb_weight((n - start) as nat) == 0) by (nonlinear_arith)
                requires borrow == 0;
        } else {
            assert((borrow as nat) * limb_weight((n - start) as nat)
                == limb_weight((n - start) as nat)) by (nonlinear_arith)
                requires borrow == 1;
            lemma_limbs_val_bound(xs@.skip(start as int));
        }
    }
    borrow != 0
}

/// Multiplies `s1` by one word and subtracts the product from the low limbs
/// of `r` in one pass; the return value is the borrow out of the top of the
/// covered range.
pub fn mpn_submul_1(r: &mut Vec<u32>, s1: &[u32], s2limb: u32) -> (ret: u32)
    requires
        s1@.len() <= old(r)@.len(),
    ensures
        final(r)@.len() == old(r)@.len(),
        forall|j: int| s1@.len() <= j < old(r)@.len() ==> final(r)@[j] == old(r)@[j],
        limbs_val(final(r)@.take(s1@.len() as int)) as int
            == limbs_val(old(r)@.take(s1@.len() as int))
                - limbs_val(s1@) * s2limb + (ret as nat) * limb_weight(s1@.len()),
{
    let ghost r0 = r@;
    let n = s1.len();
    let mut borrow: u64 = 0;
    let mut i: usize = 0;
    proof {
        assert(r0.take(0) =~= Seq::<u32>::empty());
        assert(s1@.take(0) =~= Seq::<u32>::empty());
        assert((0 as nat) * limb_weight(0) == 0 && limbs_val(Seq::<u32>::empty()) * s2limb == 0)
            by (nonlinear_arith)
            requires limbs_val(Seq::<u32>::empty()) == 0;
    }
    while i < n
        invariant
            i <= n,
            n == s1@.len(),
            r@.len() == r0.len(),
            n <= r0.len(),
            borrow < 0x1_0000_0000,
            forall|j: int| i <= j < r0.len() ==> r@[j] == r0[j],
            limbs_val(r@.take(i as int)) as int
                == limbs_val(r0.take(i as int)) - low_val(s1@, i as int) * s2limb
                    + (borrow as nat) * limb_weight(i as nat),
        decreases n - i,
    {
        proof {
            assert((s1@[i as int] as nat) * (s2limb as nat) + 0xffff_ffff
                <= 0xffff_ffff_ffff_ffff) by (nonlinear_arith)
                requires s1@[i as int] <= 0xffff_ffffu32, s2limb <= 0xffff_ffffu32;
        }
        let t: u64 = s1[i] as u64 * s2limb as u64 + borrow;
        let tl: u32 = #[verifier::truncate] (t as u32);
        let th: u64 = t >> 32;
        proof {
            assert(t <= 0xffff_ffff_0000_0000u64) by (nonlinear_arith)
                requires
                    t == s1@[i as int] as u64 * s2limb as u64 + borrow,
                    s1@[i as int] <= 0xffff_ffffu32,
                    s2limb <= 0xffff_ffffu32,
                    borrow < 0x1_0000_0000,
            ;
            assert(t == th * 0x1_0000_0000 + tl && th <= 0xffff_ffff) by (bit_vector)
                requires th == t >> 32, tl == t as u32, t <= 0xffff_ffff_0000_0000,
            ;
            assert(tl == 0 || th <= 0xffff_fffe) by (bit_vector)
                requires th == t >> 32, tl == t as u32, t <= 0xffff_ffff_0000_0000,
            ;
        }
        let rv = r[i];
        let nv: u32;
        let nb: u64;
        if rv >= tl {
            nv = rv - tl;
            nb = th;
        } else {
            nv = ((0x1_0000_0000u64 + rv as u64 - tl as u64) as u32);
            nb = th + 1;
        }
        proof {
            let news2 = r@.update(i as int, nv).take(i + 1);
            assert(news2 =~= r@.take(i as int).push(nv));
            lemma_limbs_val_take_succ(r@.take(i as int).push(nv), i as nat);
            assert(r@.take(i as int).push(nv).take(i as int) =~= r@.take(i as int));
            assert(r@.take(i as int).push(nv).take(i + 1) =~= r@.take(i as int).push(nv));
            lemma_limbs_val_take_succ(r0, i as nat);
            crate::natural_arith::lemma_low_val_succ_pub(s1@, i as nat);
            let w = limb_weight(i as nat);
            lemma_limb_weight_succ(i as nat);
            assert(r0[i as int] == rv);
            // per-limb identity: rv - (s1[i] * s2 + borrow) == nv - nb * base
            assert(rv - (s1@[i as int] * s2limb + borrow) == nv - nb * 0x1_0000_0000)
                by (nonlinear_arith)
                requires
                    s1@[i as int] as u64 * s2limb as u64 + borrow == t,
                    t == th * 0x1_0000_0000 + tl,
                    rv >= tl ==> nv == rv - tl && nb == th,
                    rv < tl ==> nv == 0x1_0000_0000 + rv - tl && nb == th + 1,
            ;
            // scale by the current weight and fold into the running sums
            assert((rv - s1@[i as int] * s2limb - borrow) * w == (nv - nb * 0x1_0000_0000) * w)
                by (nonlinear_arith)
                requires rv - (s1@[i as int] * s2limb + borrow) == nv - nb * 0x1_0000_0000;
            assert((rv - s1@[i as int] * s2limb - borrow) * w
                == rv * w - (s1@[i as int] * s2limb) * w - borrow * w) by (nonlinear_arith);
            assert((nv - nb * 0x1_0000_0000) * w == nv * w - nb * (w * 0x1_0000_0000))
                by (nonlinear_arith);
            assert((low_val(s1@, i as int) + s1@[i as int] * w) * s2limb
                == low_val(s1@, i as int) * s2limb + (s1@[i as int] * s2limb) * w)
                by (nonlinear_arith);
        }
        r.set(i, nv);
        borrow = nb;
        i += 1;
    }
    proof {
        assert(low_val(s1@, n as int) == limbs_val(s1@)) by {
            assert(s1@.take(n as int) =~= s1@);
        }
    }
    borrow as u32
}

impl Natural {
    /// `self - b * c`, or `None` when the product exceeds `self`.
    pub fn sub_mul(&self, b: &Natural, c: u32) -> (r: Option<Natural>)
        requires
            self.wf(),
            b.wf(),
        ensures
            match r {
                Some(d) => d.wf() && self@ >= b@ * c && d@ == self@ - b@ * c,
                None => self@ < b@ * c,
            },
    {
        let mut a = self.clone();
        if sub_mul_assign_u32_helper(&mut a, b, c) {
            None
        } else {
            Some(a)
        }
    }

    /// `self - b * c` in place; the caller promises the product does not
    /// exceed `self`.
    pub fn sub_mul_assign(&mut self, b: &Natural, c: u32)
        requires
            old(self).wf(),
            b.wf(),
            old(self)@ >= b@ * c,
        ensures
            final(self).wf(),
            final(self)@ == old(self)@ - b@ * c,
    {
        let underflow = sub_mul_assign_u32_helper(self, b, c);
        proof {
            assert(!underflow);
        }
    }
}

/// Subtracts `b * c` from `a` in place, through the fused multiply-subtract
/// limb pass; reports underflow, leaving `a` untouched in that case.
pub fn sub_mul_assign_u32_helper(a: &mut Natural, b: &Natural, c: u32) -> (underflow: bool)
    requires
        old(a).wf(),
        b.wf(),
    ensures
        final(a).wf(),
        underflow <==> old(a)@ < b@ * c,
        !underflow ==> final(a)@ == old(a)@ - b@ * c,
        underflow ==> final(a)@ == old(a)@,
{
    if c == 0 {
        proof {
            assert(b@ * 0 == 0) by (nonlinear_arith);
        }
        return false;
    }
    let mut a_limbs = a.to_limbs_asc();
    let b_limbs = b.to_limbs_asc();
    proof {
        a.lemma_limbs_denote_value();
        b.lemma_limbs_denote_value();
    }
    let n = a_limbs.len();
    let bn = b_limbs.len();
    if n < bn {
        proof {
            assert(bn >= 2);
            assert(b is Large);
            crate::limbs::lemma_limbs_val_lower(b_limbs@);
            lemma_limbs_val_bound(a_limbs@);
            crate::natural::lemma_weight_monotonic(a_limbs@.len(), (b_limbs@.len() - 1) as nat);
            assert(b@ * c >= b@ * 1) by (nonlinear_arith)
                requires c >= 1, b@ >= 0;
            assert(b@ * 1 == b@) by (nonlinear_arith);
        }
        return true;
    }
    let borrow = mpn_submul_1(&mut a_limbs, b_limbs.as_slice(), c);
    let nonzero_borrow: bool;
    let ghost mid = a_limbs@;
    if n == bn {
        nonzero_borrow = borrow != 0;
        proof {
            assert(mid.take(bn as int) =~= mid);
            assert(old(a).limbs().take(bn as int) =~= old(a).limbs());
        }
    } else {
        nonzero_borrow = mpn_sub_1_in_place(&mut a_limbs, bn, borrow);
    }
    proof {
        let av = old(a)@;
        let bv = b@;
        let fin = a_limbs@;
        lemma_total_value(old(a).limbs(), mid, fin, bv, c, bn as nat, n as nat, borrow,
            nonzero_borrow);
    }
    if nonzero_borrow {
        true
    } else {
        *a = Natural::from_limbs_asc(a_limbs);
        false
    }
}

/// Combines the low multiply-subtract pass and the high borrow propagation
/// into one statement about the whole limb vector.
proof fn lemma_total_value(
    orig: Seq<u32>,
    mid: Seq<u32>,
    fin: Seq<u32>,
    bv: nat,
    c: u32,
    bn: nat,
    n: nat,
    borrow: u32,
    nonzero_borrow: bool,
)
    requires
        orig.len() == n,
        mid.len() == n,
        fin.len() == n,
        bn <= n,
        // the multiply-subtract pass over the low limbs
        limbs_val(mid.take(bn as int)) as int
            == limbs_val(orig.take(bn as int)) - bv * c + (borrow as nat) * limb_weight(bn),
        forall|j: int| bn <= j < n ==> mid[j] == orig[j],
        // the borrow propagation over the high limbs
        bn == n ==> fin == mid && (nonzero_borrow <==> borrow != 0),
        bn < n ==> {
            &&& (forall|j: int| 0 <= j < bn ==> fin[j] == mid[j])
            &&& (nonzero_borrow <==> limbs_val(mid.skip(bn as int)) < borrow)
            &&& limbs_val(fin.skip(bn as int)) as int
                == limbs_val(mid.skip(bn as int)) - borrow
                    + (if nonzero_borrow { limb_weight((n - bn) as nat) as int } else { 0 })
        },
    ensures
        !nonzero_borrow ==> limbs_val(orig) >= bv * c
            && limbs_val(fin) == limbs_val(orig) - bv * c,
        nonzero_borrow ==> limbs_val(orig) < bv * c,
{
    crate::limbs::lemma_limbs_val_split(orig, bn);
    crate::limbs::lemma_limbs_val_split(mid, bn);
    crate::limbs::lemma_limbs_val_split(fin, bn);
    assert(orig.skip(bn as int) =~= mid.skip(bn as int));
    let w = limb_weight(bn);
    let wh = limb_weight((n - bn) as nat);
    lemma_limb_weight_pos(bn);
    lemma_limb_weight_pos((n - bn) as nat);
    vstd::arithmetic::power2::lemma_pow2_adds(32 * bn, 32 * ((n - bn) as nat));
    assert(32 * n == 32 * bn + 32 * ((n - bn) as nat));
    assert(limb_weight(n) == w * wh);
    lemma_limbs_val_bound(fin);
    lemma_limbs_val_bound(mid.take(bn as int));
    if bn == n {
        assert(fin.take(bn as int) =~= fin);
        assert(orig.take(bn as int) =~= orig);
        assert(mid.take(bn as int) =~= mid);
        if borrow == 0 {
            assert((borrow as nat) * w == 0) by (nonlinear_arith)
                requires borrow == 0;
        } else {
            assert((borrow as nat) * w >= w) by (nonlinear_arith)
                requires borrow >= 1, w > 0;
        }
    } else {
        assert(fin.take(bn as int) =~= mid.take(bn as int));
        let lo_o = limbs_val(orig.take(bn as int));
        let hi_o = limbs_val(orig.skip(bn as int));
        let lo_f = limbs_val(fin.take(bn as int));
        let hi_f = limbs_val(fin.skip(bn as int));
        if nonzero_borrow {
            assert(hi_f as int == hi_o - borrow + wh);
            assert(w * hi_f == w * hi_o - w * (borrow as nat) + w * wh) by (nonlinear_arith)
                requires hi_f as int == hi_o - borrow + wh;
            assert(lo_f as int == lo_o - bv * c + (borrow as nat) * w);
            assert(w * (borrow as nat) == (borrow as nat) * w) by (nonlinear_arith);
            assert(limbs_val(fin) == limbs_val(orig) - bv * c + w * wh);
            assert(limbs_val(fin) < limb_weight(n));
        } else {
            assert(hi_f as int == hi_o - borrow);
            assert(w * hi_f == w * hi_o - w * (borrow as nat)) by (nonlinear_arith)
                requires hi_f as int == hi_o - borrow;
            assert(w * (borrow as nat) == (borrow as nat) * w) by (nonlinear_arith);
            assert(limbs_val(fin) == limbs_val(orig) - bv * c);
        }
    }
}

} // verus!
