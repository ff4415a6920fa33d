//! Limb-vector primitives: the value a limb sequence denotes, and the basic
//! scans and fills the arithmetic and bitwise engines are built on.
//!
//! A limb sequence is little-endian: entry 0 is the least significant 32-bit
//! word.

use vstd::arithmetic::power2::*;
use vstd::prelude::*;

verus! {

/// The numeric value denoted by a little-endian limb sequence.
pub open spec fn limbs_val(s: Seq<u32>) -> nat
    decreases s.len(),
{
    if s.len() == 0 {
        0
    } else {
        limbs_val(s.drop_last()) + (s.last() as nat) * pow2(32 * ((s.len() - 1) as nat))
    }
}

/// The weight of the limb at position `i`.
pub open spec fn limb_weight(i: nat) -> nat {
    pow2(32 * i)
}

pub proof fn lemma_limb_weight_succ(i: nat)
    ensures
        limb_weight(i + 1) == limb_weight(i) * 0x1_0000_0000,
{
    lemma_pow2_adds(32 * i, 32);
    lemma2_to64();
    assert(32 * (i + 1) == 32 * i + 32) by (nonlinear_arith);
}

pub proof fn lemma_limb_weight_pos(i: nat)
    ensures
        limb_weight(i) >= 1,
{
    lemma_pow2_pos(32 * i);
}

/// A limb sequence denotes a value below the weight of the position one past
/// its end.
pub proof fn lemma_limbs_val_bound(s: Seq<u32>)
    ensures
        limbs_val(s) < limb_weight(s.len()),
    decreases s.len(),
{
    lemma_limb_weight_pos(s.len());
    if s.len() > 0 {
        let n = (s.len() - 1) as nat;
        lemma_limbs_val_bound(s.drop_last());
        lemma_limb_weight_succ(n);
        assert(s.last() * limb_weight(n) <= 0xffff_ffff * limb_weight(n))
            by (nonlinear_arith)
            requires s.last() <= 0xffff_ffffu32, limb_weight(n) >= 0;
        assert(limb_weight(n) + 0xffff_ffff * limb_weight(n) == limb_weight(n) * 0x1_0000_0000)
            by (nonlinear_arith);
    }
}

/// A limb sequence with a nonzero last limb denotes at least that limb's
/// weight.
pub proof fn lemma_limbs_val_lower(s: Seq<u32>)
    requires
        s.len() > 0,
        s.last() != 0,
    ensures
        limbs_val(s) >= limb_weight((s.len() - 1) as nat),
{
    let n = (s.len() - 1) as nat;
    assert(s.last() * limb_weight(n) >= limb_weight(n)) by (nonlinear_arith)
        requires s.last() >= 1, limb_weight(n) >= 0;
}

/// Extending a prefix by one limb adds that limb at its weight.
pub proof fn lemma_limbs_val_take_succ(s: Seq<u32>, i: nat)
    requires
        i < s.len(),
    ensures
        limbs_val(s.take((i + 1) as int)) == limbs_val(s.take(i as int)) + s[i as int] * limb_weight(i),
{
    let t = s.take((i + 1) as int);
    assert(t.drop_last() =~= s.take(i as int));
    assert(t.last() == s[i as int]);
}

/// The value splits at any position into a low part and a weighted high part.
pub proof fn lemma_limbs_val_split(s: Seq<u32>, i: nat)
    requires
        i <= s.len(),
    ensures
        limbs_val(s) == limbs_val(s.take(i as int)) + limb_weight(i) * limbs_val(s.skip(i as int)),
    decreases s.len() - i,
{
    if i == s.len() {
        assert(s.take(i as int) =~= s);
        assert(s.skip(i as int) =~= Seq::<u32>::empty());
        assert(limbs_val(Seq::<u32>::empty()) == 0);
        assert(limb_weight(i) * limbs_val(s.skip(i as int)) == 0) by (nonlinear_arith)
            requires limbs_val(s.skip(i as int)) == 0;
        assert(limbs_val(s) == limbs_val(s.take(i as int)) + limb_weight(i) * limbs_val(s.skip(i as int)));
    } else {
        lemma_limbs_val_split(s, i + 1);
        lemma_limbs_val_take_succ(s, i);
        let hi = s.skip(i as int);
        let hi1 = s.skip((i + 1) as int);
        assert(hi.drop_last() =~= if hi.len() == 1 { Seq::<u32>::empty() } else { hi.drop_last() });
        assert(hi =~= seq![s[i as int]].add(hi1));
        lemma_limbs_val_prepend(s[i as int], hi1);
        lemma_limb_weight_succ(i);
        assert(limb_weight(i + 1) * limbs_val(hi1) == limb_weight(i) * (0x1_0000_0000 * limbs_val(hi1)))
            by (nonlinear_arith)
            requires limb_weight(i + 1) == limb_weight(i) * 0x1_0000_0000;
        assert(limb_weight(i) * (s[i as int] + 0x1_0000_0000 * limbs_val(hi1))
            == s[i as int] * limb_weight(i) + limb_weight(i) * (0x1_0000_0000 * limbs_val(hi1)))
            by (nonlinear_arith);
        assert(limbs_val(hi) == s[i as int] + 0x1_0000_0000 * limbs_val(hi1));
        assert(limb_weight(i) * limbs_val(hi)
            == limb_weight(i) * (s[i as int] + 0x1_0000_0000 * limbs_val(hi1)));
        assert(limbs_val(s) == limbs_val(s.take((i + 1) as int)) + limb_weight(i + 1) * limbs_val(hi1));
        assert(limbs_val(s) == limbs_val(s.take(i as int)) + limb_weight(i) * limbs_val(hi));
    }
}

/// Prepending a limb shifts the rest up by one weight.
pub proof fn lemma_limbs_val_prepend(x: u32, s: Seq<u32>)
    ensures
        limbs_val(seq![x].add(s)) == x + 0x1_0000_0000 * limbs_val(s),
    decreases s.len(),
{
    let t = seq![x].add(s);
    if s.len() == 0 {
        assert(t =~= seq![x]);
        assert(t.drop_last() =~= Seq::<u32>::empty());
        lemma2_to64();
        assert(limbs_val(Seq::<u32>::empty()) == 0);
        assert(limbs_val(s) == 0);
        assert(limbs_val(t) == limbs_val(t.drop_last()) + x * pow2(0));
        assert(limbs_val(t) == x + 0x1_0000_0000 * limbs_val(s));
    } else {
        assert(t.drop_last() =~= seq![x].add(s.drop_last()));
        lemma_limbs_val_prepend(x, s.drop_last());
        let n = (s.len() - 1) as nat;
        lemma_limb_weight_succ(n);
        assert(t.last() == s.last());
        assert(t.len() - 1 == n + 1);
        assert(s.last() * (limb_weight(n) * 0x1_0000_0000)
            == 0x1_0000_0000 * (s.last() * limb_weight(n))) by (nonlinear_arith);
        assert(limbs_val(s) == limbs_val(s.drop_last()) + s.last() * limb_weight(n));
        assert(0x1_0000_0000 * limbs_val(s.drop_last()) + 0x1_0000_0000 * (s.last() * limb_weight(n))
            == 0x1_0000_0000 * (limbs_val(s.drop_last()) + s.last() * limb_weight(n)))
            by (nonlinear_arith);
        assert(limbs_val(t)
            == limbs_val(t.drop_last()) + t.last() * limb_weight((t.len() - 1) as nat));
        assert(limbs_val(t.drop_last()) == x + 0x1_0000_0000 * limbs_val(s.drop_last()));
        assert(t.last() * limb_weight((t.len() - 1) as nat)
            == s.last() * (limb_weight(n) * 0x1_0000_0000));
        assert(limbs_val(t) == x + 0x1_0000_0000 * limbs_val(s));
    }
}

/// A single limb denotes its own value.
pub proof fn lemma_limbs_val_singleton(s: Seq<u32>)
    requires
        s.len() == 1,
    ensures
        limbs_val(s) == s[0],
{
    reveal_with_fuel(limbs_val, 2);
    assert(s.drop_last() =~= Seq::<u32>::empty());
    lemma2_to64();
    assert(limbs_val(Seq::<u32>::empty()) == 0);
    assert((s[0] as nat) * pow2(0) == s[0]) by (nonlinear_arith)
        requires pow2(0) == 1;
    assert(limbs_val(s) == limbs_val(s.drop_last()) + (s[0] as nat) * pow2(0));
}

/// Dropping a zero last limb keeps the value.
pub proof fn lemma_limbs_val_drop_zero(s: Seq<u32>)
    requires
        s.len() > 0,
        s.last() == 0,
    ensures
        limbs_val(s) == limbs_val(s.drop_last()),
{
}

/// An all-zero sequence denotes zero.
pub proof fn lemma_limbs_val_zero(s: Seq<u32>)
    requires
        forall|j: int| 0 <= j < s.len() ==> s[j] == 0,
    ensures
        limbs_val(s) == 0,
    decreases s.len(),
{
    if s.len() > 0 {
        lemma_limbs_val_zero(s.drop_last());
    }
}

/// Two same-length sequences that agree above a position where one is smaller
/// denote ordered values.
pub proof fn lemma_limbs_val_cmp(s: Seq<u32>, t: Seq<u32>, i: nat)
    requires
        s.len() == t.len(),
        i < s.len(),
        s[i as int] < t[i as int],
        forall|j: int| i < j < s.len() ==> s[j] == t[j],
    ensures
        limbs_val(s) < limbs_val(t),
{
    lemma_limbs_val_split(s, i);
    lemma_limbs_val_split(t, i);
    assert(s.skip(i as int).drop_first() =~= t.skip(i as int).drop_first());
    lemma_limbs_val_prepend(s[i as int], s.skip(i as int).drop_first());
    lemma_limbs_val_prepend(t[i as int], t.skip(i as int).drop_first());
    assert(seq![s[i as int]].add(s.skip(i as int).drop_first()) =~= s.skip(i as int));
    assert(seq![t[i as int]].add(t.skip(i as int).drop_first()) =~= t.skip(i as int));
    lemma_limbs_val_bound(s.take(i as int));
    lemma_limbs_val_bound(t.take(i as int));
    let w = limb_weight(i);
    let lo_s = limbs_val(s.take(i as int));
    let lo_t = limbs_val(t.take(i as int));
    let hi_s = limbs_val(s.skip(i as int));
    let hi_t = limbs_val(t.skip(i as int));
    assert(hi_s + 1 <= hi_t);
    assert(lo_s + w * hi_s < w * hi_t + lo_t) by (nonlinear_arith)
        requires lo_s < w, lo_t >= 0, hi_s + 1 <= hi_t, w >= 1;
}

/// The number of zero limbs at the little end of `xs`; `xs.len()` when every
/// limb is zero.
pub fn limbs_trailing_zero_limbs(xs: &[u32]) -> (r: usize)
    ensures
        r <= xs@.len(),
        forall|j: int| 0 <= j < r ==> xs@[j] == 0,
        r < xs@.len() ==> xs@[r as int] != 0,
{
    let mut i: usize = 0;
    while i < xs.len()
        invariant
            i <= xs@.len(),
            forall|j: int| 0 <= j < i ==> xs@[j] == 0,
        decreases xs@.len() - i,
    {
        if xs[i] != 0 {
            return i;
        }
        i += 1;
    }
    i
}

/// Overwrites the limbs of `xs` in positions `from .. to` with zeros.
pub fn limbs_set_zero(xs: &mut Vec<u32>, from: usize, to: usize)
    requires
        from <= to <= old(xs)@.len(),
    ensures
        final(xs)@.len() == old(xs)@.len(),
        forall|j: int| from <= j < to ==> final(xs)@[j] == 0,
        forall|j: int| 0 <= j < old(xs)@.len() && !(from <= j < to) ==> final(xs)@[j] == old(xs)@[j],
{
    let mut i: usize = from;
    while i < to
        invariant
            from <= i <= to <= xs@.len(),
            xs@.len() == old(xs)@.len(),
            forall|j: int| from <= j < i ==> xs@[j] == 0,
            forall|j: int| 0 <= j < old(xs)@.len() && !(from <= j < i) ==> xs@[j] == old(xs)@[j],
        decreases to - i,
    {
        xs.set(i, 0);
        i += 1;
    }
}

} // verus!
