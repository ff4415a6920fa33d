//! Addition, subtraction and single-limb multiplication for `Natural`.
//!
//! The limb loops work word by word with a carry or borrow in a double-width
//! accumulator; the `Natural`-level wrappers re-establish canonical form on
//! every path out.

use crate::limbs::{
    lemma_limb_weight_succ, lemma_limbs_val_bound, lemma_limbs_val_take_succ, limb_weight,
    limbs_val,
};
use crate::natural::Natural;
use vstd::prelude::*;

verus! {

/// The limb of `s` at position `i`, reading zero past the end.
pub open spec fn limb_at(s: Seq<u32>, i: int) -> u32 {
    if 0 <= i < s.len() {
        s[i]
    } else {
        0
    }
}

/// The value of the first `i` limbs of `s`, where `i` may run past the end.
pub open spec fn low_val(s: Seq<u32>, i: int) -> nat {
    if i <= s.len() {
        limbs_val(s.take(i))
    } else {
        limbs_val(s)
    }
}

/// Extending a (possibly padded) prefix by one limb adds it at its weight.
proof fn lemma_low_val_succ(s: Seq<u32>, i: nat)
    ensures
        low_val(s, (i + 1) as int) == low_val(s, i as int) + limb_at(s, i as int) * limb_weight(i),
{
    if i < s.len() {
        lemma_limbs_val_take_succ(s, i);
    } else {
        if i == s.len() {
            assert(s.take(i as int) =~= s);
        }
        assert(limb_at(s, i as int) == 0);
        assert(limb_at(s, i as int) * limb_weight(i) == 0) by (nonlinear_arith)
            requires limb_at(s, i as int) == 0;
    }
}

/// As `lemma_low_val_succ`, for use by sibling modules.
pub proof fn lemma_low_val_succ_pub(s: Seq<u32>, i: nat)
    ensures
        low_val(s, (i + 1) as int) == low_val(s, i as int) + limb_at(s, i as int) * limb_weight(i),
{
    lemma_low_val_succ(s, i);
}

/// A 64-bit accumulator splits into a low limb and a high carry word.
proof fn lemma_u64_split(t: u64)
    ensures
        t == ((t >> 32) as u64) * 0x1_0000_0000 + ((t as u32) as u64),
        (t as u32) as u64 == t % 0x1_0000_0000,
        (t >> 32) as u64 == t / 0x1_0000_0000,
{
    assert(t == ((t >> 32) as u64) * 0x1_0000_0000 + ((t as u32) as u64)
        && (t as u32) as u64 == t % 0x1_0000_0000
        && (t >> 32) as u64 == t / 0x1_0000_0000) by (bit_vector);
}

/// Adds two limb vectors.
pub fn add_limbs(a: &[u32], b: &[u32]) -> (out: Vec<u32>)
    ensures
        limbs_val(out@) == limbs_val(a@) + limbs_val(b@),
{
    let n = if a.len() > b.len() {
        a.len()
    } else {
        b.len()
    };
    let mut out: Vec<u32> = Vec::new();
    let mut carry: u32 = 0;
    let mut i: usize = 0;
    while i < n
        invariant
            i <= n,
            n == if a@.len() > b@.len() { a@.len() } else { b@.len() },
            out@.len() == i,
            carry <= 1,
            limbs_val(out@) + (carry as nat) * limb_weight(i as nat)
                == low_val(a@, i as int) + low_val(b@, i as int),
        decreases n - i,
    {
        let av: u32 = if i < a.len() { a[i] } else { 0 };
        let bv: u32 = if i < b.len() { b[i] } else { 0 };
        let t: u64 = av as u64 + bv as u64 + carry as u64;
        let lo: u32 = #[verifier::truncate] (t as u32);
        let hi: u32 = (t >> 32) as u32;
        proof {
            lemma_u64_split(t);
            assert(hi <= 1);
            lemma_low_val_succ(a@, i as nat);
            lemma_low_val_succ(b@, i as nat);
            lemma_limbs_val_take_succ(out@.push(lo), i as nat);
            assert(out@.push(lo).take(i as int) =~= out@);
            assert(out@.push(lo).take(i + 1) =~= out@.push(lo));
            let w = limb_weight(i as nat);
            lemma_limb_weight_succ(i as nat);
            assert((av + bv + carry - lo) * w == (hi * 0x1_0000_0000) * w) by (nonlinear_arith)
                requires av + bv + carry == hi * 0x1_0000_0000 + lo;
            assert((hi * 0x1_0000_0000) * w == hi * (w * 0x1_0000_0000)) by (nonlinear_arith);
            assert((av + bv + carry) * w == av * w + bv * w + carry * w) by (nonlinear_arith);
            assert((av + bv + carry - lo) * w == (av + bv + carry) * w - lo * w) by (nonlinear_arith);
        }
        out.push(lo);
        carry = hi;
        i += 1;
    }
    if carry != 0 {
        proof {
            lemma_limbs_val_take_succ(out@.push(carry), i as nat);
            assert(out@.push(carry).take(i as int) =~= out@);
            assert(out@.push(carry).take(i + 1) =~= out@.push(carry));
        }
        out.push(carry);
    } else {
        proof {
            assert((carry as nat) * limb_weight(i as nat) == 0) by (nonlinear_arith)
                requires carry == 0;
        }
    }
    proof {
        assert(low_val(a@, i as int) == limbs_val(a@)) by {
            if a@.len() == i {
                assert(a@.take(i as int) =~= a@);
            }
        }
        assert(low_val(b@, i as int) == limbs_val(b@)) by {
            if b@.len() == i {
                assert(b@.take(i as int) =~= b@);
            }
        }
    }
    out
}

/// Subtracts `b` from `a` limb by limb; the flag reports whether a final
/// borrow was left over, that is whether `b` exceeds `a`.
pub fn sub_limbs(a: &[u32], b: &[u32]) -> (r: (Vec<u32>, bool))
    requires
        b@.len() <= a@.len(),
    ensures
        r.0@.len() == a@.len(),
        !r.1 ==> limbs_val(r.0@) == limbs_val(a@) - limbs_val(b@),
        r.1 <==> limbs_val(a@) < limbs_val(b@),
{
    let n = a.len();
    let mut out: Vec<u32> = Vec::new();
    let mut borrow: u32 = 0;
    let mut i: usize = 0;
    while i < n
        invariant
            i <= n,
            n == a@.len(),
            b@.len() <= a@.len(),
            out@.len() == i,
            borrow <= 1,
            limbs_val(out@) + low_val(b@, i as int)
                == low_val(a@, i as int) + (borrow as nat) * limb_weight(i as nat),
        decreases n - i,
    {
        let av: u32 = a[i];
        let bv: u32 = if i < b.len() { b[i] } else { 0 };
        let t: u64 = 0x1_0000_0000u64 + av as u64 - bv as u64 - borrow as u64;
        let lo: u32 = #[verifier::truncate] (t as u32);
        let nb: u32 = if t >= 0x1_0000_0000 {
            0
        } else {
            1
        };
        proof {
            lemma_u64_split(t);
            assert((t >> 32) as u64 == if t >= 0x1_0000_0000 { 1u64 } else { 0u64 }) by (bit_vector)
                requires t < 0x2_0000_0000;
            assert(av + 0x1_0000_0000 - bv - borrow == (1 - nb) * 0x1_0000_0000 + lo);
            lemma_low_val_succ(a@, i as nat);
            lemma_low_val_succ(b@, i as nat);
            lemma_limbs_val_take_succ(out@.push(lo), i as nat);
            assert(out@.push(lo).take(i as int) =~= out@);
            assert(out@.push(lo).take(i + 1) =~= out@.push(lo));
            let w = limb_weight(i as nat);
            lemma_limb_weight_succ(i as nat);
            assert(av + nb * 0x1_0000_0000 - bv - borrow == lo);
            assert((av + nb * 0x1_0000_0000 - bv - borrow) * w == lo * w) by (nonlinear_arith)
                requires av + nb * 0x1_0000_0000 - bv - borrow == lo;
            assert((av + nb * 0x1_0000_0000 - bv - borrow) * w
                == av * w + nb * (w * 0x1_0000_0000) - bv * w - borrow * w) by (nonlinear_arith);
        }
        out.push(lo);
        borrow = nb;
        i += 1;
    }
    proof {
        assert(low_val(a@, i as int) == limbs_val(a@)) by {
            assert(a@.take(i as int) =~= a@);
        }
        assert(low_val(b@, i as int) == limbs_val(b@)) by {
            if b@.len() < i {
            } else {
                assert(b@.take(i as int) =~= b@);
            }
        }
        if borrow == 0 {
            assert((borrow as nat) * limb_weight(i as nat) == 0) by (nonlinear_arith)
                requires borrow == 0;
        } else {
            lemma_limbs_val_bound(a@);
            lemma_limbs_val_bound(out@);
            assert((borrow as nat) * limb_weight(i as nat) == limb_weight(i as nat))
                by (nonlinear_arith)
                requires borrow == 1;
        }
    }
    (out, borrow != 0)
}

/// Multiplies a limb vector by one limb.
pub fn mul_limbs_by_limb(a: &[u32], y: u32) -> (out: Vec<u32>)
    ensures
        limbs_val(out@) == limbs_val(a@) * y,
{
    let n = a.len();
    let mut out: Vec<u32> = Vec::new();
    let mut carry: u32 = 0;
    let mut i: usize = 0;
    proof {
        assert(a@.take(0) =~= Seq::<u32>::empty());
        assert(limbs_val(Seq::<u32>::empty()) == 0);
        assert((0 as nat) * limb_weight(0) == 0 && (0 as nat) * (y as nat) == 0)
            by (nonlinear_arith);
    }
    while i < n
        invariant
            i <= n,
            n == a@.len(),
            out@.len() == i,
            limbs_val(out@) + (carry as nat) * limb_weight(i as nat)
                == low_val(a@, i as int) * y,
        decreases n - i,
    {
        proof {
            assert((a@[i as int] as nat) * (y as nat) + 0xffff_ffff <= 0xffff_ffff_ffff_ffff)
                by (nonlinear_arith)
                requires a@[i as int] <= 0xffff_ffffu32, y <= 0xffff_ffffu32;
        }
        let t: u64 = a[i] as u64 * y as u64 + carry as u64;
        let lo: u32 = #[verifier::truncate] (t as u32);
        let hi: u32 = (t >> 32) as u32;
        proof {
            lemma_u64_split(t);
            lemma_low_val_succ(a@, i as nat);
            lemma_limbs_val_take_succ(out@.push(lo), i as nat);
            assert(out@.push(lo).take(i as int) =~= out@);
            assert(out@.push(lo).take(i + 1) =~= out@.push(lo));
            let w = limb_weight(i as nat);
            lemma_limb_weight_succ(i as nat);
            assert((low_val(a@, i as int) + a@[i as int] * w) * y
                == low_val(a@, i as int) * y + (a@[i as int] * y) * w) by (nonlinear_arith);
            assert(a@[i as int] * y + carry == hi * 0x1_0000_0000 + lo);
            assert((a@[i as int] * y) * w == (hi * 0x1_0000_0000 + lo - carry) * w)
                by (nonlinear_arith)
                requires a@[i as int] * y == hi * 0x1_0000_0000 + lo - carry;
            assert((hi * 0x1_0000_0000 + lo - carry) * w
                == hi * (w * 0x1_0000_0000) + lo * w - carry * w) by (nonlinear_arith);
        }
        out.push(lo);
        carry = hi;
        i += 1;
    }
    if carry != 0 {
        proof {
            lemma_limbs_val_take_succ(out@.push(carry), i as nat);
            assert(out@.push(carry).take(i as int) =~= out@);
            assert(out@.push(carry).take(i + 1) =~= out@.push(carry));
        }
        out.push(carry);
    } else {
        proof {
            assert((carry as nat) * limb_weight(i as nat) == 0) by (nonlinear_arith)
                requires carry == 0;
        }
    }
    proof {
        assert(a@.take(i as int) =~= a@);
    }
    out
}

impl Natural {
    /// The sum of two values.
    pub fn plus(&self, other: &Natural) -> (r: Natural)
        requires
            self.wf(),
            other.wf(),
        ensures
            r.wf(),
            r@ == self@ + other@,
    {
        match (self, other) {
            (Natural::Small(x), Natural::Small(y)) => Natural::from_u64(*x as u64 + *y as u64),
            _ => {
                let a = self.to_limbs_asc();
                let b = other.to_limbs_asc();
                proof {
                    self.lemma_limbs_denote_value();
                    other.lemma_limbs_denote_value();
                }
                Natural::from_limbs_asc(add_limbs(a.as_slice(), b.as_slice()))
            }
        }
    }

    /// The difference `self - other`, or `None` when `other` exceeds `self`.
    pub fn checked_sub(&self, other: &Natural) -> (r: Option<Natural>)
        requires
            self.wf(),
            other.wf(),
        ensures
            match r {
                Some(d) => d.wf() && self@ >= other@ && d@ == self@ - other@,
                None => self@ < other@,
            },
    {
        match (self, other) {
            (Natural::Small(x), Natural::Small(y)) => {
                if *x >= *y {
                    Some(Natural::Small(*x - *y))
                } else {
                    None
                }
            }
            _ => {
                let a = self.to_limbs_asc();
                let b = other.to_limbs_asc();
                proof {
                    self.lemma_limbs_denote_value();
                    other.lemma_limbs_denote_value();
                }
                if b.len() > a.len() {
                    proof {
                        assert(b@.len() >= 2);
                        assert(other is Large);
                        assert(b@.last() != 0);
                        lemma_limbs_val_bound(a@);
                        crate::natural::lemma_weight_monotonic(a@.len(), (b@.len() - 1) as nat);
                        lemma_low_trim(b@);
                    }
                    return None;
                }
                let (out, borrow) = sub_limbs(a.as_slice(), b.as_slice());
                if borrow {
                    None
                } else {
                    Some(Natural::from_limbs_asc(out))
                }
            }
        }
    }

    /// The product of the value and one machine word.
    pub fn times_limb(&self, y: u32) -> (r: Natural)
        requires
            self.wf(),
        ensures
            r.wf(),
            r@ == self@ * y,
    {
        match self {
            Natural::Small(x) => {
                proof {
                    assert((*x as nat) * (y as nat) <= 0xffff_ffff_ffff_ffff) by (nonlinear_arith)
                        requires *x <= 0xffff_ffffu32, y <= 0xffff_ffffu32;
                }
                Natural::from_u64(*x as u64 * y as u64)
            }
            Natural::Large(_) => {
                let a = self.to_limbs_asc();
                proof {
                    self.lemma_limbs_denote_value();
                }
                Natural::from_limbs_asc(mul_limbs_by_limb(a.as_slice(), y))
            }
        }
    }

    /// The limb sequence of a value denotes the value itself.
    pub proof fn lemma_limbs_denote_value(&self)
        ensures
            limbs_val(self.limbs()) == self@,
    {
        match self {
            Natural::Small(x) => {
                crate::limbs::lemma_limbs_val_singleton(seq![*x]);
            }
            Natural::Large(_) => {
            }
        }
    }
}

/// A trimmed vector longer than another denotes at least the other's bound.
proof fn lemma_low_trim(b: Seq<u32>)
    requires
        b.len() > 0,
        b.last() != 0,
    ensures
        limbs_val(b) >= limb_weight((b.len() - 1) as nat),
{
    crate::limbs::lemma_limbs_val_lower(b);
}

} // verus!
