//! Bit length of a `Natural`.

use crate::limbs::{
    lemma_limb_weight_pos, lemma_limbs_val_bound, lemma_limbs_val_lower, limb_weight, limbs_val,
};
use crate::natural::Natural;
use vstd::arithmetic::div_mod::*;
use vstd::arithmetic::power2::*;
use vstd::prelude::*;

verus! {

/// The number of significant bits of one limb: zero for zero, else the
/// position of the highest set bit plus one.
pub fn limb_bits(x: u32) -> (r: u32)
    ensures
        r <= 32,
        x == 0 ==> r == 0,
        x > 0 ==> pow2((r - 1) as nat) <= x < pow2(r as nat),
{
    let mut v: u32 = x;
    let mut c: u32 = 0;
    proof {
        lemma2_to64();
    }
    while v > 0
        invariant
            c <= 32,
            v == x as nat / pow2(c as nat),
            c > 0 ==> x >= pow2((c - 1) as nat),
        decreases v,
    {
        proof {
            lemma_pow2_pos(c as nat);
            lemma_fundamental_div_mod(x as int, pow2(c as nat) as int);
            assert(x >= pow2(c as nat) * (x as nat / pow2(c as nat)));
            assert(pow2(c as nat) * (x as nat / pow2(c as nat)) >= pow2(c as nat))
                by (nonlinear_arith)
                requires x as nat / pow2(c as nat) >= 1, pow2(c as nat) > 0;
            if c >= 32 {
                lemma2_to64();
                if c > 32 {
                    lemma_pow2_strictly_increases(32, c as nat);
                }
                assert(false);
            }
            let vv = v;
            assert(vv >> 1u32 == vv / 2) by (bit_vector);
            lemma2_to64();
            lemma_pow2_adds(c as nat, 1);
            assert(pow2(c as nat + 1) == pow2(c as nat) * 2);
            lemma_div_denominator(x as int, pow2(c as nat) as int, 2);
            assert((x as nat / pow2(c as nat)) / 2 == x as nat / (pow2(c as nat) * 2));
        }
        v = v >> 1;
        c = c + 1;
    }
    proof {
        lemma_pow2_pos(c as nat);
        lemma_fundamental_div_mod(x as int, pow2(c as nat) as int);
        assert(x as nat == pow2(c as nat) * (x as nat / pow2(c as nat)) + x as nat % pow2(c as nat));
        assert(pow2(c as nat) * 0 == 0) by (nonlinear_arith);
        lemma_mod_bound(x as int, pow2(c as nat) as int);
    }
    c
}

impl Natural {
    /// The number of significant bits: zero for zero, and otherwise the `r`
    /// with `2^(r-1) <= self < 2^r`.
    pub fn significant_bits(&self) -> (r: u64)
        requires
            self.wf(),
            self.limbs().len() < 0x0400_0000_0000_0000,
        ensures
            self@ == 0 ==> r == 0,
            self@ > 0 ==> pow2((r - 1) as nat) <= self@ < pow2(r as nat),
    {
        match self {
            Natural::Small(x) => limb_bits(*x) as u64,
            Natural::Large(v) => {
                let n = v.len() - 1;
                let bl = limb_bits(v[n]);
                proof {
                    let last = v@.last();
                    let w = limb_weight(n as nat);
                    lemma_limbs_val_lower(v@);
                    lemma_limbs_val_bound(v@.drop_last());
                    lemma_limb_weight_pos(n as nat);
                    lemma_pow2_adds((bl - 1) as nat, 32 * (n as nat));
                    lemma_pow2_adds(bl as nat, 32 * (n as nat));
                    assert(self@ == limbs_val(v@.drop_last()) + last * w);
                    assert(last * w >= pow2((bl - 1) as nat) * w) by (nonlinear_arith)
                        requires last >= pow2((bl - 1) as nat), w > 0;
                    assert(last * w <= (pow2(bl as nat) - 1) * w) by (nonlinear_arith)
                        requires last <= pow2(bl as nat) - 1, w > 0;
                    assert((pow2(bl as nat) - 1) * w + w == pow2(bl as nat) * w) by (nonlinear_arith);
                    assert(pow2((bl - 1) as nat) * w == pow2((bl - 1) as nat + 32 * (n as nat)));
                    assert(pow2(bl as nat) * w == pow2(bl as nat + 32 * (n as nat)));
                    assert((bl as u64 + 32 * (n as u64) - 1) as nat == (bl - 1) as nat + 32 * (n as nat));
                }
                bl as u64 + 32 * (n as u64)
            }
        }
    }
}

} // verus!
