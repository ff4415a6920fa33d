//! Division with remainder, bit access and greatest common divisors for
//! `Natural`.
//!
//! Division runs a bit-by-bit long division from the most significant bit;
//! the quotient and remainder satisfy the fundamental division identity
//! exactly.

use crate::limbs::{
    lemma_limbs_val_bound, lemma_limbs_val_prepend, lemma_limbs_val_split, limb_weight, limbs_val,
};
use crate::natural::Natural;
use vstd::arithmetic::div_mod::*;
use vstd::arithmetic::power2::*;
use vstd::prelude::*;

verus! {

/// Euclid's greatest common divisor.
pub open spec fn gcd_nat(a: nat, b: nat) -> nat
    decreases b,
{
    if b == 0 {
        a
    } else {
        gcd_nat(b, a % b)
    }
}

/// Dividing by two more halves the quotient: `x / 2^e == 2 * (x / 2^(e+1)) +
/// bit e of x`.
proof fn lemma_div_pow2_step(x: nat, e: nat)
    ensures
        x / pow2(e) == 2 * (x / pow2(e + 1)) + (x / pow2(e)) % 2,
{
    lemma_pow2_pos(e);
    lemma_pow2_adds(e, 1);
    lemma2_to64();
    let h = x / pow2(e);
    lemma_div_denominator(x as int, pow2(e) as int, 2);
    assert(pow2(e) * 2 == pow2(e + 1));
    assert(h / 2 == x as int / (pow2(e) as int * 2));
    lemma_fundamental_div_mod(h as int, 2);
}

/// Bit `32 * li + b` of a limb sequence's value is bit `b` of limb `li`.
proof fn lemma_val_bit(s: Seq<u32>, li: nat, b: nat)
    requires
        li < s.len(),
        b < 32,
    ensures
        (limbs_val(s) / pow2(32 * li + b)) % 2 == ((s[li as int] >> (b as u32)) & 1),
{
    let w = limb_weight(li);
    let lo = limbs_val(s.take(li as int));
    let hi = limbs_val(s.skip(li as int));
    lemma_limbs_val_split(s, li);
    lemma_limbs_val_bound(s.take(li as int));
    lemma_pow2_pos(32 * li);
    // value / 2^(32 li) == hi
    lemma_div_multiples_vanish_fancy(hi as int, lo as int, w as int);
    assert(w * hi + lo == limbs_val(s));
    assert(limbs_val(s) as int / (w as int) == hi);
    // value / 2^(32 li + b) == hi / 2^b
    lemma_pow2_adds(32 * li, b);
    lemma_pow2_pos(b);
    lemma_div_denominator(limbs_val(s) as int, w as int, pow2(b) as int);
    assert(limbs_val(s) / pow2(32 * li + b) == hi / pow2(b)) by {
        assert(pow2(32 * li + b) == w * pow2(b));
        assert(limbs_val(s) as int / (w as int * pow2(b) as int)
            == (limbs_val(s) as int / w as int) / pow2(b) as int);
    }
    // hi == s[li] + 2^32 * rest
    let rest = limbs_val(s.skip(li as int).drop_first());
    assert(s.skip(li as int) =~= seq![s[li as int]].add(s.skip(li as int).drop_first()));
    lemma_limbs_val_prepend(s[li as int], s.skip(li as int).drop_first());
    assert(hi == s[li as int] + 0x1_0000_0000 * rest);
    // hi / 2^b == s[li] / 2^b + 2^(32 - b) * rest
    let x = s[li as int];
    let q1 = (x as nat) / pow2(b);
    let r1 = (x as nat) % pow2(b);
    lemma_fundamental_div_mod(x as int, pow2(b) as int);
    lemma_pow2_adds(b, (32 - b) as nat);
    assert(pow2(b) * pow2((32 - b) as nat) == pow2(32));
    lemma2_to64();
    assert(hi == pow2(b) * (q1 + pow2((32 - b) as nat) * rest) + r1) by (nonlinear_arith)
        requires
            hi == x + 0x1_0000_0000 * rest,
            x == pow2(b) * q1 + r1,
            pow2(b) * pow2((32 - b) as nat) == 0x1_0000_0000,
    ;
    lemma_div_multiples_vanish_fancy(
        (q1 + pow2((32 - b) as nat) * rest) as int,
        r1 as int,
        pow2(b) as int,
    );
    assert(hi / pow2(b) == q1 + pow2((32 - b) as nat) * rest);
    // modulo 2 only the limb's own bits survive
    lemma_pow2_adds(1, (31 - b) as nat);
    assert(pow2((32 - b) as nat) * rest == 2 * (pow2((31 - b) as nat) * rest)) by (nonlinear_arith)
        requires pow2((32 - b) as nat) == 2 * pow2((31 - b) as nat);
    lemma_mod_multiples_vanish((pow2((31 - b) as nat) * rest) as int, q1 as int, 2);
    assert((hi / pow2(b)) % 2 == q1 % 2);
    // and they equal the shifted-and-masked limb
    vstd::bits::lemma_u32_shr_is_div(x, b as u32);
    let bu = b as u32;
    assert((x >> bu) & 1 == (x >> bu) % 2) by (bit_vector);
}

impl Natural {
    /// Bit `i` of the value, counting from the least significant bit.
    pub fn get_bit(&self, i: u64) -> (r: bool)
        requires
            self.wf(),
        ensures
            r == ((self@ / pow2(i as nat)) % 2 == 1),
    {
        let limbs = self.to_limbs_asc();
        proof {
            self.lemma_limbs_denote_value();
        }
        let li = i / 32;
        let b = (i % 32) as u32;
        if li >= limbs.len() as u64 {
            proof {
                lemma_limbs_val_bound(limbs@);
                assert(32 * limbs@.len() <= 32 * (li as nat) + b) by (nonlinear_arith)
                    requires limbs@.len() <= li as nat;
                if 32 * limbs@.len() < 32 * (li as nat) + b {
                    lemma_pow2_strictly_increases(32 * limbs@.len(), (32 * (li as nat) + b) as nat);
                }
                assert(self@ < pow2((32 * (li as nat) + b) as nat));
                lemma_pow2_pos((32 * (li as nat) + b) as nat);
                lemma_basic_div(self@ as int, pow2((32 * (li as nat) + b) as nat) as int);
                assert(32 * (li as nat) + b == i as nat);
            }
            return false;
        }
        let limb = limbs[li as usize];
        let r = (limb >> b) & 1;
        proof {
            lemma_val_bit(limbs@, li as nat, b as nat);
            assert(32 * (li as nat) + b == i as nat);
            assert(r == 0 || r == 1) by (bit_vector)
                requires r == (limb >> b) & 1;
        }
        r == 1
    }

    /// Division with remainder: returns `(q, r)` with `self == q * d + r` and
    /// `r < d`; equivalently `q == self / d` and `r == self % d`.
    pub fn div_mod(&self, d: &Natural) -> (qr: (Natural, Natural))
        requires
            self.wf(),
            d.wf(),
            d@ > 0,
        ensures
            qr.0.wf(),
            qr.1.wf(),
            self@ == qr.0@ * d@ + qr.1@,
            qr.1@ < d@,
            qr.0@ == self@ / d@,
            qr.1@ == self@ % d@,
    {
        let la = self.to_limbs_asc();
        proof {
            self.lemma_limbs_denote_value();
        }
        let one = Natural::from_limb(1);
        let mut q = Natural::zero();
        let mut rem = Natural::zero();
        let mut li: usize = la.len();
        proof {
            lemma_limbs_val_bound(la@);
            lemma_pow2_pos(32 * la@.len());
            lemma_basic_div(self@ as int, pow2(32 * la@.len()) as int);
            assert(q@ * d@ == 0) by (nonlinear_arith)
                requires q@ == 0;
        }
        while li > 0
            invariant
                li <= la@.len(),
                self.wf(),
                d.wf(),
                d@ > 0,
                limbs_val(la@) == self@,
                one.wf(),
                one@ == 1,
                q.wf(),
                rem.wf(),
                rem@ < d@,
                q@ * d@ + rem@ == self@ / pow2(32 * (li as nat)),
            decreases li,
        {
            li -= 1;
            let limb = la[li];
            let mut b: u32 = 32;
            while b > 0
                invariant
                    b <= 32,
                    li < la@.len(),
                    limb == la@[li as int],
                    self.wf(),
                    d.wf(),
                    d@ > 0,
                    limbs_val(la@) == self@,
                    one.wf(),
                    one@ == 1,
                    q.wf(),
                    rem.wf(),
                    rem@ < d@,
                    q@ * d@ + rem@ == self@ / pow2(32 * (li as nat) + b as nat),
                decreases b,
            {
                b -= 1;
                let ghost e = 32 * (li as nat) + b as nat;
                let bit = (limb >> b) & 1;
                proof {
                    lemma_val_bit(la@, li as nat, b as nat);
                    lemma_div_pow2_step(self@, e);
                    assert(bit == 0 || bit == 1) by (bit_vector)
                        requires bit == (limb >> b) & 1;
                }
                let mut rem2 = rem.plus(&rem);
                if bit == 1 {
                    rem2 = rem2.plus(&one);
                }
                let mut q2 = q.plus(&q);
                proof {
                    assert(q2@ * d@ == 2 * (q@ * d@)) by (nonlinear_arith)
                        requires q2@ == 2 * q@;
                    assert(q2@ * d@ + rem2@ == self@ / pow2(e));
                }
                match rem2.cmp(d) {
                    core::cmp::Ordering::Less => {
                        q = q2;
                        rem = rem2;
                    }
                    _ => {
                        proof {
                            assert(rem2@ >= d@);
                            assert(rem2@ < 2 * d@);
                        }
                        match rem2.checked_sub(d) {
                            Some(r3) => {
                                let q3 = q2.plus(&one);
                                proof {
                                    assert(q3@ * d@ == q2@ * d@ + d@) by (nonlinear_arith)
                                        requires q3@ == q2@ + 1;
                                }
                                q = q3;
                                rem = r3;
                            }
                            None => {
                                proof {
                                    assert(false);
                                }
                                q = q2;
                                rem = rem2;
                            }
                        }
                    }
                }
            }
        }
        proof {
            lemma2_to64();
            assert(32 * 0nat == 0);
            assert(self@ / pow2(0) == self@);
            lemma_fundamental_div_mod_converse(self@ as int, d@ as int, q@ as int, rem@ as int);
        }
        (q, rem)
    }

    /// Whether the value is zero.
    pub fn is_zero(&self) -> (r: bool)
        requires
            self.wf(),
        ensures
            r == (self@ == 0),
    {
        match self {
            Natural::Small(x) => *x == 0,
            Natural::Large(_) => {
                proof {
                    self.lemma_wf_large_ge();
                }
                false
            }
        }
    }

    /// The remainder of division.
    pub fn rem_nat(&self, d: &Natural) -> (r: Natural)
        requires
            self.wf(),
            d.wf(),
            d@ > 0,
        ensures
            r.wf(),
            r@ == self@ % d@,
    {
        let (_, r) = self.div_mod(d);
        r
    }

    /// The quotient of an exact division.
    pub fn div_exact(&self, d: &Natural) -> (r: Natural)
        requires
            self.wf(),
            d.wf(),
            d@ > 0,
            self@ % d@ == 0,
        ensures
            r.wf(),
            r@ * d@ == self@,
            r@ == self@ / d@,
    {
        let (q, _) = self.div_mod(d);
        q
    }

    /// Euclid's greatest common divisor.
    pub fn gcd(&self, other: &Natural) -> (r: Natural)
        requires
            self.wf(),
            other.wf(),
        ensures
            r.wf(),
            r@ == gcd_nat(self@, other@),
    {
        let mut a = self.clone();
        let mut b = other.clone();
        while !b.is_zero()
            invariant
                a.wf(),
                b.wf(),
                gcd_nat(a@, b@) == gcd_nat(self@, other@),
            decreases b@,
        {
            let r = a.rem_nat(&b);
            a = b;
            b = r;
        }
        proof {
            assert(b@ == 0);
            assert(gcd_nat(a@, 0) == a@);
        }
        a
    }
}

} // verus!
