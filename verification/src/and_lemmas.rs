//! Bridging lemmas between limb sequences and the bitwise spec functions.
//!
//! The limb algorithms read a negative operand's magnitude through
//! `neg_limb`, the limb sequence of its two's complement; the lemmas here
//! reduce limb-wise AND and OR loops to `nat_and` and `nat_or` on the
//! operands' values.

use crate::bitand_spec::{lemma_nat_and_le, nat_and, nat_or};
use crate::limbs::{lemma_limbs_val_prepend, limbs_val};
use vstd::arithmetic::div_mod::*;
use vstd::arithmetic::power2::*;
use vstd::prelude::*;

verus! {

/// The index of the first nonzero limb; the length when all limbs are zero.
pub open spec fn first_nonzero(s: Seq<u32>) -> int
    decreases s.len(),
{
    if s.len() == 0 {
        0
    } else if s[0] != 0 {
        0
    } else {
        1 + first_nonzero(s.drop_first())
    }
}

/// Basic facts about `first_nonzero`.
pub proof fn lemma_first_nonzero_props(s: Seq<u32>)
    ensures
        0 <= first_nonzero(s) <= s.len(),
        forall|j: int| 0 <= j < first_nonzero(s) ==> s[j] == 0,
        first_nonzero(s) < s.len() ==> s[first_nonzero(s)] != 0,
    decreases s.len(),
{
    if s.len() == 0 {
    } else if s[0] != 0 {
    } else {
        lemma_first_nonzero_props(s.drop_first());
        assert forall|j: int| 0 <= j < first_nonzero(s) implies s[j] == 0 by {
            if j > 0 {
                assert(s.drop_first()[j - 1] == s[j]);
            }
        }
    }
}

/// A count of low zero limbs pins `first_nonzero` down.
pub proof fn lemma_first_nonzero_unique(s: Seq<u32>, r: int)
    requires
        0 <= r <= s.len(),
        forall|j: int| 0 <= j < r ==> s[j] == 0,
        r < s.len() ==> s[r] != 0,
    ensures
        first_nonzero(s) == r,
{
    lemma_first_nonzero_props(s);
    let t = first_nonzero(s);
    if t < r {
        assert(s[t] == 0);
    } else if r < t {
        assert(s[r] == 0);
    }
}

/// Limb `i` of the two's complement of the (positive) value of `s`: zero
/// below the first nonzero limb, the negation there, and the complement
/// above, all ones past the end.
pub open spec fn neg_limb(s: Seq<u32>, i: int) -> u32 {
    let t = first_nonzero(s);
    if i < t {
        0
    } else if i == t && i < s.len() {
        (0x1_0000_0000 - s[t]) as u32
    } else if i < s.len() {
        !s[i]
    } else {
        0xffff_ffff
    }
}

/// Limb `i` of the value of `s` minus one (for positive values): all ones
/// below the first nonzero limb, one less there, unchanged above, zero past
/// the end.
pub open spec fn m1_limb(s: Seq<u32>, i: int) -> u32 {
    let t = first_nonzero(s);
    if i >= s.len() {
        0
    } else if i < t {
        0xffff_ffff
    } else if i == t {
        (s[t] - 1) as u32
    } else {
        s[i]
    }
}

/// The two limb readings are complements of each other.
pub proof fn lemma_neg_m1_complement(s: Seq<u32>, i: int)
    requires
        first_nonzero(s) < s.len(),
    ensures
        neg_limb(s, i) == !m1_limb(s, i),
{
    lemma_first_nonzero_props(s);
    let t = first_nonzero(s);
    if i < t {
        assert(!0xffff_ffffu32 == 0u32) by (bit_vector);
    } else if i == t {
        let v = s[t];
        let m = (v - 1) as u32;
        assert((0x1_0000_0000 - v) as u32 == !m) by (bit_vector)
            requires v != 0, m == (v - 1) as u32;
    } else if i < s.len() {
    } else {
        assert(!0u32 == 0xffff_ffffu32) by (bit_vector);
    }
}

/// AND on one machine word agrees with `nat_and`.
pub proof fn lemma_u32_and(x: u32, y: u32)
    ensures
        nat_and(x as nat, y as nat) == (x & y),
    decreases x,
{
    if x == 0 || y == 0 {
        assert(x & y == 0) by (bit_vector)
            requires x == 0 || y == 0;
    } else {
        assert(x >> 1 < x) by (bit_vector)
            requires x != 0;
        lemma_u32_and(x >> 1, y >> 1);
        assert((x >> 1) == x / 2 && (y >> 1) == y / 2) by (bit_vector);
        assert(x & y == 2 * ((x >> 1) & (y >> 1)) + (x % 2) * (y % 2)) by (bit_vector);
    }
}

/// OR on one machine word agrees with `nat_or`.
pub proof fn lemma_u32_or(x: u32, y: u32)
    ensures
        nat_or(x as nat, y as nat) == (x | y),
    decreases x + y,
{
    if x == 0 {
        assert(x | y == y) by (bit_vector)
            requires x == 0;
    } else if y == 0 {
        assert(x | y == x) by (bit_vector)
            requires y == 0;
    } else {
        assert(x >> 1 < x && y >> 1 < y) by (bit_vector)
            requires x != 0, y != 0;
        lemma_u32_or(x >> 1, y >> 1);
        assert((x >> 1) == x / 2 && (y >> 1) == y / 2) by (bit_vector);
        assert(x | y == 2 * ((x >> 1) | (y >> 1)) + (if x % 2 == 1 || y % 2 == 1 {
            1u32
        } else {
            0u32
        })) by (bit_vector);
    }
}

/// A value splits at the limb base into its low limb and the rest.
proof fn lemma_split_base(a: nat)
    ensures
        a % 0x1_0000_0000 == a % 2 + 2 * ((a / 2) % 0x8000_0000),
        a / 0x1_0000_0000 == (a / 2) / 0x8000_0000,
{
    lemma_fundamental_div_mod(a as int, 2);
    lemma_fundamental_div_mod((a / 2) as int, 0x8000_0000);
    lemma_mod_bound((a / 2) as int, 0x8000_0000);
    lemma_fundamental_div_mod_converse(
        a as int,
        0x1_0000_0000,
        ((a / 2) / 0x8000_0000) as int,
        (a % 2 + 2 * ((a / 2) % 0x8000_0000)) as int,
    );
}

/// As `lemma_split_base` for an arbitrary power of two.
proof fn lemma_split_pow2(a: nat, k: nat)
    requires
        k >= 1,
    ensures
        a % pow2(k) == a % 2 + 2 * ((a / 2) % pow2((k - 1) as nat)),
        a / pow2(k) == (a / 2) / pow2((k - 1) as nat),
{
    lemma_pow2_pos((k - 1) as nat);
    lemma_pow2_adds(1, (k - 1) as nat);
    lemma2_to64();
    lemma_fundamental_div_mod(a as int, 2);
    lemma_fundamental_div_mod((a / 2) as int, pow2((k - 1) as nat) as int);
    lemma_mod_bound((a / 2) as int, pow2((k - 1) as nat) as int);
    lemma_pow2_pos(k);
    assert(pow2(k) == 2 * pow2((k - 1) as nat));
    let h = pow2((k - 1) as nat);
    let q = (a / 2) / h;
    let r = (a / 2) % h;
    assert(a == q * (2 * h) + (a % 2 + 2 * r)) by (nonlinear_arith)
        requires
            a == 2 * (a / 2) + a % 2,
            a / 2 == h * q + r,
    ;
    assert(a % 2 + 2 * r < 2 * h);
    lemma_fundamental_div_mod_converse(
        a as int,
        (2 * h) as int,
        q as int,
        (a % 2 + 2 * r) as int,
    );
}

/// Bits above either operand's width never contribute to AND.
pub proof fn lemma_nat_and_mod(a: nat, b: nat, k: nat)
    requires
        a < pow2(k),
    ensures
        nat_and(a, b) == nat_and(a, b % pow2(k)),
    decreases k,
{
    lemma_pow2_pos(k);
    if k == 0 {
        lemma2_to64();
        assert(a == 0);
    } else if a == 0 {
    } else if b == 0 {
        lemma_pow2_pos(k);
        assert(0nat % pow2(k) == 0);
    } else {
        lemma_split_pow2(b, k);
        lemma2_to64();
        assert(a / 2 < pow2((k - 1) as nat)) by {
            lemma_pow2_adds(1, (k - 1) as nat);
        }
        lemma_nat_and_mod(a / 2, b / 2, (k - 1) as nat);
        let bm = b % pow2(k);
        if bm == 0 {
            assert(b % 2 == 0 && (b / 2) % pow2((k - 1) as nat) == 0);
            assert(nat_and(a / 2, b / 2) == 0);
            assert((a % 2) * (b % 2) == 0) by (nonlinear_arith)
                requires b % 2 == 0;
            assert(nat_and(a, b) == 0);
        } else {
            assert(bm % 2 == b % 2 && bm / 2 == (b / 2) % pow2((k - 1) as nat)) by {
                lemma_split_pow2(b, k);
                lemma_fundamental_div_mod(bm as int, 2);
                lemma_mod_bound(b as int, 2);
                lemma_fundamental_div_mod_converse(
                    bm as int,
                    2,
                    ((b / 2) % pow2((k - 1) as nat)) as int,
                    (b % 2) as int,
                );
            }
        }
    }
}

/// AND against the low-bits complement subtracts the shared bits:
/// `a & (2^k - 1 - z) == a - (a & z)`.
pub proof fn lemma_nat_and_comp(a: nat, z: nat, k: nat)
    requires
        a < pow2(k),
        z < pow2(k),
    ensures
        nat_and(a, (pow2(k) - 1 - z) as nat) == a - nat_and(a, z),
    decreases k,
{
    lemma_pow2_pos(k);
    lemma_nat_and_le(a, z);
    if k == 0 {
        lemma2_to64();
        assert(a == 0 && z == 0);
    } else if a == 0 {
    } else {
        lemma2_to64();
        lemma_pow2_adds(1, (k - 1) as nat);
        assert(pow2(k) == 2 * pow2((k - 1) as nat));
        let c = (pow2(k) - 1 - z) as nat;
        assert(c % 2 == 1 - z % 2 && c / 2 == pow2((k - 1) as nat) - 1 - z / 2) by {
            assert(c == (pow2((k - 1) as nat) - 1 - z / 2) * 2 + (1 - z % 2)) by (nonlinear_arith)
                requires
                    c == pow2(k) - 1 - z,
                    pow2(k) == 2 * pow2((k - 1) as nat),
                    z == 2 * (z / 2) + z % 2,
            ;
            lemma_fundamental_div_mod_converse(
                c as int,
                2,
                (pow2((k - 1) as nat) - 1 - z / 2) as int,
                1 - (z % 2) as int,
            );
        }
        assert(a / 2 < pow2((k - 1) as nat) && z / 2 < pow2((k - 1) as nat));
        lemma_nat_and_comp(a / 2, z / 2, (k - 1) as nat);
        lemma_nat_and_le(a / 2, z / 2);
        if c == 0 {
            assert(z == pow2(k) - 1);
            assert(z % 2 == 1 && z / 2 == pow2((k - 1) as nat) - 1);
            assert(nat_and(a / 2, (0nat)) == 0);
            assert(nat_and(a / 2, z / 2) == a / 2 - nat_and(a / 2, (0nat)));
            assert(nat_and(a, z) == 2 * (a / 2) + (a % 2) * 1) by (nonlinear_arith)
                requires
                    nat_and(a, z) == 2 * nat_and(a / 2, z / 2) + (a % 2) * (z % 2),
                    nat_and(a / 2, z / 2) == a / 2,
                    z % 2 == 1,
            ;
        } else {
            assert(nat_and(a, c) == 2 * nat_and(a / 2, c / 2) + (a % 2) * (c % 2));
            assert(nat_and(a, z) == if z == 0 { 0nat } else {
                2 * nat_and(a / 2, z / 2) + (a % 2) * (z % 2)
            });
            if z == 0 {
                assert(nat_and(a / 2, (0nat)) == 0);
                assert(nat_and(a, c) == 2 * (a / 2) + (a % 2) * 1) by (nonlinear_arith)
                    requires
                        nat_and(a, c) == 2 * nat_and(a / 2, c / 2) + (a % 2) * (c % 2),
                        nat_and(a / 2, c / 2) == a / 2,
                        c % 2 == 1,
                ;
            } else {
                assert((a % 2) * (1 - z % 2) + (a % 2) * (z % 2) == a % 2) by (nonlinear_arith)
                    requires a % 2 <= 1, z % 2 <= 1;
            }
        }
    }
}

/// AND over equal-length limb vectors is the limb-wise AND.
pub proof fn lemma_nat_and_limbs(s: Seq<u32>, t: Seq<u32>)
    requires
        s.len() == t.len(),
    ensures
        nat_and(limbs_val(s), limbs_val(t)) == limbs_val(
            Seq::new(s.len(), |i: int| s[i] & t[i]),
        ),
    decreases s.len(),
{
    let z = Seq::new(s.len(), |i: int| s[i] & t[i]);
    if s.len() == 0 {
        assert(limbs_val(z) == 0);
    } else {
        let s1 = s.drop_first();
        let t1 = t.drop_first();
        lemma_nat_and_limbs(s1, t1);
        assert(s =~= seq![s[0]].add(s1));
        assert(t =~= seq![t[0]].add(t1));
        lemma_limbs_val_prepend(s[0], s1);
        lemma_limbs_val_prepend(t[0], t1);
        let z1 = Seq::new(s1.len(), |i: int| s1[i] & t1[i]);
        assert(z =~= seq![s[0] & t[0]].add(z1)) by {
            assert(z.len() == z1.len() + 1);
            assert forall|i: int| 0 <= i < z.len() implies
                z[i] == seq![s[0] & t[0]].add(z1)[i] by {
                if i > 0 {
                    assert(s1[i - 1] == s[i] && t1[i - 1] == t[i]);
                }
            }
        }
        lemma_limbs_val_prepend(s[0] & t[0], z1);
        lemma_nat_and_halfwords(limbs_val(s), limbs_val(t), s[0], t[0], limbs_val(s1), limbs_val(t1));
    }
}

/// OR over equal-length limb vectors is the limb-wise OR.
pub proof fn lemma_nat_or_limbs(s: Seq<u32>, t: Seq<u32>)
    requires
        s.len() == t.len(),
    ensures
        nat_or(limbs_val(s), limbs_val(t)) == limbs_val(
            Seq::new(s.len(), |i: int| s[i] | t[i]),
        ),
{
    let zo = Seq::new(s.len(), |i: int| s[i] | t[i]);
    let za = Seq::new(s.len(), |i: int| s[i] & t[i]);
    lemma_nat_and_limbs(s, t);
    lemma_nat_or_as_sum(limbs_val(s), limbs_val(t));
    assert forall|i: int| 0 <= i < s.len() implies zo[i] + za[i] == s[i] + t[i] by {
        let x = s[i];
        let y = t[i];
        assert((x | y) + (x & y) == x + y) by (bit_vector);
    }
    lemma_val_sum_eq(zo, za, s, t);
    crate::bitand_spec::lemma_nat_and_le(limbs_val(s), limbs_val(t));
}

/// OR is the sum minus the AND.
pub proof fn lemma_nat_or_as_sum(a: nat, b: nat)
    ensures
        nat_or(a, b) == a + b - nat_and(a, b),
    decreases a + b,
{
    if a == 0 || b == 0 {
    } else {
        lemma_nat_or_as_sum(a / 2, b / 2);
        assert(a == 2 * (a / 2) + a % 2);
        assert(b == 2 * (b / 2) + b % 2);
        crate::bitand_spec::lemma_nat_and_le(a / 2, b / 2);
        assert((if a % 2 == 1 || b % 2 == 1 { 1nat } else { 0nat }) + (a % 2) * (b % 2)
            == a % 2 + b % 2) by (nonlinear_arith)
            requires a % 2 <= 1, b % 2 <= 1;
    }
}

/// Pointwise-equal limb sums denote equal value sums.
proof fn lemma_val_sum_eq(p: Seq<u32>, q: Seq<u32>, r: Seq<u32>, t: Seq<u32>)
    requires
        p.len() == q.len() == r.len() == t.len(),
        forall|i: int| 0 <= i < p.len() ==> #[trigger] (p[i] + q[i]) == r[i] + t[i],
    ensures
        limbs_val(p) + limbs_val(q) == limbs_val(r) + limbs_val(t),
    decreases p.len(),
{
    if p.len() > 0 {
        lemma_val_sum_eq(p.drop_last(), q.drop_last(), r.drop_last(), t.drop_last());
        let n = p.len() - 1;
        assert(p[n] + q[n] == r[n] + t[n]);
        assert forall|i: int| 0 <= i < n implies
            #[trigger] (p.drop_last()[i] + q.drop_last()[i])
                == r.drop_last()[i] + t.drop_last()[i] by {
            assert(p[i] + q[i] == r[i] + t[i]);
        }
        let w = crate::limbs::limb_weight((p.len() - 1) as nat);
        assert(p[n] * w + q[n] * w == r[n] * w + t[n] * w) by (nonlinear_arith)
            requires p[n] + q[n] == r[n] + t[n], w >= 0;
    }
}
/// AND of values written as a low limb plus a shifted rest splits limb-wise.
proof fn lemma_nat_and_halfwords(a: nat, b: nat, a0: u32, b0: u32, ah: nat, bh: nat)
    requires
        a == a0 + 0x1_0000_0000 * ah,
        b == b0 + 0x1_0000_0000 * bh,
    ensures
        nat_and(a, b) == (a0 & b0) + 0x1_0000_0000 * nat_and(ah, bh),
{
    lemma_nat_and_split32(a, b);
    lemma2_to64();
    lemma_mod_shifted(a0, ah);
    lemma_mod_shifted(b0, bh);
    lemma_u32_and(a0, b0);
}


/// The low limb and the rest of a value in split form.
proof fn lemma_mod_shifted(a0: u32, ah: nat)
    ensures
        (a0 + 0x1_0000_0000 * ah) % 0x1_0000_0000 == a0,
        (a0 + 0x1_0000_0000 * ah) / 0x1_0000_0000 == ah,
{
    lemma_fundamental_div_mod_converse(
        (a0 + 0x1_0000_0000 * ah) as int,
        0x1_0000_0000,
        ah as int,
        a0 as int,
    );
}

/// AND splits at the limb base.
proof fn lemma_nat_and_split32(a: nat, b: nat)
    ensures
        nat_and(a, b) == nat_and(a % 0x1_0000_0000, b % 0x1_0000_0000)
            + 0x1_0000_0000 * nat_and(a / 0x1_0000_0000, b / 0x1_0000_0000),
    decreases a,
{
    lemma2_to64();
    lemma_nat_and_split_k(a, b, 32);
}


/// AND splits at any power of two.
proof fn lemma_nat_and_split_k(a: nat, b: nat, k: nat)
    ensures
        nat_and(a, b) == nat_and(a % pow2(k), b % pow2(k))
            + pow2(k) * nat_and(a / pow2(k), b / pow2(k)),
    decreases k,
{
    lemma_pow2_pos(k);
    if k == 0 {
        lemma2_to64();
        assert(a % 1 == 0 && b % 1 == 0 && a / 1 == a && b / 1 == b);
        assert(nat_and((0nat), (0nat)) == 0);
        assert(1 * nat_and(a, b) == nat_and(a, b)) by (nonlinear_arith);
    } else if a == 0 || b == 0 {
        assert(a == 0 ==> a % pow2(k) == 0 && a / pow2(k) == 0);
        assert(b == 0 ==> b % pow2(k) == 0 && b / pow2(k) == 0);
        assert(nat_and(a % pow2(k), b % pow2(k)) == 0);
        assert(nat_and(a / pow2(k), b / pow2(k)) == 0);
        assert(pow2(k) * 0 == 0) by (nonlinear_arith);
    } else {
        lemma_nat_and_split_k(a / 2, b / 2, (k - 1) as nat);
        lemma_split_pow2(a, k);
        lemma_split_pow2(b, k);
        let h = pow2((k - 1) as nat);
        lemma_pow2_pos((k - 1) as nat);
        lemma_pow2_adds(1, (k - 1) as nat);
        lemma2_to64();
        assert(pow2(k) == 2 * h);
        let am = a % pow2(k);
        let bm = b % pow2(k);
        assert(am == a % 2 + 2 * ((a / 2) % h));
        assert(bm == b % 2 + 2 * ((b / 2) % h));
        lemma_mod_bound((a / 2) as int, h as int);
        lemma_mod_bound((b / 2) as int, h as int);
        assert(am % 2 == a % 2 && am / 2 == (a / 2) % h) by {
            lemma_fundamental_div_mod_converse(am as int, 2, ((a / 2) % h) as int, (a % 2) as int);
        }
        assert(bm % 2 == b % 2 && bm / 2 == (b / 2) % h) by {
            lemma_fundamental_div_mod_converse(bm as int, 2, ((b / 2) % h) as int, (b % 2) as int);
        }
        if am == 0 || bm == 0 {
            assert(am == 0 ==> a % 2 == 0);
            assert(bm == 0 ==> b % 2 == 0);
            assert(nat_and(am, bm) == 0);
            assert((a % 2) * (b % 2) == 0) by (nonlinear_arith)
                requires a % 2 == 0 || b % 2 == 0;
            assert(am == 0 ==> nat_and((a / 2) % h, (b / 2) % h) == 0);
            assert(bm == 0 ==> nat_and((a / 2) % h, (b / 2) % h) == 0) by {
                if bm == 0 {
                    crate::bitand_spec::lemma_nat_and_le((a / 2) % h, (b / 2) % h);
                }
            }
            assert(nat_and(a, b) == 2 * nat_and(a / 2, b / 2));
            assert(nat_and(a / 2, b / 2)
                == nat_and((a / 2) % h, (b / 2) % h) + h * nat_and(a / pow2(k), b / pow2(k)));
            assert(2 * (h * nat_and(a / pow2(k), b / pow2(k)))
                == pow2(k) * nat_and(a / pow2(k), b / pow2(k))) by (nonlinear_arith)
                requires pow2(k) == 2 * h;
        } else {
            assert(nat_and(am, bm) == 2 * nat_and(am / 2, bm / 2) + (am % 2) * (bm % 2));
            assert(nat_and(a, b) == 2 * nat_and(a / 2, b / 2) + (a % 2) * (b % 2));
            assert(2 * (h * nat_and(a / pow2(k), b / pow2(k)))
                == pow2(k) * nat_and(a / pow2(k), b / pow2(k))) by (nonlinear_arith)
                requires pow2(k) == 2 * h;
        }
    }
}





/// The complement limbs of a sequence, all ones past its end.
pub open spec fn comp_seq(s: Seq<u32>, w: nat) -> Seq<u32> {
    Seq::new(w, |i: int| if i < s.len() { !s[i] } else { 0xffff_ffffu32 })
}

/// A remainder splits limb-wise.
proof fn lemma_mod_split_limb(r0: nat, q: nat, m: nat)
    requires
        r0 < 0x1_0000_0000,
        m > 0,
    ensures
        (r0 + 0x1_0000_0000 * q) % (0x1_0000_0000 * m) == r0 + 0x1_0000_0000 * (q % m),
{
    lemma_fundamental_div_mod(q as int, m as int);
    lemma_mod_bound(q as int, m as int);
    let qq = q / m;
    let rr = q % m;
    assert(r0 + 0x1_0000_0000 * q == qq * (0x1_0000_0000 * m) + (r0 + 0x1_0000_0000 * rr))
        by (nonlinear_arith)
        requires q == m * qq + rr;
    assert(r0 + 0x1_0000_0000 * rr < 0x1_0000_0000 * m) by (nonlinear_arith)
        requires r0 < 0x1_0000_0000, rr < m;
    lemma_fundamental_div_mod_converse(
        (r0 + 0x1_0000_0000 * q) as int,
        (0x1_0000_0000 * m) as int,
        qq as int,
        (r0 + 0x1_0000_0000 * rr) as int,
    );
}

/// The remainder of a negated value is the modulus minus the remainder.
proof fn lemma_neg_mod(y: nat, m: nat)
    requires
        m > 0,
    ensures
        (-(y as int)) % (m as int) == if y % m == 0 { 0int } else { m - y % m },
{
    lemma_fundamental_div_mod(y as int, m as int);
    lemma_mod_bound(y as int, m as int);
    let qq = y / m;
    let rr = y % m;
    if rr == 0 {
        assert(-(y as int) == (-(qq as int)) * m + 0) by (nonlinear_arith)
            requires y == m * qq;
        lemma_fundamental_div_mod_converse(-(y as int), m as int, -(qq as int), 0);
    } else {
        assert(-(y as int) == (-(qq as int) - 1) * m + (m - rr)) by (nonlinear_arith)
            requires y == m * qq + rr;
        lemma_fundamental_div_mod_converse(
            -(y as int),
            m as int,
            -(qq as int) - 1,
            m - (rr as int),
        );
    }
}

/// The value of the complement limbs: all-ones minus the low remainder.
proof fn lemma_comp_seq_val(s: Seq<u32>, w: nat)
    ensures
        limbs_val(comp_seq(s, w)) == pow2(32 * w) - 1 - (limbs_val(s) % pow2(32 * w)),
    decreases w,
{
    lemma_pow2_pos(32 * w);
    if w == 0 {
        lemma2_to64();
        assert(comp_seq(s, 0) =~= Seq::<u32>::empty());
        assert(limbs_val(s) % 1 == 0) by (nonlinear_arith);
    } else {
        let tail = if s.len() > 0 { s.drop_first() } else { s };
        let s0: u32 = if s.len() > 0 { s[0] } else { 0 };
        lemma_comp_seq_val(tail, (w - 1) as nat);
        let c = comp_seq(s, w);
        assert(c =~= seq![!s0].add(comp_seq(tail, (w - 1) as nat))) by {
            assert(!0u32 == 0xffff_ffffu32) by (bit_vector);
        }
        lemma_limbs_val_prepend(!s0, comp_seq(tail, (w - 1) as nat));
        if s.len() > 0 {
            assert(s =~= seq![s0].add(tail));
            lemma_limbs_val_prepend(s0, tail);
        } else {
            assert(limbs_val(tail) == 0);
        }
        lemma_pow2_adds(32, 32 * ((w - 1) as nat));
        lemma2_to64();
        assert(32 * w == 32 + 32 * ((w - 1) as nat));
        lemma_pow2_pos(32 * ((w - 1) as nat));
        lemma_mod_split_limb(s0 as nat, limbs_val(tail), pow2(32 * ((w - 1) as nat)));
        assert(limbs_val(s) % pow2(32 * w)
            == s0 + 0x1_0000_0000 * (limbs_val(tail) % pow2(32 * ((w - 1) as nat))));
        assert((!s0) as nat == 0xffff_ffff - s0) by (bit_vector);
    }
}

/// The value of the two's-complement limbs over a window: the negated value
/// modulo the window size.
pub proof fn lemma_neg_limb_val(ys: Seq<u32>, w: nat)
    requires
        limbs_val(ys) > 0,
    ensures
        limbs_val(Seq::new(w, |i: int| neg_limb(ys, i)))
            == (-(limbs_val(ys) as int)) % (pow2(32 * w) as int),
    decreases w,
{
    lemma_first_nonzero_props(ys);
    lemma_pow2_pos(32 * w);
    let t = first_nonzero(ys);
    let y = limbs_val(ys);
    if t == ys.len() {
        crate::limbs::lemma_limbs_val_zero(ys);
        assert(false);
    }
    let nlseq = Seq::new(w, |i: int| neg_limb(ys, i));
    if w == 0 {
        lemma2_to64();
        assert(nlseq =~= Seq::<u32>::empty());
        assert((-(y as int)) % 1 == 0) by (nonlinear_arith);
    } else {
        lemma_pow2_adds(32, 32 * ((w - 1) as nat));
        lemma2_to64();
        assert(32 * w == 32 + 32 * ((w - 1) as nat));
        lemma_pow2_pos(32 * ((w - 1) as nat));
        let m = pow2(32 * ((w - 1) as nat));
        let tail = ys.drop_first();
        assert(ys =~= seq![ys[0]].add(tail));
        lemma_limbs_val_prepend(ys[0], tail);
        let yt = limbs_val(tail);
        if t == 0 {
            let c = comp_seq(tail, (w - 1) as nat);
            assert(nlseq =~= seq![(0x1_0000_0000 - ys[0]) as u32].add(c)) by {
                assert forall|i: int| 1 <= i < w implies
                    nlseq[i] == c[i - 1] by {
                    if i < ys.len() {
                        assert(tail[i - 1] == ys[i]);
                    }
                }
            }
            lemma_limbs_val_prepend((0x1_0000_0000 - ys[0]) as u32, c);
            lemma_comp_seq_val(tail, (w - 1) as nat);
            lemma_mod_split_limb(ys[0] as nat, yt, m);
            assert(y % pow2(32 * w) == ys[0] + 0x1_0000_0000 * (yt % m));
            lemma_neg_mod(y, pow2(32 * w));
            assert(y % pow2(32 * w) != 0);
        } else {
            assert(ys[0] == 0);
            assert(first_nonzero(tail) == t - 1);
            let nltail = Seq::new((w - 1) as nat, |i: int| neg_limb(tail, i));
            assert(nlseq =~= seq![0u32].add(nltail)) by {
                assert(neg_limb(ys, 0) == 0);
                assert forall|i: int| 1 <= i < w implies
                    nlseq[i] == nltail[i - 1] by {
                    if i < ys.len() {
                        assert(tail[i - 1] == ys[i]);
                    }
                }
            }
            assert(yt > 0) by {
                if yt == 0 {
                    assert(y == 0);
                }
            }
            lemma_neg_limb_val(tail, (w - 1) as nat);
            lemma_limbs_val_prepend(0u32, nltail);
            // (-(2^32 yt)) % (2^32 m) == 2^32 * ((-yt) % m)
            lemma_neg_mod(yt, m);
            lemma_neg_mod(y, pow2(32 * w));
            if yt % m == 0 {
                lemma_mod_split_limb(0, yt, m);
                assert(y % pow2(32 * w) == 0x1_0000_0000 * (yt % m));
            } else {
                lemma_mod_split_limb(0, yt, m);
                assert(y % pow2(32 * w) == 0x1_0000_0000 * (yt % m));
            }
        }
    }
}

/// The value of the minus-one limbs over a window: the value minus one,
/// modulo the window size.
pub proof fn lemma_m1_limb_val(ys: Seq<u32>, w: nat)
    requires
        limbs_val(ys) > 0,
    ensures
        limbs_val(Seq::new(w, |i: int| m1_limb(ys, i)))
            == (limbs_val(ys) - 1) % (pow2(32 * w) as int),
{
    lemma_first_nonzero_props(ys);
    lemma_pow2_pos(32 * w);
    let y = limbs_val(ys);
    if first_nonzero(ys) == ys.len() {
        crate::limbs::lemma_limbs_val_zero(ys);
        assert(false);
    }
    let m1seq = Seq::new(w, |i: int| m1_limb(ys, i));
    let nlseq = Seq::new(w, |i: int| neg_limb(ys, i));
    lemma_neg_limb_val(ys, w);
    assert forall|i: int| 0 <= i < w implies m1seq[i] + nlseq[i] == 0xffff_ffffu32 by {
        lemma_neg_m1_complement(ys, i);
        let v = m1_limb(ys, i);
        assert(v + !v == 0xffff_ffffu32) by (bit_vector);
    }
    let ffseq = Seq::new(w, |i: int| 0xffff_ffffu32);
    let zseq = Seq::new(w, |i: int| 0u32);
    assert forall|i: int| 0 <= i < w implies #[trigger] (m1seq[i] + nlseq[i])
        == ffseq[i] + zseq[i] by {}
    lemma_val_sum_eq(m1seq, nlseq, ffseq, zseq);
    crate::limbs::lemma_limbs_val_zero(zseq);
    lemma_all_ones_val(w);
    assert(limbs_val(m1seq) == pow2(32 * w) - 1 - limbs_val(nlseq));
    lemma_neg_mod(y, pow2(32 * w));
    lemma_fundamental_div_mod(y as int, pow2(32 * w) as int);
    lemma_mod_bound(y as int, pow2(32 * w) as int);
    let pw = pow2(32 * w);
    let qq = y / pw;
    let rr = y % pw;
    if rr == 0 {
        assert((y - 1) as int == (qq as int - 1) * pw + (pw - 1)) by (nonlinear_arith)
            requires y == pw * qq, pw > 0, y > 0;
        lemma_fundamental_div_mod_converse(
            y as int - 1,
            pw as int,
            qq as int - 1,
            pw as int - 1,
        );
    } else {
        assert(y as int - 1 == (qq as int) * pw + (rr - 1)) by (nonlinear_arith)
            requires y == pw * qq + rr;
        lemma_fundamental_div_mod_converse(
            y as int - 1,
            pw as int,
            qq as int,
            (rr as int) - 1,
        );
    }
}

/// The value of a window of all-one limbs.
pub proof fn lemma_all_ones_val(w: nat)
    ensures
        limbs_val(Seq::new(w, |i: int| 0xffff_ffffu32)) == pow2(32 * w) - 1,
    decreases w,
{
    lemma_pow2_pos(32 * w);
    if w == 0 {
        lemma2_to64();
        assert(Seq::new(0, |i: int| 0xffff_ffffu32) =~= Seq::<u32>::empty());
    } else {
        lemma_all_ones_val((w - 1) as nat);
        let s = Seq::new(w, |i: int| 0xffff_ffffu32);
        let s1 = Seq::new((w - 1) as nat, |i: int| 0xffff_ffffu32);
        assert(s =~= seq![0xffff_ffffu32].add(s1));
        lemma_limbs_val_prepend(0xffff_ffff, s1);
        lemma_pow2_adds(32, 32 * ((w - 1) as nat));
        lemma2_to64();
        assert(32 * w == 32 + 32 * ((w - 1) as nat));
    }
}


/// A prefix of all-one limbs denotes one less than its window size.
pub proof fn lemma_all_ones_take(s: Seq<u32>, i: nat)
    requires
        i <= s.len(),
        forall|j: int| 0 <= j < i ==> s[j] == 0xffff_ffffu32,
    ensures
        limbs_val(s.take(i as int)) == pow2(32 * i) - 1,
{
    assert(s.take(i as int) =~= Seq::new(i, |j: int| 0xffff_ffffu32));
    lemma_all_ones_val(i);
}

} // verus!
