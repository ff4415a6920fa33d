//! The `Natural` type: an unbounded non-negative integer.
//!
//! A value either fits in one 32-bit word (`Small`) or owns a trimmed
//! little-endian limb vector of length at least two (`Large`). Every public
//! operation returns values in this canonical form.

use crate::limbs::{limbs_val, lemma_limbs_val_singleton, limb_weight, lemma_limbs_val_bound, lemma_limbs_val_lower, lemma_limbs_val_cmp, lemma_limbs_val_split, lemma_limbs_val_drop_zero};
use core::cmp::Ordering;
use vstd::arithmetic::power2::*;
use vstd::prelude::*;

verus! {

#[derive(Debug)]
pub enum Natural {
    Small(u32),
    Large(Vec<u32>),
}

impl View for Natural {
    type V = nat;

    /// The numeric value this representation denotes.
    open spec fn view(&self) -> nat {
        match self {
            Natural::Small(x) => *x as nat,
            Natural::Large(v) => limbs_val(v@),
        }
    }
}

impl Natural {
    /// Canonical form: a `Large` vector is trimmed and too long to demote.
    pub open spec fn wf(&self) -> bool {
        match self {
            Natural::Small(_) => true,
            Natural::Large(v) => v@.len() >= 2 && v@.last() != 0,
        }
    }

    /// The limbs of this value, least significant first (one limb for `Small`).
    pub open spec fn limbs(&self) -> Seq<u32> {
        match self {
            Natural::Small(x) => seq![*x],
            Natural::Large(v) => v@,
        }
    }

    /// Structural equality of representations.
    pub open spec fn same_repr(&self, other: &Natural) -> bool {
        match (self, other) {
            (Natural::Small(x), Natural::Small(y)) => x == y,
            (Natural::Large(a), Natural::Large(b)) => a@ == b@,
            _ => false,
        }
    }

    /// Checks the canonical-form invariant.
    pub fn is_valid(&self) -> (r: bool)
        ensures
            r == self.wf(),
    {
        match self {
            Natural::Small(_) => true,
            Natural::Large(v) => v.len() >= 2 && v[v.len() - 1] != 0,
        }
    }

    /// A canonical value denoting zero.
    pub fn zero() -> (r: Natural)
        ensures
            r.wf(),
            r@ == 0,
    {
        Natural::Small(0)
    }

    /// The canonical value of a single machine word.
    pub fn from_limb(x: u32) -> (r: Natural)
        ensures
            r.wf(),
            r@ == x,
    {
        Natural::Small(x)
    }

    /// The canonical value of a 64-bit word.
    pub fn from_u64(x: u64) -> (r: Natural)
        ensures
            r.wf(),
            r@ == x,
    {
        if x <= 0xffff_ffff {
            Natural::Small(x as u32)
        } else {
            let lo = x as u32;
            let hi = (x >> 32) as u32;
            let mut v: Vec<u32> = Vec::new();
            v.push(lo);
            v.push(hi);
            proof {
                lemma_u64_halves(x);
                assert(v@.drop_last() =~= seq![lo]);
                assert(v@.drop_last().drop_last() =~= Seq::<u32>::empty());
                lemma2_to64();
                lemma_limbs_val_singleton(v@.drop_last());
                assert(limbs_val(v@.drop_last()) == lo);
                assert(32 * ((v@.len() - 1) as nat) == 32);
                assert(limbs_val(v@) == lo + hi * pow2(32));
            }
            Natural::Large(v)
        }
    }

    /// A large value's magnitude is at least the weight of its last limb.
    pub proof fn lemma_wf_large_ge(&self)
        requires
            self.wf(),
            self is Large,
        ensures
            self@ >= 0x1_0000_0000,
        decreases self,
    {
        let v = self->Large_0;
        lemma_limbs_val_lower(v@);
        lemma_pow2_adds(32, 32 * ((v@.len() - 2) as nat));
        lemma_pow2_pos(32 * ((v@.len() - 2) as nat));
        lemma2_to64();
        assert(32 * ((v@.len() - 1) as nat) == 32 + 32 * ((v@.len() - 2) as nat));
        assert(pow2(32) * pow2(32 * ((v@.len() - 2) as nat)) >= pow2(32) * 1) by (nonlinear_arith)
            requires pow2(32 * ((v@.len() - 2) as nat)) >= 1, pow2(32) > 0;
    }

    /// Canonical representations are unique: equal values mean equal
    /// representations.
    pub proof fn lemma_canonical_unique(a: &Natural, b: &Natural)
        requires
            a.wf(),
            b.wf(),
            a@ == b@,
        ensures
            a.same_repr(b),
    {
        match (a, b) {
            (Natural::Small(_), Natural::Small(_)) => {
            }
            (Natural::Small(_), Natural::Large(_)) => {
                b.lemma_wf_large_ge();
            }
            (Natural::Large(_), Natural::Small(_)) => {
                a.lemma_wf_large_ge();
            }
            (Natural::Large(va), Natural::Large(vb)) => {
                lemma_limbs_unique(va@, vb@);
                assert(va@ =~= vb@);
            }
        }
    }

    /// Builds the canonical value of an arbitrary limb vector: trailing zero
    /// limbs are trimmed and a result of at most one limb is stored inline.
    pub fn from_limbs_asc(v: Vec<u32>) -> (r: Natural)
        ensures
            r.wf(),
            r@ == limbs_val(v@),
    {
        let ghost orig = v@;
        let mut v = v;
        loop
            invariant
                limbs_val(v@) == limbs_val(orig),
            ensures
                limbs_val(v@) == limbs_val(orig),
                v@.len() > 0 ==> v@.last() != 0,
            decreases v@.len(),
        {
            if v.len() == 0 {
                break;
            }
            if v[v.len() - 1] != 0 {
                break;
            }
            proof {
                lemma_limbs_val_drop_zero(v@);
            }
            v.pop();
        }
        if v.len() == 0 {
            proof {
                assert(limbs_val(v@) == 0);
            }
            Natural::Small(0)
        } else if v.len() == 1 {
            proof {
                lemma_limbs_val_singleton(v@);
                assert(limbs_val(v@) == v@[0]);
            }
            Natural::Small(v[0])
        } else {
            Natural::Large(v)
        }
    }

    /// The limbs of the value, least significant first; a `Small` value yields
    /// one limb, including zero itself.
    pub fn to_limbs_asc(&self) -> (r: Vec<u32>)
        ensures
            r@ == self.limbs(),
    {
        match self {
            Natural::Small(x) => {
                let mut v: Vec<u32> = Vec::new();
                v.push(*x);
                proof {
                    assert(v@ =~= seq![*x]);
                }
                v
            }
            Natural::Large(v) => clone_limbs(v),
        }
    }

    /// Compares two values, reporting their numeric order.
    pub fn cmp(&self, other: &Natural) -> (r: Ordering)
        requires
            self.wf(),
            other.wf(),
        ensures
            r == Ordering::Less <==> self@ < other@,
            r == Ordering::Equal <==> self@ == other@,
            r == Ordering::Greater <==> self@ > other@,
    {
        match (self, other) {
            (Natural::Small(x), Natural::Small(y)) => {
                if x < y {
                    Ordering::Less
                } else if x == y {
                    Ordering::Equal
                } else {
                    Ordering::Greater
                }
            }
            (Natural::Small(_), Natural::Large(_)) => {
                proof {
                    other.lemma_wf_large_ge();
                }
                Ordering::Less
            }
            (Natural::Large(_), Natural::Small(_)) => {
                proof {
                    self.lemma_wf_large_ge();
                }
                Ordering::Greater
            }
            (Natural::Large(va), Natural::Large(vb)) => cmp_limbs_canonical(va, vb),
        }
    }

    /// Whether the value is even.
    pub fn is_even(&self) -> (r: bool)
        ensures
            r == (self@ % 2 == 0),
    {
        match self {
            Natural::Small(x) => {
                let b = *x % 2;
                b == 0
            }
            Natural::Large(v) => {
                proof {
                    lemma_limbs_val_parity(v@);
                }
                if v.len() == 0 {
                    true
                } else {
                    v[0] % 2 == 0
                }
            }
        }
    }

    /// Whether the value is odd.
    pub fn is_odd(&self) -> (r: bool)
        ensures
            r == (self@ % 2 != 0),
    {
        !self.is_even()
    }

    /// The value as one machine word, if it fits.
    pub fn to_u32(&self) -> (r: Option<u32>)
        requires
            self.wf(),
        ensures
            match r {
                Some(x) => self@ == x,
                None => self@ > u32::MAX,
            },
    {
        match self {
            Natural::Small(x) => Some(*x),
            Natural::Large(_) => {
                proof {
                    self.lemma_wf_large_ge();
                }
                None
            }
        }
    }
}

impl Clone for Natural {
    /// Deep copy: the limb vector is duplicated.
    fn clone(&self) -> (r: Natural)
        ensures
            r.limbs() == self.limbs(),
            r is Small <==> self is Small,
            r@ == self@,
            r.wf() == self.wf(),
    {
        match self {
            Natural::Small(x) => Natural::Small(*x),
            Natural::Large(v) => {
                let c = clone_limbs(v);
                proof {
                    assert(c@ =~= v@);
                }
                Natural::Large(c)
            }
        }
    }
}

impl PartialEq for Natural {
    /// Two canonical values are equal exactly when they denote the same
    /// number; equality on non-canonical representations is structural.
    fn eq(&self, other: &Natural) -> (r: bool) {
        match (self, other) {
            (Natural::Small(x), Natural::Small(y)) => x == y,
            (Natural::Large(va), Natural::Large(vb)) => eq_limbs(va, vb),
            _ => false,
        }
    }
}

impl vstd::std_specs::cmp::PartialEqSpecImpl for Natural {
    open spec fn obeys_eq_spec() -> bool {
        true
    }

    open spec fn eq_spec(&self, other: &Natural) -> bool {
        self.same_repr(other)
    }
}

impl Eq for Natural {}

/// Copies a limb vector.
fn clone_limbs(v: &Vec<u32>) -> (r: Vec<u32>)
    ensures
        r@ == v@,
{
    let mut out: Vec<u32> = Vec::new();
    let mut i: usize = 0;
    while i < v.len()
        invariant
            i <= v@.len(),
            out@ =~= v@.take(i as int),
        decreases v@.len() - i,
    {
        out.push(v[i]);
        i += 1;
    }
    proof {
        assert(out@ =~= v@);
    }
    out
}

/// Compares two limb vectors limb by limb.
fn eq_limbs(a: &Vec<u32>, b: &Vec<u32>) -> (r: bool)
    ensures
        r == (a@ == b@),
{
    if a.len() != b.len() {
        proof {
            assert(a@.len() != b@.len());
        }
        return false;
    }
    let mut i: usize = 0;
    while i < a.len()
        invariant
            i <= a@.len(),
            a@.len() == b@.len(),
            forall|j: int| 0 <= j < i ==> a@[j] == b@[j],
        decreases a@.len() - i,
    {
        if a[i] != b[i] {
            return false;
        }
        i += 1;
    }
    proof {
        assert(a@ =~= b@);
    }
    true
}

/// Compares two trimmed limb vectors of length at least one.
fn cmp_limbs_canonical(a: &Vec<u32>, b: &Vec<u32>) -> (r: Ordering)
    requires
        a@.len() > 0,
        b@.len() > 0,
        a@.last() != 0,
        b@.last() != 0,
    ensures
        r == Ordering::Less <==> limbs_val(a@) < limbs_val(b@),
        r == Ordering::Equal <==> limbs_val(a@) == limbs_val(b@),
        r == Ordering::Greater <==> limbs_val(a@) > limbs_val(b@),
{
    if a.len() < b.len() {
        proof {
            lemma_limbs_val_bound(a@);
            lemma_limbs_val_lower(b@);
            lemma_weight_monotonic(a@.len(), (b@.len() - 1) as nat);
        }
        return Ordering::Less;
    }
    if a.len() > b.len() {
        proof {
            lemma_limbs_val_bound(b@);
            lemma_limbs_val_lower(a@);
            lemma_weight_monotonic(b@.len(), (a@.len() - 1) as nat);
        }
        return Ordering::Greater;
    }
    let mut i: usize = a.len();
    while i > 0
        invariant
            i <= a@.len(),
            a@.len() == b@.len(),
            forall|j: int| i <= j < a@.len() ==> a@[j] == b@[j],
        decreases i,
    {
        i -= 1;
        if a[i] < b[i] {
            proof {
                lemma_limbs_val_cmp(a@, b@, i as nat);
            }
            return Ordering::Less;
        }
        if a[i] > b[i] {
            proof {
                lemma_limbs_val_cmp(b@, a@, i as nat);
            }
            return Ordering::Greater;
        }
    }
    proof {
        assert(a@ =~= b@);
    }
    Ordering::Equal
}

/// Weights grow with position.
pub proof fn lemma_weight_monotonic(i: nat, j: nat)
    requires
        i <= j,
    ensures
        limb_weight(i) <= limb_weight(j),
{
    if i < j {
        lemma_pow2_strictly_increases(32 * i, 32 * j);
    }
}

/// The parity of a limb vector's value is the parity of its first limb.
pub proof fn lemma_limbs_val_parity(s: Seq<u32>)
    ensures
        s.len() == 0 ==> limbs_val(s) % 2 == 0,
        s.len() > 0 ==> limbs_val(s) % 2 == s[0] % 2,
{
    if s.len() > 0 {
        lemma_limbs_val_split(s, 1);
        lemma_limbs_val_singleton(s.take(1));
        assert(limbs_val(s.take(1)) == s[0]);
        lemma2_to64();
        assert(32 * 1nat == 32);
        let hi = limbs_val(s.skip(1));
        assert(limb_weight(1) * hi == 2 * (0x8000_0000 * hi)) by (nonlinear_arith)
            requires limb_weight(1) == 0x1_0000_0000;
        vstd::arithmetic::div_mod::lemma_mod_multiples_vanish(0x8000_0000 * hi as int, s[0] as int, 2);
    }
}

/// A 64-bit word splits into its 32-bit halves.
pub proof fn lemma_u64_halves(x: u64)
    ensures
        x == (x as u32) + 0x1_0000_0000 * ((x >> 32) as u32),
        x > 0xffff_ffff ==> ((x >> 32) as u32) != 0,
{
    assert(x == (x as u32) + 0x1_0000_0000 * ((x >> 32) as u32)
        && (x > 0xffff_ffff ==> ((x >> 32) as u32) != 0)) by (bit_vector);
}

/// Canonical limb vectors denoting the same value are identical.
pub proof fn lemma_limbs_unique(a: Seq<u32>, b: Seq<u32>)
    requires
        a.len() > 0,
        b.len() > 0,
        a.last() != 0,
        b.last() != 0,
        limbs_val(a) == limbs_val(b),
    ensures
        a.len() == b.len(),
        forall|j: int| 0 <= j < a.len() ==> a[j] == b[j],
    decreases a.len(),
{
    if a.len() < b.len() {
        lemma_limbs_val_bound(a);
        lemma_limbs_val_lower(b);
        lemma_weight_monotonic(a.len(), (b.len() - 1) as nat);
    } else if a.len() > b.len() {
        lemma_limbs_val_bound(b);
        lemma_limbs_val_lower(a);
        lemma_weight_monotonic(b.len(), (a.len() - 1) as nat);
    } else {
        lemma_limbs_low_unique(a, b);
    }
}

/// Same-length limb vectors with the same value are identical.
pub proof fn lemma_limbs_low_unique(a: Seq<u32>, b: Seq<u32>)
    requires
        a.len() == b.len(),
        limbs_val(a) == limbs_val(b),
    ensures
        forall|j: int| 0 <= j < a.len() ==> a[j] == b[j],
    decreases a.len(),
{
    if a.len() > 0 {
        let n = (a.len() - 1) as nat;
        if a.last() < b.last() {
            lemma_limbs_val_cmp(a, b, n);
        } else if a.last() > b.last() {
            lemma_limbs_val_cmp(b, a, n);
        } else {
            lemma_limbs_low_unique(a.drop_last(), b.drop_last());
            assert forall|j: int| 0 <= j < a.len() implies a[j] == b[j] by {
                if j < a.len() - 1 {
                    assert(a.drop_last()[j] == a[j]);
                    assert(b.drop_last()[j] == b[j]);
                }
            }
        }
    }
}

} // verus!
