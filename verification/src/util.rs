//! Test and measurement helpers over the number types.
//!
//! The equality and ordering helpers check a strictly increasing list of
//! values pairwise against the order of their indices; the bucketers report
//! the bit size used to group measurements.

use crate::integer::Integer;
use crate::natural::Natural;
use core::cmp::Ordering;
use vstd::prelude::*;

verus! {

/// Checks that equality on parsed values agrees with equality of indices:
/// values written differently must compare unequal, every value equal to
/// itself. Reports the first offending pair, or `None` when all pairs agree.
pub fn test_eq_helper(strings: &Vec<Natural>) -> (r: Option<(usize, usize)>)
    requires
        forall|j: int| 0 <= j < strings@.len() ==> (#[trigger] strings@[j]).wf(),
    ensures
        r is None <==> (forall|x: int, y: int|
            0 <= x < strings@.len() && 0 <= y < strings@.len()
                ==> ((strings@[x]@ == strings@[y]@) <==> x == y)),
{
    let mut i: usize = 0;
    while i < strings.len()
        invariant
            i <= strings@.len(),
            forall|j: int| 0 <= j < strings@.len() ==> (#[trigger] strings@[j]).wf(),
            forall|x: int, y: int|
                0 <= x < i && 0 <= y < strings@.len()
                    ==> ((strings@[x]@ == strings@[y]@) <==> x == y),
        decreases strings@.len() - i,
    {
        let mut j: usize = 0;
        while j < strings.len()
            invariant
                i < strings@.len(),
                j <= strings@.len(),
                forall|jj: int| 0 <= jj < strings@.len() ==> (#[trigger] strings@[jj]).wf(),
                forall|y: int| 0 <= y < j
                    ==> ((strings@[i as int]@ == strings@[y]@) <==> i == y),
            decreases strings@.len() - j,
        {
            let eq = matches!(strings[i].cmp(&strings[j]), Ordering::Equal);
            if eq != (i == j) {
                return Some((i, j));
            }
            j += 1;
        }
        i += 1;
    }
    None
}

/// Checks that ordering on values agrees with ordering of indices, for a
/// list meant to be strictly increasing. Reports the first offending pair.
pub fn test_cmp_helper(strings: &Vec<Natural>) -> (r: Option<(usize, usize)>)
    requires
        forall|j: int| 0 <= j < strings@.len() ==> (#[trigger] strings@[j]).wf(),
    ensures
        r is None <==> (forall|x: int, y: int|
            0 <= x < strings@.len() && 0 <= y < strings@.len()
                ==> ((strings@[x]@ < strings@[y]@) <==> x < y)),
{
    let mut i: usize = 0;
    while i < strings.len()
        invariant
            i <= strings@.len(),
            forall|j: int| 0 <= j < strings@.len() ==> (#[trigger] strings@[j]).wf(),
            forall|x: int, y: int|
                0 <= x < i && 0 <= y < strings@.len()
                    ==> ((strings@[x]@ < strings@[y]@) <==> x < y),
        decreases strings@.len() - i,
    {
        let mut j: usize = 0;
        while j < strings.len()
            invariant
                i < strings@.len(),
                j <= strings@.len(),
                forall|jj: int| 0 <= jj < strings@.len() ==> (#[trigger] strings@[jj]).wf(),
                forall|y: int| 0 <= y < j
                    ==> ((strings@[i as int]@ < strings@[y]@) <==> i < y),
            decreases strings@.len() - j,
        {
            let lt = matches!(strings[i].cmp(&strings[j]), Ordering::Less);
            if lt != (i < j) {
                return Some((i, j));
            }
            j += 1;
        }
        i += 1;
    }
    None
}

/// As `test_cmp_helper` for `Integer` values under their signed order.
pub fn test_custom_cmp_helper(strings: &Vec<Integer>) -> (r: Option<(usize, usize)>)
    requires
        forall|j: int| 0 <= j < strings@.len() ==> (#[trigger] strings@[j]).wf(),
    ensures
        r is None <==> (forall|x: int, y: int|
            0 <= x < strings@.len() && 0 <= y < strings@.len()
                ==> ((strings@[x]@ < strings@[y]@) <==> x < y)),
{
    let mut i: usize = 0;
    while i < strings.len()
        invariant
            i <= strings@.len(),
            forall|j: int| 0 <= j < strings@.len() ==> (#[trigger] strings@[j]).wf(),
            forall|x: int, y: int|
                0 <= x < i && 0 <= y < strings@.len()
                    ==> ((strings@[x]@ < strings@[y]@) <==> x < y),
        decreases strings@.len() - i,
    {
        let mut j: usize = 0;
        while j < strings.len()
            invariant
                i < strings@.len(),
                j <= strings@.len(),
                forall|jj: int| 0 <= jj < strings@.len() ==> (#[trigger] strings@[jj]).wf(),
                forall|y: int| 0 <= y < j
                    ==> ((strings@[i as int]@ < strings@[y]@) <==> i < y),
            decreases strings@.len() - j,
        {
            let lt = matches!(strings[i].cmp(&strings[j]), Ordering::Less);
            if lt != (i < j) {
                return Some((i, j));
            }
            j += 1;
        }
        i += 1;
    }
    None
}

/// Expands a run-length encoding: each pair contributes its value as many
/// times as its count says.
pub fn rle_decode(ps: &Vec<(u32, usize)>) -> (out: Vec<u32>)
    ensures
        out@ == rle_spec(ps@),
{
    let mut out: Vec<u32> = Vec::new();
    let mut i: usize = 0;
    proof {
        assert(ps@.take(0) =~= Seq::<(u32, usize)>::empty());
    }
    while i < ps.len()
        invariant
            i <= ps@.len(),
            out@ == rle_spec(ps@.take(i as int)),
        decreases ps@.len() - i,
    {
        let (x, count) = ps[i];
        let mut c: usize = 0;
        while c < count
            invariant
                c <= count,
                i < ps@.len(),
                (x, count) == ps@[i as int],
                out@ == rle_spec(ps@.take(i as int)).add(Seq::new(c as nat, |k: int| x)),
            decreases count - c,
        {
            proof {
                assert(out@.push(x) =~= rle_spec(ps@.take(i as int)).add(
                    Seq::new((c + 1) as nat, |k: int| x),
                ));
            }
            out.push(x);
            c += 1;
        }
        proof {
            assert(ps@.take(i + 1).drop_last() =~= ps@.take(i as int));
            assert(ps@.take(i + 1).last() == ps@[i as int]);
            assert(out@ =~= rle_spec(ps@.take(i + 1)));
        }
        i += 1;
    }
    proof {
        assert(ps@.take(ps@.len() as int) =~= ps@);
    }
    out
}

/// The sequence a run-length encoding denotes.
pub open spec fn rle_spec(ps: Seq<(u32, usize)>) -> Seq<u32>
    decreases ps.len(),
{
    if ps.len() == 0 {
        Seq::empty()
    } else {
        rle_spec(ps.drop_last()).add(Seq::new(ps.last().1 as nat, |k: int| ps.last().0))
    }
}

/// The bit size of a value, used to bucket measurements.
pub fn natural_bit_bucketer(x: &Natural) -> (r: u64)
    requires
        x.wf(),
        x.limbs().len() < 0x0400_0000_0000_0000,
    ensures
        x@ == 0 ==> r == 0,
        x@ > 0 ==> vstd::arithmetic::power2::pow2((r - 1) as nat) <= x@
            < vstd::arithmetic::power2::pow2(r as nat),
{
    x.significant_bits()
}

/// The bit size of the first component of a pair.
pub fn pair_1_natural_bit_bucketer(x: &Natural, _other: u64) -> (r: u64)
    requires
        x.wf(),
        x.limbs().len() < 0x0400_0000_0000_0000,
    ensures
        x@ == 0 ==> r == 0,
        x@ > 0 ==> vstd::arithmetic::power2::pow2((r - 1) as nat) <= x@
            < vstd::arithmetic::power2::pow2(r as nat),
{
    x.significant_bits()
}

/// The bit size of the third component of a triple.
pub fn triple_3_natural_bit_bucketer(_a: u64, _b: u64, x: &Natural) -> (r: u64)
    requires
        x.wf(),
        x.limbs().len() < 0x0400_0000_0000_0000,
    ensures
        x@ == 0 ==> r == 0,
        x@ > 0 ==> vstd::arithmetic::power2::pow2((r - 1) as nat) <= x@
            < vstd::arithmetic::power2::pow2(r as nat),
{
    x.significant_bits()
}

/// The bit size of an `Integer`'s magnitude.
pub fn integer_bit_bucketer(x: &Integer) -> (r: u64)
    requires
        x.wf(),
        x.abs.limbs().len() < 0x0400_0000_0000_0000,
    ensures
        x.abs@ == 0 ==> r == 0,
        x.abs@ > 0 ==> vstd::arithmetic::power2::pow2((r - 1) as nat) <= x.abs@
            < vstd::arithmetic::power2::pow2(r as nat),
{
    x.abs.significant_bits()
}

/// The bit size of the third component of a triple of integers.
pub fn triple_3_integer_bit_bucketer(_a: u64, _b: u64, x: &Integer) -> (r: u64)
    requires
        x.wf(),
        x.abs.limbs().len() < 0x0400_0000_0000_0000,
    ensures
        x.abs@ == 0 ==> r == 0,
        x.abs@ > 0 ==> vstd::arithmetic::power2::pow2((r - 1) as nat) <= x.abs@
            < vstd::arithmetic::power2::pow2(r as nat),
{
    x.abs.significant_bits()
}

/// The ratio of the bit sizes of two values.
pub fn natural_bit_ratio_bucketer(x: &Natural, y: &Natural) -> (r: u64)
    requires
        x.wf(),
        y.wf(),
        x.limbs().len() < 0x0400_0000_0000_0000,
        y.limbs().len() < 0x0400_0000_0000_0000,
        y@ > 0,
    ensures
        x@ < y@ ==> r <= 1,
{
    let xbits = x.significant_bits();
    let ybits = y.significant_bits();
    proof {
        vstd::arithmetic::power2::lemma2_to64();
        if ybits == 0 {
            assert(false);
        }
        if (x@ < y@) && xbits > ybits {
            if ybits < xbits - 1 {
                vstd::arithmetic::power2::lemma_pow2_strictly_increases(
                    ybits as nat,
                    (xbits - 1) as nat,
                );
            }
            if x@ == 0 {
                assert(xbits == 0);
            }
            assert(false);
        }
        if (x@ < y@) {
            assert(xbits <= ybits);
            assert(xbits / ybits <= 1) by (nonlinear_arith)
                requires xbits <= ybits, ybits > 0;
        }
    }
    xbits / ybits
}

} // verus!
