//! Prime generation by ascending search.
//!
//! Each candidate is checked by trial division; the iterators report every
//! prime in order and skip nothing, which their contracts state exactly.

use vstd::prelude::*;

verus! {

/// Primality of a number: at least two, and no proper divisor.
pub open spec fn is_prime(n: nat) -> bool {
    n >= 2 && forall|d: nat| 2 <= d < n ==> #[trigger] (n % d) != 0
}

/// Trial division.
fn is_prime_exec(n: u64) -> (r: bool)
    ensures
        r == is_prime(n as nat),
{
    if n < 2 {
        return false;
    }
    let mut d: u64 = 2;
    while d < n
        invariant
            2 <= d <= n,
            n >= 2,
            forall|k: nat| 2 <= k < d ==> #[trigger] ((n as nat) % k) != 0,
        decreases n - d,
    {
        if n % d == 0 {
            proof {
                assert((n as nat) % (d as nat) == 0);
            }
            return false;
        }
        d += 1;
    }
    true
}

/// An iterator over the primes up to an inclusive bound.
pub struct PrimesLessThanIterator {
    /// The inclusive upper bound.
    pub limit: u64,
    /// The next candidate to examine.
    pub cur: u64,
}

impl PrimesLessThanIterator {
    /// Starts at the first prime; the iterator yields every prime up to and
    /// including `n`.
    pub fn new(n: u64) -> (r: PrimesLessThanIterator)
        ensures
            r.limit == n,
            r.cur == 2,
    {
        PrimesLessThanIterator { limit: n, cur: 2 }
    }

    /// The next prime not yet yielded, in ascending order with none
    /// skipped; `None` once no prime remains below the bound.
    pub fn next(&mut self) -> (r: Option<u64>)
        ensures
            match r {
                Some(p) => {
                    &&& is_prime(p as nat)
                    &&& old(self).cur <= p <= old(self).limit
                    &&& forall|k: nat| old(self).cur <= k < p ==> !is_prime(k)
                    &&& final(self).cur == p + 1
                    &&& final(self).limit == old(self).limit
                }
                None => {
                    &&& forall|k: nat|
                        old(self).cur <= k <= old(self).limit ==> !is_prime(k)
                    &&& final(self).limit == old(self).limit
                }
            },
    {
        let mut c = self.cur;
        while c < self.limit
            invariant
                old(self).cur <= c,
                self.limit == old(self).limit,
                self.cur == old(self).cur,
                forall|k: nat| old(self).cur <= k < c ==> !is_prime(k),
            decreases self.limit - c,
        {
            if is_prime_exec(c) {
                self.cur = c + 1;
                return Some(c);
            }
            c += 1;
        }
        if c <= self.limit && is_prime_exec(c) {
            proof {
                if c == u64::MAX {
                    lemma_max_u64_composite();
                }
            }
            self.cur = c + 1;
            return Some(c);
        }
        None
    }
}

/// The largest machine word is divisible by five.
proof fn lemma_max_u64_composite()
    ensures
        !is_prime(0xffff_ffff_ffff_ffffnat),
{
    assert(0xffff_ffff_ffff_ffff == 5 * 0x3333_3333_3333_3333nat);
    vstd::arithmetic::div_mod::lemma_mod_multiples_basic(0x3333_3333_3333_3333, 5);
    assert((0xffff_ffff_ffff_ffffnat) % 5 == 0);
}

/// An iterator over all primes that fit the machine word.
pub struct PrimesIterator {
    /// The next candidate to examine.
    pub cur: u64,
}

impl PrimesIterator {
    /// Starts at the first prime.
    pub fn new() -> (r: PrimesIterator)
        ensures
            r.cur == 2,
    {
        PrimesIterator { cur: 2 }
    }

    /// The next prime, in ascending order with none skipped; `None` once no
    /// prime remains in the machine word's range.
    pub fn next(&mut self) -> (r: Option<u64>)
        ensures
            match r {
                Some(p) => {
                    &&& is_prime(p as nat)
                    &&& old(self).cur <= p
                    &&& forall|k: nat| old(self).cur <= k < p ==> !is_prime(k)
                    &&& final(self).cur == p + 1
                }
                None => forall|k: nat|
                    old(self).cur <= k <= u64::MAX ==> !is_prime(k),
            },
    {
        let mut c = self.cur;
        loop
            invariant
                old(self).cur <= c,
                self.cur == old(self).cur,
                forall|k: nat| old(self).cur <= k < c ==> !is_prime(k),
            ensures
                (forall|k: nat| old(self).cur <= k < c ==> !is_prime(k)) && (is_prime(c as nat)
                    && old(self).cur <= c || (c == u64::MAX && !is_prime(c as nat))),
            decreases u64::MAX - c,
        {
            if is_prime_exec(c) {
                break;
            }
            if c == u64::MAX {
                break;
            }
            c += 1;
        }
        if is_prime_exec(c) {
            proof {
                if c == u64::MAX {
                    lemma_max_u64_composite();
                }
            }
            self.cur = c + 1;
            Some(c)
        } else {
            None
        }
    }
}


/// Whether bit `i` of a little-endian word sequence is set.
pub open spec fn seq_bit(s: Seq<u64>, i: nat) -> bool {
    ((s[(i / 64) as int] >> ((i % 64) as u64)) & 1) == 1
}

/// The position of the next clear bit at or after `start`, scanning the
/// words of `xs` as one bit sequence; `None` when every later bit is set.
pub fn limbs_index_of_next_false_bit(xs: &[u64], start: u64) -> (r: Option<u64>)
    requires
        xs@.len() < 0x0100_0000_0000_0000,
    ensures
        match r {
            Some(k) => {
                &&& start <= k < 64 * xs@.len()
                &&& !seq_bit(xs@, k as nat)
                &&& forall|j: nat| start <= j < k ==> seq_bit(xs@, j)
            }
            None => forall|j: nat| start <= j < 64 * xs@.len() ==> seq_bit(xs@, j),
        },
{
    let total: u64 = 64 * xs.len() as u64;
    let mut i: u64 = start;
    while i < total
        invariant
            start <= i,
            total == 64 * xs@.len(),
            xs@.len() < 0x0100_0000_0000_0000,
            forall|j: nat| start <= j < i ==> seq_bit(xs@, j),
        decreases total - i,
    {
        let limb = xs[(i / 64) as usize];
        let sh = i % 64;
        let bit = (limb >> sh) & 1;
        proof {
            assert((limb >> sh) & 1 == 0 || (limb >> sh) & 1 == 1) by (bit_vector);
            assert(((i as nat) / 64) as int == (i / 64) as int);
            assert((i as nat) % 64 == sh as nat);
        }
        if bit == 0 {
            return Some(i);
        }
        proof {
            assert(seq_bit(xs@, i as nat));
        }
        i += 1;
    }
    None
}

} // verus!
