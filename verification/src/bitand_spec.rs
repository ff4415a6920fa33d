//! The meaning of bitwise AND on signed values.
//!
//! `int_and` defines two's-complement AND directly on mathematical integers,
//! bit by bit from the low end. The sign-magnitude identities proved here
//! reduce each sign combination to arithmetic over the non-negative
//! `nat_and` and `nat_or`, which is what the limb algorithms compute.

use vstd::prelude::*;

verus! {

/// Bitwise AND of two non-negative values, low bit first.
pub open spec fn nat_and(a: nat, b: nat) -> nat
    decreases a,
{
    if a == 0 || b == 0 {
        0
    } else {
        2 * nat_and(a / 2, b / 2) + (a % 2) * (b % 2)
    }
}

/// Bitwise OR of two non-negative values, low bit first.
pub open spec fn nat_or(a: nat, b: nat) -> nat
    decreases a + b,
{
    if a == 0 {
        b
    } else if b == 0 {
        a
    } else {
        2 * nat_or(a / 2, b / 2) + (if a % 2 == 1 || b % 2 == 1 {
            1nat
        } else {
            0nat
        })
    }
}

/// Two's-complement AND of two integers: negative values carry infinitely
/// many high one bits.
pub open spec fn int_and(x: int, y: int) -> int
    decreases (if x < 0 { -x } else { x }) + (if y < 0 { -y } else { y }),
{
    if x == 0 || y == 0 {
        0
    } else if x == -1 {
        y
    } else if y == -1 {
        x
    } else {
        2 * int_and((x - x % 2) / 2, (y - y % 2) / 2) + (x % 2) * (y % 2)
    }
}

/// AND never exceeds either operand.
pub proof fn lemma_nat_and_le(a: nat, b: nat)
    ensures
        nat_and(a, b) <= a,
        nat_and(a, b) <= b,
    decreases a,
{
    if a == 0 || b == 0 {
    } else {
        lemma_nat_and_le(a / 2, b / 2);
        assert(a == 2 * (a / 2) + a % 2);
        assert(b == 2 * (b / 2) + b % 2);
        assert((a % 2) * (b % 2) <= a % 2 && (a % 2) * (b % 2) <= b % 2) by (nonlinear_arith)
            requires a % 2 <= 1, b % 2 <= 1;
    }
}

/// AND of non-negative values agrees with `nat_and`.
pub proof fn lemma_int_and_pos_pos(a: nat, b: nat)
    ensures
        int_and(a as int, b as int) == nat_and(a, b),
    decreases a,
{
    if a == 0 || b == 0 {
    } else {
        lemma_int_and_pos_pos(a / 2, b / 2);
        assert((a as int - a as int % 2) / 2 == a as int / 2);
        assert((b as int - b as int % 2) / 2 == b as int / 2);
    }
}

/// AND of a non-negative and a negative value subtracts the shared bits:
/// `a & y == a - (a & (-y - 1))` for `y < 0`.
pub proof fn lemma_int_and_pos_neg(a: nat, c: nat)
    ensures
        int_and(a as int, -(c as int) - 1) == a - nat_and(a, c),
    decreases a,
{
    let y = -(c as int) - 1;
    lemma_nat_and_le(a, c);
    if a == 0 {
    } else if y == -1 {
        assert(c == 0);
        assert(nat_and(a, 0) == 0);
    } else {
        lemma_int_and_pos_neg(a / 2, c / 2);
        assert((y - y % 2) / 2 == -((c / 2) as int) - 1) by {
            assert(y == 2 * (-((c / 2) as int) - 1) + (1 - c % 2));
        }
        assert((a as int - a as int % 2) / 2 == a as int / 2);
        assert(y % 2 == 1 - c % 2);
        assert(int_and(a as int, y)
            == 2 * (a / 2 - nat_and(a / 2, c / 2)) + (a % 2) * (1 - c % 2));
        assert(nat_and(a, c) == if c == 0 { 0nat } else {
            2 * nat_and(a / 2, c / 2) + (a % 2) * (c % 2)
        });
        if c == 0 {
            assert(nat_and(a / 2, 0) == 0);
            assert((a % 2) * (1 - (0int)) == a % 2) by (nonlinear_arith)
                requires a % 2 <= 1;
            assert(a == 2 * (a / 2) + a % 2);
        } else {
            assert((a % 2) * (1 - c % 2) + (a % 2) * (c % 2) == a % 2) by (nonlinear_arith)
                requires a % 2 <= 1, c % 2 <= 1;
            assert(a == 2 * (a / 2) + a % 2);
        }
    }
}

/// AND of two negative values in magnitude form:
/// `(-p) & (-q) == -((p - 1 | q - 1) + 1)` for `p, q > 0`.
pub proof fn lemma_int_and_neg_neg(c: nat, d: nat)
    ensures
        int_and(-(c as int) - 1, -(d as int) - 1) == -(nat_or(c, d) as int) - 1,
    decreases c + d,
{
    let x = -(c as int) - 1;
    let y = -(d as int) - 1;
    if c == 0 {
        assert(x == -1);
        assert(nat_or(0, d) == d);
    } else if d == 0 {
        assert(y == -1);
        assert(nat_or(c, 0) == c);
    } else {
        lemma_int_and_neg_neg(c / 2, d / 2);
        assert((x - x % 2) / 2 == -((c / 2) as int) - 1) by {
            assert(x == 2 * (-((c / 2) as int) - 1) + (1 - c % 2));
        }
        assert((y - y % 2) / 2 == -((d / 2) as int) - 1) by {
            assert(y == 2 * (-((d / 2) as int) - 1) + (1 - d % 2));
        }
        assert(x % 2 == 1 - c % 2);
        assert(y % 2 == 1 - d % 2);
        assert(x != -1 && y != -1 && x != 0 && y != 0);
        assert(int_and(x, y)
            == 2 * (-(nat_or(c / 2, d / 2) as int) - 1) + (1 - c % 2) * (1 - d % 2));
        assert(nat_or(c, d)
            == 2 * nat_or(c / 2, d / 2) + (if c % 2 == 1 || d % 2 == 1 { 1nat } else { 0nat }));
        assert((1 - c % 2) * (1 - d % 2)
            == 1 - (if c % 2 == 1 || d % 2 == 1 { 1int } else { 0int })) by (nonlinear_arith)
            requires c % 2 <= 1, d % 2 <= 1;
    }
}

/// AND is commutative.
pub proof fn lemma_int_and_comm(x: int, y: int)
    ensures
        int_and(x, y) == int_and(y, x),
    decreases (if x < 0 { -x } else { x }) + (if y < 0 { -y } else { y }),
{
    if x == 0 || y == 0 || x == -1 || y == -1 {
        if x == -1 && y == -1 {
        }
    } else {
        lemma_int_and_comm((x - x % 2) / 2, (y - y % 2) / 2);
    }
}

/// AND is idempotent.
pub proof fn lemma_int_and_self(x: int)
    ensures
        int_and(x, x) == x,
    decreases (if x < 0 { -x } else { x }),
{
    if x == 0 || x == -1 {
    } else {
        lemma_int_and_self((x - x % 2) / 2);
        assert(x == 2 * ((x - x % 2) / 2) + x % 2);
        assert((x % 2) * (x % 2) == x % 2) by (nonlinear_arith)
            requires 0 <= x % 2 <= 1;
    }
}


/// AND on non-negative values is commutative.
pub proof fn lemma_nat_and_comm_nat(a: nat, b: nat)
    ensures
        nat_and(a, b) == nat_and(b, a),
    decreases a + b,
{
    if a == 0 || b == 0 {
    } else {
        lemma_nat_and_comm_nat(a / 2, b / 2);
        assert((a % 2) * (b % 2) == (b % 2) * (a % 2)) by (nonlinear_arith);
    }
}

} // verus!
