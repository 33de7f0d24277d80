//! Integer helpers: ceiling division and rounding up to a multiple.

use vstd::prelude::*;

verus! {

/// `ceil(a / b)` as a mathematical integer.
pub open spec fn div_ceil_spec(a: int, b: int) -> int {
    (a + b - 1) / b
}

/// The least multiple of `b` that is at least `a` (for `a >= 0`, `b > 0`).
pub open spec fn round_up_spec(a: int, b: int) -> int {
    div_ceil_spec(a, b) * b
}

/// `round_up_spec(a, b)` is a multiple of `b`, is at least `a`, and is less
/// than `a + b`: it is the least multiple of `b` that is not below `a`.
pub proof fn lemma_round_up(a: int, b: int)
    requires
        a >= 0,
        b > 0,
    ensures
        round_up_spec(a, b) % b == 0,
        a <= round_up_spec(a, b) < a + b,
        a % b == 0 ==> round_up_spec(a, b) == a,
{
    let q = (a + b - 1) / b;
    assert((a + b - 1) == b * q + (a + b - 1) % b && 0 <= (a + b - 1) % b < b) by {
        vstd::arithmetic::div_mod::lemma_fundamental_div_mod(a + b - 1, b);
        vstd::arithmetic::div_mod::lemma_mod_bound(a + b - 1, b);
    }
    assert(q * b == b * q) by (nonlinear_arith);
    assert((q * b) % b == 0) by {
        vstd::arithmetic::div_mod::lemma_mod_multiples_basic(q, b);
    }
    if a % b == 0 {
        vstd::arithmetic::div_mod::lemma_fundamental_div_mod(a, b);
        let k = a / b;
        assert(a == b * k);
        // q * b and a are both multiples of b within one b of each other
        assert(q == k) by (nonlinear_arith)
            requires
                a == b * k,
                a <= q * b < a + b,
                b > 0,
        ;
        assert(q * b == a) by (nonlinear_arith)
            requires
                q == k,
                a == b * k,
        ;
    }
}

/// Ceiling division: the number of `b`-sized pieces needed to cover `a`.
pub fn div_ceil(a: u64, b: u64) -> (r: u64)
    requires
        b > 0,
        a + b - 1 <= u64::MAX,
    ensures
        r == div_ceil_spec(a as int, b as int),
{
    (a + (b - 1)) / b
}

/// Rounds `a` up to the nearest multiple of `b`.
pub fn round_up(a: u64, b: u64) -> (r: u64)
    requires
        b > 0,
        a + b - 1 <= u64::MAX,
    ensures
        r == round_up_spec(a as int, b as int),
        r % b == 0,
        a <= r < a + b,
{
    proof {
        lemma_round_up(a as int, b as int);
    }
    div_ceil(a, b) * b
}

} // verus!
