//! Powers of two.

use vstd::arithmetic::power2::{is_pow2, pow2};
use vstd::prelude::*;

verus! {

/// The logarithm of a power of two.
pub(crate) fn exact_log2(n: usize) -> (r: usize)
    requires
        is_pow2(n as int),
    ensures
        n == pow2(r as nat),
{
    let mut rest: usize = n;
    let mut r: usize = 0;
    proof {
        vstd::arithmetic::power2::lemma2_to64();
    }
    while rest > 1
        invariant
            is_pow2(rest as int),
            n == rest * pow2(r as nat),
            r + rest <= n,
        decreases rest,
    {
        proof {
            reveal_with_fuel(is_pow2, 2);
            vstd::arithmetic::power2::lemma_pow2_unfold((r + 1) as nat);
            let half = rest as int / 2;
            let p = pow2(r as nat) as int;
            assert(rest * p == half * (2 * p)) by (nonlinear_arith)
                requires
                    rest == 2 * half,
            ;
        }
        rest = rest / 2;
        r = r + 1;
    }
    proof {
        reveal(is_pow2);
        assert(rest == 1);
        assert(rest * pow2(r as nat) == pow2(r as nat));
    }
    r
}

/// What `pow2` gives passes the test `is_pow2`.
pub proof fn lemma_is_pow2(e: nat)
    ensures
        is_pow2(pow2(e) as int),
{
    assert(vstd::arithmetic::power::pow(2, e) == pow2(e)) by {
        vstd::arithmetic::power2::lemma_pow2(e);
    }
    vstd::arithmetic::power2::is_pow2_equiv(pow2(e) as int);
}

/// Equal powers of two have equal exponents.
pub proof fn lemma_pow2_injective(a: nat, b: nat)
    requires
        pow2(a) == pow2(b),
    ensures
        a == b,
{
    if a < b {
        vstd::arithmetic::power2::lemma_pow2_strictly_increases(a, b);
    } else if b < a {
        vstd::arithmetic::power2::lemma_pow2_strictly_increases(b, a);
    }
}

/// Full chunks lie inside the list.
pub proof fn lemma_chunk_bounds(i: int, len: int, size: int)
    requires
        0 <= i < len / size,
        0 < size,
        0 <= len,
    ensures
        0 <= i * size <= (i + 1) * size <= len,
        (i + 1) * size - i * size == size,
{
    assert(0 <= i * size <= (i + 1) * size <= len && (i + 1) * size - i * size == size)
        by (nonlinear_arith)
        requires
            0 <= i < len / size,
            0 < size,
            0 <= len,
    ;
}

} // verus!
