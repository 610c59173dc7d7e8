//! Points of the binary hypercube.

use crate::field::Field;
use vstd::arithmetic::power2::pow2;
use vstd::prelude::*;

verus! {

/// A point of the binary hypercube, as the number whose binary digits are its coordinates.
/// The first coordinate is the highest digit.
#[derive(Debug, Clone, Copy, PartialEq, Eq, Structural)]
pub struct BinaryHypercubePoint(pub usize);

/// Coordinate `i` of the point with number `b` in the hypercube of dimension `n`: whether it
/// is one.
pub open spec fn coordinate(n: nat, b: nat, i: int) -> bool {
    (b / pow2((n - 1 - i) as nat)) % 2 == 1
}

/// The point with number `b` in the hypercube of dimension `n`, over the field `F`.
pub open spec fn hypercube_point<F: Field>(n: nat, b: nat) -> Seq<F::Model> {
    Seq::new(
        n,
        |i: int|
            if coordinate(n, b, i) {
                F::one_model()
            } else {
                F::zero_model()
            },
    )
}

/// Adding a multiple of twice a power of two keeps the digit at that power.
proof fn lemma_digit_kept(b: int, p: int, q: int)
    requires
        p > 0,
    ensures
        ((b + 2 * q * p) / p) % 2 == (b / p) % 2,
{
    vstd::arithmetic::div_mod::lemma_hoist_over_denominator(b, 2 * q, p as nat);
}

/// The first coordinate is the highest digit, and the others are those of the rest of the
/// number.
pub proof fn lemma_hypercube_first<F: Field>(n: nat, b: nat)
    requires
        n > 0,
        b < pow2(n),
    ensures
        pow2(n) == 2 * pow2((n - 1) as nat),
        b < pow2((n - 1) as nat) ==> {
            &&& hypercube_point::<F>(n, b)[0] == F::zero_model()
            &&& hypercube_point::<F>(n, b).drop_first() == hypercube_point::<F>((n - 1) as nat, b)
        },
        b >= pow2((n - 1) as nat) ==> {
            &&& hypercube_point::<F>(n, b)[0] == F::one_model()
            &&& hypercube_point::<F>(n, b).drop_first() == hypercube_point::<F>(
                (n - 1) as nat,
                (b - pow2((n - 1) as nat)) as nat,
            )
        },
{
    let half = pow2((n - 1) as nat);
    let m = (n - 1) as nat;
    vstd::arithmetic::power2::lemma_pow2_unfold(n);
    vstd::arithmetic::power2::lemma_pow2_pos(m);
    let rest: nat = if b < half {
        b
    } else {
        (b - half) as nat
    };
    if b < half {
        vstd::arithmetic::div_mod::lemma_basic_div(b as int, half as int);
    } else {
        vstd::arithmetic::div_mod::lemma_basic_div(b - half, half as int);
        vstd::arithmetic::div_mod::lemma_hoist_over_denominator(b - half, 1, half);
        assert forall|i: int| 0 <= i < m implies #[trigger] coordinate(m, rest, i) == coordinate(
            n,
            b,
            i + 1,
        ) by {
            let e = (m - 1 - i) as nat;
            let p = pow2(e) as int;
            let q = pow2(i as nat) as int;
            vstd::arithmetic::power2::lemma_pow2_pos(e);
            vstd::arithmetic::power2::lemma_pow2_adds(i as nat, e);
            vstd::arithmetic::power2::lemma_pow2_unfold(m);
            assert(half == 2 * (q * p));
            assert(2 * (q * p) == 2 * q * p) by (nonlinear_arith);
            lemma_digit_kept(rest as int, p, q);
        }
    }
    assert(hypercube_point::<F>(n, b).drop_first() =~= hypercube_point::<F>(m, rest));
}

} // verus!
