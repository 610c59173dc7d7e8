//! Points that multilinear polynomials are evaluated at.

use crate::algebra::{lemma_power_doubles, power};
use crate::field::{models, Field};
use crate::poly_utils::hypercube::{coordinate, hypercube_point, BinaryHypercubePoint};
use vstd::arithmetic::power2::pow2;
use vstd::prelude::*;

verus! {

/// A point `(x_0, ..., x_{n-1})`.
#[derive(Debug)]
pub struct MultilinearPoint<F>(pub Vec<F>);

impl<F: Clone> Clone for MultilinearPoint<F> {
    fn clone(&self) -> (r: Self)
        ensures
            r.0@.len() == self.0@.len(),
            forall|i: int| 0 <= i < self.0@.len() ==> cloned::<F>(self.0@[i], #[trigger] r.0@[i]),
    {
        MultilinearPoint(self.0.clone())
    }
}

/// The point `(x^(2^(n-1)), ..., x^4, x^2, x)`.
pub open spec fn expanded_point<F: Field>(x: F::Model, n: nat) -> Seq<F::Model> {
    Seq::new(n, |i: int| power::<F>(x, pow2((n - 1 - i) as nat)))
}

/// The sequence in the opposite order.
fn reversed<F: Copy>(values: &Vec<F>) -> (r: Vec<F>)
    ensures
        r@ == values@.reverse(),
{
    let mut r: Vec<F> = Vec::new();
    let mut left: usize = values.len();
    while left > 0
        invariant
            left <= values@.len(),
            r@ == values@.reverse().take(values@.len() - left),
        decreases left,
    {
        left = left - 1;
        r.push(values[left]);
        assert(r@ =~= values@.reverse().take(values@.len() - left));
    }
    assert(values@.reverse().take(values@.len() as int) =~= values@.reverse());
    r
}

impl<F> MultilinearPoint<F> {
    /// How many coordinates the point has.
    pub fn num_variables(&self) -> (r: usize)
        ensures
            r == self.0@.len(),
    {
        self.0.len()
    }
}

impl<F: Field> MultilinearPoint<F> {
    /// The point of the binary hypercube of dimension `num_variables` with the given number.
    pub fn from_binary_hypercube_point(point: BinaryHypercubePoint, num_variables: usize) -> (r:
        Self)
        ensures
            r.0@.len() == num_variables,
            models(r.0@) == hypercube_point::<F>(num_variables as nat, point.0 as nat),
    {
        let mut low_first: Vec<F> = Vec::new();
        let mut rest: usize = point.0;
        let mut i: usize = 0;
        proof {
            vstd::arithmetic::power2::lemma2_to64();
        }
        while i < num_variables
            invariant
                i <= num_variables,
                low_first@.len() == i,
                rest == point.0 as nat / pow2(i as nat),
                forall|k: int|
                    0 <= k < i ==> (#[trigger] low_first@[k]).model() == (if coordinate(
                        num_variables as nat,
                        point.0 as nat,
                        num_variables - 1 - k,
                    ) {
                        F::one_model()
                    } else {
                        F::zero_model()
                    }),
            decreases num_variables - i,
        {
            let digit = if rest % 2 == 1 {
                F::one()
            } else {
                F::zero()
            };
            low_first.push(digit);
            proof {
                vstd::arithmetic::power2::lemma_pow2_unfold((i + 1) as nat);
                vstd::arithmetic::power2::lemma_pow2_pos(i as nat);
                vstd::arithmetic::div_mod::lemma_div_denominator(
                    point.0 as int,
                    pow2(i as nat) as int,
                    2,
                );
            }
            rest = rest / 2;
            i = i + 1;
        }
        let r = MultilinearPoint(reversed(&low_first));
        assert(models(r.0@) =~= hypercube_point::<F>(num_variables as nat, point.0 as nat));
        r
    }

    /// The point `(x^(2^(n-1)), ..., x^4, x^2, x)` for `n` variables, at which a multilinear
    /// polynomial is worth what the univariate one with the same coefficients is worth at `x`.
    pub fn expand_from_univariate(point: F, num_variables: usize) -> (r: Self)
        ensures
            r.0@.len() == num_variables,
            models(r.0@) == expanded_point::<F>(point.model(), num_variables as nat),
    {
        let mut low_first: Vec<F> = Vec::new();
        let mut cur: F = point;
        let mut i: usize = 0;
        proof {
            F::operators();
            vstd::arithmetic::power2::lemma2_to64();
            F::model_is_element(point);
            F::neutral(point.model());
            F::ring(F::one_model(), point.model(), point.model());
            reveal_with_fuel(power, 2);
        }
        while i < num_variables
            invariant
                i <= num_variables,
                low_first@.len() == i,
                cur.model() == power::<F>(point.model(), pow2(i as nat)),
                forall|k: int|
                    0 <= k < i ==> (#[trigger] low_first@[k]).model() == power::<F>(
                        point.model(),
                        pow2(k as nat),
                    ),
            decreases num_variables - i,
        {
            proof {
                F::operators();
                lemma_power_doubles::<F>(point.model(), pow2(i as nat));
                vstd::arithmetic::power2::lemma_pow2_unfold((i + 1) as nat);
            }
            low_first.push(cur);
            cur = cur * cur;
            i = i + 1;
        }
        let r = MultilinearPoint(reversed(&low_first));
        assert(models(r.0@) =~= expanded_point::<F>(point.model(), num_variables as nat));
        r
    }
}

} // verus!
