//! Univariate polynomials as lists of coefficients.

use crate::algebra::{lemma_univariate_step, univariate_eval};
use crate::field::{models, Field};
use vstd::prelude::*;

verus! {

/// A univariate polynomial. The coefficient of `x^i` is at position `i`.
#[derive(Debug)]
pub struct DensePolynomial<F> {
    pub coeffs: Vec<F>,
}

impl<F: Clone> Clone for DensePolynomial<F> {
    fn clone(&self) -> (r: Self)
        ensures
            r.coeffs@.len() == self.coeffs@.len(),
            forall|i: int|
                0 <= i < self.coeffs@.len() ==> cloned::<F>(
                    self.coeffs@[i],
                    #[trigger] r.coeffs@[i],
                ),
    {
        DensePolynomial { coeffs: self.coeffs.clone() }
    }
}

/// The list without the zeros at its end.
pub open spec fn trimmed<F: Field>(coeffs: Seq<F>) -> Seq<F>
    decreases coeffs.len(),
{
    if coeffs.len() > 0 && coeffs.last().model() == F::zero_model() {
        trimmed(coeffs.drop_last())
    } else {
        coeffs
    }
}

impl<F: Field> DensePolynomial<F> {
    /// The polynomial with the given coefficients. Zeros at the end of the list are dropped.
    pub fn from_coefficients_vec(coeffs: Vec<F>) -> (r: Self)
        ensures
            r.coeffs@ == trimmed(coeffs@),
    {
        let mut kept = coeffs;
        while kept.len() > 0 && kept[kept.len() - 1].is_zero()
            invariant
                trimmed(kept@) == trimmed(coeffs@),
            ensures
                kept@ == trimmed(coeffs@),
            decreases kept@.len(),
        {
            kept.pop();
        }
        DensePolynomial { coeffs: kept }
    }

    /// The polynomial with the given coefficients. Zeros at the end of the list are dropped.
    pub fn from_coefficients_slice(coeffs: &[F]) -> (r: Self)
        ensures
            r.coeffs@ == trimmed(coeffs@),
    {
        Self::from_coefficients_vec(vstd::slice::slice_to_vec(coeffs))
    }

    /// The value at `point`.
    pub fn evaluate(&self, point: &F) -> (r: F)
        ensures
            r.model() == univariate_eval::<F>(models(self.coeffs@), point.model()),
    {
        let mut r: F = F::zero();
        let mut left: usize = self.coeffs.len();
        let ghost all = models(self.coeffs@);
        proof {
            assert(all.skip(all.len() as int) =~= Seq::empty());
        }
        while left > 0
            invariant
                all == models(self.coeffs@),
                left <= self.coeffs@.len(),
                r.model() == univariate_eval::<F>(all.skip(left as int), point.model()),
            decreases left,
        {
            left = left - 1;
            proof {
                F::operators();
                F::model_is_element(self.coeffs@[left as int]);
                lemma_univariate_step::<F>(all.skip(left as int), point.model());
                assert(all.skip(left as int).drop_first() =~= all.skip(left + 1));
            }
            r = r * *point + self.coeffs[left];
        }
        assert(all.skip(0) =~= all);
        r
    }
}

/// Dropping zeros at the end of the list of coefficients keeps the polynomial.
pub proof fn lemma_trimmed_keeps_value<F: Field>(coeffs: Seq<F>, x: F::Model)
    ensures
        univariate_eval::<F>(models(trimmed(coeffs)), x) == univariate_eval::<F>(
            models(coeffs),
            x,
        ),
    decreases coeffs.len(),
{
    if coeffs.len() > 0 && coeffs.last().model() == F::zero_model() {
        lemma_trimmed_keeps_value(coeffs.drop_last(), x);
        crate::algebra::lemma_univariate_zero_last::<F>(models(coeffs), x);
        assert(models(coeffs.drop_last()) =~= models(coeffs).drop_last());
    }
}

} // verus!
