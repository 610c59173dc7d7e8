//! Multilinear polynomials as their values on the binary hypercube.

use crate::arithmetic::{exact_log2, lemma_pow2_injective};
use core::ops::Index;
use vstd::arithmetic::power2::{is_pow2, pow2};
use vstd::prelude::*;

verus! {

/// A multilinear polynomial, as its values on the binary hypercube, in the order of the
/// points' numbers.
#[derive(Debug)]
pub struct EvaluationsList<F> {
    /// The values, `2^num_variables` of them.
    evals: Vec<F>,
    /// How many variables the polynomial has.
    num_variables: usize,
}

impl<F> View for EvaluationsList<F> {
    type V = Seq<F>;

    /// The values.
    closed spec fn view(&self) -> Seq<F> {
        self.evals@
    }
}

impl<F> EvaluationsList<F> {
    /// How many variables the polynomial has.
    pub closed spec fn variables(&self) -> nat {
        self.num_variables as nat
    }

    /// There is one value for each point of the hypercube.
    pub open spec fn well_formed(&self) -> bool {
        self@.len() == pow2(self.variables())
    }

    #[verifier::type_invariant]
    spec fn one_per_point(self) -> bool {
        self.well_formed()
    }

    /// The polynomial with the given values. Their number is a power of two.
    pub fn new(evals: Vec<F>) -> (r: Self)
        requires
            is_pow2(evals@.len() as int),
        ensures
            r@ == evals@,
            r.well_formed(),
            forall|n: nat| evals@.len() == #[trigger] pow2(n) ==> r.variables() == n,
    {
        let num_variables = exact_log2(evals.len());
        proof {
            assert forall|n: nat| evals@.len() == #[trigger] pow2(n) implies num_variables == n by {
                lemma_pow2_injective(num_variables as nat, n);
            }
        }
        EvaluationsList { evals, num_variables }
    }

    /// The values.
    pub fn evals(&self) -> (r: &[F])
        ensures
            r@ == self@,
            self.well_formed(),
    {
        proof {
            use_type_invariant(self);
        }
        self.evals.as_slice()
    }

    /// How many variables the polynomial has.
    pub fn num_variables(&self) -> (r: usize)
        ensures
            r == self.variables(),
            self.well_formed(),
    {
        proof {
            use_type_invariant(self);
        }
        self.num_variables
    }
}

impl<F> vstd::std_specs::core::IndexSpecImpl<usize> for EvaluationsList<F> {
    open spec fn index_req(&self, index: &usize) -> bool {
        *index < self@.len()
    }
}

impl<F> Index<usize> for EvaluationsList<F> {
    type Output = F;

    /// The value at the point with the given number.
    fn index(&self, index: usize) -> (r: &F)
        ensures
            *r == self@[index as int],
    {
        &self.evals[index]
    }
}

} // verus!
