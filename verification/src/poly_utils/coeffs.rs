//! Multilinear polynomials in coefficient form.

use crate::algebra::{
    lemma_nested_eval, lemma_no_variables, lemma_split_first, monomial, multilinear_eval,
    nested_eval, total, univariate_eval,
};
use crate::arithmetic::{exact_log2, lemma_chunk_bounds, lemma_is_pow2, lemma_pow2_injective};
use crate::field::{embedded, lemma_models_are_elements, models, ExtensionField, Field};
use crate::ntt::{are_hypercube_values, wavelet_transform};
use crate::parallel::par_map_chunks_exact;
use crate::poly_utils::dense::{lemma_trimmed_keeps_value, trimmed, DensePolynomial};
use crate::poly_utils::evals::EvaluationsList;
use crate::poly_utils::hypercube::{hypercube_point, BinaryHypercubePoint};
use crate::poly_utils::multilinear::MultilinearPoint;
use core::mem::size_of;
use vstd::arithmetic::power2::{is_pow2, pow2};
use vstd::prelude::*;

verus! {

/// A multilinear polynomial in coefficient form.
///
/// The coefficient at position `j` belongs to the monomial with index `j`: the product of the
/// variables whose binary digit in `j` is one, where the first variable has the highest digit.
/// With the variables `X_0` and `X_1` the coefficients are those of `1`, `X_1`, `X_0` and
/// `X_0 * X_1`.
#[derive(Debug)]
pub struct CoefficientList<F> {
    /// The coefficients, `2^num_variables` of them.
    coeffs: Vec<F>,
    /// How many variables the polynomial has.
    num_variables: usize,
}

impl<F> View for CoefficientList<F> {
    type V = Seq<F>;

    /// The coefficients.
    closed spec fn view(&self) -> Seq<F> {
        self.coeffs@
    }
}

impl<F: Clone> Clone for CoefficientList<F> {
    fn clone(&self) -> (r: Self)
        ensures
            r.variables() == self.variables(),
            r.well_formed(),
            r@.len() == self@.len(),
            forall|i: int| 0 <= i < self@.len() ==> cloned::<F>(self@[i], #[trigger] r@[i]),
    {
        proof {
            use_type_invariant(self);
        }
        CoefficientList { coeffs: self.coeffs.clone(), num_variables: self.num_variables }
    }
}

impl<F> CoefficientList<F> {
    /// How many variables the polynomial has.
    pub closed spec fn variables(&self) -> nat {
        self.num_variables as nat
    }

    /// There is one coefficient for each monomial.
    pub open spec fn well_formed(&self) -> bool {
        self@.len() == pow2(self.variables())
    }

    #[verifier::type_invariant]
    spec fn one_per_monomial(self) -> bool {
        self.well_formed()
    }

    /// The polynomial with the given coefficients. Their number is a power of two.
    pub fn new(coeffs: Vec<F>) -> (r: Self)
        requires
            is_pow2(coeffs@.len() as int),
        ensures
            r@ == coeffs@,
            r.well_formed(),
            forall|n: nat| coeffs@.len() == #[trigger] pow2(n) ==> r.variables() == n,
    {
        let num_variables = exact_log2(coeffs.len());
        proof {
            assert forall|n: nat| coeffs@.len() == #[trigger] pow2(n) implies num_variables == n by {
                lemma_pow2_injective(num_variables as nat, n);
            }
        }
        CoefficientList { coeffs, num_variables }
    }

    /// The coefficients.
    pub fn coeffs(&self) -> (r: &[F])
        ensures
            r@ == self@,
            self.well_formed(),
    {
        proof {
            use_type_invariant(self);
        }
        self.coeffs.as_slice()
    }

    /// How many variables the polynomial has.
    pub fn num_variables(&self) -> (r: usize)
        ensures
            r == self.variables(),
            self.well_formed(),
    {
        proof {
            use_type_invariant(self);
        }
        self.num_variables
    }

    /// How many coefficients the polynomial has.
    pub fn num_coeffs(&self) -> (r: usize)
        ensures
            r == self@.len(),
            self.well_formed(),
    {
        proof {
            use_type_invariant(self);
        }
        self.coeffs.len()
    }
}

impl<F: Field> CoefficientList<F> {
    /// Evaluates the polynomial at a point of the binary hypercube.
    pub fn evaluate_hypercube(&self, point: BinaryHypercubePoint) -> (r: F)
        requires
            point.0 < pow2(self.variables()),
        ensures
            r.model() == multilinear_eval::<F>(
                models(self@),
                hypercube_point::<F>(self.variables(), point.0 as nat),
            ),
    {
        self.evaluate(
            &MultilinearPoint::from_binary_hypercube_point(point, self.num_variables),
        )
    }

    /// Evaluates the polynomial at any point with as many coordinates as it has variables.
    pub fn evaluate(&self, point: &MultilinearPoint<F>) -> (r: F)
        requires
            point.0@.len() == self.variables(),
        ensures
            r.model() == multilinear_eval::<F>(models(self@), models(point.0@)),
    {
        proof {
            use_type_invariant(self);
        }
        eval_multivariate(self.coeffs.as_slice(), point.0.as_slice())
    }

    /// Evaluates the polynomial at a point of a field that extends that of the coefficients.
    pub fn evaluate_at_extension<E: ExtensionField<F>>(&self, point: &MultilinearPoint<E>) -> (r: E)
        requires
            point.0@.len() == self.variables(),
        ensures
            r.model() == extension_eval::<F, E>(self@, point.0@),
    {
        proof {
            use_type_invariant(self);
            let value = extension_eval::<F, E>(self@, point.0@);
            crate::algebra::lemma_multilinear_is_element::<E>(
                embedded::<F, E>(models(self@)),
                models(point.0@),
            );
            E::neutral(value);
            E::ring(E::one_model(), value, value);
        }
        eval_extension(self.coeffs.as_slice(), point.0.as_slice(), E::one())
    }

    /// Takes the coefficients for those of a univariate polynomial, that of the constant term
    /// first, and evaluates it at each of the `points`.
    pub fn evaluate_at_univariate(&self, points: &[F]) -> (r: Vec<F>)
        ensures
            r@.len() == points@.len(),
            forall|i: int|
                0 <= i < points@.len() ==> (#[trigger] r@[i]).model() == univariate_eval::<F>(
                    models(self@),
                    points@[i].model(),
                ),
    {
        let univariate = DensePolynomial::from_coefficients_slice(self.coeffs.as_slice());
        let mut values: Vec<F> = Vec::new();
        let mut i: usize = 0;
        while i < points.len()
            invariant
                i <= points@.len(),
                values@.len() == i,
                univariate.coeffs@ == trimmed(self@),
                forall|k: int|
                    0 <= k < i ==> (#[trigger] values@[k]).model() == univariate_eval::<F>(
                        models(self@),
                        points@[k].model(),
                    ),
            decreases points@.len() - i,
        {
            proof {
                lemma_trimmed_keeps_value(self@, points@[i as int].model());
            }
            values.push(univariate.evaluate(&points[i]));
            i = i + 1;
        }
        values
    }

    /// Sets the last variables to the coordinates of `folding_randomness` and returns the
    /// polynomial in the variables that are left.
    #[must_use]
    pub fn fold(&self, folding_randomness: &MultilinearPoint<F>) -> (r: Self)
        requires
            folding_randomness.0@.len() <= self.variables(),
        ensures
            r.variables() == self.variables() - folding_randomness.0@.len(),
            models(r@) == folded::<F>(models(self@), models(folding_randomness.0@)),
            r.well_formed(),
            forall|first: Seq<F::Model>|
                first.len() == r.variables() ==> #[trigger] multilinear_eval::<F>(models(r@), first)
                    == multilinear_eval::<F>(
                    models(self@),
                    first + models(folding_randomness.0@),
                ),
            forall|i: int|
                0 <= i < r@.len() ==> (#[trigger] r@[i]).model() == total::<F>(
                    Seq::new(
                        pow2(folding_randomness.0@.len()),
                        |l: int|
                            F::product(
                                self@[i * pow2(folding_randomness.0@.len()) + l].model(),
                                monomial::<F>(models(folding_randomness.0@), l),
                            ),
                    ),
                ),
    {
        let folding_factor = folding_randomness.num_variables();
        let ghost k = folding_factor as nat;
        proof {
            use_type_invariant(self);
            assert(self@.len() == self.coeffs.len());
            lemma_chunk_size(self.variables(), k);
            vstd::bits::lemma_usize_shl_is_mul(1, folding_factor);
        }
        let point = folding_randomness.0.as_slice();
        let chunk_size: usize = 1usize << folding_factor;
        let eval_chunk = |chunk: &[F]| -> (r: F)
            requires
                chunk@.len() == pow2(point@.len()),
            ensures
                r.model() == multilinear_eval::<F>(models(chunk@), models(point@)),
        {
            eval_multivariate(chunk, point)
        };
        let coeffs = par_map_chunks_exact(self.coeffs.as_slice(), chunk_size, eval_chunk);
        proof {
            let all = models(self@);
            assert forall|i: int| 0 <= i < coeffs@.len() implies (#[trigger] coeffs@[i]).model()
                == folded::<F>(all, models(point@))[i] by {
                lemma_chunk_bounds(i, self@.len() as int, chunk_size as int);
                let piece = self@.subrange(i * chunk_size, (i + 1) * chunk_size);
                assert(models(piece) =~= all.subrange(i * chunk_size, (i + 1) * chunk_size));
            }
            assert(models(coeffs@) =~= folded::<F>(all, models(point@)));
            assert forall|first: Seq<F::Model>|
                first.len() == self.variables() - k implies #[trigger] multilinear_eval::<F>(
                models(coeffs@),
                first,
            ) == multilinear_eval::<F>(all, first + models(point@)) by {
                crate::laws::fold_then_evaluate::<F>(all, first, models(point@));
            }
            assert forall|i: int| 0 <= i < coeffs@.len() implies (#[trigger] coeffs@[i]).model()
                == total::<F>(
                Seq::new(
                    pow2(point@.len()),
                    |l: int|
                        F::product(
                            self@[i * pow2(point@.len()) + l].model(),
                            monomial::<F>(models(point@), l),
                        ),
                ),
            ) by {
                crate::laws::fold_coefficient::<F>(all, models(point@), self.variables(), i);
                lemma_chunk_bounds(i, self@.len() as int, chunk_size as int);
                assert(Seq::new(
                    pow2(point@.len()),
                    |l: int|
                        F::product(
                            self@[i * pow2(point@.len()) + l].model(),
                            monomial::<F>(models(point@), l),
                        ),
                ) =~= Seq::new(
                    pow2(models(point@).len()),
                    |l: int|
                        F::product(
                            all[i * pow2(models(point@).len()) + l],
                            monomial::<F>(models(point@), l),
                        ),
                ));
            }
        }
        CoefficientList { coeffs, num_variables: self.num_variables - folding_factor }
    }

    /// The same polynomial, with its coefficients taken for elements of an extension field.
    pub fn to_extension<E: ExtensionField<F>>(self) -> (r: CoefficientList<E>)
        ensures
            models(r@) == embedded::<F, E>(models(self@)),
            r.variables() == self.variables(),
            r.well_formed(),
    {
        proof {
            use_type_invariant(&self);
            lemma_is_pow2(self.variables());
        }
        let mut lifted: Vec<E> = Vec::new();
        let mut i: usize = 0;
        while i < self.coeffs.len()
            invariant
                i <= self@.len(),
                lifted@.len() == i,
                self@ == self.coeffs@,
                forall|k: int|
                    0 <= k < i ==> (#[trigger] lifted@[k]).model() == E::embed(self@[k].model()),
            decreases self@.len() - i,
        {
            lifted.push(E::from_base_prime_field(self.coeffs[i]));
            i = i + 1;
        }
        assert(models(lifted@) =~= embedded::<F, E>(models(self@)));
        let r = CoefficientList::new(lifted);
        proof {
            lemma_pow2_injective(r.variables(), self.variables());
        }
        r
    }
}

impl<F: Field> CoefficientList<F> {
    /// The multilinear polynomial with the coefficients of a univariate one. Their number is a
    /// power of two.
    pub fn from(value: DensePolynomial<F>) -> (r: Self)
        requires
            is_pow2(value.coeffs@.len() as int),
        ensures
            r@ == value.coeffs@,
            r.well_formed(),
    {
        Self::new(value.coeffs)
    }
}

impl<F: Field> vstd::std_specs::convert::FromSpecImpl<CoefficientList<F>> for DensePolynomial<F> {
    open spec fn obeys_from_spec() -> bool {
        false
    }

    open spec fn from_spec(value: CoefficientList<F>) -> Self {
        arbitrary()
    }
}

impl<F: Field> From<CoefficientList<F>> for DensePolynomial<F> {
    /// The univariate polynomial with the same coefficients, without zeros at the end.
    fn from(value: CoefficientList<F>) -> (r: Self)
        ensures
            r.coeffs@ == trimmed(value@),
    {
        Self::from_coefficients_vec(value.coeffs)
    }
}

impl<F: Field> vstd::std_specs::convert::FromSpecImpl<CoefficientList<F>> for EvaluationsList<F> {
    open spec fn obeys_from_spec() -> bool {
        false
    }

    open spec fn from_spec(value: CoefficientList<F>) -> Self {
        arbitrary()
    }
}

impl<F: Field> From<CoefficientList<F>> for EvaluationsList<F> {
    /// The values of the polynomial on the binary hypercube.
    fn from(value: CoefficientList<F>) -> (r: Self)
        ensures
            r.variables() == value.variables(),
            r.well_formed(),
            are_hypercube_values(value@, r@),
    {
        proof {
            use_type_invariant(&value);
            lemma_is_pow2(value.variables());
        }
        let mut evals = value.coeffs;
        wavelet_transform(&mut evals);
        let r = Self::new(evals);
        proof {
            lemma_pow2_injective(r.variables(), value.variables());
        }
        r
    }
}

/// The sizes that folding `k` of `n` variables deals with, where a list of `2^n` elements
/// exists.
proof fn lemma_chunk_size(n: nat, k: nat)
    requires
        k <= n,
        pow2(n) <= usize::MAX,
    ensures
        k < usize::BITS,
        0 < pow2(k) <= usize::MAX,
        pow2(n) / pow2(k) == pow2((n - k) as nat),
{
    vstd::arithmetic::power2::lemma2_to64();
    vstd::arithmetic::power2::lemma2_to64_rest();
    vstd::arithmetic::power2::lemma_pow2_pos(k);
    vstd::arithmetic::power2::lemma_pow2_subtracts(k, n);
    if k < n {
        vstd::arithmetic::power2::lemma_pow2_strictly_increases(k, n);
    }
    if k > usize::BITS {
        vstd::arithmetic::power2::lemma_pow2_strictly_increases(usize::BITS as nat, k);
    }
}

/// The multilinear polynomial with coefficients from `F`, at a point of an extension of `F`.
pub open spec fn extension_eval<F: Field, E: ExtensionField<F>>(
    coeffs: Seq<F>,
    point: Seq<E>,
) -> E::Model {
    multilinear_eval::<E>(embedded::<F, E>(models(coeffs)), models(point))
}

/// `scalar` times the value of the polynomial at a point of an extension.
pub open spec fn scaled_extension_eval<F: Field, E: ExtensionField<F>>(
    coeffs: Seq<F>,
    point: Seq<E>,
    scalar: E::Model,
) -> E::Model {
    E::product(scalar, extension_eval::<F, E>(coeffs, point))
}

/// What is left of the polynomial with the given coefficients where its last variables are set
/// to the coordinates of `point`: every block of coefficients that differ in these variables
/// only is evaluated there.
pub open spec fn folded<F: Field>(coeffs: Seq<F::Model>, point: Seq<F::Model>) -> Seq<F::Model> {
    let size = pow2(point.len());
    Seq::new(
        coeffs.len() / size,
        |i: int| multilinear_eval::<F>(coeffs.subrange(i * size, (i + 1) * size), point),
    )
}

/// How many bytes of coefficients are evaluated on one thread.
const WORK_BYTES: usize = 32768;

/// Multivariate evaluation in coefficient form.
pub fn eval_multivariate<F: Field>(coeffs: &[F], point: &[F]) -> (r: F)
    requires
        coeffs@.len() == pow2(point@.len()),
    ensures
        r.model() == multilinear_eval::<F>(models(coeffs@), models(point@)),
    decreases point@.len(),
{
    proof {
        F::operators();
        vstd::arithmetic::power2::lemma2_to64();
        lemma_models_are_elements(coeffs@);
        assert(models(coeffs@).subrange(0, coeffs@.len() as int) =~= models(coeffs@));
        assert(models(point@).subrange(0, point@.len() as int) =~= models(point@));
        lemma_nested_eval::<F>(models(coeffs@), 0, models(point@), 0);
    }
    match point.len() {
        0 => coeffs[0],
        1 => {
            proof {
                reveal_with_fuel(nested_eval, 2);
            }
            coeffs[0] + coeffs[1] * point[0]
        },
        2 => {
            proof {
                reveal_with_fuel(nested_eval, 3);
            }
            let (x0, x1) = (point[0], point[1]);
            let b0 = coeffs[0] + coeffs[1] * x1;
            let b1 = coeffs[2] + coeffs[3] * x1;
            b0 + b1 * x0
        },
        3 => {
            proof {
                reveal_with_fuel(nested_eval, 4);
            }
            let (x0, x1, x2) = (point[0], point[1], point[2]);
            let b00 = coeffs[0] + coeffs[1] * x2;
            let b01 = coeffs[2] + coeffs[3] * x2;
            let b10 = coeffs[4] + coeffs[5] * x2;
            let b11 = coeffs[6] + coeffs[7] * x2;
            let b0 = b00 + b01 * x1;
            let b1 = b10 + b11 * x1;
            b0 + b1 * x0
        },
        4 => {
            proof {
                reveal_with_fuel(nested_eval, 5);
            }
            let (x0, x1, x2, x3) = (point[0], point[1], point[2], point[3]);
            let b000 = coeffs[0] + coeffs[1] * x3;
            let b001 = coeffs[2] + coeffs[3] * x3;
            let b010 = coeffs[4] + coeffs[5] * x3;
            let b011 = coeffs[6] + coeffs[7] * x3;
            let b100 = coeffs[8] + coeffs[9] * x3;
            let b101 = coeffs[10] + coeffs[11] * x3;
            let b110 = coeffs[12] + coeffs[13] * x3;
            let b111 = coeffs[14] + coeffs[15] * x3;
            let b00 = b000 + b001 * x2;
            let b01 = b010 + b011 * x2;
            let b10 = b100 + b101 * x2;
            let b11 = b110 + b111 * x2;
            let b0 = b00 + b01 * x1;
            let b1 = b10 + b11 * x1;
            b0 + b1 * x0
        },
        _ => {
            let x = point[0];
            let tail = vstd::slice::slice_subrange(point, 1, point.len());
            let half: usize = coeffs.len() / 2;
            proof {
                lemma_split_first::<F>(models(coeffs@), models(point@));
                assert(models(tail@) =~= models(point@).drop_first());
            }
            let (b0t, b1t) = coeffs.split_at(half);
            proof {
                assert(models(b0t@) =~= models(coeffs@).subrange(0, half as int));
                assert(models(b1t@) =~= models(coeffs@).subrange(
                    half as int,
                    coeffs@.len() as int,
                ));
            }
            let low = || -> (r: F)
                requires
                    b0t@.len() == pow2(tail@.len()),
                    point@.len() > tail@.len(),
                ensures
                    r.model() == multilinear_eval::<F>(models(b0t@), models(tail@)),
            {
                eval_multivariate(b0t, tail)
            };
            let high = || -> (r: F)
                requires
                    b1t@.len() == pow2(tail@.len()),
                    point@.len() > tail@.len(),
                ensures
                    r.model() == multilinear_eval::<F>(models(b1t@), models(tail@)),
            {
                eval_multivariate(b1t, tail)
            };
            let parallel = match WORK_BYTES.checked_div(size_of::<F>()) {
                Some(work_size) => coeffs.len() > work_size,
                None => false,
            };
            let (b0, b1) = if parallel {
                rayon::join(low, high)
            } else {
                (low(), high())
            };
            b0 + b1 * x
        },
    }
}

/// Above how many remaining variables both halves are evaluated at the same time.
const PARALLEL_THRESHOLD: usize = 10;

/// Splitting off the first variable, with a factor before the whole.
pub proof fn lemma_split_scaled<F: Field, E: ExtensionField<F>>(
    coeff: Seq<F>,
    low: Seq<F>,
    high: Seq<F>,
    eval: Seq<E>,
    scalar: E::Model,
)
    requires
        eval.len() > 0,
        coeff.len() == pow2(eval.len()),
        low == coeff.subrange(0, coeff.len() as int / 2),
        high == coeff.subrange(coeff.len() as int / 2, coeff.len() as int),
    ensures
        coeff.len() == 2 * pow2((eval.len() - 1) as nat),
        scaled_extension_eval::<F, E>(coeff, eval, scalar) == E::sum(
            scaled_extension_eval::<F, E>(low, eval.drop_first(), scalar),
            scaled_extension_eval::<F, E>(
                high,
                eval.drop_first(),
                E::product(scalar, eval[0].model()),
            ),
        ),
{
    let point = models(eval);
    let lifted = embedded::<F, E>(models(coeff));
    let x = eval[0].model();
    let a = extension_eval::<F, E>(low, eval.drop_first());
    let b = extension_eval::<F, E>(high, eval.drop_first());
    lemma_split_first::<E>(lifted, point);
    assert(models(eval.drop_first()) =~= point.drop_first());
    assert(embedded::<F, E>(models(low)) =~= lifted.subrange(0, low.len() as int));
    assert(embedded::<F, E>(models(high)) =~= lifted.subrange(
        low.len() as int,
        lifted.len() as int,
    ));
    E::ring(scalar, a, E::product(b, x));
    E::ring(scalar, x, b);
    E::ring(b, x, scalar);
}

/// A polynomial without variables, with a factor before it.
proof fn lemma_leaf_scaled<F: Field, E: ExtensionField<F>>(
    coeff: Seq<F>,
    eval: Seq<E>,
    scalar: E::Model,
)
    requires
        eval.len() == 0,
        coeff.len() == pow2(eval.len()),
    ensures
        coeff.len() == 1,
        scaled_extension_eval::<F, E>(coeff, eval, scalar) == E::product(
            scalar,
            E::embed(coeff[0].model()),
        ),
{
    vstd::arithmetic::power2::lemma2_to64();
    E::embedding(coeff[0].model(), coeff[0].model());
    lemma_no_variables::<E>(embedded::<F, E>(models(coeff)), models(eval));
}

/// Evaluation at a point of an extension field, times `scalar`.
pub fn eval_extension<F: Field, E: ExtensionField<F>>(coeff: &[F], eval: &[E], scalar: E) -> (r: E)
    requires
        coeff@.len() == pow2(eval@.len()),
    ensures
        r.model() == scaled_extension_eval::<F, E>(coeff@, eval@, scalar.model()),
{
    eval_extension_parallel(coeff, eval, scalar)
}

/// Recursively computes `scalar` times the value of the polynomial at `eval`, on one thread.
pub fn eval_extension_nonparallel<F: Field, E: ExtensionField<F>>(
    coeff: &[F],
    eval: &[E],
    scalar: E,
) -> (r: E)
    requires
        coeff@.len() == pow2(eval@.len()),
    ensures
        r.model() == scaled_extension_eval::<F, E>(coeff@, eval@, scalar.model()),
    decreases eval@.len(),
{
    proof {
        E::operators();
    }
    if eval.len() > 0 {
        let x = eval[0];
        let tail = vstd::slice::slice_subrange(eval, 1, eval.len());
        let (low, high) = coeff.split_at(coeff.len() / 2);
        proof {
            lemma_split_scaled::<F, E>(coeff@, low@, high@, eval@, scalar.model());
            assert(tail@ =~= eval@.drop_first());
        }
        let a = eval_extension_nonparallel(low, tail, scalar);
        let b = eval_extension_nonparallel(high, tail, scalar * x);
        a + b
    } else {
        proof {
            lemma_leaf_scaled::<F, E>(coeff@, eval@, scalar.model());
        }
        scalar.mul_by_base_prime_field(&coeff[0])
    }
}

/// Recursively computes `scalar` times the value of the polynomial at `eval`, on several
/// threads where many variables remain.
pub fn eval_extension_parallel<F: Field, E: ExtensionField<F>>(
    coeff: &[F],
    eval: &[E],
    scalar: E,
) -> (r: E)
    requires
        coeff@.len() == pow2(eval@.len()),
    ensures
        r.model() == scaled_extension_eval::<F, E>(coeff@, eval@, scalar.model()),
    decreases eval@.len(),
{
    proof {
        E::operators();
    }
    if eval.len() > 0 {
        let x = eval[0];
        let tail = vstd::slice::slice_subrange(eval, 1, eval.len());
        let (low, high) = coeff.split_at(coeff.len() / 2);
        proof {
            lemma_split_scaled::<F, E>(coeff@, low@, high@, eval@, scalar.model());
            assert(tail@ =~= eval@.drop_first());
        }
        let scaled = scalar * x;
        if tail.len() > PARALLEL_THRESHOLD {
            let eval_low = || -> (r: E)
                requires
                    low@.len() == pow2(tail@.len()),
                    eval@.len() > tail@.len(),
                ensures
                    r.model() == scaled_extension_eval::<F, E>(low@, tail@, scalar.model()),
            {
                eval_extension_parallel(low, tail, scalar)
            };
            let eval_high = || -> (r: E)
                requires
                    high@.len() == pow2(tail@.len()),
                    eval@.len() > tail@.len(),
                ensures
                    r.model() == scaled_extension_eval::<F, E>(high@, tail@, scaled.model()),
            {
                eval_extension_parallel(high, tail, scaled)
            };
            let (a, b) = rayon::join(eval_low, eval_high);
            a + b
        } else {
            eval_extension_nonparallel(low, tail, scalar) + eval_extension_nonparallel(
                high,
                tail,
                scaled,
            )
        }
    } else {
        proof {
            lemma_leaf_scaled::<F, E>(coeff@, eval@, scalar.model());
        }
        scalar.mul_by_base_prime_field(&coeff[0])
    }
}

} // verus!
