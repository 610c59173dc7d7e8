//! What holds between the operations on polynomials.

use crate::algebra::{
    lemma_monomial_first, lemma_multilinear_is_element, lemma_no_variables, lemma_power_adds,
    lemma_split_first, lemma_total_scale, monomial, multilinear_eval, power, total,
    univariate_eval,
};
use crate::arithmetic::lemma_chunk_bounds;
use crate::field::{
    all_elements, embedded, lemma_models_are_elements, models, ExtensionField, Field,
};
use crate::ntt::are_hypercube_values;
use crate::poly_utils::coeffs::{
    extension_eval, folded, lemma_split_scaled, scaled_extension_eval, CoefficientList,
};
use crate::poly_utils::dense::{lemma_trimmed_keeps_value, trimmed, DensePolynomial};
use crate::poly_utils::evals::EvaluationsList;
use crate::poly_utils::hypercube::{coordinate, hypercube_point};
use crate::poly_utils::multilinear::expanded_point;
use vstd::arithmetic::power2::pow2;
use vstd::prelude::*;

verus! {

/// Blocks of a folded polynomial are blocks of the polynomial, folded.
proof fn lemma_folded_block<F: Field>(
    coeffs: Seq<F::Model>,
    point: Seq<F::Model>,
    from: int,
    to: int,
)
    requires
        0 <= from <= to,
        to * pow2(point.len()) <= coeffs.len(),
    ensures
        0 <= from * pow2(point.len()) <= to * pow2(point.len()),
        folded::<F>(coeffs.subrange(from * pow2(point.len()), to * pow2(point.len())), point)
            == folded::<F>(coeffs, point).subrange(from, to),
{
    let size = pow2(point.len()) as int;
    vstd::arithmetic::power2::lemma_pow2_pos(point.len());
    assert(0 <= from * size <= to * size && to * size - from * size == (to - from) * size)
        by (nonlinear_arith)
        requires
            0 <= from <= to,
            size > 0,
    ;
    let block = coeffs.subrange(from * size, to * size);
    vstd::arithmetic::div_mod::lemma_div_by_multiple(to - from, size);
    vstd::arithmetic::div_mod::lemma_div_by_multiple(to, size);
    vstd::arithmetic::div_mod::lemma_div_is_ordered(to * size, coeffs.len() as int, size);
    assert(folded::<F>(block, point).len() == to - from);
    assert forall|i: int| 0 <= i < to - from implies folded::<F>(block, point)[i] == folded::<F>(
        coeffs,
        point,
    )[from + i] by {
        lemma_chunk_bounds(i, block.len() as int, size);
        assert((from + i) * size == from * size + i * size) by (nonlinear_arith);
        assert((from + i + 1) * size == from * size + (i + 1) * size) by (nonlinear_arith);
        assert(block.subrange(i * size, (i + 1) * size) =~= coeffs.subrange(
            (from + i) * size,
            (from + i + 1) * size,
        ));
    }
    assert(folded::<F>(block, point) =~= folded::<F>(coeffs, point).subrange(from, to));
}

/// Folding the last variables and evaluating what is left at the first ones is evaluating the
/// polynomial at all of them.
pub proof fn fold_then_evaluate<F: Field>(
    coeffs: Seq<F::Model>,
    first: Seq<F::Model>,
    last: Seq<F::Model>,
)
    requires
        coeffs.len() == pow2(first.len() + last.len()),
    ensures
        folded::<F>(coeffs, last).len() == pow2(first.len()),
        multilinear_eval::<F>(folded::<F>(coeffs, last), first) == multilinear_eval::<F>(
            coeffs,
            first + last,
        ),
    decreases first.len(),
{
    let size = pow2(last.len()) as int;
    let rest = folded::<F>(coeffs, last);
    vstd::arithmetic::power2::lemma_pow2_pos(last.len());
    vstd::arithmetic::power2::lemma_pow2_adds(first.len(), last.len());
    vstd::arithmetic::div_mod::lemma_div_by_multiple(pow2(first.len()) as int, size);
    if first.len() == 0 {
        vstd::arithmetic::power2::lemma2_to64();
        assert(coeffs.subrange(0 * size, (0 + 1) * size) =~= coeffs);
        assert(first + last =~= last);
        lemma_multilinear_is_element::<F>(coeffs, last);
        lemma_no_variables::<F>(rest, first);
    } else {
        let half = pow2((first.len() - 1) as nat) as int;
        let middle = half * size;
        vstd::arithmetic::power2::lemma_pow2_unfold(first.len());
        vstd::arithmetic::power2::lemma_pow2_adds((first.len() - 1) as nat, last.len());
        assert((first + last).drop_first() =~= first.drop_first() + last);
        lemma_split_first::<F>(coeffs, first + last);
        lemma_split_first::<F>(rest, first);
        assert(0 * size == 0 && 2 * half * size == 2 * middle) by (nonlinear_arith)
            requires
                middle == half * size,
        ;
        lemma_folded_block::<F>(coeffs, last, 0, half);
        lemma_folded_block::<F>(coeffs, last, half, 2 * half);
        fold_then_evaluate::<F>(coeffs.subrange(0, middle), first.drop_first(), last);
        fold_then_evaluate::<F>(
            coeffs.subrange(middle, coeffs.len() as int),
            first.drop_first(),
            last,
        );
    }
}

/// Folding in two steps, the last variables first, is folding all of them at once.
pub proof fn fold_in_two_steps<F: Field>(
    coeffs: Seq<F::Model>,
    first: Seq<F::Model>,
    last: Seq<F::Model>,
    variables: nat,
)
    requires
        coeffs.len() == pow2(variables),
        first.len() + last.len() <= variables,
    ensures
        folded::<F>(folded::<F>(coeffs, last), first) == folded::<F>(coeffs, first + last),
{
    let (s, t) = (pow2(first.len()) as int, pow2(last.len()) as int);
    let kept = pow2((variables - first.len() - last.len()) as nat) as int;
    let once = folded::<F>(coeffs, last);
    let both = first + last;
    vstd::arithmetic::power2::lemma_pow2_pos(first.len());
    vstd::arithmetic::power2::lemma_pow2_pos(last.len());
    vstd::arithmetic::power2::lemma_pow2_adds(first.len(), last.len());
    vstd::arithmetic::power2::lemma_pow2_adds(
        (variables - first.len() - last.len()) as nat,
        first.len() + last.len(),
    );
    assert(coeffs.len() == kept * (s * t));
    assert(kept * (s * t) == (kept * s) * t) by (nonlinear_arith);
    vstd::arithmetic::div_mod::lemma_div_by_multiple(kept * s, t);
    vstd::arithmetic::div_mod::lemma_div_by_multiple(kept, s);
    assert(s * t > 0) by (nonlinear_arith)
        requires
            s > 0,
            t > 0,
    ;
    vstd::arithmetic::div_mod::lemma_div_by_multiple(kept, s * t);
    assert forall|i: int| 0 <= i < kept implies folded::<F>(once, first)[i] == folded::<F>(
        coeffs,
        both,
    )[i] by {
        lemma_chunk_bounds(i, once.len() as int, s);
        lemma_chunk_bounds(i, coeffs.len() as int, s * t);
        assert((i * s) * t == i * (s * t)) by (nonlinear_arith);
        assert(((i + 1) * s) * t == (i + 1) * (s * t)) by (nonlinear_arith);
        lemma_folded_block::<F>(coeffs, last, i * s, (i + 1) * s);
        fold_then_evaluate::<F>(coeffs.subrange(i * (s * t), (i + 1) * (s * t)), first, last);
    }
    assert(folded::<F>(once, first) =~= folded::<F>(coeffs, both));
}

/// Folding a list that is two lists one after the other gives what folding each of them gives,
/// one after the other.
pub proof fn fold_of_concatenation<F: Field>(
    a: Seq<F::Model>,
    b: Seq<F::Model>,
    last: Seq<F::Model>,
    variables: nat,
)
    requires
        a.len() == pow2(variables),
        b.len() == pow2(variables),
        last.len() <= variables,
    ensures
        folded::<F>(a + b, last) == folded::<F>(a, last) + folded::<F>(b, last),
{
    let size = pow2(last.len()) as int;
    let count = pow2((variables - last.len()) as nat) as int;
    vstd::arithmetic::power2::lemma_pow2_pos(last.len());
    vstd::arithmetic::power2::lemma_pow2_adds((variables - last.len()) as nat, last.len());
    assert(0 * size == 0 && (2 * count) * size == 2 * (count * size)) by (nonlinear_arith);
    vstd::arithmetic::div_mod::lemma_div_by_multiple(2 * count, size);
    lemma_folded_block::<F>(a + b, last, 0, count);
    lemma_folded_block::<F>(a + b, last, count, 2 * count);
    assert((a + b).subrange(0, count * size) =~= a);
    assert((a + b).subrange(count * size, (2 * count) * size) =~= b);
    assert(folded::<F>(a + b, last) =~= folded::<F>(a, last) + folded::<F>(b, last));
}

/// The coefficient of the monomial with index `i` in a folded polynomial is the sum over all
/// monomials in the folded variables: the coefficient of the product of the two monomials,
/// times the monomial at the values that were set.
pub proof fn fold_coefficient<F: Field>(
    coeffs: Seq<F::Model>,
    last: Seq<F::Model>,
    variables: nat,
    i: int,
)
    requires
        coeffs.len() == pow2(variables),
        last.len() <= variables,
        0 <= i < pow2((variables - last.len()) as nat),
    ensures
        folded::<F>(coeffs, last).len() == pow2((variables - last.len()) as nat),
        folded::<F>(coeffs, last)[i] == total::<F>(
            Seq::new(
                pow2(last.len()),
                |l: int|
                    F::product(coeffs[i * pow2(last.len()) + l], monomial::<F>(last, l)),
            ),
        ),
{
    let size = pow2(last.len()) as int;
    let count = pow2((variables - last.len()) as nat) as int;
    vstd::arithmetic::power2::lemma_pow2_pos(last.len());
    vstd::arithmetic::power2::lemma_pow2_adds((variables - last.len()) as nat, last.len());
    vstd::arithmetic::div_mod::lemma_div_by_multiple(count, size);
    lemma_chunk_bounds(i, coeffs.len() as int, size);
    let block = coeffs.subrange(i * size, (i + 1) * size);
    assert(Seq::new(block.len(), |l: int| F::product(block[l], monomial::<F>(last, l)))
        =~= Seq::new(
        pow2(last.len()),
        |l: int| F::product(coeffs[i * pow2(last.len()) + l], monomial::<F>(last, l)),
    ));
}

/// Folding one variable adds, to each coefficient of a monomial without the last variable, the
/// value times the coefficient that stands next to it, of the same monomial with it.
pub proof fn fold_one_variable<F: Field>(
    coeffs: Seq<F::Model>,
    x: F::Model,
    variables: nat,
    i: int,
)
    requires
        coeffs.len() == pow2(variables + 1),
        all_elements::<F>(coeffs),
        F::is_element(x),
        0 <= i < pow2(variables),
    ensures
        folded::<F>(coeffs, seq![x]).len() == pow2(variables),
        0 <= 2 * i && 2 * i + 1 < coeffs.len(),
        folded::<F>(coeffs, seq![x])[i] == F::sum(
            coeffs[2 * i],
            F::product(x, coeffs[2 * i + 1]),
        ),
{
    broadcast use vstd::arithmetic::power2::lemma_pow2_unfold;

    vstd::arithmetic::power2::lemma2_to64();
    let last = seq![x];
    let (even, odd) = (coeffs[2 * i], coeffs[2 * i + 1]);
    fold_coefficient::<F>(coeffs, last, variables + 1, i);
    assert(i * pow2(last.len()) == 2 * i);
    let terms = Seq::new(
        pow2(last.len()),
        |l: int| F::product(coeffs[i * pow2(last.len()) + l], monomial::<F>(last, l)),
    );
    reveal_with_fuel(monomial, 2);
    let one = F::one_model();
    let zero = F::zero_model();
    F::closed(zero, zero);
    F::neutral(x);
    F::ring(x, one, zero);
    F::ring(x, odd, zero);
    F::neutral(even);
    F::ring(even, zero, zero);
    assert(monomial::<F>(last, 0) == one);
    assert(monomial::<F>(last, 1) == x);
    assert(terms =~= seq![even, F::product(x, odd)]);
    reveal_with_fuel(total, 3);
    assert(terms.drop_last() =~= seq![even]);
    assert(terms.drop_last().drop_last() =~= Seq::empty());
}

/// Folding no variable changes nothing.
pub proof fn fold_nothing<F: Field>(coeffs: Seq<F::Model>)
    requires
        all_elements::<F>(coeffs),
    ensures
        folded::<F>(coeffs, Seq::empty()) == coeffs,
{
    let none = Seq::<F::Model>::empty();
    vstd::arithmetic::power2::lemma2_to64();
    assert forall|i: int| 0 <= i < coeffs.len() implies folded::<F>(coeffs, none)[i]
        == coeffs[i] by {
        lemma_no_variables::<F>(coeffs.subrange(i * 1, (i + 1) * 1), none);
    }
    assert(folded::<F>(coeffs, none) =~= coeffs);
}

/// Folding all variables leaves the value of the polynomial.
pub proof fn fold_everything<F: Field>(coeffs: Seq<F::Model>, point: Seq<F::Model>)
    requires
        coeffs.len() == pow2(point.len()),
    ensures
        folded::<F>(coeffs, point) == seq![multilinear_eval::<F>(coeffs, point)],
{
    let size = pow2(point.len()) as int;
    vstd::arithmetic::power2::lemma_pow2_pos(point.len());
    vstd::arithmetic::div_mod::lemma_div_by_multiple(1, size);
    assert(coeffs.subrange(0 * size, (0 + 1) * size) =~= coeffs);
    assert(folded::<F>(coeffs, point) =~= seq![multilinear_eval::<F>(coeffs, point)]);
}

/// The values that a list of coefficients is turned into are those of the polynomial on the
/// binary hypercube.
pub proof fn evaluations_are_hypercube_values<F: Field>(
    polynomial: CoefficientList<F>,
    evaluations: EvaluationsList<F>,
    b: nat,
)
    requires
        polynomial.well_formed(),
        are_hypercube_values(polynomial@, evaluations@),
        b < pow2(polynomial.variables()),
    ensures
        evaluations@[b as int].model() == multilinear_eval::<F>(
            models(polynomial@),
            hypercube_point::<F>(polynomial.variables(), b),
        ),
{
}

/// Whether every digit of `j` that is one is one in `b` too.
pub open spec fn digits_within(n: nat, j: nat, b: nat) -> bool {
    forall|i: int| 0 <= i < n && #[trigger] coordinate(n, j, i) ==> coordinate(n, b, i)
}

/// The digits above the lowest are those of the half.
proof fn lemma_coordinate_half(n: nat, b: nat, i: int)
    requires
        0 <= i < n - 1,
    ensures
        coordinate(n, b, i) == coordinate((n - 1) as nat, b / 2, i),
{
    let e = (n - 2 - i) as nat;
    vstd::arithmetic::power2::lemma_pow2_unfold((e + 1) as nat);
    vstd::arithmetic::power2::lemma_pow2_pos(e);
    vstd::arithmetic::div_mod::lemma_div_denominator(b as int, 2, pow2(e) as int);
}

/// On the binary hypercube a monomial is one where all its variables are one, and zero
/// elsewhere.
pub proof fn monomial_on_hypercube<F: Field>(n: nat, j: nat, b: nat)
    requires
        j < pow2(n),
    ensures
        monomial::<F>(hypercube_point::<F>(n, b), j as int) == (if digits_within(n, j, b) {
            F::one_model()
        } else {
            F::zero_model()
        }),
    decreases n,
{
    let point = hypercube_point::<F>(n, b);
    if n > 0 {
        let m = (n - 1) as nat;
        vstd::arithmetic::power2::lemma2_to64();
        vstd::arithmetic::power2::lemma_pow2_unfold(n);
        monomial_on_hypercube::<F>(m, j / 2, b / 2);
        assert forall|i: int| 0 <= i < m implies coordinate(n, b, i) == coordinate(m, b / 2, i)
            && coordinate(n, j, i) == coordinate(m, j / 2, i) by {
            lemma_coordinate_half(n, b, i);
            lemma_coordinate_half(n, j, i);
        }
        assert(point.drop_last() =~= hypercube_point::<F>(m, b / 2));
        assert((n - 1 - (n - 1)) as nat == 0);
        assert(b / 1 == b && j / 1 == j);
        assert(coordinate(n, b, n - 1) == (b % 2 == 1));
        assert(coordinate(n, j, n - 1) == (j % 2 == 1));
        F::closed(F::one_model(), F::one_model());
        F::neutral(F::one_model());
        F::neutral(F::zero_model());
        F::ring(F::one_model(), F::zero_model(), F::zero_model());
        F::ring(F::zero_model(), F::zero_model(), F::zero_model());
        assert(digits_within(n, j, b) == (digits_within(m, j / 2, b / 2) && (j % 2 == 1 ==> b % 2
            == 1))) by {
            if digits_within(m, j / 2, b / 2) && (j % 2 == 1 ==> b % 2 == 1) {
                assert forall|i: int| 0 <= i < n && #[trigger] coordinate(n, j, i) implies coordinate(
                    n,
                    b,
                    i,
                ) by {
                    if i < m {
                        assert(coordinate(m, j / 2, i));
                    }
                }
            }
            if digits_within(n, j, b) {
                assert forall|i: int| 0 <= i < m && #[trigger] coordinate(m, j / 2, i) implies
                    coordinate(m, b / 2, i) by {
                    assert(coordinate(n, j, i));
                }
            }
        }
    }
}

/// On the binary hypercube a polynomial is worth the sum of the coefficients whose variables
/// are all one there.
pub proof fn hypercube_value_is_subset_sum<F: Field>(coeffs: Seq<F::Model>, n: nat, b: nat)
    requires
        coeffs.len() == pow2(n),
        all_elements::<F>(coeffs),
    ensures
        multilinear_eval::<F>(coeffs, hypercube_point::<F>(n, b)) == total::<F>(
            Seq::new(
                coeffs.len(),
                |j: int|
                    if digits_within(n, j as nat, b) {
                        coeffs[j]
                    } else {
                        F::zero_model()
                    },
            ),
        ),
{
    let point = hypercube_point::<F>(n, b);
    let terms = Seq::new(
        coeffs.len(),
        |j: int| F::product(coeffs[j], monomial::<F>(point, j)),
    );
    let chosen = Seq::new(
        coeffs.len(),
        |j: int|
            if digits_within(n, j as nat, b) {
                coeffs[j]
            } else {
                F::zero_model()
            },
    );
    assert forall|j: int| 0 <= j < coeffs.len() implies terms[j] == chosen[j] by {
        monomial_on_hypercube::<F>(n, j as nat, b);
        F::neutral(coeffs[j]);
        F::ring(coeffs[j], F::zero_model(), F::zero_model());
    }
    assert(terms =~= chosen);
}

/// At `(x^(2^(n-1)), ..., x^2, x)` the monomial with index `j` is `x^j`.
proof fn lemma_monomial_expanded<F: Field>(x: F::Model, n: nat, j: int)
    requires
        0 <= j < pow2(n),
    ensures
        monomial::<F>(expanded_point::<F>(x, n), j) == power::<F>(x, j as nat),
    decreases n,
{
    if n == 0 {
        vstd::arithmetic::power2::lemma2_to64();
    } else {
        let m = (n - 1) as nat;
        let half = pow2(m) as int;
        let point = expanded_point::<F>(x, n);
        vstd::arithmetic::power2::lemma_pow2_unfold(n);
        lemma_monomial_first::<F>(point, j);
        assert(point.drop_first() =~= expanded_point::<F>(x, m));
        if j < half {
            lemma_monomial_expanded::<F>(x, m, j);
        } else {
            lemma_monomial_expanded::<F>(x, m, j - half);
            lemma_power_adds::<F>(x, (j - half) as nat, half as nat);
        }
    }
}

/// The univariate polynomial with the same coefficients is worth at `x` what the multilinear
/// one is worth at `(x^(2^(n-1)), ..., x^2, x)`.
pub proof fn univariate_is_multilinear_at_powers<F: Field>(
    coeffs: Seq<F::Model>,
    x: F::Model,
    n: nat,
)
    requires
        coeffs.len() == pow2(n),
    ensures
        univariate_eval::<F>(coeffs, x) == multilinear_eval::<F>(
            coeffs,
            expanded_point::<F>(x, n),
        ),
{
    let point = expanded_point::<F>(x, n);
    let multilinear = Seq::new(
        coeffs.len(),
        |j: int| F::product(coeffs[j], monomial::<F>(point, j)),
    );
    let univariate = Seq::new(
        coeffs.len(),
        |j: int| F::product(coeffs[j], power::<F>(x, j as nat)),
    );
    assert forall|j: int| 0 <= j < coeffs.len() implies multilinear[j] == univariate[j] by {
        lemma_monomial_expanded::<F>(x, n, j);
    }
    assert(multilinear =~= univariate);
}

/// The univariate polynomial that a list of coefficients is turned into is worth at `x` what
/// the multilinear one is worth at `(x^(2^(n-1)), ..., x^2, x)`.
pub proof fn dense_is_multilinear_at_powers<F: Field>(
    polynomial: CoefficientList<F>,
    dense: DensePolynomial<F>,
    x: F::Model,
)
    requires
        polynomial.well_formed(),
        dense.coeffs@ == trimmed(polynomial@),
    ensures
        univariate_eval::<F>(models(dense.coeffs@), x) == multilinear_eval::<F>(
            models(polynomial@),
            expanded_point::<F>(x, polynomial.variables()),
        ),
{
    lemma_trimmed_keeps_value(polynomial@, x);
    univariate_is_multilinear_at_powers::<F>(models(polynomial@), x, polynomial.variables());
}

/// Turning a list of coefficients into a univariate polynomial and back gives the same list
/// where its last coefficient is not zero.
pub proof fn dense_round_trip<F: Field>(
    polynomial: CoefficientList<F>,
    dense: DensePolynomial<F>,
    back: CoefficientList<F>,
)
    requires
        polynomial.well_formed(),
        polynomial@.last().model() != F::zero_model(),
        dense.coeffs@ == trimmed(polynomial@),
        back@ == dense.coeffs@,
    ensures
        back@ == polynomial@,
{
}

/// A list that zeros were dropped from does not end in zero, and dropping again changes nothing.
pub proof fn trimmed_does_not_end_in_zero<F: Field>(coeffs: Seq<F>)
    ensures
        trimmed(coeffs).len() > 0 ==> trimmed(coeffs).last().model() != F::zero_model(),
        trimmed(trimmed(coeffs)) == trimmed(coeffs),
    decreases coeffs.len(),
{
    if coeffs.len() > 0 && coeffs.last().model() == F::zero_model() {
        trimmed_does_not_end_in_zero(coeffs.drop_last());
    }
}

/// Evaluating at a point of an extension is evaluating the polynomial whose coefficients were
/// taken for elements of the extension.
pub proof fn extension_then_evaluate<F: Field, E: ExtensionField<F>>(
    polynomial: CoefficientList<F>,
    lifted: CoefficientList<E>,
    point: Seq<E>,
)
    requires
        models(lifted@) == embedded::<F, E>(models(polynomial@)),
    ensures
        extension_eval::<F, E>(polynomial@, point) == multilinear_eval::<E>(
            models(lifted@),
            models(point),
        ),
{
}

/// The embedding carries monomials to monomials.
proof fn lemma_monomial_embedded<F: Field, E: ExtensionField<F>>(point: Seq<F::Model>, j: int)
    ensures
        E::embed(monomial::<F>(point, j)) == monomial::<E>(embedded::<F, E>(point), j),
    decreases point.len(),
{
    let rest = monomial::<F>(point.drop_last(), j / 2);
    E::embedding(rest, rest);
    if point.len() > 0 {
        lemma_monomial_embedded::<F, E>(point.drop_last(), j / 2);
        assert(embedded::<F, E>(point).drop_last() =~= embedded::<F, E>(point.drop_last()));
        E::embedding(rest, point.last());
    }
}

/// The embedding carries sums to sums.
proof fn lemma_total_embedded<F: Field, E: ExtensionField<F>>(terms: Seq<F::Model>)
    ensures
        E::embed(total::<F>(terms)) == total::<E>(embedded::<F, E>(terms)),
    decreases terms.len(),
{
    if terms.len() == 0 {
        E::embedding(F::zero_model(), F::zero_model());
    } else {
        lemma_total_embedded::<F, E>(terms.drop_last());
        assert(embedded::<F, E>(terms).drop_last() =~= embedded::<F, E>(terms.drop_last()));
        E::embedding(total::<F>(terms.drop_last()), terms.last());
    }
}

/// At a point whose coordinates come from the field of the coefficients, evaluating in the
/// extension gives the value in that field.
pub proof fn extension_agrees_on_base<F: Field, E: ExtensionField<F>>(
    coeffs: Seq<F::Model>,
    point: Seq<F::Model>,
)
    ensures
        multilinear_eval::<E>(embedded::<F, E>(coeffs), embedded::<F, E>(point)) == E::embed(
            multilinear_eval::<F>(coeffs, point),
        ),
{
    let lifted = embedded::<F, E>(coeffs);
    let lifted_point = embedded::<F, E>(point);
    let terms = Seq::new(
        coeffs.len(),
        |j: int| F::product(coeffs[j], monomial::<F>(point, j)),
    );
    let lifted_terms = Seq::new(
        lifted.len(),
        |j: int| E::product(lifted[j], monomial::<E>(lifted_point, j)),
    );
    assert forall|j: int| 0 <= j < coeffs.len() implies embedded::<F, E>(terms)[j]
        == lifted_terms[j] by {
        lemma_monomial_embedded::<F, E>(point, j);
        E::embedding(coeffs[j], monomial::<F>(point, j));
    }
    assert(embedded::<F, E>(terms) =~= lifted_terms);
    lemma_total_embedded::<F, E>(terms);
}

/// The sum of termwise sums is the sum of the two sums.
proof fn lemma_total_of_sums<F: Field>(a: Seq<F::Model>, b: Seq<F::Model>, sums: Seq<F::Model>)
    requires
        a.len() == b.len(),
        a.len() == sums.len(),
        forall|i: int| 0 <= i < a.len() ==> #[trigger] sums[i] == F::sum(a[i], b[i]),
    ensures
        total::<F>(sums) == F::sum(total::<F>(a), total::<F>(b)),
    decreases a.len(),
{
    if a.len() == 0 {
        F::closed(F::zero_model(), F::zero_model());
        F::neutral(F::zero_model());
    } else {
        lemma_total_of_sums::<F>(a.drop_last(), b.drop_last(), sums.drop_last());
        let (s, t) = (total::<F>(a.drop_last()), total::<F>(b.drop_last()));
        let (x, y) = (a.last(), b.last());
        F::ring(s, t, F::sum(x, y));
        F::ring(t, x, y);
        F::ring(x, t, y);
        F::ring(s, x, F::sum(t, y));
    }
}

/// Adding two polynomials coefficient by coefficient adds their values.
pub proof fn evaluation_is_additive<F: Field>(
    a: Seq<F::Model>,
    b: Seq<F::Model>,
    sums: Seq<F::Model>,
    point: Seq<F::Model>,
)
    requires
        a.len() == b.len(),
        a.len() == sums.len(),
        forall|j: int| 0 <= j < a.len() ==> #[trigger] sums[j] == F::sum(a[j], b[j]),
    ensures
        multilinear_eval::<F>(sums, point) == F::sum(
            multilinear_eval::<F>(a, point),
            multilinear_eval::<F>(b, point),
        ),
{
    let a_terms = Seq::new(a.len(), |j: int| F::product(a[j], monomial::<F>(point, j)));
    let b_terms = Seq::new(b.len(), |j: int| F::product(b[j], monomial::<F>(point, j)));
    let terms = Seq::new(sums.len(), |j: int| F::product(sums[j], monomial::<F>(point, j)));
    assert forall|j: int| 0 <= j < a.len() implies #[trigger] terms[j] == F::sum(
        a_terms[j],
        b_terms[j],
    ) by {
        let m = monomial::<F>(point, j);
        F::ring(m, a[j], b[j]);
        F::ring(m, b[j], a[j]);
        F::ring(m, sums[j], a[j]);
    }
    lemma_total_of_sums::<F>(a_terms, b_terms, terms);
}

/// Multiplying every coefficient by `x` multiplies the value by `x`.
pub proof fn evaluation_is_homogeneous<F: Field>(
    coeffs: Seq<F::Model>,
    scaled: Seq<F::Model>,
    x: F::Model,
    point: Seq<F::Model>,
)
    requires
        coeffs.len() == scaled.len(),
        forall|j: int| 0 <= j < coeffs.len() ==> #[trigger] scaled[j] == F::product(coeffs[j], x),
    ensures
        multilinear_eval::<F>(scaled, point) == F::product(
            multilinear_eval::<F>(coeffs, point),
            x,
        ),
{
    let terms = Seq::new(
        coeffs.len(),
        |j: int| F::product(coeffs[j], monomial::<F>(point, j)),
    );
    let scaled_terms = Seq::new(
        scaled.len(),
        |j: int| F::product(scaled[j], monomial::<F>(point, j)),
    );
    assert forall|j: int| 0 <= j < coeffs.len() implies #[trigger] scaled_terms[j] == F::product(
        terms[j],
        x,
    ) by {
        let m = monomial::<F>(point, j);
        F::ring(coeffs[j], x, m);
        F::ring(coeffs[j], m, x);
        F::ring(x, m, m);
    }
    lemma_total_scale::<F>(terms, scaled_terms, x);
}

/// In each variable a multilinear polynomial is affine: with the other coordinates fixed it is
/// its value at zero plus the variable times a `slope` that does not depend on the variable.
pub proof fn affine_in_each_variable<F: Field>(
    coeffs: Seq<F::Model>,
    point: Seq<F::Model>,
    i: int,
) -> (slope: F::Model)
    requires
        coeffs.len() == pow2(point.len()),
        0 <= i < point.len(),
    ensures
        forall|x: F::Model|
            multilinear_eval::<F>(coeffs, #[trigger] point.update(i, x)) == F::sum(
                multilinear_eval::<F>(coeffs, point.update(i, F::zero_model())),
                F::product(slope, x),
            ),
    decreases point.len(),
{
    let zero = F::zero_model();
    let half = pow2((point.len() - 1) as nat) as int;
    let tail = point.drop_first();
    vstd::arithmetic::power2::lemma_pow2_unfold(point.len());
    let low = coeffs.subrange(0, half);
    let high = coeffs.subrange(half, coeffs.len() as int);
    lemma_split_first::<F>(coeffs, point.update(i, zero));
    if i == 0 {
        let (l, h) = (multilinear_eval::<F>(low, tail), multilinear_eval::<F>(high, tail));
        assert(point.update(0, zero).drop_first() =~= tail);
        lemma_multilinear_is_element::<F>(low, tail);
        F::neutral(l);
        F::ring(h, zero, zero);
        assert forall|x: F::Model|
            multilinear_eval::<F>(coeffs, #[trigger] point.update(i, x)) == F::sum(
                multilinear_eval::<F>(coeffs, point.update(i, zero)),
                F::product(h, x),
            ) by {
            assert(point.update(0, x).drop_first() =~= tail);
            lemma_split_first::<F>(coeffs, point.update(0, x));
        }
        h
    } else {
        let low_slope = affine_in_each_variable::<F>(low, tail, i - 1);
        let high_slope = affine_in_each_variable::<F>(high, tail, i - 1);
        let first = point[0];
        let slope = F::sum(low_slope, F::product(high_slope, first));
        let l = multilinear_eval::<F>(low, tail.update(i - 1, zero));
        let h = multilinear_eval::<F>(high, tail.update(i - 1, zero));
        assert(point.update(i, zero).drop_first() =~= tail.update(i - 1, zero));
        assert forall|x: F::Model|
            multilinear_eval::<F>(coeffs, #[trigger] point.update(i, x)) == F::sum(
                multilinear_eval::<F>(coeffs, point.update(i, zero)),
                F::product(slope, x),
            ) by {
            assert(point.update(i, x).drop_first() =~= tail.update(i - 1, x));
            lemma_split_first::<F>(coeffs, point.update(i, x));
            let (a, b) = (F::product(low_slope, x), F::product(high_slope, x));
            let (c, d) = (F::product(h, first), F::product(b, first));
            // (h + b) * first is h * first + b * first.
            F::ring(first, h, b);
            F::ring(first, b, h);
            F::ring(F::sum(h, b), first, first);
            // b * first is (high_slope * first) * x.
            F::ring(high_slope, x, first);
            F::ring(x, first, first);
            F::ring(high_slope, first, x);
            // slope * x is a + d.
            F::ring(x, low_slope, F::product(high_slope, first));
            F::ring(x, F::product(high_slope, first), low_slope);
            F::ring(slope, x, x);
            // (l + a) + (c + d) is (l + c) + (a + d).
            F::ring(l, a, F::sum(c, d));
            F::ring(a, c, d);
            F::ring(c, a, d);
            F::ring(l, c, F::sum(a, d));
        }
        slope
    }
}

/// A polynomial is that of the lower half of its coefficients, plus the first variable times
/// that of the upper half, both in the other variables.
pub proof fn split_by_first_variable<F: Field>(coeffs: Seq<F::Model>, point: Seq<F::Model>)
    requires
        point.len() > 0,
        coeffs.len() == pow2(point.len()),
    ensures
        ({
            let half = pow2((point.len() - 1) as nat) as int;
            let low = coeffs.subrange(0, half);
            let high = coeffs.subrange(half, coeffs.len() as int);
            multilinear_eval::<F>(coeffs, point) == F::sum(
                multilinear_eval::<F>(low, point.drop_first()),
                F::product(point[0], multilinear_eval::<F>(high, point.drop_first())),
            )
        }),
{
    let half = pow2((point.len() - 1) as nat) as int;
    let high = coeffs.subrange(half, coeffs.len() as int);
    lemma_split_first::<F>(coeffs, point);
    F::ring(point[0], multilinear_eval::<F>(high, point.drop_first()), point[0]);
}

/// The value of one polynomial plus `s` times another, coefficient by coefficient, is the value
/// of the one plus `s` times the value of the other.
pub proof fn evaluation_is_linear<F: Field>(
    a: Seq<F::Model>,
    b: Seq<F::Model>,
    s: F::Model,
    combined: Seq<F::Model>,
    point: Seq<F::Model>,
)
    requires
        a.len() == b.len(),
        a.len() == combined.len(),
        forall|j: int|
            0 <= j < a.len() ==> #[trigger] combined[j] == F::sum(a[j], F::product(s, b[j])),
    ensures
        multilinear_eval::<F>(combined, point) == F::sum(
            multilinear_eval::<F>(a, point),
            F::product(s, multilinear_eval::<F>(b, point)),
        ),
{
    let scaled = Seq::new(b.len(), |j: int| F::product(b[j], s));
    assert forall|j: int| 0 <= j < a.len() implies #[trigger] combined[j] == F::sum(
        a[j],
        scaled[j],
    ) by {
        F::ring(s, b[j], s);
    }
    evaluation_is_homogeneous::<F>(b, scaled, s, point);
    evaluation_is_additive::<F>(a, scaled, combined, point);
    F::ring(s, multilinear_eval::<F>(b, point), s);
}

/// A monomial is zero where one of its variables is.
pub proof fn monomial_with_zero_variable<F: Field>(point: Seq<F::Model>, j: nat, i: int)
    requires
        0 <= i < point.len(),
        point[i] == F::zero_model(),
        coordinate(point.len(), j, i),
    ensures
        monomial::<F>(point, j as int) == F::zero_model(),
    decreases point.len(),
{
    let n = point.len();
    let rest = monomial::<F>(point.drop_last(), j as int / 2);
    F::ring(rest, F::zero_model(), F::zero_model());
    if i == n - 1 {
        vstd::arithmetic::power2::lemma2_to64();
        assert((n - 1 - i) as nat == 0);
        assert(j / 1 == j);
    } else {
        lemma_coordinate_half(n, j, i);
        monomial_with_zero_variable::<F>(point.drop_last(), j / 2, i);
        F::ring(point.last(), F::zero_model(), F::zero_model());
    }
}

/// Where a variable is zero, the coefficients of the monomials that have it do not matter.
pub proof fn zero_variable_hides_coefficients<F: Field>(
    a: Seq<F::Model>,
    b: Seq<F::Model>,
    point: Seq<F::Model>,
    i: int,
)
    requires
        a.len() == b.len(),
        a.len() == pow2(point.len()),
        0 <= i < point.len(),
        point[i] == F::zero_model(),
        forall|j: int|
            0 <= j < a.len() && !coordinate(point.len(), j as nat, i) ==> #[trigger] a[j] == b[j],
    ensures
        multilinear_eval::<F>(a, point) == multilinear_eval::<F>(b, point),
{
    let a_terms = Seq::new(a.len(), |j: int| F::product(a[j], monomial::<F>(point, j)));
    let b_terms = Seq::new(b.len(), |j: int| F::product(b[j], monomial::<F>(point, j)));
    assert forall|j: int| 0 <= j < a.len() implies a_terms[j] == b_terms[j] by {
        if coordinate(point.len(), j as nat, i) {
            monomial_with_zero_variable::<F>(point, j as nat, i);
            F::ring(a[j], F::zero_model(), F::zero_model());
            F::ring(b[j], F::zero_model(), F::zero_model());
        } else {
            assert(a[j] == b[j]);
        }
    }
    assert(a_terms =~= b_terms);
}

/// Where all variables are zero, a polynomial is its constant term.
pub proof fn value_at_origin<F: Field>(coeffs: Seq<F::Model>, point: Seq<F::Model>)
    requires
        coeffs.len() == pow2(point.len()),
        F::is_element(coeffs[0]),
        forall|i: int| 0 <= i < point.len() ==> #[trigger] point[i] == F::zero_model(),
    ensures
        multilinear_eval::<F>(coeffs, point) == coeffs[0],
    decreases point.len(),
{
    if point.len() == 0 {
        vstd::arithmetic::power2::lemma2_to64();
        lemma_no_variables::<F>(coeffs, point);
    } else {
        let half = pow2((point.len() - 1) as nat) as int;
        let tail = point.drop_first();
        let high = coeffs.subrange(half, coeffs.len() as int);
        vstd::arithmetic::power2::lemma_pow2_pos((point.len() - 1) as nat);
        lemma_split_first::<F>(coeffs, point);
        value_at_origin::<F>(coeffs.subrange(0, half), tail);
        F::ring(multilinear_eval::<F>(high, tail), F::zero_model(), F::zero_model());
        F::neutral(coeffs[0]);
    }
}

/// With a factor before it, a polynomial at a point of an extension is that of the lower half
/// of its coefficients, plus the first variable times that of the upper half.
pub proof fn extension_split_by_first_variable<F: Field, E: ExtensionField<F>>(
    coeffs: Seq<F>,
    point: Seq<E>,
    scalar: E::Model,
)
    requires
        point.len() > 0,
        coeffs.len() == pow2(point.len()),
    ensures
        ({
            let half = pow2((point.len() - 1) as nat) as int;
            let low = coeffs.subrange(0, half);
            let high = coeffs.subrange(half, coeffs.len() as int);
            scaled_extension_eval::<F, E>(coeffs, point, scalar) == E::sum(
                scaled_extension_eval::<F, E>(low, point.drop_first(), scalar),
                E::product(
                    point[0].model(),
                    scaled_extension_eval::<F, E>(high, point.drop_first(), scalar),
                ),
            )
        }),
{
    let half = pow2((point.len() - 1) as nat) as int;
    let tail = point.drop_first();
    let low = coeffs.subrange(0, half);
    let high = coeffs.subrange(half, coeffs.len() as int);
    let x = point[0].model();
    vstd::arithmetic::power2::lemma_pow2_unfold(point.len());
    lemma_split_scaled::<F, E>(coeffs, low, high, point, scalar);
    E::ring(x, scalar, extension_eval::<F, E>(high, tail));
}

/// A product as the factor before a polynomial may be taken apart, and the factor zero gives
/// zero.
pub proof fn extension_scalar_factors<F: Field, E: ExtensionField<F>>(
    coeffs: Seq<F>,
    point: Seq<E>,
    s: E::Model,
    t: E::Model,
)
    ensures
        scaled_extension_eval::<F, E>(coeffs, point, E::product(s, t)) == E::product(
            s,
            scaled_extension_eval::<F, E>(coeffs, point, t),
        ),
        scaled_extension_eval::<F, E>(coeffs, point, E::zero_model()) == E::zero_model(),
{
    let value = extension_eval::<F, E>(coeffs, point);
    E::ring(s, t, value);
    E::ring(value, E::zero_model(), E::zero_model());
}

/// Evaluation on one thread and on several gives the same element.
pub proof fn threads_do_not_matter<F: Field, E: ExtensionField<F>>(
    coeffs: Seq<F>,
    point: Seq<E>,
    scalar: E,
    one_thread: E,
    several_threads: E,
)
    requires
        one_thread.model() == scaled_extension_eval::<F, E>(coeffs, point, scalar.model()),
        several_threads.model() == scaled_extension_eval::<F, E>(coeffs, point, scalar.model()),
    ensures
        one_thread.model() == several_threads.model(),
{
}

/// In a field that extends itself by the identity, evaluating at a point of the extension is
/// evaluating.
pub proof fn own_extension_is_evaluation<F: ExtensionField<F>>(coeffs: Seq<F>, point: Seq<F>)
    requires
        forall|a: F::Model| F::is_element(a) ==> #[trigger] F::embed(a) == a,
    ensures
        extension_eval::<F, F>(coeffs, point) == multilinear_eval::<F>(
            models(coeffs),
            models(point),
        ),
{
    lemma_models_are_elements(coeffs);
    assert(embedded::<F, F>(models(coeffs)) =~= models(coeffs));
}

} // verus!
