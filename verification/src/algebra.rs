//! What polynomials are worth at a point, and the identities between these values.

use crate::field::{all_elements, Field};
use vstd::arithmetic::power2::pow2;
use vstd::prelude::*;

verus! {

/// The sum of all terms.
pub open spec fn total<F: Field>(terms: Seq<F::Model>) -> F::Model
    decreases terms.len(),
{
    if terms.len() == 0 {
        F::zero_model()
    } else {
        F::sum(total::<F>(terms.drop_last()), terms.last())
    }
}

/// The monomial with index `j`, at `point`.
///
/// The binary digits of `j` say which variables occur in it: the last variable belongs to the
/// lowest digit, and the first one to the highest.
pub open spec fn monomial<F: Field>(point: Seq<F::Model>, j: int) -> F::Model
    decreases point.len(),
{
    if point.len() == 0 {
        F::one_model()
    } else {
        let rest = monomial::<F>(point.drop_last(), j / 2);
        if j % 2 == 1 {
            F::product(rest, point.last())
        } else {
            rest
        }
    }
}

/// The multilinear polynomial with the given coefficients, at `point`: the sum of every
/// coefficient times the monomial with its index.
pub open spec fn multilinear_eval<F: Field>(
    coeffs: Seq<F::Model>,
    point: Seq<F::Model>,
) -> F::Model {
    total::<F>(
        Seq::new(coeffs.len(), |j: int| F::product(coeffs[j], monomial::<F>(point, j))),
    )
}

/// `x` to the power `e`.
pub open spec fn power<F: Field>(x: F::Model, e: nat) -> F::Model
    decreases e,
{
    if e == 0 {
        F::one_model()
    } else {
        F::product(power::<F>(x, (e - 1) as nat), x)
    }
}

/// The univariate polynomial with the given coefficients, that of the constant term first,
/// at `x`.
pub open spec fn univariate_eval<F: Field>(coeffs: Seq<F::Model>, x: F::Model) -> F::Model {
    total::<F>(
        Seq::new(coeffs.len(), |j: int| F::product(coeffs[j], power::<F>(x, j as nat))),
    )
}

/// A sum of terms is an element.
pub proof fn lemma_total_is_element<F: Field>(terms: Seq<F::Model>)
    ensures
        F::is_element(total::<F>(terms)),
{
    F::closed(F::zero_model(), F::zero_model());
    if terms.len() != 0 {
        F::closed(total::<F>(terms.drop_last()), terms.last());
    }
}

/// The sum over two sequences of terms, one after the other, is the sum of their sums.
pub proof fn lemma_total_concat<F: Field>(a: Seq<F::Model>, b: Seq<F::Model>)
    ensures
        total::<F>(a + b) == F::sum(total::<F>(a), total::<F>(b)),
    decreases b.len(),
{
    if b.len() == 0 {
        assert(a + b =~= a);
        lemma_total_is_element::<F>(a);
        F::neutral(total::<F>(a));
    } else {
        assert((a + b).drop_last() =~= a + b.drop_last());
        lemma_total_concat::<F>(a, b.drop_last());
        F::ring(total::<F>(a), total::<F>(b.drop_last()), b.last());
    }
}

/// Multiplying every term by `x` multiplies the sum by `x`.
pub proof fn lemma_total_scale<F: Field>(terms: Seq<F::Model>, scaled: Seq<F::Model>, x: F::Model)
    requires
        terms.len() == scaled.len(),
        forall|i: int| 0 <= i < terms.len() ==> #[trigger] scaled[i] == F::product(terms[i], x),
    ensures
        total::<F>(scaled) == F::product(total::<F>(terms), x),
    decreases terms.len(),
{
    if terms.len() == 0 {
        F::ring(x, F::zero_model(), F::zero_model());
    } else {
        lemma_total_scale::<F>(terms.drop_last(), scaled.drop_last(), x);
        let rest = total::<F>(terms.drop_last());
        F::ring(x, rest, terms.last());
        F::ring(rest, x, x);
        F::ring(terms.last(), x, x);
        F::ring(F::sum(rest, terms.last()), x, x);
    }
}

/// The first variable of a point belongs to the highest digit of the index.
pub proof fn lemma_monomial_first<F: Field>(point: Seq<F::Model>, j: int)
    requires
        point.len() > 0,
        0 <= j < pow2(point.len()),
    ensures
        j < pow2((point.len() - 1) as nat) ==> monomial::<F>(point, j) == monomial::<F>(
            point.drop_first(),
            j,
        ),
        j >= pow2((point.len() - 1) as nat) ==> monomial::<F>(point, j) == F::product(
            monomial::<F>(point.drop_first(), j - pow2((point.len() - 1) as nat)),
            point[0],
        ),
    decreases point.len(),
{
    broadcast use vstd::arithmetic::power2::lemma_pow2_unfold;

    let tail = point.drop_first();
    let n = point.len();
    if n == 1 {
        vstd::arithmetic::power2::lemma2_to64();
        assert(point.drop_last() =~= Seq::empty());
        assert(tail =~= Seq::empty());
        reveal_with_fuel(monomial, 2);
    } else {
        let half = pow2((n - 1) as nat);
        let quarter = pow2((n - 2) as nat);
        assert(half == 2 * quarter);
        lemma_monomial_first::<F>(point.drop_last(), j / 2);
        assert(point.drop_last().drop_first() =~= tail.drop_last());
        let rest = monomial::<F>(tail.drop_last(), j / 2 - quarter);
        if j >= half {
            assert((j - half) / 2 == j / 2 - quarter);
            assert((j - half) % 2 == j % 2);
            F::ring(rest, point[0], point.last());
            F::ring(rest, point.last(), point[0]);
            F::ring(point[0], point.last(), rest);
        }
    }
}

/// Splitting a polynomial by its first variable: the lower half of the coefficients does not
/// have it, and the upper half is multiplied by it.
pub proof fn lemma_split_first<F: Field>(coeffs: Seq<F::Model>, point: Seq<F::Model>)
    requires
        point.len() > 0,
        coeffs.len() == pow2(point.len()),
    ensures
        coeffs.len() == 2 * pow2((point.len() - 1) as nat),
        ({
            let half = pow2((point.len() - 1) as nat) as int;
            multilinear_eval::<F>(coeffs, point) == F::sum(
                multilinear_eval::<F>(coeffs.subrange(0, half), point.drop_first()),
                F::product(
                    multilinear_eval::<F>(
                        coeffs.subrange(half, coeffs.len() as int),
                        point.drop_first(),
                    ),
                    point[0],
                ),
            )
        }),
{
    vstd::arithmetic::power2::lemma_pow2_unfold(point.len());
    let half = pow2((point.len() - 1) as nat) as int;
    let tail = point.drop_first();
    let low = coeffs.subrange(0, half);
    let high = coeffs.subrange(half, coeffs.len() as int);
    let terms = Seq::new(
        coeffs.len(),
        |j: int| F::product(coeffs[j], monomial::<F>(point, j)),
    );
    let low_terms = Seq::new(low.len(), |j: int| F::product(low[j], monomial::<F>(tail, j)));
    let high_terms = Seq::new(high.len(), |j: int| F::product(high[j], monomial::<F>(tail, j)));
    let scaled = Seq::new(high.len(), |j: int| F::product(high_terms[j], point[0]));
    assert forall|j: int| 0 <= j < coeffs.len() implies terms[j] == (low_terms + scaled)[j] by {
        lemma_monomial_first::<F>(point, j);
        if j >= half {
            F::ring(coeffs[j], monomial::<F>(tail, j - half), point[0]);
        }
    }
    assert(terms =~= low_terms + scaled);
    lemma_total_concat::<F>(low_terms, scaled);
    lemma_total_scale::<F>(high_terms, scaled, point[0]);
}

/// A polynomial without variables is its only coefficient.
pub proof fn lemma_no_variables<F: Field>(coeffs: Seq<F::Model>, point: Seq<F::Model>)
    requires
        point.len() == 0,
        coeffs.len() == 1,
        F::is_element(coeffs[0]),
    ensures
        multilinear_eval::<F>(coeffs, point) == coeffs[0],
{
    let terms = Seq::new(
        coeffs.len(),
        |j: int| F::product(coeffs[j], monomial::<F>(point, j)),
    );
    assert(terms.drop_last() =~= Seq::empty());
    assert(total::<F>(terms.drop_last()) == F::zero_model());
    F::neutral(coeffs[0]);
    F::ring(F::zero_model(), coeffs[0], coeffs[0]);
}

/// The block of coefficients that starts at `from`, at the variables of `point` from the
/// `i`-th on, with the variables split off one by one.
pub open spec fn nested_eval<F: Field>(
    coeffs: Seq<F::Model>,
    from: int,
    point: Seq<F::Model>,
    i: int,
) -> F::Model
    decreases point.len() - i,
{
    if i >= point.len() {
        coeffs[from]
    } else {
        F::sum(
            nested_eval::<F>(coeffs, from, point, i + 1),
            F::product(
                nested_eval::<F>(coeffs, from + pow2((point.len() - i - 1) as nat), point, i + 1),
                point[i],
            ),
        )
    }
}

/// Splitting off the variables one by one gives the value of the block.
pub proof fn lemma_nested_eval<F: Field>(
    coeffs: Seq<F::Model>,
    from: int,
    point: Seq<F::Model>,
    i: int,
)
    requires
        all_elements::<F>(coeffs),
        0 <= i <= point.len(),
        0 <= from,
        from + pow2((point.len() - i) as nat) <= coeffs.len(),
    ensures
        nested_eval::<F>(coeffs, from, point, i) == multilinear_eval::<F>(
            coeffs.subrange(from, from + pow2((point.len() - i) as nat)),
            point.subrange(i, point.len() as int),
        ),
    decreases point.len() - i,
{
    let rest = point.subrange(i, point.len() as int);
    let block = coeffs.subrange(from, from + pow2((point.len() - i) as nat));
    if i == point.len() {
        vstd::arithmetic::power2::lemma2_to64();
        lemma_no_variables::<F>(block, rest);
    } else {
        let half = pow2((point.len() - i - 1) as nat);
        vstd::arithmetic::power2::lemma_pow2_unfold((point.len() - i) as nat);
        lemma_nested_eval::<F>(coeffs, from, point, i + 1);
        lemma_nested_eval::<F>(coeffs, from + half, point, i + 1);
        lemma_split_first::<F>(block, rest);
        assert(rest.drop_first() =~= point.subrange(i + 1, point.len() as int));
        assert(block.subrange(0, half as int) =~= coeffs.subrange(from, from + half));
        assert(block.subrange(half as int, block.len() as int) =~= coeffs.subrange(
            from + half,
            from + half + half,
        ));
    }
}

/// A power is an element.
pub proof fn lemma_power_is_element<F: Field>(x: F::Model, e: nat)
    ensures
        F::is_element(power::<F>(x, e)),
{
    F::closed(F::one_model(), F::one_model());
    if e > 0 {
        F::closed(power::<F>(x, (e - 1) as nat), x);
    }
}

/// Multiplying powers adds their exponents.
pub proof fn lemma_power_adds<F: Field>(x: F::Model, a: nat, b: nat)
    ensures
        power::<F>(x, a + b) == F::product(power::<F>(x, a), power::<F>(x, b)),
    decreases b,
{
    if b == 0 {
        lemma_power_is_element::<F>(x, a);
        F::neutral(power::<F>(x, a));
    } else {
        lemma_power_adds::<F>(x, a, (b - 1) as nat);
        F::ring(power::<F>(x, a), power::<F>(x, (b - 1) as nat), x);
    }
}

/// Squaring a power doubles its exponent.
pub proof fn lemma_power_doubles<F: Field>(x: F::Model, e: nat)
    ensures
        power::<F>(x, 2 * e) == F::product(power::<F>(x, e), power::<F>(x, e)),
{
    lemma_power_adds::<F>(x, e, e);
}

/// Horner's step: a univariate polynomial is its constant term plus `x` times the polynomial
/// of the other coefficients.
pub proof fn lemma_univariate_step<F: Field>(coeffs: Seq<F::Model>, x: F::Model)
    requires
        coeffs.len() > 0,
        F::is_element(coeffs[0]),
    ensures
        univariate_eval::<F>(coeffs, x) == F::sum(
            F::product(univariate_eval::<F>(coeffs.drop_first(), x), x),
            coeffs[0],
        ),
{
    let rest = coeffs.drop_first();
    let terms = Seq::new(coeffs.len(), |j: int| F::product(coeffs[j], power::<F>(x, j as nat)));
    let rest_terms = Seq::new(rest.len(), |j: int| F::product(rest[j], power::<F>(x, j as nat)));
    let scaled = Seq::new(rest.len(), |j: int| F::product(rest_terms[j], x));
    let first = seq![coeffs[0]];
    F::neutral(coeffs[0]);
    assert forall|j: int| 0 <= j < coeffs.len() implies terms[j] == (first + scaled)[j] by {
        if j > 0 {
            F::ring(coeffs[j], power::<F>(x, (j - 1) as nat), x);
        }
    }
    assert(terms =~= first + scaled);
    lemma_total_concat::<F>(first, scaled);
    lemma_total_scale::<F>(rest_terms, scaled, x);
    assert(first.drop_last() =~= Seq::empty());
    assert(total::<F>(first.drop_last()) == F::zero_model());
    F::ring(F::zero_model(), coeffs[0], coeffs[0]);
    F::ring(coeffs[0], total::<F>(scaled), coeffs[0]);
}

/// A zero as the highest coefficient adds nothing.
pub proof fn lemma_univariate_zero_last<F: Field>(coeffs: Seq<F::Model>, x: F::Model)
    requires
        coeffs.len() > 0,
        coeffs.last() == F::zero_model(),
    ensures
        univariate_eval::<F>(coeffs, x) == univariate_eval::<F>(coeffs.drop_last(), x),
{
    let shorter = coeffs.drop_last();
    let terms = Seq::new(coeffs.len(), |j: int| F::product(coeffs[j], power::<F>(x, j as nat)));
    let rest = Seq::new(shorter.len(), |j: int| F::product(shorter[j], power::<F>(x, j as nat)));
    assert(terms.drop_last() =~= rest);
    let top = power::<F>(x, shorter.len());
    F::ring(top, F::zero_model(), F::zero_model());
    lemma_total_is_element::<F>(rest);
    F::neutral(total::<F>(rest));
}

/// The value of a multilinear polynomial is an element.
pub proof fn lemma_multilinear_is_element<F: Field>(coeffs: Seq<F::Model>, point: Seq<F::Model>)
    ensures
        F::is_element(multilinear_eval::<F>(coeffs, point)),
{
    lemma_total_is_element::<F>(
        Seq::new(coeffs.len(), |j: int| F::product(coeffs[j], monomial::<F>(point, j))),
    );
}

} // verus!
