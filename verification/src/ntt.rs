//! The transform from coefficients to the values on the binary hypercube.

use crate::algebra::{lemma_no_variables, lemma_split_first, multilinear_eval};
use crate::field::{lemma_models_are_elements, models, Field};
use crate::poly_utils::hypercube::{hypercube_point, lemma_hypercube_first};
use vstd::arithmetic::power2::{is_pow2, pow2};
use vstd::prelude::*;

verus! {

/// Whether `values` are the values of the polynomial with the given coefficients on the binary
/// hypercube, in the order of the points' numbers.
pub open spec fn are_hypercube_values<F: Field>(coeffs: Seq<F>, values: Seq<F>) -> bool {
    &&& values.len() == coeffs.len()
    &&& forall|n: nat, b: nat|
        coeffs.len() == pow2(n) && b < coeffs.len() ==> (#[trigger] values[b as int]).model()
            == multilinear_eval::<F>(models(coeffs), #[trigger] hypercube_point::<F>(n, b))
}

/// Adding the values of the lower half to those of the upper half puts the values of the two
/// halves together.
proof fn lemma_combine<F: Field>(coeffs: Seq<F>, low: Seq<F>, high: Seq<F>, values: Seq<F>)
    requires
        values.len() == coeffs.len(),
        coeffs.len() == low.len() + high.len(),
        low.len() == high.len(),
        are_hypercube_values(coeffs.subrange(0, low.len() as int), low),
        are_hypercube_values(coeffs.subrange(low.len() as int, coeffs.len() as int), high),
        forall|b: int| 0 <= b < low.len() ==> (#[trigger] values[b]).model() == low[b].model(),
        forall|b: int|
            low.len() <= b < values.len() ==> (#[trigger] values[b]).model() == F::sum(
                low[b - low.len()].model(),
                high[b - low.len()].model(),
            ),
    ensures
        are_hypercube_values(coeffs, values),
{
    let half = low.len() as int;
    let low_coeffs = coeffs.subrange(0, half);
    let high_coeffs = coeffs.subrange(half, coeffs.len() as int);
    assert forall|n: nat, b: nat|
        coeffs.len() == pow2(n) && b < coeffs.len() implies (#[trigger] values[b as int]).model()
        == multilinear_eval::<F>(models(coeffs), #[trigger] hypercube_point::<F>(n, b)) by {
        vstd::arithmetic::power2::lemma2_to64();
        assert(n > 0);
        let m = (n - 1) as nat;
        let c: nat = if b < half {
            b
        } else {
            (b - half) as nat
        };
        let rest = hypercube_point::<F>(m, c);
        lemma_hypercube_first::<F>(n, b);
        lemma_split_first::<F>(models(coeffs), hypercube_point::<F>(n, b));
        assert(models(low_coeffs) =~= models(coeffs).subrange(0, half));
        assert(models(high_coeffs) =~= models(coeffs).subrange(half, coeffs.len() as int));
        assert(low[c as int].model() == multilinear_eval::<F>(models(low_coeffs), rest));
        assert(high[c as int].model() == multilinear_eval::<F>(models(high_coeffs), rest));
        let x = low[c as int].model();
        let y = high[c as int].model();
        F::model_is_element(low[c as int]);
        F::model_is_element(high[c as int]);
        F::neutral(x);
        F::neutral(y);
        F::ring(y, F::zero_model(), F::zero_model());
    }
}

/// Turns the block of `len` coefficients that starts at `from` into the values of their
/// polynomial on the binary hypercube, in place.
fn transform_block<F: Field>(values: &mut Vec<F>, from: usize, len: usize)
    requires
        from + len <= old(values)@.len(),
        is_pow2(len as int),
    ensures
        final(values)@.len() == old(values)@.len(),
        forall|i: int|
            0 <= i < old(values)@.len() && !(from <= i < from + len) ==> (#[trigger] final(values)@[i])
                == old(values)@[i],
        are_hypercube_values(
            old(values)@.subrange(from as int, from + len),
            final(values)@.subrange(from as int, from + len),
        ),
    decreases len,
{
    let ghost coeffs = values@.subrange(from as int, from + len);
    proof {
        reveal_with_fuel(is_pow2, 2);
    }
    if len == 1 {
        proof {
            assert forall|n: nat, b: nat|
                coeffs.len() == pow2(n) && b < coeffs.len() implies (
            #[trigger] coeffs[b as int]).model() == multilinear_eval::<F>(
                models(coeffs),
                #[trigger] hypercube_point::<F>(n, b),
            ) by {
                if n > 0 {
                    vstd::arithmetic::power2::lemma_pow2_strictly_increases(0, n);
                }
                vstd::arithmetic::power2::lemma2_to64();
                lemma_models_are_elements(coeffs);
                lemma_no_variables::<F>(models(coeffs), hypercube_point::<F>(n, b));
            }
        }
    } else {
        let half: usize = len / 2;
        assert(values.len() == values@.len());
        transform_block(values, from, half);
        let ghost once = values@;
        transform_block(values, from + half, half);
        let ghost twice = values@;
        let ghost low = twice.subrange(from as int, from + half);
        let ghost high = twice.subrange(from + half, from + len);
        proof {
            assert(low =~= once.subrange(from as int, from + half));
            assert(coeffs.subrange(0, half as int) =~= old(values)@.subrange(
                from as int,
                from + half,
            ));
            assert(coeffs.subrange(half as int, len as int) =~= once.subrange(
                from + half,
                from + len,
            ));
        }
        let mut i: usize = 0;
        while i < half
            invariant
                i <= half,
                len == 2 * half,
                from + len <= values@.len(),
                from + len <= usize::MAX,
                values@.len() == twice.len(),
                forall|k: int|
                    0 <= k < twice.len() && !(from + half <= k < from + half + i) ==> #[trigger]
                        values@[k] == twice[k],
                forall|k: int|
                    from + half <= k < from + half + i ==> (#[trigger] values@[k]).model()
                        == F::sum(twice[k - half].model(), twice[k].model()),
            decreases half - i,
        {
            proof {
                F::operators();
            }
            let added = values[from + i] + values[from + half + i];
            values.set(from + half + i, added);
            i = i + 1;
        }
        proof {
            lemma_combine(coeffs, low, high, values@.subrange(from as int, from + len));
        }
    }
}

/// Turns the coefficients of a multilinear polynomial into its values on the binary hypercube,
/// in place. Their number is a power of two.
pub fn wavelet_transform<F: Field>(values: &mut Vec<F>)
    requires
        is_pow2(old(values)@.len() as int),
    ensures
        are_hypercube_values(old(values)@, final(values)@),
{
    let len = values.len();
    transform_block(values, 0, len);
    proof {
        assert(old(values)@.subrange(0, len as int) =~= old(values)@);
        assert(values@.subrange(0, len as int) =~= values@);
    }
}

} // verus!
