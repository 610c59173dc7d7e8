use multilinear::crypto::fields::{Field64, Field64_2, MODULUS};
use multilinear::field::{ExtensionField, Field};
use multilinear::ntt::wavelet_transform;
use multilinear::poly_utils::coeffs::{
    eval_extension, eval_extension_nonparallel, eval_extension_parallel, eval_multivariate,
    CoefficientList,
};
use multilinear::poly_utils::dense::DensePolynomial;
use multilinear::poly_utils::evals::EvaluationsList;
use multilinear::poly_utils::hypercube::BinaryHypercubePoint;
use multilinear::poly_utils::multilinear::MultilinearPoint;

type F = Field64;
type E = Field64_2;

fn numbers(values: &[u64]) -> Vec<F> {
    values.iter().map(|value| F::from(*value)).collect()
}

/// Values spread over the whole field.
fn spread(count: usize, seed: u64) -> Vec<F> {
    let mut state = seed;
    (0..count)
        .map(|_| {
            state = state
                .wrapping_mul(6364136223846793005)
                .wrapping_add(1442695040888963407);
            F::from(state)
        })
        .collect()
}

/// Every coefficient times the variables whose digit in its index is one.
fn by_monomials<G: Field>(coeffs: &[G], point: &[G]) -> G {
    let n = point.len();
    let mut value = G::zero();
    for (j, coeff) in coeffs.iter().enumerate() {
        let mut term = *coeff;
        for (i, x) in point.iter().enumerate() {
            if (j >> (n - 1 - i)) & 1 == 1 {
                term = term * *x;
            }
        }
        value = value + term;
    }
    value
}

#[test]
fn evaluation_is_the_sum_over_monomials() {
    for n in 0..8 {
        let coeffs = spread(1 << n, 17 + n as u64);
        let point = spread(n, 5);
        assert_eq!(
            CoefficientList::new(coeffs.clone()).evaluate(&MultilinearPoint(point.clone())),
            by_monomials(&coeffs, &point)
        );
    }
}

#[test]
fn evaluation_has_the_expected_values() {
    // 8 + 2 * 3 + 3 * 2 + 1 * 2 * 3
    let list = CoefficientList::new(numbers(&[8, 2, 3, 1]));
    let point = MultilinearPoint(numbers(&[2, 3]));
    assert_eq!(list.evaluate(&point).value(), 26);
    // X_0 * X_1 * X_2 * X_3 * X_4 alone
    let mut coeffs = numbers(&[0; 32]);
    coeffs[31] = F::from(2);
    let list = CoefficientList::new(coeffs);
    let point = MultilinearPoint(numbers(&[3, 5, 7, 11, 13]));
    assert_eq!(list.evaluate(&point).value(), 30030);
    // X_0 alone, and X_4 alone
    let mut coeffs = numbers(&[0; 32]);
    coeffs[16] = F::from(1);
    coeffs[1] = F::from(100);
    let list = CoefficientList::new(coeffs);
    assert_eq!(list.evaluate(&point).value(), 1303);
}

#[test]
fn a_constant_has_no_variables() {
    let list = CoefficientList::new(numbers(&[9]));
    assert_eq!(list.num_variables(), 0);
    assert_eq!(list.num_coeffs(), 1);
    assert_eq!(list.evaluate(&MultilinearPoint(vec![])), F::from(9));
    assert_eq!(list.evaluate_hypercube(BinaryHypercubePoint(0)), F::from(9));
    let extended: E = list.evaluate_at_extension(&MultilinearPoint(vec![]));
    assert_eq!(extended, E::from_base_prime_field(F::from(9)));
    assert_eq!(list.evaluate_at_univariate(&numbers(&[0, 4])), numbers(&[9, 9]));
    assert_eq!(list.fold(&MultilinearPoint(vec![])).coeffs(), list.coeffs());
    assert_eq!(EvaluationsList::from(list).evals(), &numbers(&[9])[..]);
}

#[test]
fn large_polynomials_are_evaluated_on_several_threads() {
    let n = 14;
    let coeffs = spread(1 << n, 3);
    let point = spread(n, 4);
    let list = CoefficientList::new(coeffs.clone());
    let expected = by_monomials(&coeffs, &point);
    assert_eq!(list.evaluate(&MultilinearPoint(point.clone())), expected);
    let lifted: Vec<E> = point.iter().map(|x| E::from_base_prime_field(*x)).collect();
    let value: E = list.evaluate_at_extension(&MultilinearPoint(lifted));
    assert_eq!(value, E::from_base_prime_field(expected));
}

#[test]
fn folding_keeps_the_order_of_the_chunks() {
    // c0 + c1 * x for each pair
    let list = CoefficientList::new(numbers(&[1, 2, 3, 4, 5, 6, 7, 8]));
    let folded = list.fold(&MultilinearPoint(numbers(&[10])));
    assert_eq!(folded.coeffs(), &numbers(&[21, 43, 65, 87])[..]);
    assert_eq!(folded.num_variables(), 2);
    let folded = list.fold(&MultilinearPoint(numbers(&[100, 10])));
    assert_eq!(folded.coeffs(), &numbers(&[4321, 8765])[..]);
}

#[test]
fn folding_then_evaluating_is_evaluating() {
    let n = 12;
    let list = CoefficientList::new(spread(1 << n, 8));
    let point = spread(n, 9);
    let value = list.evaluate(&MultilinearPoint(point.clone()));
    for k in 0..=n {
        let folded = list.fold(&MultilinearPoint(point[n - k..].to_vec()));
        assert_eq!(folded.num_variables(), n - k);
        assert_eq!(
            folded.evaluate(&MultilinearPoint(point[..n - k].to_vec())),
            value
        );
    }
}

#[test]
fn folding_in_two_steps_is_folding_at_once() {
    let list = CoefficientList::new(spread(64, 1));
    let point = spread(5, 2);
    let once = list.fold(&MultilinearPoint(point.clone()));
    let twice = list
        .fold(&MultilinearPoint(point[2..].to_vec()))
        .fold(&MultilinearPoint(point[..2].to_vec()));
    assert_eq!(once.coeffs(), twice.coeffs());
}

#[test]
fn folding_nothing_and_everything() {
    let list = CoefficientList::new(spread(16, 1));
    let point = MultilinearPoint(spread(4, 2));
    assert_eq!(list.fold(&MultilinearPoint(vec![])).coeffs(), list.coeffs());
    assert_eq!(list.fold(&point).coeffs(), &[list.evaluate(&point)][..]);
}

#[test]
fn evaluations_are_the_values_on_the_hypercube() {
    let list = CoefficientList::new(spread(32, 6));
    let evaluations = EvaluationsList::from(list.clone());
    assert_eq!(evaluations.num_variables(), 5);
    for b in 0..32 {
        assert_eq!(
            evaluations[b],
            list.evaluate_hypercube(BinaryHypercubePoint(b))
        );
        // The coefficients whose digits lie within those of the point.
        let mut sum = F::zero();
        for (j, coeff) in list.coeffs().iter().enumerate() {
            if j & b == j {
                sum = sum + *coeff;
            }
        }
        assert_eq!(evaluations[b], sum);
    }
}

#[test]
fn the_transform_works_in_place() {
    let mut values = numbers(&[5, 3, 7, 2, 11, 13, 17, 19]);
    wavelet_transform(&mut values);
    assert_eq!(values, numbers(&[5, 8, 12, 17, 16, 32, 40, 77]));
}

#[test]
fn points_of_the_hypercube_have_the_highest_digit_first() {
    let point = MultilinearPoint::<F>::from_binary_hypercube_point(BinaryHypercubePoint(0b0110), 4);
    assert_eq!(point.0, numbers(&[0, 1, 1, 0]));
    let point = MultilinearPoint::<F>::from_binary_hypercube_point(BinaryHypercubePoint(0b100), 3);
    assert_eq!(point.0, numbers(&[1, 0, 0]));
    assert_eq!(point.num_variables(), 3);
}

#[test]
fn points_of_powers_have_the_highest_power_first() {
    let point = MultilinearPoint::expand_from_univariate(F::from(3), 4);
    assert_eq!(point.0, numbers(&[6561, 81, 9, 3]));
}

#[test]
fn univariate_evaluation_is_evaluation_at_powers() {
    let list = CoefficientList::new(spread(32, 12));
    let points = spread(4, 13);
    let values = list.evaluate_at_univariate(&points);
    let dense = DensePolynomial::from(list.clone());
    assert_eq!(values.len(), 4);
    for (x, value) in points.iter().zip(values) {
        assert_eq!(
            value,
            list.evaluate(&MultilinearPoint::expand_from_univariate(*x, 5))
        );
        assert_eq!(value, dense.evaluate(x));
    }
    // 1 + 2 * 10 + 3 * 100 + 4 * 1000
    let list = CoefficientList::new(numbers(&[1, 2, 3, 4]));
    assert_eq!(
        list.evaluate_at_univariate(&numbers(&[10, 0])),
        numbers(&[4321, 1])
    );
    assert_eq!(list.evaluate_at_univariate(&[]), vec![]);
}

#[test]
fn dense_polynomials_drop_zeros_at_the_end() {
    let dense = DensePolynomial::from_coefficients_slice(&numbers(&[1, 0, 2, 0, 0]));
    assert_eq!(dense.coeffs, numbers(&[1, 0, 2]));
    let again = DensePolynomial::from_coefficients_vec(dense.coeffs.clone());
    assert_eq!(again.coeffs, dense.coeffs);
    let zero = DensePolynomial::from_coefficients_vec(numbers(&[0, 0]));
    assert_eq!(zero.coeffs, vec![]);
    assert_eq!(zero.evaluate(&F::from(5)), F::zero());
    assert_eq!(dense.clone().evaluate(&F::from(5)), F::from(51));
}

#[test]
fn dense_polynomials_and_back() {
    let list = CoefficientList::new(numbers(&[1, 0, 2, 7]));
    let back = CoefficientList::from(DensePolynomial::from(list.clone()));
    assert_eq!(back.coeffs(), list.coeffs());
    // A zero at the end is lost.
    let list = CoefficientList::new(numbers(&[1, 5, 0, 0]));
    let back = CoefficientList::from(DensePolynomial::from(list));
    assert_eq!(back.coeffs(), &numbers(&[1, 5])[..]);
    assert_eq!(back.num_variables(), 1);
}

#[test]
fn evaluation_at_an_extension() {
    let coeffs = spread(16, 21);
    let list = CoefficientList::new(coeffs.clone());
    let parts = spread(8, 22);
    let point: Vec<E> = (0..4)
        .map(|i| E {
            c0: parts[2 * i],
            c1: parts[2 * i + 1],
        })
        .collect();
    let lifted: Vec<E> = coeffs.iter().map(|c| E::from_base_prime_field(*c)).collect();
    let value = list.evaluate_at_extension(&MultilinearPoint(point.clone()));
    assert_eq!(value, by_monomials(&lifted, &point));
    let extended = list.to_extension::<E>();
    assert_eq!(extended.coeffs(), &lifted[..]);
    assert_eq!(extended.num_variables(), 4);
    assert_eq!(value, extended.evaluate(&MultilinearPoint(point)));
    // (3 + 4 * u) at u, with u * u = 7
    let list = CoefficientList::new(numbers(&[3, 4]));
    let u = E {
        c0: F::zero(),
        c1: F::one(),
    };
    let value = list.evaluate_at_extension(&MultilinearPoint(vec![u]));
    assert_eq!(
        value,
        E {
            c0: F::from(3),
            c1: F::from(4)
        }
    );
}

#[test]
fn an_extension_agrees_on_the_base_field() {
    let list = CoefficientList::new(spread(64, 31));
    let point = spread(6, 32);
    let lifted: Vec<E> = point.iter().map(|x| E::from_base_prime_field(*x)).collect();
    let value = list.evaluate(&MultilinearPoint(point.clone()));
    let extended: E = list.evaluate_at_extension(&MultilinearPoint(lifted));
    assert_eq!(extended, E::from_base_prime_field(value));
    let own: F = list.evaluate_at_extension(&MultilinearPoint(point));
    assert_eq!(own, value);
}

#[test]
fn evaluation_is_linear_in_the_coefficients() {
    let (a, b) = (spread(8, 41), spread(8, 42));
    let x = F::from(99);
    let point = MultilinearPoint(spread(3, 43));
    let sums = a.iter().zip(&b).map(|(s, t)| *s + *t).collect();
    let scaled = a.iter().map(|s| *s * x).collect();
    let (a, b) = (CoefficientList::new(a), CoefficientList::new(b));
    assert_eq!(
        CoefficientList::new(sums).evaluate(&point),
        a.evaluate(&point) + b.evaluate(&point)
    );
    assert_eq!(
        CoefficientList::new(scaled).evaluate(&point),
        a.evaluate(&point) * x
    );
}

#[test]
fn evaluation_is_affine_in_each_variable() {
    let list = CoefficientList::new(spread(8, 51));
    let point = spread(3, 52);
    for i in 0..3 {
        let at = |x: u64| {
            let mut moved = point.clone();
            moved[i] = F::from(x);
            list.evaluate(&MultilinearPoint(moved))
        };
        // at(0) + at(2) = 2 * at(1), and so on along the line.
        assert_eq!(at(0) + at(2), at(1) + at(1));
        assert_eq!(at(3) + at(11), at(7) + at(7));
    }
}

#[test]
fn field_arithmetic_wraps_at_the_modulus() {
    let minus_one = F::from(MODULUS - 1);
    assert_eq!(F::from(MODULUS), F::zero());
    assert_eq!(F::from(u64::MAX).value(), 4294967294);
    assert_eq!(minus_one + F::one(), F::zero());
    assert_eq!(minus_one * minus_one, F::one());
    assert_eq!((minus_one + minus_one).value(), MODULUS - 2);
    assert!(F::zero().is_zero());
    assert!(!F::one().is_zero());
    assert_eq!(
        (F::from(1 << 40) * F::from(1 << 40)).value(),
        // 2^80 = 2^64 * 2^16 = (2^32 - 1) * 2^16
        ((1 << 32) - 1) << 16
    );
}

#[test]
fn extension_arithmetic() {
    let a = E {
        c0: F::from(2),
        c1: F::from(3),
    };
    let b = E {
        c0: F::from(5),
        c1: F::from(11),
    };
    // (2 + 3u)(5 + 11u) = 10 + 7 * 33 + (22 + 15)u
    assert_eq!((a * b).c0.value(), 241);
    assert_eq!((a * b).c1.value(), 37);
    assert_eq!((a + b).c0.value(), 7);
    assert_eq!((a + b).c1.value(), 14);
    assert_eq!(a * E::one(), a);
    assert_eq!(a + E::zero(), a);
    assert!(E::zero().is_zero());
    assert!(!a.is_zero());
    assert_eq!(
        a.mul_by_base_prime_field(&F::from(10)),
        a * E::from_base_prime_field(F::from(10))
    );
}

/// Points of the extension spread over it.
fn spread_extension(count: usize, seed: u64) -> Vec<E> {
    let parts = spread(2 * count, seed);
    (0..count)
        .map(|i| E {
            c0: parts[2 * i],
            c1: parts[2 * i + 1],
        })
        .collect()
}

#[test]
fn evaluation_splits_by_the_first_variable() {
    for n in 1..8 {
        let coeffs = spread(1 << n, 61);
        let point = spread(n, 62);
        let (low, high) = coeffs.split_at(1 << (n - 1));
        assert_eq!(
            eval_multivariate(&coeffs, &point),
            eval_multivariate(low, &point[1..]) + point[0] * eval_multivariate(high, &point[1..])
        );
    }
}

#[test]
fn evaluation_of_a_linear_combination() {
    let (a, b) = (spread(64, 63), spread(64, 64));
    let s = F::from(123456789);
    let point = spread(6, 65);
    let combined: Vec<F> = a.iter().zip(&b).map(|(x, y)| *x + s * *y).collect();
    assert_eq!(
        eval_multivariate(&combined, &point),
        eval_multivariate(&a, &point) + s * eval_multivariate(&b, &point)
    );
}

#[test]
fn a_zero_variable_hides_the_coefficients_that_have_it() {
    let n = 6;
    let a = spread(1 << n, 66);
    for i in 0..n {
        let mut point = spread(n, 67);
        point[i] = F::zero();
        let mut b = a.clone();
        for (j, coeff) in b.iter_mut().enumerate() {
            if (j >> (n - 1 - i)) & 1 == 1 {
                *coeff = *coeff + F::from(j as u64 + 1);
            }
        }
        assert_ne!(a, b);
        assert_eq!(eval_multivariate(&a, &point), eval_multivariate(&b, &point));
    }
    assert_eq!(eval_multivariate(&a, &vec![F::zero(); n]), a[0]);
}

#[test]
fn one_thread_and_several_threads_agree() {
    let scalar = spread_extension(1, 71)[0];
    for n in [0, 1, 5, 10, 11, 12, 13] {
        let coeffs = spread(1 << n, 72);
        let point = spread_extension(n, 73);
        let value = eval_extension_nonparallel(&coeffs, &point, scalar);
        assert_eq!(eval_extension_parallel(&coeffs, &point, scalar), value);
        assert_eq!(eval_extension(&coeffs, &point, scalar), value);
    }
}

#[test]
fn evaluation_at_an_extension_splits_by_the_first_variable() {
    let coeffs = spread(32, 74);
    let point = spread_extension(5, 75);
    let s = spread_extension(1, 76)[0];
    let (low, high) = coeffs.split_at(16);
    assert_eq!(
        eval_extension_nonparallel(&coeffs, &point, s),
        eval_extension_nonparallel(low, &point[1..], s)
            + point[0] * eval_extension_nonparallel(high, &point[1..], s)
    );
}

#[test]
fn the_factor_before_a_polynomial_may_be_taken_apart() {
    let coeffs = spread(16, 77);
    let point = spread_extension(4, 78);
    let (s, t) = (spread_extension(1, 79)[0], spread_extension(1, 80)[0]);
    assert_eq!(
        eval_extension_nonparallel(&coeffs, &point, s * t),
        s * eval_extension_nonparallel(&coeffs, &point, t)
    );
    assert!(eval_extension_nonparallel(&coeffs, &point, E::zero()).is_zero());
}
