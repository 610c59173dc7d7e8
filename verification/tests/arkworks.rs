//! The library over fields of arkworks.

use ark_ff::{BigInt, Fp2, Fp2Config, Fp64, MontBackend, MontConfig};
use ark_poly::univariate::DensePolynomial as ArkPolynomial;
use ark_poly::{DenseUVPolynomial, Polynomial};
use core::ops::{Add, Mul};
use multilinear::field::{ExtensionField, Field};
use multilinear::poly_utils::coeffs::CoefficientList;
use multilinear::poly_utils::dense::DensePolynomial;
use multilinear::poly_utils::multilinear::MultilinearPoint;

/// A 31-bit prime field.
struct BabyBear;

type Base = Fp64<MontBackend<BabyBear, 1>>;

impl MontConfig<1> for BabyBear {
    const MODULUS: BigInt<1> = BigInt([2013265921]);
    const GENERATOR: Base = Base::new(BigInt([31]));
    const TWO_ADIC_ROOT_OF_UNITY: Base = Base::new(BigInt([440564289]));
}

/// Its extension by a square root of 11.
struct BabyBearRoot;

type Extended = Fp2<BabyBearRoot>;

impl Fp2Config for BabyBearRoot {
    type Fp = Base;

    const NONRESIDUE: Base = Base::new(BigInt([11]));
    const FROBENIUS_COEFF_FP2_C1: &'static [Base] = &[
        Base::new(BigInt([1])),
        Base::new(BigInt([2013265920])),
    ];
}

#[derive(Debug, Clone, Copy, PartialEq, Eq)]
struct Element<A>(A);

impl<A: ark_ff::Field> Add for Element<A> {
    type Output = Self;

    fn add(self, rhs: Self) -> Self {
        Element(self.0 + rhs.0)
    }
}

impl<A: ark_ff::Field> Mul for Element<A> {
    type Output = Self;

    fn mul(self, rhs: Self) -> Self {
        Element(self.0 * rhs.0)
    }
}

// Every element stands for itself. The items that speak of models never run.
impl<A: ark_ff::Field> Field for Element<A> {
    type Model = Self;

    fn model(self) -> Self {
        self
    }

    fn is_element(_: Self) -> bool {
        true
    }

    fn zero_model() -> Self {
        Element(A::ZERO)
    }

    fn one_model() -> Self {
        Element(A::ONE)
    }

    fn sum(a: Self, b: Self) -> Self {
        a + b
    }

    fn product(a: Self, b: Self) -> Self {
        a * b
    }

    fn model_is_element(_: Self) {}

    fn closed(_: Self, _: Self) {}

    fn neutral(_: Self) {}

    fn ring(_: Self, _: Self, _: Self) {}

    fn operators() {}

    fn zero() -> Self {
        Element(A::ZERO)
    }

    fn one() -> Self {
        Element(A::ONE)
    }

    fn is_zero(&self) -> bool {
        self.0.is_zero()
    }
}

impl<A: ark_ff::Field> ExtensionField<Element<A::BasePrimeField>> for Element<A> {
    fn embed(a: Element<A::BasePrimeField>) -> Self {
        Element(A::from_base_prime_field(a.0))
    }

    fn embedding(_: Element<A::BasePrimeField>, _: Element<A::BasePrimeField>) {}

    fn from_base_prime_field(elem: Element<A::BasePrimeField>) -> Self {
        Element(A::from_base_prime_field(elem.0))
    }

    fn mul_by_base_prime_field(&self, elem: &Element<A::BasePrimeField>) -> Self {
        Element(self.0.mul_by_base_prime_field(&elem.0))
    }
}

fn elements(n: u64) -> Vec<Element<Base>> {
    (0..n).map(|i| Element(Base::from(i * i + 3))).collect()
}

#[test]
fn univariate_evaluation_agrees_with_arkworks() {
    let coeffs = elements(32);
    let raw: Vec<Base> = coeffs.iter().map(|c| c.0).collect();
    let ark = ArkPolynomial::from_coefficients_vec(raw);
    let list = CoefficientList::new(coeffs);
    let points = vec![
        Element(Base::from(0u64)),
        Element(Base::from(1u64)),
        Element(Base::from(4999u64)),
    ];
    let values = list.evaluate_at_univariate(&points);
    for (point, value) in points.iter().zip(values) {
        assert_eq!(value.0, ark.evaluate(&point.0));
        assert_eq!(
            value,
            list.evaluate(&MultilinearPoint::expand_from_univariate(*point, 5))
        );
    }
}

#[test]
fn evaluation_at_an_arkworks_extension() {
    let list = CoefficientList::new(elements(16));
    let point = MultilinearPoint(
        (1..5u64)
            .map(|i| Element(Extended::new(Base::from(7 * i), Base::from(i + 90))))
            .collect(),
    );
    let value = list.evaluate_at_extension(&point);
    assert_eq!(
        value,
        list.clone().to_extension::<Element<Extended>>().evaluate(&point)
    );
    // Every coefficient times the variables whose digit in its index is one.
    let mut expected = Element::<Extended>::zero();
    for (j, coeff) in list.coeffs().iter().enumerate() {
        let mut term = Element::<Extended>::from_base_prime_field(*coeff);
        for (i, x) in point.0.iter().enumerate() {
            if (j >> (3 - i)) & 1 == 1 {
                term = term * *x;
            }
        }
        expected = expected + term;
    }
    assert_eq!(value, expected);
}

#[test]
fn folding_over_an_arkworks_field() {
    let list = CoefficientList::new(elements(64));
    let first = vec![Element(Base::from(11u64)), Element(Base::from(500u64))];
    let last: Vec<Element<Base>> = (1..5u64).map(|i| Element(Base::from(i * 77))).collect();
    let folded = list.fold(&MultilinearPoint(last.clone()));
    assert_eq!(folded.num_variables(), 2);
    assert_eq!(
        folded.evaluate(&MultilinearPoint(first.clone())),
        list.evaluate(&MultilinearPoint([first, last].concat()))
    );
}

#[test]
fn dense_polynomials_drop_the_same_zeros_as_arkworks() {
    let zero = Element(Base::from(0u64));
    let raw = vec![
        Element(Base::from(4u64)),
        zero,
        Element(Base::from(9u64)),
        zero,
    ];
    let ark = ArkPolynomial::from_coefficients_vec(raw.iter().map(|c| c.0).collect());
    let dense = DensePolynomial::from(CoefficientList::new(raw));
    let kept: Vec<Base> = dense.coeffs.iter().map(|c| c.0).collect();
    assert_eq!(kept, ark.coeffs);
    assert_eq!(kept.len(), 3);
}
