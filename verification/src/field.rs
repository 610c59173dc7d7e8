//! The fields that polynomials take their coefficients and points from.

use core::ops::{Add, Mul};
use vstd::prelude::*;
use vstd::std_specs::ops::{AddSpec, MulSpec};

verus! {

/// The operations of a field that evaluating a polynomial needs.
///
/// Every value stands for a mathematical element, its [`model`](Field::model), and the
/// operations are stated on the models. The ring laws below hold of all models; the two
/// neutral elements are neutral for the models that are elements of the field, and the
/// model of a value always is one.
pub trait Field: Copy + Send + Sync + Add<Output = Self> + Mul<Output = Self> {
    /// What a value stands for.
    type Model;

    /// The element that a value stands for.
    spec fn model(self) -> Self::Model;

    /// Whether a model is an element of the field.
    spec fn is_element(a: Self::Model) -> bool;

    /// The neutral element of addition.
    spec fn zero_model() -> Self::Model;

    /// The neutral element of multiplication.
    spec fn one_model() -> Self::Model;

    /// Addition.
    spec fn sum(a: Self::Model, b: Self::Model) -> Self::Model;

    /// Multiplication.
    spec fn product(a: Self::Model, b: Self::Model) -> Self::Model;

    /// Every value stands for an element.
    proof fn model_is_element(x: Self)
        ensures
            Self::is_element(x.model()),
    ;

    /// The operations and the neutral elements stay in the field.
    proof fn closed(a: Self::Model, b: Self::Model)
        ensures
            Self::is_element(Self::zero_model()),
            Self::is_element(Self::one_model()),
            Self::is_element(Self::sum(a, b)),
            Self::is_element(Self::product(a, b)),
    ;

    /// Zero and one are neutral.
    proof fn neutral(a: Self::Model)
        requires
            Self::is_element(a),
        ensures
            Self::sum(a, Self::zero_model()) == a,
            Self::product(a, Self::one_model()) == a,
    ;

    /// Addition and multiplication form a commutative ring.
    proof fn ring(a: Self::Model, b: Self::Model, c: Self::Model)
        ensures
            Self::sum(a, b) == Self::sum(b, a),
            Self::sum(Self::sum(a, b), c) == Self::sum(a, Self::sum(b, c)),
            Self::product(a, b) == Self::product(b, a),
            Self::product(Self::product(a, b), c) == Self::product(a, Self::product(b, c)),
            Self::product(a, Self::sum(b, c)) == Self::sum(
                Self::product(a, b),
                Self::product(a, c),
            ),
            Self::product(a, Self::zero_model()) == Self::zero_model(),
    ;

    /// The operators `+` and `*` always answer, and compute [`sum`](Field::sum) and
    /// [`product`](Field::product).
    proof fn operators()
        ensures
            Self::obeys_add_spec(),
            Self::obeys_mul_spec(),
            forall|a: Self, b: Self| #[trigger] a.add_req(b),
            forall|a: Self, b: Self| #[trigger] a.mul_req(b),
            forall|a: Self, b: Self|
                (#[trigger] a.add_spec(b)).model() == Self::sum(a.model(), b.model()),
            forall|a: Self, b: Self|
                (#[trigger] a.mul_spec(b)).model() == Self::product(a.model(), b.model()),
    ;

    /// Zero.
    fn zero() -> (r: Self)
        ensures
            r.model() == Self::zero_model(),
    ;

    /// One.
    fn one() -> (r: Self)
        ensures
            r.model() == Self::one_model(),
    ;

    /// Whether the value is zero.
    fn is_zero(&self) -> (r: bool)
        ensures
            r == (self.model() == Self::zero_model()),
    ;
}

/// A field that extends the field `F`.
pub trait ExtensionField<F: Field>: Field {
    /// The element of the extension that an element of `F` is.
    spec fn embed(a: F::Model) -> Self::Model;

    /// The embedding carries elements to elements and keeps the two neutral elements, sums
    /// and products.
    proof fn embedding(a: F::Model, b: F::Model)
        ensures
            Self::is_element(Self::embed(a)),
            Self::embed(F::zero_model()) == Self::zero_model(),
            Self::embed(F::one_model()) == Self::one_model(),
            Self::embed(F::sum(a, b)) == Self::sum(Self::embed(a), Self::embed(b)),
            Self::embed(F::product(a, b)) == Self::product(Self::embed(a), Self::embed(b)),
    ;

    /// The value of the extension that `elem` is.
    fn from_base_prime_field(elem: F) -> (r: Self)
        ensures
            r.model() == Self::embed(elem.model()),
    ;

    /// The product of `self` and an element of `F`.
    fn mul_by_base_prime_field(&self, elem: &F) -> (r: Self)
        ensures
            r.model() == Self::product(self.model(), Self::embed(elem.model())),
    ;
}

/// The elements that a sequence of values stands for.
pub open spec fn models<F: Field>(values: Seq<F>) -> Seq<F::Model> {
    Seq::new(values.len(), |i: int| values[i].model())
}

/// Whether all members of a sequence are elements of the field.
pub open spec fn all_elements<F: Field>(a: Seq<F::Model>) -> bool {
    forall|i: int| 0 <= i < a.len() ==> F::is_element(#[trigger] a[i])
}

/// The elements of the extension `E` that elements of `F` are.
pub open spec fn embedded<F: Field, E: ExtensionField<F>>(a: Seq<F::Model>) -> Seq<E::Model> {
    Seq::new(a.len(), |i: int| E::embed(a[i]))
}

/// Values stand for elements.
pub proof fn lemma_models_are_elements<F: Field>(values: Seq<F>)
    ensures
        all_elements::<F>(models(values)),
{
    assert forall|i: int| 0 <= i < values.len() implies F::is_element(
        #[trigger] models(values)[i],
    ) by {
        F::model_is_element(values[i]);
    }
}

} // verus!
