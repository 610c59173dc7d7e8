//! A 64-bit prime field and its quadratic extension.

use crate::field::{ExtensionField, Field};
use core::ops::{Add, Mul};
use vstd::arithmetic::div_mod::{
    lemma_add_mod_noop, lemma_mod_bound, lemma_mod_twice, lemma_mul_mod_noop_general,
    lemma_small_mod,
};
use vstd::prelude::*;
use vstd::std_specs::ops::{AddSpec, MulSpec};

verus! {

/// The order of [`Field64`], the prime `2^64 - 2^32 + 1`.
pub const MODULUS: u64 = 18446744069414584321;

/// The integers modulo [`MODULUS`].
#[derive(Debug, Clone, Copy, Eq)]
pub struct Field64 {
    /// The least non-negative representative.
    value: u64,
}

impl Field64 {
    #[verifier::type_invariant]
    spec fn reduced(self) -> bool {
        self.value < MODULUS
    }

    /// The residue class of a number.
    pub closed spec fn class_of(n: nat) -> Self {
        Field64 { value: (n % MODULUS as nat) as u64 }
    }

    /// The class of a number stands for its remainder.
    proof fn class_model(n: nat)
        ensures
            Field64::class_of(n).model() == n % (MODULUS as nat),
    {
        lemma_mod_bound(n as int, MODULUS as int);
        lemma_mod_twice(n as int, MODULUS as int);
    }

    /// The least non-negative representative.
    pub fn value(&self) -> (r: u64)
        ensures
            r == self.model(),
            r < MODULUS,
    {
        proof {
            use_type_invariant(self);
        }
        self.value
    }
}

impl vstd::std_specs::cmp::PartialEqSpecImpl for Field64 {
    open spec fn obeys_eq_spec() -> bool {
        true
    }

    open spec fn eq_spec(&self, other: &Self) -> bool {
        self.model() == other.model()
    }
}

impl PartialEq for Field64 {
    /// Whether the two values stand for the same element.
    fn eq(&self, other: &Self) -> (r: bool) {
        proof {
            use_type_invariant(self);
            use_type_invariant(other);
        }
        self.value == other.value
    }
}

impl vstd::std_specs::convert::FromSpecImpl<u64> for Field64 {
    open spec fn obeys_from_spec() -> bool {
        true
    }

    open spec fn from_spec(value: u64) -> Self {
        Field64::class_of(value as nat)
    }
}

impl From<u64> for Field64 {
    /// The residue class of `value`.
    fn from(value: u64) -> (r: Self)
        ensures
            r.model() == value as nat % MODULUS as nat,
    {
        Field64 { value: value % MODULUS }
    }
}

impl vstd::std_specs::ops::AddSpecImpl for Field64 {
    open spec fn obeys_add_spec() -> bool {
        true
    }

    open spec fn add_req(self, rhs: Self) -> bool {
        true
    }

    open spec fn add_spec(self, rhs: Self) -> Self {
        Field64::class_of(self.model() + rhs.model())
    }
}

impl Add for Field64 {
    type Output = Field64;

    fn add(self, rhs: Field64) -> (r: Field64) {
        proof {
            use_type_invariant(&self);
            use_type_invariant(&rhs);
        }
        let wide: u128 = (self.value as u128 + rhs.value as u128) % (MODULUS as u128);
        Field64 { value: wide as u64 }
    }
}

impl vstd::std_specs::ops::MulSpecImpl for Field64 {
    open spec fn obeys_mul_spec() -> bool {
        true
    }

    open spec fn mul_req(self, rhs: Self) -> bool {
        true
    }

    open spec fn mul_spec(self, rhs: Self) -> Self {
        Field64::class_of(self.model() * rhs.model())
    }
}

impl Mul for Field64 {
    type Output = Field64;

    fn mul(self, rhs: Field64) -> (r: Field64) {
        proof {
            use_type_invariant(&self);
            use_type_invariant(&rhs);
            let a = self.value as int;
            let b = rhs.value as int;
            let p = MODULUS as int;
            assert(0 <= a * b <= p * p) by (nonlinear_arith)
                requires
                    0 <= a < p,
                    0 <= b < p,
            ;
        }
        let wide: u128 = ((self.value as u128) * (rhs.value as u128)) % (MODULUS as u128);
        Field64 { value: wide as u64 }
    }
}

impl Field for Field64 {
    /// The least non-negative representative.
    type Model = nat;

    closed spec fn model(self) -> nat {
        self.value as nat % MODULUS as nat
    }

    open spec fn is_element(a: nat) -> bool {
        a < MODULUS
    }

    open spec fn zero_model() -> nat {
        0
    }

    open spec fn one_model() -> nat {
        1
    }

    open spec fn sum(a: nat, b: nat) -> nat {
        (a + b) % (MODULUS as nat)
    }

    open spec fn product(a: nat, b: nat) -> nat {
        (a * b) % (MODULUS as nat)
    }

    proof fn model_is_element(x: Self) {
    }

    proof fn closed(a: nat, b: nat) {
        lemma_mod_bound((a * b) as int, MODULUS as int);
    }

    proof fn neutral(a: nat) {
        lemma_small_mod(a, MODULUS as nat);
    }

    proof fn ring(a: nat, b: nat, c: nat) {
        let (x, y, z, p) = (a as int, b as int, c as int, MODULUS as int);
        lemma_add_mod_noop(x + y, z, p);
        lemma_add_mod_noop(x, y + z, p);
        lemma_mod_twice(x + y, p);
        lemma_mod_twice(y + z, p);
        lemma_add_mod_noop((x + y) % p, z, p);
        lemma_add_mod_noop(x, (y + z) % p, p);
        lemma_mul_mod_noop_general(x * y, z, p);
        lemma_mul_mod_noop_general(x, y * z, p);
        lemma_mul_mod_noop_general(x, y + z, p);
        lemma_add_mod_noop(x * y, x * z, p);
        assert(x * y == y * x) by (nonlinear_arith);
        assert((x * y) * z == x * (y * z)) by (nonlinear_arith);
        assert(x * (y + z) == x * y + x * z) by (nonlinear_arith);
        assert(x * 0 == 0);
    }

    proof fn operators() {
        assert forall|a: Self, b: Self| (#[trigger] a.add_spec(b)).model() == Self::sum(
            a.model(),
            b.model(),
        ) by {
            Field64::class_model(a.model() + b.model());
        }
        assert forall|a: Self, b: Self| (#[trigger] a.mul_spec(b)).model() == Self::product(
            a.model(),
            b.model(),
        ) by {
            Field64::class_model(a.model() * b.model());
        }
    }

    fn zero() -> (r: Self) {
        Field64 { value: 0 }
    }

    fn one() -> (r: Self) {
        Field64 { value: 1 }
    }

    fn is_zero(&self) -> (r: bool) {
        proof {
            use_type_invariant(self);
        }
        self.value == 0
    }
}

/// Every field extends itself.
impl ExtensionField<Field64> for Field64 {
    open spec fn embed(a: nat) -> nat {
        a % (MODULUS as nat)
    }

    proof fn embedding(a: nat, b: nat) {
        let (x, y, p) = (a as int, b as int, MODULUS as int);
        lemma_mod_bound(x, p);
        lemma_add_mod_noop(x, y, p);
        lemma_mul_mod_noop_general(x, y, p);
        lemma_mod_twice(x + y, p);
        lemma_mod_twice(x * y, p);
    }

    fn from_base_prime_field(elem: Field64) -> (r: Self) {
        proof {
            use_type_invariant(&elem);
        }
        elem
    }

    fn mul_by_base_prime_field(&self, elem: &Field64) -> (r: Self) {
        proof {
            use_type_invariant(elem);
            Field64::operators();
        }
        *self * *elem
    }
}

/// The square of the element that [`Field64_2`] adds to [`Field64`].
pub const NONRESIDUE: u64 = 7;

/// The quadratic extension of [`Field64`] by a square root `u` of [`NONRESIDUE`]: the elements
/// `c0 + c1 * u`.
#[allow(non_camel_case_types)]
#[derive(Debug, Clone, Copy, Eq)]
pub struct Field64_2 {
    pub c0: Field64,
    pub c1: Field64,
}

impl vstd::std_specs::cmp::PartialEqSpecImpl for Field64_2 {
    open spec fn obeys_eq_spec() -> bool {
        true
    }

    open spec fn eq_spec(&self, other: &Self) -> bool {
        self.model() == other.model()
    }
}

impl PartialEq for Field64_2 {
    /// Whether the two values stand for the same element.
    fn eq(&self, other: &Self) -> (r: bool) {
        self.c0 == other.c0 && self.c1 == other.c1
    }
}

impl vstd::std_specs::ops::AddSpecImpl for Field64_2 {
    open spec fn obeys_add_spec() -> bool {
        true
    }

    open spec fn add_req(self, rhs: Self) -> bool {
        true
    }

    open spec fn add_spec(self, rhs: Self) -> Self {
        Field64_2 {
            c0: Field64::class_of(self.c0.model() + rhs.c0.model()),
            c1: Field64::class_of(self.c1.model() + rhs.c1.model()),
        }
    }
}

impl Add for Field64_2 {
    type Output = Field64_2;

    fn add(self, rhs: Field64_2) -> (r: Field64_2) {
        Field64_2 { c0: self.c0 + rhs.c0, c1: self.c1 + rhs.c1 }
    }
}

impl vstd::std_specs::ops::MulSpecImpl for Field64_2 {
    open spec fn obeys_mul_spec() -> bool {
        true
    }

    open spec fn mul_req(self, rhs: Self) -> bool {
        true
    }

    open spec fn mul_spec(self, rhs: Self) -> Self {
        let (a, b) = (self.model(), rhs.model());
        Field64_2 {
            c0: Field64::class_of(a.0 * b.0 + NONRESIDUE as nat * (a.1 * b.1)),
            c1: Field64::class_of(a.0 * b.1 + a.1 * b.0),
        }
    }
}

impl Mul for Field64_2 {
    type Output = Field64_2;

    fn mul(self, rhs: Field64_2) -> (r: Field64_2) {
        let root = Field64::from(NONRESIDUE);
        proof {
            let (x, y) = (self.model(), rhs.model());
            let p = MODULUS as int;
            let k = NONRESIDUE as int;
            Field64::operators();
            lemma_small_mod(NONRESIDUE as nat, MODULUS as nat);
            lemma_mul_mod_noop_general(k, (x.1 * y.1) as int, p);
            lemma_add_mod_noop((x.0 * y.0) as int, k * (x.1 * y.1), p);
            lemma_add_mod_noop((x.0 * y.1) as int, (x.1 * y.0) as int, p);
        }
        Field64_2 {
            c0: self.c0 * rhs.c0 + root * (self.c1 * rhs.c1),
            c1: self.c0 * rhs.c1 + self.c1 * rhs.c0,
        }
    }
}

/// Reducing the factors of a sum of two products first does not change its class.
proof fn lemma_two_products(a: int, b: int, c: int, d: int, k: int)
    ensures
        ((a % MODULUS as int) * b + k * ((c % MODULUS as int) * d)) % (MODULUS as int) == (a * b + k
            * (c * d)) % (MODULUS as int),
{
    let p = MODULUS as int;
    lemma_mul_mod_noop_general(a, b, p);
    lemma_mul_mod_noop_general(c, d, p);
    lemma_mul_mod_noop_general(k, c * d, p);
    lemma_mul_mod_noop_general(k, (c % p) * d, p);
    lemma_add_mod_noop((a % p) * b, k * ((c % p) * d), p);
    lemma_add_mod_noop(a * b, k * (c * d), p);
}

impl Field for Field64_2 {
    /// The pair of the two coordinates.
    type Model = (nat, nat);

    open spec fn model(self) -> (nat, nat) {
        (self.c0.model(), self.c1.model())
    }

    open spec fn is_element(a: (nat, nat)) -> bool {
        a.0 < MODULUS && a.1 < MODULUS
    }

    open spec fn zero_model() -> (nat, nat) {
        (0, 0)
    }

    open spec fn one_model() -> (nat, nat) {
        (1, 0)
    }

    open spec fn sum(a: (nat, nat), b: (nat, nat)) -> (nat, nat) {
        ((a.0 + b.0) % (MODULUS as nat), (a.1 + b.1) % (MODULUS as nat))
    }

    open spec fn product(a: (nat, nat), b: (nat, nat)) -> (nat, nat) {
        (
            (a.0 * b.0 + NONRESIDUE as nat * (a.1 * b.1)) % (MODULUS as nat),
            (a.0 * b.1 + a.1 * b.0) % (MODULUS as nat),
        )
    }

    proof fn model_is_element(x: Self) {
        Field64::model_is_element(x.c0);
        Field64::model_is_element(x.c1);
    }

    proof fn closed(a: (nat, nat), b: (nat, nat)) {
        let (first, second) = (
            a.0 * b.0 + NONRESIDUE as nat * (a.1 * b.1),
            a.0 * b.1 + a.1 * b.0,
        );
        lemma_mod_bound(first as int, MODULUS as int);
        lemma_mod_bound(second as int, MODULUS as int);
    }

    proof fn neutral(a: (nat, nat)) {
        lemma_small_mod(a.0, MODULUS as nat);
        lemma_small_mod(a.1, MODULUS as nat);
        assert(a.0 * 1 + NONRESIDUE as nat * (a.1 * 0) == a.0);
        assert(a.0 * 0 + a.1 * 1 == a.1);
    }

    proof fn ring(a: (nat, nat), b: (nat, nat), c: (nat, nat)) {
        assert(a.0 * 0 + NONRESIDUE as nat * (a.1 * 0) == 0);
        assert(a.0 * 0 + a.1 * 0 == 0);
        lemma_quadratic_ring(
            a.0 as int,
            a.1 as int,
            b.0 as int,
            b.1 as int,
            c.0 as int,
            c.1 as int,
        );
    }

    proof fn operators() {
        assert forall|a: Self, b: Self| (#[trigger] a.add_spec(b)).model() == Self::sum(
            a.model(),
            b.model(),
        ) by {
            Field64::class_model(a.c0.model() + b.c0.model());
            Field64::class_model(a.c1.model() + b.c1.model());
        }
        assert forall|a: Self, b: Self| (#[trigger] a.mul_spec(b)).model() == Self::product(
            a.model(),
            b.model(),
        ) by {
            let (x, y) = (a.model(), b.model());
            Field64::class_model(x.0 * y.0 + NONRESIDUE as nat * (x.1 * y.1));
            Field64::class_model(x.0 * y.1 + x.1 * y.0);
        }
    }

    fn zero() -> (r: Self) {
        Field64_2 { c0: Field64::zero(), c1: Field64::zero() }
    }

    fn one() -> (r: Self) {
        Field64_2 { c0: Field64::one(), c1: Field64::zero() }
    }

    fn is_zero(&self) -> (r: bool) {
        self.c0.is_zero() && self.c1.is_zero()
    }
}

/// Multiplying out a factor, with the products of three factors in ascending form.
proof fn lemma_times_pair(a: int, b: int, k: int, c: int, d: int, e: int)
    ensures
        (a * b + k * (c * d)) * e == a * (b * e) + k * (c * (d * e)),
        a * (b * e) == b * (e * a),
        c * (d * e) == d * (e * c),
        a * (b * e) == b * (a * e),
        c * (d * e) == d * (c * e),
{
    assert((a * b + k * (c * d)) * e == (a * b) * e + (k * (c * d)) * e) by (nonlinear_arith);
    assert((a * b) * e == a * (b * e)) by (nonlinear_arith);
    assert((k * (c * d)) * e == k * (c * (d * e))) by (nonlinear_arith);
    assert(a * (b * e) == b * (e * a)) by (nonlinear_arith);
    assert(c * (d * e) == d * (e * c)) by (nonlinear_arith);
    assert(a * (b * e) == b * (a * e)) by (nonlinear_arith);
    assert(c * (d * e) == d * (c * e)) by (nonlinear_arith);
}

/// The ring laws of pairs `x + y * u`, each stated for both coordinates.
proof fn lemma_quadratic_ring(a0: int, a1: int, b0: int, b1: int, c0: int, c1: int)
    ensures
        ({
            let p = MODULUS as int;
            let k = NONRESIDUE as int;
            &&& ((a0 + b0) % p + c0) % p == (a0 + (b0 + c0) % p) % p
            &&& ((a1 + b1) % p + c1) % p == (a1 + (b1 + c1) % p) % p
            &&& a0 * b0 + k * (a1 * b1) == b0 * a0 + k * (b1 * a1)
            &&& a0 * b1 + a1 * b0 == b0 * a1 + b1 * a0
            &&& (((a0 * b0 + k * (a1 * b1)) % p) * c0 + k * (((a0 * b1 + a1 * b0) % p) * c1)) % p
                == (a0 * ((b0 * c0 + k * (b1 * c1)) % p) + k * (a1 * ((b0 * c1 + b1 * c0) % p)))
                % p
            &&& (((a0 * b0 + k * (a1 * b1)) % p) * c1 + ((a0 * b1 + a1 * b0) % p) * c0) % p == (a0
                * ((b0 * c1 + b1 * c0) % p) + a1 * ((b0 * c0 + k * (b1 * c1)) % p)) % p
            &&& (a0 * ((b0 + c0) % p) + k * (a1 * ((b1 + c1) % p))) % p == ((a0 * b0 + k * (a1
                * b1)) % p + (a0 * c0 + k * (a1 * c1)) % p) % p
            &&& (a0 * ((b1 + c1) % p) + a1 * ((b0 + c0) % p)) % p == ((a0 * b1 + a1 * b0) % p + (a0
                * c1 + a1 * c0) % p) % p
        }),
{
    let p = MODULUS as int;
    let k = NONRESIDUE as int;
    let (ab0, ab1) = (a0 * b0 + k * (a1 * b1), a0 * b1 + a1 * b0);
    let (bc0, bc1) = (b0 * c0 + k * (b1 * c1), b0 * c1 + b1 * c0);
    let (ac0, ac1) = (a0 * c0 + k * (a1 * c1), a0 * c1 + a1 * c0);
    lemma_add_mod_noop(a0 + b0, c0, p);
    lemma_add_mod_noop(a0, b0 + c0, p);
    lemma_add_mod_noop((a0 + b0) % p, c0, p);
    lemma_add_mod_noop(a0, (b0 + c0) % p, p);
    lemma_add_mod_noop(a1 + b1, c1, p);
    lemma_add_mod_noop(a1, b1 + c1, p);
    lemma_add_mod_noop((a1 + b1) % p, c1, p);
    lemma_add_mod_noop(a1, (b1 + c1) % p, p);
    lemma_mod_twice(a0 + b0, p);
    lemma_mod_twice(b0 + c0, p);
    lemma_mod_twice(a1 + b1, p);
    lemma_mod_twice(b1 + c1, p);
    assert(a0 * b0 == b0 * a0 && a1 * b1 == b1 * a1 && a0 * b1 == b1 * a0 && a1 * b0 == b0 * a1)
        by (nonlinear_arith);

    lemma_two_products(ab0, c0, ab1, c1, k);
    lemma_two_products(bc0, a0, bc1, a1, k);
    lemma_two_products(ab0, c1, ab1, c0, 1);
    lemma_two_products(bc1, a0, bc0, a1, 1);
    lemma_two_products(b0 + c0, a0, b1 + c1, a1, k);
    lemma_two_products(b1 + c1, a0, b0 + c0, a1, 1);
    lemma_add_mod_noop(ab0, ac0, p);
    lemma_add_mod_noop(ab1, ac1, p);
    lemma_times_pair(a0, b0, k, a1, b1, c0);
    lemma_times_pair(b0, c0, k, b1, c1, a0);
    lemma_times_pair(a0, b1, 1, a1, b0, c1);
    lemma_times_pair(b0, c1, 1, b1, c0, a1);
    assert(ab0 * c0 + k * (ab1 * c1) == bc0 * a0 + k * (bc1 * a1));
    lemma_times_pair(a0, b0, k, a1, b1, c1);
    lemma_times_pair(a0, b1, 1, a1, b0, c0);
    lemma_times_pair(b0, c1, 1, b1, c0, a0);
    lemma_times_pair(b0, c0, k, b1, c1, a1);
    assert(ab0 * c1 + ab1 * c0 == bc1 * a0 + bc0 * a1);
    assert((b0 + c0) * a0 + k * ((b1 + c1) * a1) == ab0 + ac0) by (nonlinear_arith)
        requires
            ab0 == a0 * b0 + k * (a1 * b1),
            ac0 == a0 * c0 + k * (a1 * c1),
    ;
    assert((b1 + c1) * a0 + (b0 + c0) * a1 == ab1 + ac1) by (nonlinear_arith)
        requires
            ab1 == a0 * b1 + a1 * b0,
            ac1 == a0 * c1 + a1 * c0,
    ;
    let (r0, r1, s0, s1) = (bc0 % p, bc1 % p, (b0 + c0) % p, (b1 + c1) % p);
    assert(r0 * a0 == a0 * r0 && r1 * a1 == a1 * r1 && r1 * a0 == a0 * r1 && r0 * a1 == a1 * r0)
        by (nonlinear_arith);
    assert(s0 * a0 == a0 * s0 && s1 * a1 == a1 * s1 && s1 * a0 == a0 * s1 && s0 * a1 == a1 * s0)
        by (nonlinear_arith);
}

impl ExtensionField<Field64> for Field64_2 {
    open spec fn embed(a: nat) -> (nat, nat) {
        (a % (MODULUS as nat), 0)
    }

    proof fn embedding(a: nat, b: nat) {
        let (x, y, p) = (a as int, b as int, MODULUS as int);
        lemma_mod_bound(x, p);
        lemma_add_mod_noop(x, y, p);
        lemma_mul_mod_noop_general(x, y, p);
        lemma_mod_twice(x + y, p);
        lemma_mod_twice(x * y, p);
        let (s, t) = (a % (MODULUS as nat), b % (MODULUS as nat));
        assert(s * t + NONRESIDUE as nat * (0nat * 0nat) == s * t);
        assert(s * 0 + 0 * t == 0);
    }

    fn from_base_prime_field(elem: Field64) -> (r: Self) {
        proof {
            Field64::model_is_element(elem);
            lemma_small_mod(elem.model(), MODULUS as nat);
        }
        Field64_2 { c0: elem, c1: Field64::zero() }
    }

    fn mul_by_base_prime_field(&self, elem: &Field64) -> (r: Self) {
        proof {
            Field64::operators();
            Field64::model_is_element(*elem);
            lemma_small_mod(elem.model(), MODULUS as nat);
            let (x, y, e) = (self.c0.model(), self.c1.model(), elem.model());
            assert(x * e + NONRESIDUE as nat * (y * 0) == x * e);
            assert(x * 0 + y * e == y * e);
        }
        Field64_2 { c0: self.c0 * *elem, c1: self.c1 * *elem }
    }
}

} // verus!
