use vstd::prelude::*;
use vstd::arithmetic::div_mod::lemma_small_mod;

use crate::extension::{coeffs_of, lemma_coeffs_of, ExtensionField};
use crate::field_element::FieldElement;
use crate::polynomial::Polynomial;
use crate::finite_field::{
    is_prime, mod_inverse, prime_inverse, prime_reduce, FiniteField, NonExtendedField, PrimeField,
};

verus! {

proof fn lemma_13_is_prime()
    ensures
        is_prime(13),
{
    assert forall|d: int| 1 < d < 13 implies #[trigger] (13int % d) != 0 by {
        assert(13int % d != 0) by (nonlinear_arith)
            requires
                1 < d < 13,
        ;
    }
}

proof fn lemma_43_is_prime()
    ensures
        is_prime(43),
{
    assert forall|d: int| 1 < d < 43 implies #[trigger] (43int % d) != 0 by {
        assert(43int % d != 0) by (nonlinear_arith)
            requires
                1 < d < 43,
        ;
    }
}

/// The prime field of integers modulo 13.
#[derive(Debug, Clone, Copy, PartialEq, Eq)]
pub struct Ff13;

impl FiniteField for Ff13 {
    type T = i64;

    type Model = int;

    open spec fn model(v: i64) -> int {
        v as int
    }

    open spec fn canonical(m: int) -> bool {
        0 <= m < 13
    }

    open spec fn reducible(v: i64) -> bool {
        true
    }

    open spec fn modulus_spec() -> int {
        13
    }

    open spec fn zero_spec() -> int {
        0
    }

    open spec fn one_spec() -> int {
        1
    }

    open spec fn reduce_spec(m: int) -> int {
        m % 13
    }

    open spec fn add_spec(a: int, b: int) -> int {
        a + b
    }

    open spec fn sub_spec(a: int, b: int) -> int {
        a - b
    }

    open spec fn mul_spec(a: int, b: int) -> int {
        a * b
    }

    open spec fn inverse_spec(m: int) -> Option<int> {
        mod_inverse(m, 13)
    }

    fn modulus() -> (r: i64) {
        13
    }

    fn zero() -> (r: i64) {
        0
    }

    fn one() -> (r: i64) {
        1
    }

    fn reduce(v: i64) -> (r: i64) {
        prime_reduce(v, 13)
    }

    fn add_raw(a: &i64, b: &i64) -> (r: i64) {
        *a + *b
    }

    fn sub_raw(a: &i64, b: &i64) -> (r: i64) {
        *a - *b
    }

    fn mul_raw(a: &i64, b: &i64) -> (r: i64) {
        proof {
            let (x, y) = (*a as int, *b as int);
            assert(0 <= x * y < 13 * 13) by (nonlinear_arith)
                requires
                    0 <= x < 13,
                    0 <= y < 13,
            ;
        }
        *a * *b
    }

    fn inverse(v: &i64) -> (r: Option<i64>) {
        proof {
            lemma_13_is_prime();
            lemma_small_mod(1, 13);
        }
        prime_inverse(*v, 13)
    }

    fn equals(a: &i64, b: &i64) -> (r: bool) {
        *a == *b
    }

    fn duplicate(a: &i64) -> (r: i64) {
        *a
    }

    proof fn lemma_reduce_canonical(m: int) {
        lemma_small_mod(m as nat, 13);
    }

    proof fn lemma_neg(m: int) {
        lemma_small_mod(0, 13);
        vstd::arithmetic::div_mod::lemma_mod_self_0(13);
        if m > 0 {
            lemma_small_mod((13 - m) as nat, 13);
            lemma_small_mod(m as nat, 13);
        }
    }

    proof fn lemma_canonical_reducible(v: i64) {
    }
}

impl NonExtendedField for Ff13 {
    proof fn lemma_model(v: i64) {
    }
}

impl PrimeField for Ff13 {
    open spec fn prime() -> int {
        13
    }

    proof fn lemma_prime_field() {
        lemma_13_is_prime();
    }
}

/// The prime field of integers modulo 43.
#[derive(Debug, Clone, Copy, PartialEq, Eq)]
pub struct Ff43;

impl FiniteField for Ff43 {
    type T = i64;

    type Model = int;

    open spec fn model(v: i64) -> int {
        v as int
    }

    open spec fn canonical(m: int) -> bool {
        0 <= m < 43
    }

    open spec fn reducible(v: i64) -> bool {
        true
    }

    open spec fn modulus_spec() -> int {
        43
    }

    open spec fn zero_spec() -> int {
        0
    }

    open spec fn one_spec() -> int {
        1
    }

    open spec fn reduce_spec(m: int) -> int {
        m % 43
    }

    open spec fn add_spec(a: int, b: int) -> int {
        a + b
    }

    open spec fn sub_spec(a: int, b: int) -> int {
        a - b
    }

    open spec fn mul_spec(a: int, b: int) -> int {
        a * b
    }

    open spec fn inverse_spec(m: int) -> Option<int> {
        mod_inverse(m, 43)
    }

    fn modulus() -> (r: i64) {
        43
    }

    fn zero() -> (r: i64) {
        0
    }

    fn one() -> (r: i64) {
        1
    }

    fn reduce(v: i64) -> (r: i64) {
        prime_reduce(v, 43)
    }

    fn add_raw(a: &i64, b: &i64) -> (r: i64) {
        *a + *b
    }

    fn sub_raw(a: &i64, b: &i64) -> (r: i64) {
        *a - *b
    }

    fn mul_raw(a: &i64, b: &i64) -> (r: i64) {
        proof {
            let (x, y) = (*a as int, *b as int);
            assert(0 <= x * y < 43 * 43) by (nonlinear_arith)
                requires
                    0 <= x < 43,
                    0 <= y < 43,
            ;
        }
        *a * *b
    }

    fn inverse(v: &i64) -> (r: Option<i64>) {
        proof {
            lemma_43_is_prime();
            lemma_small_mod(1, 43);
        }
        prime_inverse(*v, 43)
    }

    fn equals(a: &i64, b: &i64) -> (r: bool) {
        *a == *b
    }

    fn duplicate(a: &i64) -> (r: i64) {
        *a
    }

    proof fn lemma_reduce_canonical(m: int) {
        lemma_small_mod(m as nat, 43);
    }

    proof fn lemma_neg(m: int) {
        lemma_small_mod(0, 43);
        vstd::arithmetic::div_mod::lemma_mod_self_0(43);
        if m > 0 {
            lemma_small_mod((43 - m) as nat, 43);
            lemma_small_mod(m as nat, 43);
        }
    }

    proof fn lemma_canonical_reducible(v: i64) {
    }
}

impl NonExtendedField for Ff43 {
    proof fn lemma_model(v: i64) {
    }
}

impl PrimeField for Ff43 {
    open spec fn prime() -> int {
        43
    }

    proof fn lemma_prime_field() {
        lemma_43_is_prime();
    }
}

/// The field of 13^2 elements: polynomials over the integers modulo 13, reduced
/// modulo x^2 + 2.
#[derive(Debug, Clone, Copy, PartialEq, Eq)]
pub struct Ff13_2;

impl ExtensionField for Ff13_2 {
    type Sub = Ff13;

    open spec fn modulus_seq() -> Seq<FieldElement<Ff13>> {
        coeffs_of::<Ff13>(seq![2i64, 0, 1])
    }

    fn modulus_poly() -> (r: Polynomial<FieldElement<Ff13>>) {
        let v: Vec<i64> = vec![2i64, 0, 1];
        assert(v@ =~= seq![2i64, 0, 1]);
        proof {
            lemma_coeffs_of::<Ff13>(v@);
        }
        Polynomial::from_values(v)
    }

    proof fn lemma_modulus() {
        let vals: Seq<i64> = seq![2i64, 0, 1];
        assert(vals.last() == 1);
        lemma_coeffs_of::<Ff13>(vals);
    }
}

/// The field of 13^4 elements: polynomials over the integers modulo 13, reduced
/// modulo x^4 + 2.
#[derive(Debug, Clone, Copy, PartialEq, Eq)]
pub struct Ff13_4;

impl ExtensionField for Ff13_4 {
    type Sub = Ff13;

    open spec fn modulus_seq() -> Seq<FieldElement<Ff13>> {
        coeffs_of::<Ff13>(seq![2i64, 0, 0, 0, 1])
    }

    fn modulus_poly() -> (r: Polynomial<FieldElement<Ff13>>) {
        let v: Vec<i64> = vec![2i64, 0, 0, 0, 1];
        assert(v@ =~= seq![2i64, 0, 0, 0, 1]);
        proof {
            lemma_coeffs_of::<Ff13>(v@);
        }
        Polynomial::from_values(v)
    }

    proof fn lemma_modulus() {
        let vals: Seq<i64> = seq![2i64, 0, 0, 0, 1];
        assert(vals.last() == 1);
        lemma_coeffs_of::<Ff13>(vals);
    }
}

/// The field of 43^6 elements: polynomials over the integers modulo 43, reduced
/// modulo x^6 + 6.
#[derive(Debug, Clone, Copy, PartialEq, Eq)]
pub struct Ff43_6;

impl ExtensionField for Ff43_6 {
    type Sub = Ff43;

    open spec fn modulus_seq() -> Seq<FieldElement<Ff43>> {
        coeffs_of::<Ff43>(seq![6i64, 0, 0, 0, 0, 0, 1])
    }

    fn modulus_poly() -> (r: Polynomial<FieldElement<Ff43>>) {
        let v: Vec<i64> = vec![6i64, 0, 0, 0, 0, 0, 1];
        assert(v@ =~= seq![6i64, 0, 0, 0, 0, 0, 1]);
        proof {
            lemma_coeffs_of::<Ff43>(v@);
        }
        Polynomial::from_values(v)
    }

    proof fn lemma_modulus() {
        let vals: Seq<i64> = seq![6i64, 0, 0, 0, 0, 0, 1];
        assert(vals.last() == 1);
        lemma_coeffs_of::<Ff43>(vals);
    }
}

pub type Fe13 = FieldElement<Ff13>;

pub type Fe13_2 = FieldElement<Ff13_2>;

pub type Fe13_4 = FieldElement<Ff13_4>;

pub type Fe43 = FieldElement<Ff43>;

pub type Fe43_6 = FieldElement<Ff43_6>;

} // verus!
