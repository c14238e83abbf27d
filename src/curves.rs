use vstd::prelude::*;

use crate::elliptic_curve::{generator_spec, int_pow, AffinePoint, BaseModel, EllipticCurve};
use crate::extension::{coeffs_of, ext_reduce, ExtensionField};
use crate::field_element::FieldElement;
use crate::fields::{Ff13, Ff13_4, Ff43, Ff43_6};
use crate::pairing::Pairing;

verus! {

/// A small curve for experiments: y^2 = x^3 + 8x + 8 over the field of 13^4
/// elements, embedding degree 4.
#[derive(Debug, Clone, Copy, PartialEq, Eq)]
pub struct TinyJJ;

impl EllipticCurve for TinyJJ {
    type BaseField = Ff13_4;

    type ScalarField = Ff13;

    open spec fn a_spec() -> BaseModel<Self> {
        ext_reduce::<Ff13_4>(coeffs_of::<Ff13>(seq![8i64]))
    }

    open spec fn b_spec() -> BaseModel<Self> {
        ext_reduce::<Ff13_4>(coeffs_of::<Ff13>(seq![8i64]))
    }

    open spec fn generator_x_spec() -> BaseModel<Self> {
        ext_reduce::<Ff13_4>(coeffs_of::<Ff13>(seq![8i64, 2, 12, 5]))
    }

    open spec fn generator_y_spec() -> BaseModel<Self> {
        ext_reduce::<Ff13_4>(coeffs_of::<Ff13>(seq![0i64, 1, 5]))
    }

    open spec fn embedding_degree_spec() -> nat {
        4
    }

    open spec fn order_spec() -> int {
        28800
    }

    open spec fn r_spec() -> int {
        5
    }

    fn a() -> (r: FieldElement<Ff13_4>) {
        let v: Vec<i64> = vec![8i64];
        assert(v@ =~= seq![8i64]);
        proof {
            <Self::BaseField as ExtensionField>::lemma_modulus();
        }
        FieldElement::from_values(v)
    }

    fn b() -> (r: FieldElement<Ff13_4>) {
        let v: Vec<i64> = vec![8i64];
        assert(v@ =~= seq![8i64]);
        proof {
            <Self::BaseField as ExtensionField>::lemma_modulus();
        }
        FieldElement::from_values(v)
    }

    fn generator_x() -> (r: FieldElement<Ff13_4>) {
        let v: Vec<i64> = vec![8i64, 2, 12, 5];
        assert(v@ =~= seq![8i64, 2, 12, 5]);
        proof {
            <Self::BaseField as ExtensionField>::lemma_modulus();
        }
        FieldElement::from_values(v)
    }

    fn generator_y() -> (r: FieldElement<Ff13_4>) {
        let v: Vec<i64> = vec![0i64, 1, 5];
        assert(v@ =~= seq![0i64, 1, 5]);
        proof {
            <Self::BaseField as ExtensionField>::lemma_modulus();
        }
        FieldElement::from_values(v)
    }

    fn embedding_degree() -> (r: usize) {
        4
    }

    fn order() -> (r: i64) {
        28800
    }

    fn r() -> (r: i64) {
        5
    }

    proof fn lemma_parameters() {
        reveal_with_fuel(int_pow, 5);
        assert(int_pow(13, 4) == 28561);
    }
}

impl TinyJJ {
    /// The generator of the curve's cyclic group.
    pub fn generator() -> (r: AffinePoint<TinyJJ>)
        ensures
            r@ == generator_spec::<TinyJJ>(),
            r.wf(),
    {
        AffinePoint::generator_point()
    }
}

impl Pairing for TinyJJ {

}

/// A BLS6_6 curve: y^2 = x^3 + 6 over the field of 43^6 elements, embedding
/// degree 6.
#[derive(Debug, Clone, Copy, PartialEq, Eq)]
pub struct MoonMath;

impl EllipticCurve for MoonMath {
    type BaseField = Ff43_6;

    type ScalarField = Ff43;

    open spec fn a_spec() -> BaseModel<Self> {
        ext_reduce::<Ff43_6>(coeffs_of::<Ff43>(seq![0i64]))
    }

    open spec fn b_spec() -> BaseModel<Self> {
        ext_reduce::<Ff43_6>(coeffs_of::<Ff43>(seq![6i64]))
    }

    open spec fn generator_x_spec() -> BaseModel<Self> {
        ext_reduce::<Ff43_6>(coeffs_of::<Ff43>(seq![0i64, 0, 7]))
    }

    open spec fn generator_y_spec() -> BaseModel<Self> {
        ext_reduce::<Ff43_6>(coeffs_of::<Ff43>(seq![0i64, 0, 0, 16]))
    }

    open spec fn embedding_degree_spec() -> nat {
        6
    }

    open spec fn order_spec() -> int {
        6321251664
    }

    open spec fn r_spec() -> int {
        13
    }

    fn a() -> (r: FieldElement<Ff43_6>) {
        let v: Vec<i64> = vec![0i64];
        assert(v@ =~= seq![0i64]);
        proof {
            <Self::BaseField as ExtensionField>::lemma_modulus();
        }
        FieldElement::from_values(v)
    }

    fn b() -> (r: FieldElement<Ff43_6>) {
        let v: Vec<i64> = vec![6i64];
        assert(v@ =~= seq![6i64]);
        proof {
            <Self::BaseField as ExtensionField>::lemma_modulus();
        }
        FieldElement::from_values(v)
    }

    fn generator_x() -> (r: FieldElement<Ff43_6>) {
        let v: Vec<i64> = vec![0i64, 0, 7];
        assert(v@ =~= seq![0i64, 0, 7]);
        proof {
            <Self::BaseField as ExtensionField>::lemma_modulus();
        }
        FieldElement::from_values(v)
    }

    fn generator_y() -> (r: FieldElement<Ff43_6>) {
        let v: Vec<i64> = vec![0i64, 0, 0, 16];
        assert(v@ =~= seq![0i64, 0, 0, 16]);
        proof {
            <Self::BaseField as ExtensionField>::lemma_modulus();
        }
        FieldElement::from_values(v)
    }

    fn embedding_degree() -> (r: usize) {
        6
    }

    fn order() -> (r: i64) {
        6321251664
    }

    fn r() -> (r: i64) {
        13
    }

    proof fn lemma_parameters() {
        reveal_with_fuel(int_pow, 7);
        assert(int_pow(43, 6) == 6321363049);
    }
}

impl MoonMath {
    /// The generator of the curve's cyclic group.
    pub fn generator() -> (r: AffinePoint<MoonMath>)
        ensures
            r@ == generator_spec::<MoonMath>(),
            r.wf(),
    {
        AffinePoint::generator_point()
    }
}

impl Pairing for MoonMath {

}

} // verus!
