use pairings_from_scratch::fields::{Fe13, Fe13_2, Fe13_4, Fe43, Ff13};
use pairings_from_scratch::polynomial::Polynomial;

#[test]
fn test_finite_field_add() {
    let a = Fe13::new(7);
    let b = Fe13::new(10);
    let c = Fe13::new(4);
    assert_eq!(a.add(&b), c);
}

#[test]
fn test_finite_field_sub() {
    let a = Fe13::new(7);
    let b = Fe13::new(10);
    let c = Fe13::new(10);
    assert_eq!(a.sub(&b), c);
}

#[test]
fn test_finite_field_mul() {
    let a = Fe13::new(7);
    let b = Fe13::new(10);
    let c = Fe13::new(5);
    assert_eq!(a.mul(&b), c);
}

#[test]
fn test_ext_finite_field_mul() {
    let element1 = Fe13_2::from_values(vec![7, 3]);
    let element2 = Fe13_2::from_values(vec![5, 6]);
    let product = element1.mul(&element2);
    assert_eq!(*product.value(), Polynomial::from_values(vec![12, 5]));
}

#[test]
fn test_finite_field_div() {
    let a = Fe13::new(7);
    let b = Fe13::new(3);
    let c = Fe13::new(11);
    assert_eq!(a.div(&b).unwrap(), c);
}

#[test]
fn test_finite_field_neg() {
    let a = Fe13::new(7);
    let b = Fe13::new(6);
    assert_eq!(a.neg(), b);
}

#[test]
fn test_finite_field_inverse() {
    let a = Fe13::new(7);
    let inv_a = Fe13::new(2);
    assert_eq!(a.inverse().unwrap(), inv_a);
}

#[test]
fn test_ext_finite_field_inverse() {
    let ext_field_element = Fe13_2::from_values(vec![3, 5]);
    let inverse = ext_field_element.inverse().unwrap();
    assert_eq!(*inverse.value(), Polynomial::from_values(vec![6, 3]));

    let product = inverse.mul(&ext_field_element);
    let identity = Polynomial::new(vec![Fe13::one()]);
    assert_eq!(*product.value(), identity);
}

#[test]
fn test_finite_field_identity_add() {
    let zero = Fe13::zero();
    let a = Fe13::new(5);
    assert_eq!(a.add(&zero), a);
    assert_eq!(zero.add(&a), a);
}

#[test]
fn test_finite_field_identity_mul() {
    let one = Fe13::one();
    let a = Fe13::new(5);
    assert_eq!(a.mul(&one), a);
    assert_eq!(one.mul(&a), a);
}

#[test]
fn test_finite_field_associative_add() {
    let a = Fe13::new(3);
    let b = Fe13::new(4);
    let c = Fe13::new(5);
    assert_eq!(a.add(&b).add(&c), a.add(&b.add(&c)));
}

#[test]
fn test_finite_field_associative_mul() {
    let a = Fe13::new(3);
    let b = Fe13::new(4);
    let c = Fe13::new(5);
    assert_eq!(a.mul(&b).mul(&c), a.mul(&b.mul(&c)));
}

#[test]
fn test_finite_field_distributive_property() {
    let a = Fe13::new(3);
    let b = Fe13::new(4);
    let c = Fe13::new(5);
    assert_eq!(a.mul(&b.add(&c)), a.mul(&b).add(&a.mul(&c)));
}

#[test]
fn test_finite_field_pow() {
    assert_eq!(Fe13::new(8).pow::<Ff13>(169), Fe13::new(8));
    assert_eq!(Fe13::new(8).pow::<Ff13>(13), Fe13::new(8));
    assert_eq!(Fe13::new(3).pow::<Ff13>(5), Fe13::new(9));
    assert_eq!(Fe13::new(3).pow::<Ff13>(6), Fe13::one());
    assert_eq!(Fe13::new(3).pow::<Ff13>(0), Fe13::one());
    assert_eq!(Fe13::new(4).pow::<Ff13>(7), Fe13::new(4));
    assert_eq!(Fe13::new(0).pow::<Ff13>(4), Fe13::zero());
}

#[test]
fn test_ext_finite_field_pow() {
    let element = Fe13_2::from_values(vec![3]);
    let res = Fe13_2::from_values(vec![9]);
    assert_eq!(element.pow::<Ff13>(5), res);
}

#[test]
fn field_new_reduces_negative_and_large_values() {
    assert_eq!(Fe13::new(-3), Fe13::new(10));
    assert_eq!(Fe13::new(27), Fe13::new(1));
    assert_eq!(*Fe13::new(-14).value(), 12);
    assert_eq!(*Fe43::new(100).value(), 14);
}

#[test]
fn field_inverse_of_zero_fails() {
    assert!(Fe13::zero().inverse().is_none());
    assert!(Fe13::new(5).div(&Fe13::zero()).is_none());
    assert!(Fe13_4::zero().inverse().is_none());
}

#[test]
fn field_every_nonzero_element_has_inverse() {
    for v in 1..13 {
        let a = Fe13::new(v);
        let i = a.inverse().unwrap();
        assert_eq!(a.mul(&i), Fe13::one());
    }
    for v in 1..43 {
        let a = Fe43::new(v);
        assert_eq!(a.mul(&a.inverse().unwrap()), Fe43::one());
    }
}

#[test]
fn field_additive_inverse_and_self_division() {
    let a = Fe13::new(9);
    assert_eq!(a.add(&a.neg()), Fe13::zero());
    assert_eq!(a.div(&a).unwrap(), Fe13::one());
    assert!(Fe13::zero().is_zero());
    assert!(!a.is_zero());
}

#[test]
fn ext_field_inverse_round_trip() {
    let a = Fe13_4::from_values(vec![7, 0, 4]);
    let i = a.inverse().unwrap();
    assert_eq!(a.mul(&i), Fe13_4::one());
    let b = Fe13_4::from_values(vec![1, 2, 3, 4]);
    assert_eq!(b.mul(&b.inverse().unwrap()), Fe13_4::one());
}

#[test]
fn ext_field_reduces_modulo_polynomial() {
    // x^2 == -2 == 11 modulo x^2 + 2
    let x2 = Fe13_2::from_values(vec![0, 0, 1]);
    assert_eq!(*x2.value(), Polynomial::from_values(vec![11]));
}

#[test]
fn ext_field_axioms_on_values() {
    let a = Fe13_4::from_values(vec![3, 1, 4, 1]);
    let b = Fe13_4::from_values(vec![5, 9, 2, 6]);
    let c = Fe13_4::from_values(vec![5, 3, 5]);
    assert_eq!(a.add(&b).add(&c), a.add(&b.add(&c)));
    assert_eq!(a.add(&b), b.add(&a));
    assert_eq!(a.mul(&b), b.mul(&a));
    assert_eq!(a.mul(&b).mul(&c), a.mul(&b.mul(&c)));
    assert_eq!(a.mul(&b.add(&c)), a.mul(&b).add(&a.mul(&c)));
    assert_eq!(a.add(&Fe13_4::zero()), a);
    assert_eq!(a.mul(&Fe13_4::one()), a);
    assert_eq!(a.add(&a.neg()), Fe13_4::zero());
    assert_eq!(a.neg().neg(), a);
    assert_eq!(a.div(&a).unwrap(), Fe13_4::one());
}

#[test]
fn prime_field_pow_is_power() {
    // 5^7 = 78125 == 78125 mod 13 == 8
    assert_eq!(Fe13::new(5).pow::<Ff13>(7), Fe13::new(78125));
    assert_eq!(Fe43::new(2).pow::<Ff13>(10), Fe43::new(1024));
}
