use std::str::FromStr;

use num_bigint::BigUint;
use pairings_from_scratch::bignum::{BigNat, FeBn254};

fn big(s: &str) -> BigNat {
    BigNat::from_digits(BigUint::from_str(s).unwrap().to_u32_digits())
}

fn to_biguint(n: &BigNat) -> BigUint {
    BigUint::new(n.digits().to_vec())
}

#[test]
fn test_finite_field_big_add() {
    // -1 in the field, twice
    let a = FeBn254::one().neg();
    let b = FeBn254::one().neg();
    let c = FeBn254::new(big(
        "21888242871839275222246405745257275088696311157297823662689037894645226208581",
    ));
    assert_eq!(a.add(&b), c);
}

#[test]
fn test_finite_field_big_inverse() {
    let num = big("21888242871839275222246405745");
    let a = FeBn254::new(num);
    let b = a.inverse().unwrap();
    assert_eq!(a.mul(&b), FeBn254::one());
}

#[test]
fn big_field_reduces_and_subtracts() {
    let p = big("21888242871839275222246405745257275088696311157297823662689037894645226208583");
    assert!(FeBn254::new(p).is_zero());
    let three = FeBn254::new(BigNat::from_u32(3));
    let five = FeBn254::new(BigNat::from_u32(5));
    let d = three.sub(&five);
    assert_eq!(
        to_biguint(d.value()),
        BigUint::from_str(
            "21888242871839275222246405745257275088696311157297823662689037894645226208581"
        )
        .unwrap()
    );
    assert_eq!(d.add(&five), three);
    assert!(FeBn254::zero().inverse().is_none());
}
