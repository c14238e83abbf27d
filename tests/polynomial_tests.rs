use pairings_from_scratch::fields::Fe13;
use pairings_from_scratch::polynomial::Polynomial;

#[test]
fn test_polynomial_creation() {
    let p = Polynomial::new(vec![1i64, 2, 3]);
    assert_eq!(p.coefficients(), &[1, 2, 3]);
}

#[test]
fn test_polynomial_degree() {
    let p = Polynomial::new(vec![0i64, 0, 3, 0, 5]);
    assert_eq!(p.degree(), 4);
}

#[test]
fn test_polynomial_leading_coefficient() {
    let p = Polynomial::new(vec![0i64, 0, 3, 0, 5]);
    assert_eq!(*p.leading_coefficient(), 5);
}

#[test]
fn test_polynomial_is_zero() {
    let p = Polynomial::new(vec![0i64, 0, 3, 0, 5]);
    assert_eq!(p.is_zero(), false);
    let p = Polynomial::new(vec![Fe13::zero()]);
    assert_eq!(p.is_zero(), true);
}

#[test]
fn test_polynomial_addition() {
    let p1 = Polynomial::new(vec![1i64, 2, 3]);
    let p2 = Polynomial::new(vec![3i64, 4, 5]);
    let sum = p1.add(&p2);
    assert_eq!(sum.coefficients(), &[4, 6, 8]);
}

#[test]
fn test_polynomial_subtraction() {
    let p1 = Polynomial::new(vec![5i64, 7, 9]);
    let p2 = Polynomial::new(vec![1i64, 2, 3]);
    let difference = p1.sub(&p2);
    assert_eq!(difference.coefficients(), &[4, 5, 6]);
}

#[test]
fn test_polynomial_multiplication() {
    let p1 = Polynomial::new(vec![1i64, 2]);
    let p2 = Polynomial::new(vec![3i64, 4]);
    let product = p1.mul(&p2);
    assert_eq!(product.coefficients(), &[3, 10, 8]);
}

#[test]
fn test_polynomial_division() {
    let dividend = Polynomial::new(vec![1i64, -3, 2]);
    let divisor = Polynomial::new(vec![1i64, -1]);
    let (quotient, remainder) = dividend.div_mod(&divisor).unwrap();
    assert_eq!(quotient.coefficients(), &[1, -2]);
    assert_eq!(remainder.coefficients(), &[0]);
}

#[test]
fn test_polynomial_zero_division() {
    let p1 = Polynomial::new(vec![1i64, 2, 3]);
    let zero_poly = Polynomial::new(vec![0i64]);
    assert!(p1.div(&zero_poly).is_none());
    assert!(p1.rem(&zero_poly).is_none());
    assert!(p1.div_mod(&zero_poly).is_none());
}

#[test]
fn test_polynomial_zero_addition() {
    let p1 = Polynomial::new(vec![1i64, 2, 3]);
    let zero_poly = Polynomial::new(vec![0i64, 0, 0]);
    let sum = p1.add(&zero_poly);
    assert_eq!(sum.coefficients(), p1.coefficients());
}

#[test]
fn test_polynomial_zero_subtraction() {
    let p1 = Polynomial::new(vec![1i64, 2, 3]);
    let zero_poly = Polynomial::new(vec![0i64, 0, 0]);
    let difference = p1.sub(&zero_poly);
    assert_eq!(difference.coefficients(), p1.coefficients());
}

#[test]
fn test_polynomial_addition_ff() {
    let p1 = Polynomial::new(vec![Fe13::new(1), Fe13::new(2), Fe13::new(9)]);
    let p2 = Polynomial::new(vec![Fe13::new(3), Fe13::new(4), Fe13::new(5)]);
    let sum = p1.add(&p2);
    assert_eq!(
        sum.coefficients(),
        &[Fe13::new(4), Fe13::new(6), Fe13::new(1)]
    );
}

#[test]
fn test_polynomial_multiplication_ff() {
    let p1 = Polynomial::new(vec![Fe13::new(7), Fe13::new(3)]);
    let p2 = Polynomial::new(vec![Fe13::new(5), Fe13::new(6)]);
    let product = p1.mul(&p2);
    assert_eq!(
        product.coefficients(),
        &[Fe13::new(9), Fe13::new(5), Fe13::new(5)]
    );
}

#[test]
fn test_polynomial_division_ff() {
    let p1 = Polynomial::new(vec![Fe13::new(2), Fe13::new(5), Fe13::new(7), Fe13::new(3)]);
    let p2 = Polynomial::new(vec![Fe13::new(1), Fe13::new(4), Fe13::new(1)]);
    let quotient = p1.div(&p2).unwrap();
    assert_eq!(quotient.coefficients(), &[Fe13::new(8), Fe13::new(3)]);
}

#[test]
fn test_polynomial_division_ff_case_1() {
    let p1 = Polynomial::new(vec![
        Fe13::new(6),
        Fe13::new(3),
        Fe13::new(10),
        Fe13::new(7),
    ]);
    let p2 = Polynomial::new(vec![Fe13::new(3), Fe13::new(2)]);
    let (quotient, remainder) = p1.div_mod(&p2).unwrap();
    assert_eq!(
        quotient.coefficients(),
        &[Fe13::new(10), Fe13::new(3), Fe13::new(10)]
    );
    assert_eq!(remainder.coefficients(), &[Fe13::new(2)]);
}

#[test]
fn test_polynomial_division_ff_case_2() {
    let p1 = Polynomial::new(vec![Fe13::new(8), Fe13::new(10), Fe13::new(12)]);
    let p2 = Polynomial::new(vec![Fe13::new(4), Fe13::new(1)]);
    let (quotient, remainder) = p1.div_mod(&p2).unwrap();
    assert_eq!(quotient.coefficients(), &[Fe13::new(1), Fe13::new(12)]);
    assert_eq!(remainder.coefficients(), &[Fe13::new(4)]);
}

#[test]
fn test_polynomial_division_ff_case_3() {
    let p1 = Polynomial::new(vec![Fe13::new(3), Fe13::new(5)]);
    let p2 = Polynomial::new(vec![Fe13::new(6)]);
    let (quotient, remainder) = p1.div_mod(&p2).unwrap();
    assert_eq!(quotient.coefficients(), &[Fe13::new(7), Fe13::new(3)]);
    assert_eq!(remainder.coefficients(), &[Fe13::new(0)]);
}

#[test]
fn polynomial_new_trims_trailing_zeros() {
    let p = Polynomial::new(vec![4i64, 0, 7, 0, 0]);
    assert_eq!(p.coefficients(), &[4, 0, 7]);
    let z = Polynomial::new(vec![0i64, 0, 0]);
    assert_eq!(z.coefficients(), &[0]);
    assert_eq!(z.degree(), 0);
    let q = Polynomial::from_coefficients(&[1i64, 0, 0]);
    assert_eq!(q.coefficients(), &[1]);
}

#[test]
fn polynomial_add_then_sub_is_identity() {
    let p = Polynomial::new(vec![Fe13::new(3), Fe13::new(11), Fe13::new(5)]);
    let q = Polynomial::new(vec![Fe13::new(9), Fe13::new(2)]);
    let back = p.add(&q).sub(&q);
    assert_eq!(back, p);
}

#[test]
fn polynomial_division_identity_ff() {
    let p = Polynomial::new(vec![Fe13::new(6), Fe13::new(3), Fe13::new(10), Fe13::new(7)]);
    let d = Polynomial::new(vec![Fe13::new(3), Fe13::new(2)]);
    let (q, r) = p.div_mod(&d).unwrap();
    assert!(r.degree() < d.degree() || r.is_zero());
    assert_eq!(q.mul(&d).add(&r), p);
}

#[test]
fn polynomial_scale_and_neg() {
    let p = Polynomial::new(vec![Fe13::new(3), Fe13::new(5)]);
    let s = p.scale(&Fe13::new(2));
    assert_eq!(s.coefficients(), &[Fe13::new(6), Fe13::new(10)]);
    let n = p.neg();
    assert_eq!(n.coefficients(), &[Fe13::new(10), Fe13::new(8)]);
}
