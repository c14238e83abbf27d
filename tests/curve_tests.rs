use pairings_from_scratch::curves::{MoonMath, TinyJJ};
use pairings_from_scratch::elliptic_curve::{AffinePoint, EllipticCurve};
use pairings_from_scratch::fields::Fe13_4;

fn point(x: Vec<i64>, y: Vec<i64>) -> AffinePoint<TinyJJ> {
    AffinePoint::<TinyJJ>::new_xy(Fe13_4::from_values(x), Fe13_4::from_values(y))
}

#[test]
fn test_ec_generator() {
    let prod = TinyJJ::generator().mul(TinyJJ::order());
    assert!(prod.is_inf());
}

#[test]
fn test_ec_scalar_mul() {
    let p1 = point(vec![8], vec![8]);
    let x = Fe13_4::from_values(vec![7]);
    let y = Fe13_4::from_values(vec![2]);
    let prod = p1.mul(123);
    assert!(prod.x().unwrap() == x);
    assert!(prod.y().unwrap() == y);

    let prod2 = p1.mul(5);
    assert!(prod2.is_inf());
}

#[test]
fn test_ec_add() {
    let p1 = point(vec![7], vec![11]);
    let p2 = point(vec![12], vec![8]);
    let x = Fe13_4::from_values(vec![11]);
    let y = Fe13_4::from_values(vec![7]);
    let sum = p1.add(&p2);
    assert!(sum.x().unwrap() == x);
    assert!(sum.y().unwrap() == y);
}

#[test]
fn test_ec_neg() {
    let p1 = point(vec![8], vec![8]);
    let neg = p1.neg();
    let x = Fe13_4::from_values(vec![8]);
    let y = Fe13_4::from_values(vec![5]);
    assert!(neg.x().unwrap() == x);
    assert!(neg.y().unwrap() == y);
}

#[test]
fn test_ec_add_to_inf() {
    let p1 = point(vec![8], vec![8]);
    let sum = p1.add(&p1.neg());
    assert!(sum.is_inf());
}

#[test]
fn test_ec_double() {
    let p1 = point(vec![7], vec![11]);
    let x = Fe13_4::from_values(vec![8]);
    let y = Fe13_4::from_values(vec![5]);
    let sum = p1.double();
    assert!(sum.x().unwrap() == x);
    assert!(sum.y().unwrap() == y);
}

#[test]
fn test_ec_double_to_inf() {
    let p = TinyJJ::generator().mul(14400);
    assert!(p.double().is_inf());
}

#[test]
fn test_ec_trace_map() {
    let p1 = point(vec![8], vec![8]);
    let x = Fe13_4::from_values(vec![8]);
    let y = Fe13_4::from_values(vec![5]);
    let tm = p1.trace_map();
    assert!(tm.x().unwrap() == x);
    assert!(tm.y().unwrap() == y);
}

#[test]
fn ec_off_curve_coordinates_give_infinity() {
    let p = point(vec![1], vec![1]);
    assert!(p.is_inf());
    assert!(!AffinePoint::<TinyJJ>::is_on_curve(
        &Fe13_4::from_values(vec![1]),
        &Fe13_4::from_values(vec![1])
    ));
    assert!(AffinePoint::<TinyJJ>::is_on_curve(
        &Fe13_4::from_values(vec![8]),
        &Fe13_4::from_values(vec![8])
    ));
    assert!(AffinePoint::<TinyJJ>::new_inf().is_inf());
}

#[test]
fn ec_group_law_identities() {
    let p = point(vec![7], vec![11]);
    let inf = AffinePoint::<TinyJJ>::new_inf();
    assert!(p.add(&inf) == p);
    assert!(inf.add(&p) == p);
    assert!(p.add(&p.neg()).is_inf());
    assert!(p.double() == p.add(&p));
    assert!(p.mul(2) == p.double());
    assert!(p.mul(1) == p);
    assert!(p.mul(0).is_inf());
}

#[test]
fn ec_scalar_mul_generator_123() {
    let g = TinyJJ::generator();
    assert!(!g.is_inf());
    let (x, y) = g.mul(123).xy().unwrap();
    assert!(AffinePoint::<TinyJJ>::is_on_curve(&x, &y));
}

#[test]
fn moonmath_generator_order() {
    let g = MoonMath::generator();
    assert!(!g.is_inf());
    assert!(g.mul(MoonMath::order()).is_inf());
}
