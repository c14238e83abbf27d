use pairings_from_scratch::curves::TinyJJ;
use pairings_from_scratch::elliptic_curve::{AffinePoint, EllipticCurve};
use pairings_from_scratch::fields::Fe13_4;
use pairings_from_scratch::pairing::{
    dist_relationship, is_valid_g1, is_valid_g2, miller_loop, tate_pairing, Pairing,
};

fn point(x: Vec<i64>, y: Vec<i64>) -> AffinePoint<TinyJJ> {
    AffinePoint::<TinyJJ>::new_xy(Fe13_4::from_values(x), Fe13_4::from_values(y))
}

#[test]
fn test_pairing() {
    let p = point(vec![8], vec![8]);
    let q = point(vec![7, 0, 4], vec![0, 10, 0, 5]);
    let result = Fe13_4::from_values(vec![3, 7, 7, 6]);
    assert!(result == tate_pairing(&p, &q).unwrap());
}

#[test]
fn test_pairing_bilinearity() {
    let p = point(vec![8], vec![8]);
    let q = point(vec![7, 0, 4], vec![0, 10, 0, 5]);
    assert!(tate_pairing(&p, &q.double()).unwrap() == tate_pairing(&p.double(), &q).unwrap());
}

#[test]
fn test_pairing_dist_relationship() {
    let one = TinyJJ::generator();
    let two = TinyJJ::generator().mul(2);
    let three = TinyJJ::generator().mul(3);
    let negone = TinyJJ::generator().mul(TinyJJ::order() - 1);
    let negtwo = TinyJJ::generator().mul(TinyJJ::order() - 2);
    let negthree = TinyJJ::generator().mul(TinyJJ::order() - 3);

    assert_eq!(dist_relationship(&one, &two, &one), Fe13_4::zero());
    assert_eq!(dist_relationship(&one, &two, &two), Fe13_4::zero());
    assert_ne!(dist_relationship(&one, &two, &three), Fe13_4::zero());
    assert_eq!(dist_relationship(&one, &two, &negthree), Fe13_4::zero());
    assert_eq!(dist_relationship(&one, &negone, &one), Fe13_4::zero());
    assert_eq!(dist_relationship(&one, &negone, &negone), Fe13_4::zero());
    assert_ne!(dist_relationship(&one, &negone, &two), Fe13_4::zero());
    assert_eq!(dist_relationship(&one, &one, &one), Fe13_4::zero());
    assert_ne!(dist_relationship(&one, &one, &two), Fe13_4::zero());
    assert_eq!(dist_relationship(&one, &one, &negtwo), Fe13_4::zero());
}

#[test]
fn pairing_subgroup_checks() {
    let p = point(vec![8], vec![8]);
    let q = point(vec![7, 0, 4], vec![0, 10, 0, 5]);
    assert!(is_valid_g1(&p));
    assert!(is_valid_g2(&q));
    assert!(!is_valid_g2(&p));
    assert!(tate_pairing(&q, &q).is_none());
}

#[test]
fn pairing_through_trait_matches() {
    let p = point(vec![8], vec![8]);
    let q = point(vec![7, 0, 4], vec![0, 10, 0, 5]);
    let via_trait = TinyJJ::pairing(&p, &q).unwrap();
    assert!(via_trait == Fe13_4::from_values(vec![3, 7, 7, 6]));
    assert!(miller_loop(&p, &q).is_some());
}
