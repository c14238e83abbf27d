use vstd::prelude::*;
use vstd::arithmetic::div_mod::{
    lemma_fundamental_div_mod, lemma_mod_bound, lemma_mod_multiples_vanish, lemma_small_mod,
};
use num_bigint::BigUint;

use crate::field_element::FieldElement;
use crate::finite_field::{xgcd_coefficient, FiniteField};

verus! {

/// Value of little-endian base-2^32 digits.
pub open spec fn digits_value(d: Seq<u32>) -> nat
    decreases d.len(),
{
    if d.len() == 0 {
        0
    } else {
        d[0] as nat + 4294967296 * digits_value(d.drop_first())
    }
}

/// A natural number of any size, held as little-endian base-2^32 digits.
#[derive(Debug, Clone)]
pub struct BigNat {
    digits: Vec<u32>,
}

impl BigNat {
    pub closed spec fn value(&self) -> nat {
        digits_value(self.digits@)
    }

    /// The number whose little-endian base-2^32 digits are `digits`.
    pub fn from_digits(digits: Vec<u32>) -> (r: Self)
        ensures
            r.value() == digits_value(digits@),
    {
        BigNat { digits }
    }

    /// The little-endian base-2^32 digits.
    pub fn digits(&self) -> (r: &[u32])
        ensures
            digits_value(r@) == self.value(),
    {
        self.digits.as_slice()
    }

    pub fn from_u32(v: u32) -> (r: Self)
        ensures
            r.value() == v,
    {
        let r = BigNat { digits: vec![v] };
        assert(r.digits@ =~= seq![v]);
        assert(r.digits@.drop_first() =~= Seq::<u32>::empty());
        assert(digits_value(Seq::<u32>::empty()) == 0);
        r
    }

    pub fn duplicate(&self) -> (r: Self)
        ensures
            r.value() == self.value(),
    {
        let mut v: Vec<u32> = Vec::new();
        let mut i: usize = 0;
        while i < self.digits.len()
            invariant
                i <= self.digits@.len(),
                v@ == self.digits@.subrange(0, i as int),
            decreases self.digits@.len() - i,
        {
            v.push(self.digits[i]);
            i = i + 1;
        }
        assert(v@ =~= self.digits@);
        BigNat { digits: v }
    }
}

/// Relies on `BigUint::new`, `+` and `to_u32_digits` of num-bigint: the sum.
#[verifier::external_body]
fn big_add(a: &BigNat, b: &BigNat) -> (r: BigNat)
    ensures
        r.value() == a.value() + b.value(),
{
    let s = BigUint::new(a.digits.clone()) + BigUint::new(b.digits.clone());
    BigNat { digits: s.to_u32_digits() }
}

/// Relies on `BigUint::new`, `-` and `to_u32_digits` of num-bigint: the
/// difference (`-` panics where `b > a`).
#[verifier::external_body]
fn big_sub(a: &BigNat, b: &BigNat) -> (r: BigNat)
    requires
        a.value() >= b.value(),
    ensures
        r.value() == a.value() - b.value(),
{
    let s = BigUint::new(a.digits.clone()) - BigUint::new(b.digits.clone());
    BigNat { digits: s.to_u32_digits() }
}

/// Relies on `BigUint::new`, `*` and `to_u32_digits` of num-bigint: the product.
#[verifier::external_body]
fn big_mul(a: &BigNat, b: &BigNat) -> (r: BigNat)
    ensures
        r.value() == a.value() * b.value(),
{
    let s = BigUint::new(a.digits.clone()) * BigUint::new(b.digits.clone());
    BigNat { digits: s.to_u32_digits() }
}

/// Relies on `BigUint::new`, `/` and `to_u32_digits` of num-bigint: the
/// quotient rounded down (`/` panics on a zero divisor).
#[verifier::external_body]
fn big_div(a: &BigNat, b: &BigNat) -> (r: BigNat)
    requires
        b.value() > 0,
    ensures
        r.value() == a.value() / b.value(),
{
    let s = BigUint::new(a.digits.clone()) / BigUint::new(b.digits.clone());
    BigNat { digits: s.to_u32_digits() }
}

/// Relies on `BigUint::new`, `%` and `to_u32_digits` of num-bigint: the
/// remainder (`%` panics on a zero divisor).
#[verifier::external_body]
fn big_rem(a: &BigNat, b: &BigNat) -> (r: BigNat)
    requires
        b.value() > 0,
    ensures
        r.value() == a.value() % b.value(),
{
    let s = BigUint::new(a.digits.clone()) % BigUint::new(b.digits.clone());
    BigNat { digits: s.to_u32_digits() }
}

/// Relies on `BigUint::new` and `==` of num-bigint: equality of the numbers.
#[verifier::external_body]
fn big_eq(a: &BigNat, b: &BigNat) -> (r: bool)
    ensures
        r == (a.value() == b.value()),
{
    BigUint::new(a.digits.clone()) == BigUint::new(b.digits.clone())
}

/// Relies on `BigUint::new` and `<` of num-bigint: comparison of the numbers.
#[verifier::external_body]
fn big_lt(a: &BigNat, b: &BigNat) -> (r: bool)
    ensures
        r == (a.value() < b.value()),
{
    BigUint::new(a.digits.clone()) < BigUint::new(b.digits.clone())
}

/// The BN254 base-field modulus.
pub open spec fn bn254_modulus() -> nat {
    digits_value(
        seq![
            3632069959u32,
            1008765974u32,
            1752287885u32,
            2541841041u32,
            2172737629u32,
            3092268470u32,
            3778125865u32,
            811880050u32,
        ],
    )
}

fn bn254_modulus_value() -> (r: BigNat)
    ensures
        r.value() == bn254_modulus(),
{
    let d: Vec<u32> = vec![
        3632069959u32,
        1008765974u32,
        1752287885u32,
        2541841041u32,
        2172737629u32,
        3092268470u32,
        3778125865u32,
        811880050u32,
    ];
    assert(d@ =~= seq![
        3632069959u32,
        1008765974u32,
        1752287885u32,
        2541841041u32,
        2172737629u32,
        3092268470u32,
        3778125865u32,
        811880050u32,
    ]);
    BigNat::from_digits(d)
}

proof fn lemma_bn254_modulus()
    ensures
        bn254_modulus() > 2,
        bn254_modulus() % 2 == 1,
{
    reveal_with_fuel(digits_value, 9);
}

/// The inverse the extended Euclidean algorithm finds for `m` modulo the BN254
/// modulus, kept only where it multiplies `m` to one.
pub open spec fn bn254_inverse(m: int) -> Option<int> {
    let p = bn254_modulus() as int;
    if m % p == 0 {
        None
    } else {
        let t = xgcd_coefficient(p, m, 0, 1, p);
        if (m * t) % p == 1 {
            Some(t)
        } else {
            None
        }
    }
}

/// The prime field of the BN254 curve, with elements of any size.
#[derive(Debug, Clone, Copy, PartialEq, Eq)]
pub struct FfBn254;

impl FiniteField for FfBn254 {
    type T = BigNat;

    type Model = int;

    open spec fn model(v: BigNat) -> int {
        v.value() as int
    }

    open spec fn canonical(m: int) -> bool {
        0 <= m < bn254_modulus()
    }

    open spec fn reducible(v: BigNat) -> bool {
        true
    }

    open spec fn modulus_spec() -> int {
        bn254_modulus() as int
    }

    open spec fn zero_spec() -> int {
        0
    }

    open spec fn one_spec() -> int {
        1
    }

    open spec fn reduce_spec(m: int) -> int {
        m % (bn254_modulus() as int)
    }

    open spec fn add_spec(a: int, b: int) -> int {
        a + b
    }

    /// `a - b`, lifted by the modulus where `b` is larger.
    open spec fn sub_spec(a: int, b: int) -> int {
        if a >= b {
            a - b
        } else {
            a + bn254_modulus() - b
        }
    }

    open spec fn mul_spec(a: int, b: int) -> int {
        a * b
    }

    open spec fn inverse_spec(m: int) -> Option<int> {
        bn254_inverse(m)
    }

    fn modulus() -> (r: BigNat) {
        bn254_modulus_value()
    }

    fn zero() -> (r: BigNat) {
        proof {
            lemma_bn254_modulus();
        }
        BigNat::from_u32(0)
    }

    fn one() -> (r: BigNat) {
        proof {
            lemma_bn254_modulus();
        }
        BigNat::from_u32(1)
    }

    fn reduce(v: BigNat) -> (r: BigNat) {
        proof {
            lemma_bn254_modulus();
        }
        let m = bn254_modulus_value();
        let r = big_rem(&v, &m);
        proof {
            lemma_mod_bound(v.value() as int, bn254_modulus() as int);
        }
        r
    }

    fn add_raw(a: &BigNat, b: &BigNat) -> (r: BigNat) {
        big_add(a, b)
    }

    fn sub_raw(a: &BigNat, b: &BigNat) -> (r: BigNat) {
        if big_lt(a, b) {
            let m = bn254_modulus_value();
            let am = big_add(a, &m);
            big_sub(&am, b)
        } else {
            big_sub(a, b)
        }
    }

    fn mul_raw(a: &BigNat, b: &BigNat) -> (r: BigNat) {
        big_mul(a, b)
    }

    fn inverse(v: &BigNat) -> (r: Option<BigNat>) {
        proof {
            lemma_bn254_modulus();
        }
        let p = bn254_modulus_value();
        let ghost pi = bn254_modulus() as int;
        let zero = BigNat::from_u32(0);
        if big_eq(v, &zero) {
            proof {
                lemma_small_mod(0, pi as nat);
            }
            return None;
        }
        let mut r0 = p.duplicate();
        let mut r1 = v.duplicate();
        let mut t0 = BigNat::from_u32(0);
        let mut t1 = BigNat::from_u32(1);
        let ghost vi = v.value() as int;
        while !big_eq(&r1, &zero)
            invariant
                pi == bn254_modulus(),
                pi > 2,
                p.value() == pi,
                zero.value() == 0,
                0 <= t0.value() < pi,
                0 <= t1.value() < pi,
                xgcd_coefficient(r0.value() as int, r1.value() as int, t0.value() as int, t1.value() as int, pi)
                    == xgcd_coefficient(pi, vi, 0, 1, pi),
            decreases r1.value(),
        {
            let q = big_div(&r0, &r1);
            let r2 = big_rem(&r0, &r1);
            let qt = big_mul(&q, &t1);
            let qt_red = big_rem(&qt, &p);
            let t0p = big_add(&t0, &p);
            proof {
                lemma_mod_bound(qt.value() as int, pi);
            }
            let diff = big_sub(&t0p, &qt_red);
            let t2 = big_rem(&diff, &p);
            proof {
                let (a0, a1, qv) = (t0.value() as int, t1.value() as int, q.value() as int);
                let w = a0 - qv * a1;
                let x = a0 + pi - (qv * a1) % pi;
                lemma_fundamental_div_mod(qv * a1, pi);
                let k = (qv * a1) / pi;
                assert(x == w + (k + 1) * pi) by (nonlinear_arith)
                    requires
                        qv * a1 == pi * k + (qv * a1) % pi,
                        x == a0 + pi - (qv * a1) % pi,
                        w == a0 - qv * a1,
                ;
                lemma_mod_multiples_vanish(k + 1, w, pi);
                assert(t2.value() == w % pi);
                lemma_mod_bound(r0.value() as int, r1.value() as int);
                lemma_mod_bound(diff.value() as int, pi);
            }
            r0 = r1;
            r1 = r2;
            t0 = t1;
            t1 = t2;
        }
        proof {
            assert(r1.value() == 0);
            assert(xgcd_coefficient(r0.value() as int, r1.value() as int, t0.value() as int, t1.value() as int, pi)
                == t0.value());
            lemma_small_mod(vi as nat, pi as nat);
        }
        let prod = big_mul(v, &t0);
        let back = big_rem(&prod, &p);
        let one = BigNat::from_u32(1);
        if big_eq(&back, &one) {
            Some(t0)
        } else {
            None
        }
    }

    fn equals(a: &BigNat, b: &BigNat) -> (r: bool) {
        big_eq(a, b)
    }

    fn duplicate(a: &BigNat) -> (r: BigNat) {
        a.duplicate()
    }

    proof fn lemma_reduce_canonical(m: int) {
        lemma_small_mod(m as nat, bn254_modulus());
    }

    proof fn lemma_neg(m: int) {
        lemma_bn254_modulus();
        let p = bn254_modulus() as int;
        lemma_small_mod(0, p as nat);
        vstd::arithmetic::div_mod::lemma_mod_self_0(p);
        if m > 0 {
            lemma_small_mod((p - m) as nat, p as nat);
            lemma_small_mod(m as nat, p as nat);
        }
    }

    proof fn lemma_canonical_reducible(v: BigNat) {
    }
}

pub type FeBn254 = FieldElement<FfBn254>;

} // verus!
