use vstd::prelude::*;
use vstd::arithmetic::div_mod::{
    lemma_fundamental_div_mod, lemma_mod_multiples_basic, lemma_mod_bound,
    lemma_mod_self_0, lemma_small_mod, lemma_fundamental_div_mod_converse,
};

verus! {

/// The capability of a finite field: its modulus, its identities, reduction, and
/// the raw operations on representatives whose results `reduce` brings back into
/// canonical form.
///
/// Contracts speak of a mathematical model of each representative (`Model`).
pub trait FiniteField: Sized {
    type T;

    type Model;

    spec fn model(v: Self::T) -> Self::Model;

    /// Models in reduced form.
    spec fn canonical(m: Self::Model) -> bool;

    /// Representatives that `reduce` accepts.
    spec fn reducible(v: Self::T) -> bool;

    spec fn modulus_spec() -> Self::Model;

    spec fn zero_spec() -> Self::Model;

    spec fn one_spec() -> Self::Model;

    spec fn reduce_spec(m: Self::Model) -> Self::Model;

    spec fn add_spec(a: Self::Model, b: Self::Model) -> Self::Model;

    spec fn sub_spec(a: Self::Model, b: Self::Model) -> Self::Model;

    spec fn mul_spec(a: Self::Model, b: Self::Model) -> Self::Model;

    /// The inverse of a canonical model, `None` where none is found.
    spec fn inverse_spec(m: Self::Model) -> Option<Self::Model>;

    fn modulus() -> (r: Self::T)
        ensures
            Self::model(r) == Self::modulus_spec(),
            Self::reducible(r),
    ;

    fn zero() -> (r: Self::T)
        ensures
            Self::model(r) == Self::zero_spec(),
            Self::canonical(Self::model(r)),
    ;

    fn one() -> (r: Self::T)
        ensures
            Self::model(r) == Self::one_spec(),
            Self::canonical(Self::model(r)),
    ;

    /// Reduces a representative under the modulus of the field.
    fn reduce(v: Self::T) -> (r: Self::T)
        requires
            Self::reducible(v),
        ensures
            Self::model(r) == Self::reduce_spec(Self::model(v)),
            Self::canonical(Self::model(r)),
    ;

    fn add_raw(a: &Self::T, b: &Self::T) -> (r: Self::T)
        requires
            Self::canonical(Self::model(*a)),
            Self::canonical(Self::model(*b)),
        ensures
            Self::model(r) == Self::add_spec(Self::model(*a), Self::model(*b)),
            Self::reducible(r),
    ;

    /// `a - b`, where `a` may be the modulus.
    fn sub_raw(a: &Self::T, b: &Self::T) -> (r: Self::T)
        requires
            Self::canonical(Self::model(*a)) || Self::model(*a) == Self::modulus_spec(),
            Self::reducible(*a),
            Self::canonical(Self::model(*b)),
        ensures
            Self::model(r) == Self::sub_spec(Self::model(*a), Self::model(*b)),
            Self::reducible(r),
    ;

    fn mul_raw(a: &Self::T, b: &Self::T) -> (r: Self::T)
        requires
            Self::canonical(Self::model(*a)),
            Self::canonical(Self::model(*b)),
        ensures
            Self::model(r) == Self::mul_spec(Self::model(*a), Self::model(*b)),
            Self::reducible(r),
    ;

    /// Multiplicative inverse within the field; `None` for zero.
    fn inverse(v: &Self::T) -> (r: Option<Self::T>)
        requires
            Self::canonical(Self::model(*v)),
        ensures
            r matches Some(t) ==> Self::inverse_spec(Self::model(*v)) == Some(Self::model(t)),
            r is None <==> Self::inverse_spec(Self::model(*v)) is None,
            Self::model(*v) == Self::zero_spec() ==> r is None,
            r matches Some(t) ==> {
                &&& Self::canonical(Self::model(t))
                &&& Self::reduce_spec(Self::mul_spec(Self::model(*v), Self::model(t)))
                    == Self::one_spec()
            },
    ;

    fn equals(a: &Self::T, b: &Self::T) -> (r: bool)
        ensures
            r == (Self::model(*a) == Self::model(*b)),
    ;

    fn duplicate(a: &Self::T) -> (r: Self::T)
        ensures
            Self::model(r) == Self::model(*a),
            Self::reducible(*a) ==> Self::reducible(r),
    ;

    /// Reduction leaves a reduced value as it is.
    proof fn lemma_reduce_canonical(m: Self::Model)
        requires
            Self::canonical(m),
        ensures
            Self::reduce_spec(m) == m,
    ;

    /// Negation (the modulus minus the value, reduced) is an involution on
    /// reduced values, and only zero is its own negation.
    proof fn lemma_neg(m: Self::Model)
        requires
            Self::canonical(m),
        ensures
            Self::canonical(Self::reduce_spec(Self::sub_spec(Self::modulus_spec(), m))),
            Self::reduce_spec(
                Self::sub_spec(
                    Self::modulus_spec(),
                    Self::reduce_spec(Self::sub_spec(Self::modulus_spec(), m)),
                ),
            ) == m,
            Self::reduce_spec(Self::sub_spec(Self::modulus_spec(), m)) == m ==> m
                == Self::zero_spec(),
    ;

    proof fn lemma_canonical_reducible(v: Self::T)
        requires
            Self::canonical(Self::model(v)),
        ensures
            Self::reducible(v),
    ;
}

/// A field whose elements are plain integers: they can serve as exponents and
/// scalars, walked bit by bit.
pub trait NonExtendedField: FiniteField<T = i64, Model = int> {
    /// An integer field element is modelled by its value.
    proof fn lemma_model(v: i64)
        ensures
            Self::model(v) == v as int,
    ;

    /// Big-endian bits of a non-negative integer, without leading zeros.
    fn to_bits(s: i64) -> (r: Vec<bool>)
        requires
            s >= 0,
        ensures
            r@ == bits_of(s as nat),
    {
        int_to_bits(s)
    }

    fn to_uint(s: i64) -> (r: Option<usize>)
        ensures
            r == (if 0 <= s <= usize::MAX {
                Some(s as usize)
            } else {
                None::<usize>
            }),
    {
        if s >= 0 && (s as u64) <= (usize::MAX as u64) {
            Some(s as usize)
        } else {
            None
        }
    }

    fn from_uint(s: usize) -> (r: Option<i64>)
        ensures
            r == (if s <= i64::MAX {
                Some(s as i64)
            } else {
                None::<i64>
            }),
    {
        if (s as u64) <= (i64::MAX as u64) {
            Some(s as i64)
        } else {
            None
        }
    }
}

/// Big-endian binary digits of `n`, without leading zeros (empty for zero).
pub open spec fn bits_of(n: nat) -> Seq<bool>
    decreases n,
{
    if n == 0 {
        Seq::empty()
    } else {
        bits_of(n / 2).push(n % 2 == 1)
    }
}

/// The number that big-endian `bits` spell.
pub open spec fn bits_value(bits: Seq<bool>) -> nat
    decreases bits.len(),
{
    if bits.len() == 0 {
        0
    } else {
        2 * bits_value(bits.drop_last()) + if bits.last() {
            1nat
        } else {
            0nat
        }
    }
}

pub proof fn lemma_bits_value(n: nat)
    ensures
        bits_value(bits_of(n)) == n,
        n > 0 ==> bits_of(n).len() > 0 && bits_of(n)[0],
    decreases n,
{
    if n > 0 {
        lemma_bits_value(n / 2);
        assert(bits_of(n).drop_last() == bits_of(n / 2));
        if n / 2 > 0 {
            assert(bits_of(n)[0] == bits_of(n / 2)[0]);
        }
    }
}

fn int_to_bits(s: i64) -> (r: Vec<bool>)
    requires
        s >= 0,
    ensures
        r@ == bits_of(s as nat),
    decreases s,
{
    if s == 0 {
        Vec::new()
    } else {
        let mut v = int_to_bits(s / 2);
        v.push(s % 2 == 1);
        v
    }
}

/// `p` is a prime number.
pub open spec fn is_prime(p: int) -> bool {
    &&& p > 1
    &&& forall|d: int| 1 < d < p ==> #[trigger] (p % d) != 0
}

/// A field of integers modulo a prime, whose operations are those of
/// arithmetic modulo that prime.
pub trait PrimeField: NonExtendedField {
    spec fn prime() -> int;

    proof fn lemma_prime_field()
        ensures
            is_prime(Self::prime()),
            Self::prime() > 2,
            Self::prime() <= MAX_PRIME,
            Self::modulus_spec() == Self::prime(),
            Self::zero_spec() == 0,
            Self::one_spec() == 1,
            forall|m: int| #[trigger] Self::canonical(m) <==> 0 <= m < Self::prime(),
            forall|v: i64| #[trigger] Self::reducible(v),
            forall|m: int| #[trigger] Self::reduce_spec(m) == m % Self::prime(),
            forall|a: int, b: int| #[trigger] Self::add_spec(a, b) == a + b,
            forall|a: int, b: int| #[trigger] Self::sub_spec(a, b) == a - b,
            forall|a: int, b: int| #[trigger] Self::mul_spec(a, b) == a * b,
            forall|m: int| #[trigger] Self::inverse_spec(m) == mod_inverse(m, Self::prime()),
    ;
}

/// A prime other than 2 is odd.
pub proof fn lemma_odd_prime(p: int)
    requires
        is_prime(p),
        p != 2,
    ensures
        p % 2 == 1,
{
    assert(p % 2 != 0);
}

/// The largest modulus a prime field may have: products of two reduced values
/// fit in an `i64`.
pub const MAX_PRIME: i64 = 0x7fff_ffff;

/// Euclidean remainder of `v` by `p`.
pub fn prime_reduce(v: i64, p: i64) -> (r: i64)
    requires
        1 < p <= MAX_PRIME,
    ensures
        r == v % p,
        0 <= r < p,
{
    if v >= 0 {
        v % p
    } else {
        let k = -(v + 1);
        let m = k % p;
        proof {
            lemma_fundamental_div_mod(k as int, p as int);
            lemma_mod_bound(k as int, p as int);
            let a = (k as int) / (p as int);
            assert(v as int == (-a - 1) * (p as int) + (p - 1 - m)) by (nonlinear_arith)
                requires
                    k == p * a + m,
                    v == -(k + 1),
            ;
            lemma_fundamental_div_mod_converse(v as int, p as int, -a - 1, (p - 1 - m) as int);
        }
        p - 1 - m
    }
}

pub(crate) proof fn lemma_divides_combination(a: int, b: int, q: int, d: int)
    requires
        d > 0,
        a % d == 0,
        b % d == 0,
    ensures
        (a + q * b) % d == 0,
        (a - q * b) % d == 0,
{
    lemma_fundamental_div_mod(a, d);
    lemma_fundamental_div_mod(b, d);
    let ka = a / d;
    let kb = b / d;
    assert(a + q * b == (ka + q * kb) * d) by (nonlinear_arith)
        requires
            a == d * ka,
            b == d * kb,
    ;
    assert(a - q * b == (ka - q * kb) * d) by (nonlinear_arith)
        requires
            a == d * ka,
            b == d * kb,
    ;
    lemma_mod_multiples_basic(ka + q * kb, d);
    lemma_mod_multiples_basic(ka - q * kb, d);
}

/// The inverse of `v` modulo `p`: the `t` in `[0, p)` with `v * t == 1 (mod p)`.
pub open spec fn mod_inverse(v: int, p: int) -> Option<int> {
    if v % p == 0 {
        None
    } else {
        Some(choose|t: int| 0 <= t < p && #[trigger] ((v * t) % p) == 1)
    }
}

proof fn lemma_inverse_unique(v: int, t1: int, t2: int, p: int)
    requires
        p > 1,
        0 <= t1 < p,
        0 <= t2 < p,
        (v * t1) % p == 1,
        (v * t2) % p == 1,
    ensures
        t1 == t2,
{
    vstd::arithmetic::div_mod::lemma_mul_mod_noop_right(t1, v * t2, p);
    vstd::arithmetic::div_mod::lemma_mul_mod_noop_left(v * t1, t2, p);
    assert(t1 * (v * t2) == (v * t1) * t2) by (nonlinear_arith);
    lemma_small_mod(t1 as nat, p as nat);
    lemma_small_mod(t2 as nat, p as nat);
}

/// Bezout coefficient of the extended Euclidean algorithm from the state
/// `(r0, r1, t0, t1)`, with coefficients kept modulo `p`.
pub open spec fn xgcd_coefficient(r0: int, r1: int, t0: int, t1: int, p: int) -> int
    decreases
            if r1 > 0 {
                r1
            } else {
                0
            },
{
    if r1 <= 0 || p <= 0 {
        t0
    } else {
        xgcd_coefficient(r1, r0 % r1, t1, (t0 - (r0 / r1) * t1) % p, p)
    }
}

proof fn lemma_xgcd(r0: int, r1: int, t0: int, t1: int, p: int, v: int)
    requires
        is_prime(p),
        0 < v < p,
        0 < r0 <= p,
        0 <= r1 < r0,
        0 <= t0 < p,
        0 <= t1 < p,
        (t0 * v - r0) % p == 0,
        (t1 * v - r1) % p == 0,
        forall|d: int| d > 0 && r0 % d == 0 && r1 % d == 0 ==> #[trigger] (p % d) == 0 && v % d == 0,
    ensures
        0 <= xgcd_coefficient(r0, r1, t0, t1, p) < p,
        (v * xgcd_coefficient(r0, r1, t0, t1, p)) % p == 1,
    decreases r1,
{
    if r1 == 0 {
        lemma_mod_self_0(r0);
        lemma_small_mod(0, r0 as nat);
        assert(r0 % r0 == 0);
        assert(r1 % r0 == 0);
        assert(r0 > 0 && r0 % r0 == 0 && r1 % r0 == 0);
        assert((p % r0) == 0 && v % r0 == 0);
        if r0 > 1 {
            if r0 == p {
                lemma_small_mod(v as nat, p as nat);
            }
            assert(false);
        }
        lemma_fundamental_div_mod(t0 * v - 1, p);
        let k = (t0 * v - 1) / p;
        assert(v * t0 == k * p + 1) by (nonlinear_arith)
            requires
                t0 * v - 1 == p * k,
        ;
        vstd::arithmetic::div_mod::lemma_add_mod_noop(k * p, 1, p);
        lemma_mod_multiples_basic(k, p);
        lemma_small_mod(1, p as nat);
    } else {
        let q = r0 / r1;
        let r2 = r0 % r1;
        lemma_fundamental_div_mod(r0, r1);
        lemma_mod_bound(r0, r1);
        let w = t0 - q * t1;
        let t2 = w % p;
        lemma_mod_bound(w, p);
        assert((w * v - r2) == (t0 * v - r0) - q * (t1 * v - r1)) by (nonlinear_arith)
            requires
                w == t0 - q * t1,
                r0 == r1 * q + r2,
        ;
        lemma_divides_combination((t0 * v - r0), (t1 * v - r1), q, p);
        lemma_fundamental_div_mod(w, p);
        assert(t2 * v - r2 == (w * v - r2) - (w / p) * v * p) by (nonlinear_arith)
            requires
                t2 == w - p * (w / p),
        ;
        lemma_mod_multiples_basic((w / p) * v, p);
        lemma_divides_combination((w * v - r2), (w / p) * v * p, -1, p);
        assert forall|d: int| d > 0 && r1 % d == 0 && r2 % d == 0 implies #[trigger] (p % d) == 0
            && v % d == 0 by {
            lemma_divides_combination(r2, r1, q, d);
            assert(r0 == r2 + q * r1) by (nonlinear_arith)
                requires
                    r0 == r1 * q + r2,
            ;
        }
        lemma_xgcd(r1, r2, t1, t2, p, v);
    }
}

/// Every value that is non-zero modulo a prime has an inverse modulo it.
pub proof fn lemma_mod_inverse_exists(v: int, p: int)
    requires
        is_prime(p),
        v % p != 0,
    ensures
        mod_inverse(v, p) matches Some(t) && 0 <= t < p && (v * t) % p == 1,
{
    let w = v % p;
    lemma_mod_bound(v, p);
    lemma_small_mod(w as nat, p as nat);
    lemma_small_mod(1, p as nat);
    lemma_small_mod(0, p as nat);
    assert((0 * w - p) % p == 0) by {
        lemma_fundamental_div_mod_converse(-p, p, -1, 0);
    }
    assert((1 * w - w) % p == 0);
    lemma_xgcd(p, w, 0, 1, p, w);
    let t = xgcd_coefficient(p, w, 0, 1, p);
    vstd::arithmetic::div_mod::lemma_mul_mod_noop_left(v, t, p);
    assert(0 <= t < p && #[trigger] ((v * t) % p) == 1);
}

/// Inverse of `v` modulo a prime `p`, by the extended Euclidean algorithm run on
/// `(p, v)`; the Bezout coefficient is kept reduced modulo `p` at every step.
pub fn prime_inverse(v: i64, p: i64) -> (r: Option<i64>)
    requires
        1 < p <= MAX_PRIME,
        is_prime(p as int),
        0 <= v < p,
    ensures
        v == 0 ==> r is None,
        v != 0 ==> (r matches Some(t) && 0 <= t < p && (v * t) % (p as int) == 1),
        r is None ==> mod_inverse(v as int, p as int) is None,
        r matches Some(t) ==> mod_inverse(v as int, p as int) == Some(t as int),
{
    if v == 0 {
        proof {
            lemma_small_mod(0, p as nat);
        }
        return None;
    }
    let mut r0: i64 = p;
    let mut r1: i64 = v;
    let mut t0: i64 = 0;
    let mut t1: i64 = 1;
    proof {
        lemma_small_mod(1, p as nat);
        lemma_mod_self_0(p as int);
        lemma_small_mod(v as nat, p as nat);
        assert((0 * v - p) % (p as int) == 0) by {
            lemma_fundamental_div_mod_converse(-(p as int), p as int, -1, 0);
        }
        assert((1 * v - v) % (p as int) == 0) by {
            lemma_small_mod(0, p as nat);
        }

    }
    while r1 != 0
        invariant
            1 < p <= MAX_PRIME,
            is_prime(p as int),
            0 < v < p,
            0 < r0 <= p,
            0 <= r1 < r0,
            0 <= t0 < p,
            0 <= t1 < p,
            (t0 * v - r0) % (p as int) == 0,
            (t1 * v - r1) % (p as int) == 0,
            forall|d: int|
                d > 0 && (r0 as int) % d == 0 && (r1 as int) % d == 0 ==> #[trigger] ((p as int)
                    % d) == 0 && (v as int) % d == 0,
        decreases r1,
    {
        let q = r0 / r1;
        proof {
            lemma_fundamental_div_mod(r0 as int, r1 as int);
            lemma_mod_bound(r0 as int, r1 as int);
            assert(q * r1 <= r0) by (nonlinear_arith)
                requires
                    q == r0 / r1,
                    r1 > 0,
                    r0 > 0,
                    r0 == r1 * q + r0 % r1,
                    r0 % r1 >= 0,
            ;
            assert(0 <= q <= r0) by (nonlinear_arith)
                requires
                    q == r0 / r1,
                    r1 > 0,
                    r0 > 0,
            ;
            assert(q * t1 <= p * p) by (nonlinear_arith)
                requires
                    0 <= q <= p,
                    0 <= t1 < p,
            ;
            assert(p * p <= MAX_PRIME * MAX_PRIME) by (nonlinear_arith)
                requires
                    0 < p <= MAX_PRIME,
            ;
        }
        let r2 = r0 - q * r1;
        let t2 = prime_reduce(t0 - q * t1, p);
        proof {
            let pi = p as int;
            // t2 * v - r2 == (t0 - q t1) v - (r0 - q r1) + (t2 - (t0 - q t1)) v
            let w = t0 - q * t1;
            assert((w * v - r2) == (t0 * v - r0) - q * (t1 * v - r1)) by (nonlinear_arith)
                requires
                    w == t0 - q * t1,
                    r2 == r0 - q * r1,
            ;
            lemma_divides_combination((t0 * v - r0), (t1 * v - r1), q as int, pi);
            lemma_fundamental_div_mod(w, pi);
            assert(t2 == w - pi * (w / pi));
            assert(t2 * v - r2 == (w * v - r2) - (w / pi) * v * pi) by (nonlinear_arith)
                requires
                    t2 == w - pi * (w / pi),
            ;
            lemma_mod_multiples_basic((w / pi) * v, pi);
            lemma_divides_combination((w * v - r2), (w / pi) * v * pi, -1, pi);
            assert forall|d: int| d > 0 && (r1 as int) % d == 0 && (r2 as int) % d == 0 implies #[trigger] ((p as int)
                % d) == 0 && (v as int) % d == 0 by {
                lemma_divides_combination(r2 as int, r1 as int, q as int, d);
                assert(r0 == r2 + q * r1);
            }
        }
        r0 = r1;
        r1 = r2;
        t0 = t1;
        t1 = t2;
    }
    proof {
        // r0 divides both p and v, and p is prime with 0 < v < p: so r0 == 1
        lemma_mod_self_0(r0 as int);
        assert((p as int) % (r0 as int) == 0 && (v as int) % (r0 as int) == 0);
        if r0 > 1 {
            assert(r0 < p) by {
                if r0 == p {
                    lemma_small_mod(v as nat, p as nat);
                }
            }
            assert(false);
        }
        assert(r0 == 1);
        lemma_fundamental_div_mod(t0 * v - 1, p as int);
        let k = (t0 * v - 1) / (p as int);
        assert(v * t0 == k * p + 1) by (nonlinear_arith)
            requires
                t0 * v - 1 == (p as int) * k,
        ;
        lemma_mod_multiples_basic(k, p as int);
        vstd::arithmetic::div_mod::lemma_mod_add_multiples_vanish(1, p as int);
        assert((k * p + 1) % (p as int) == 1) by {
            vstd::arithmetic::div_mod::lemma_add_mod_noop(k * p, 1, p as int);
            lemma_small_mod(1, p as nat);
        }
        let c = choose|t: int| 0 <= t < p && #[trigger] ((v * t) % (p as int)) == 1;
        assert(0 <= t0 < p && (v * t0) % (p as int) == 1);
        lemma_small_mod(v as nat, p as nat);
        assert(0 <= c < p && (v * c) % (p as int) == 1);
        lemma_inverse_unique(v as int, t0 as int, c as int, p as int);
    }
    Some(t0)
}

} // verus!
