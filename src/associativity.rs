use vstd::prelude::*;
use vstd::arithmetic::div_mod::{lemma_add_mod_noop, lemma_mod_bound, lemma_mul_mod_noop_left, lemma_small_mod};

use crate::division::{
    conv_sum, cval, division_invariant, lemma_congruent, lemma_conv_sum_extend, lemma_conv_sum_linear,
    lemma_conv_sum_sub, lemma_cval_range, lemma_ext_add, lemma_mul_commutative, lemma_mul_coeff,
    lemma_ops_ok, lemma_poly_ext, lemma_reduce_congruence, lemma_remainder_unique, lemma_same_mod,
    lemma_sub_coeff, poly_ok,
};
use crate::extension::{ext_canonical, one_poly, ExtensionField};
use crate::field_element::{f_add, f_div, f_mul, f_neg, f_one, f_zero};
use crate::finite_field::{lemma_divides_combination, FiniteField};
use crate::polynomial::{poly_add, poly_divmod, poly_sub};
use crate::extension::lemma_zero;
use crate::field_element::FieldElement;
use crate::finite_field::PrimeField;
use crate::polynomial::poly_mul;

verus! {

/// The term `x_i * y_(s-i) * z_(k-s)` of a triple product.
pub open spec fn term3<S: PrimeField>(
    x: Seq<FieldElement<S>>,
    y: Seq<FieldElement<S>>,
    z: Seq<FieldElement<S>>,
    k: int,
    i: int,
    s: int,
) -> int {
    cval(x, i) * cval(y, s - i) * cval(z, k - s)
}

/// `sum over i < m of term3(i, s)`.
pub open spec fn col3<S: PrimeField>(
    x: Seq<FieldElement<S>>,
    y: Seq<FieldElement<S>>,
    z: Seq<FieldElement<S>>,
    k: int,
    s: int,
    m: nat,
) -> int
    decreases m,
{
    if m == 0 {
        0
    } else {
        col3(x, y, z, k, s, (m - 1) as nat) + term3(x, y, z, k, m - 1, s)
    }
}

/// `sum over s < n of term3(i, s)`.
pub open spec fn row3<S: PrimeField>(
    x: Seq<FieldElement<S>>,
    y: Seq<FieldElement<S>>,
    z: Seq<FieldElement<S>>,
    k: int,
    i: int,
    n: nat,
) -> int
    decreases n,
{
    if n == 0 {
        0
    } else {
        row3(x, y, z, k, i, (n - 1) as nat) + term3(x, y, z, k, i, n - 1)
    }
}

/// `sum over s < n of col3(s, m)`.
pub open spec fn cols3<S: PrimeField>(
    x: Seq<FieldElement<S>>,
    y: Seq<FieldElement<S>>,
    z: Seq<FieldElement<S>>,
    k: int,
    n: nat,
    m: nat,
) -> int
    decreases n,
{
    if n == 0 {
        0
    } else {
        cols3(x, y, z, k, (n - 1) as nat, m) + col3(x, y, z, k, n - 1, m)
    }
}

/// `sum over i < m of row3(i, n)`.
pub open spec fn rows3<S: PrimeField>(
    x: Seq<FieldElement<S>>,
    y: Seq<FieldElement<S>>,
    z: Seq<FieldElement<S>>,
    k: int,
    m: nat,
    n: nat,
) -> int
    decreases m,
{
    if m == 0 {
        0
    } else {
        rows3(x, y, z, k, (m - 1) as nat, n) + row3(x, y, z, k, m - 1, n)
    }
}

proof fn lemma_rows_step<S: PrimeField>(
    x: Seq<FieldElement<S>>,
    y: Seq<FieldElement<S>>,
    z: Seq<FieldElement<S>>,
    k: int,
    m: nat,
    n: nat,
)
    ensures
        rows3(x, y, z, k, m, n + 1) == rows3(x, y, z, k, m, n) + col3(x, y, z, k, n as int, m),
    decreases m,
{
    if m > 0 {
        lemma_rows_step(x, y, z, k, (m - 1) as nat, n);
    }
}

/// The double sum can be taken in either order.
proof fn lemma_fubini<S: PrimeField>(
    x: Seq<FieldElement<S>>,
    y: Seq<FieldElement<S>>,
    z: Seq<FieldElement<S>>,
    k: int,
    n: nat,
    m: nat,
)
    ensures
        cols3(x, y, z, k, n, m) == rows3(x, y, z, k, m, n),
    decreases n,
{
    if n == 0 {
        lemma_rows_zero(x, y, z, k, m);
    } else {
        lemma_fubini(x, y, z, k, (n - 1) as nat, m);
        lemma_rows_step(x, y, z, k, m, (n - 1) as nat);
    }
}

proof fn lemma_rows_zero<S: PrimeField>(
    x: Seq<FieldElement<S>>,
    y: Seq<FieldElement<S>>,
    z: Seq<FieldElement<S>>,
    k: int,
    m: nat,
)
    ensures
        rows3(x, y, z, k, m, 0) == 0,
    decreases m,
{
    if m > 0 {
        lemma_rows_zero(x, y, z, k, (m - 1) as nat);
    }
}

/// A column is a coefficient of `x * y` times a coefficient of `z`.
proof fn lemma_col<S: PrimeField>(
    x: Seq<FieldElement<S>>,
    y: Seq<FieldElement<S>>,
    z: Seq<FieldElement<S>>,
    k: int,
    s: int,
    m: nat,
)
    ensures
        col3(x, y, z, k, s, m) == conv_sum(x, y, s, m) * cval(z, k - s),
    decreases m,
{
    if m > 0 {
        lemma_col(x, y, z, k, s, (m - 1) as nat);
        let (a, b, c, d) = (conv_sum(x, y, s, (m - 1) as nat), cval(x, m - 1), cval(y, s - (m - 1)), cval(z, k - s));
        assert((a + b * c) * d == a * d + b * c * d) by (nonlinear_arith);
    }
}

/// A row is a coefficient of `x` times a coefficient of `y * z`, the sum
/// shifted by `i`.
proof fn lemma_row<S: PrimeField>(
    x: Seq<FieldElement<S>>,
    y: Seq<FieldElement<S>>,
    z: Seq<FieldElement<S>>,
    k: int,
    i: int,
    n: nat,
)
    requires
        i >= 0,
    ensures
        row3(x, y, z, k, i, n) == cval(x, i) * (if n >= i {
            conv_sum(y, z, k - i, (n - i) as nat)
        } else {
            0
        }),
    decreases n,
{
    S::lemma_prime_field();
    lemma_zero::<S>();
    if n > 0 {
        lemma_row(x, y, z, k, i, (n - 1) as nat);
        let s = n - 1;
        let xi = cval(x, i);
        if s < i {
            assert(cval(y, s - i) == 0);
            assert(term3(x, y, z, k, i, s) == 0) by (nonlinear_arith)
                requires
                    cval(y, s - i) == 0,
                    term3(x, y, z, k, i, s) == cval(x, i) * cval(y, s - i) * cval(z, k - s),
            ;
            if n == i {
                assert(conv_sum(y, z, k - i, 0) == 0);
                assert(xi * 0 == 0);
            }
        } else {
            let j = s - i;
            let prev = conv_sum(y, z, k - i, j as nat);
            assert(conv_sum(y, z, k - i, (j + 1) as nat) == prev + cval(y, j) * cval(z, (k - i) - j));
            assert((k - i) - j == k - s);
            if s == i {
                assert(prev == 0);
                assert(row3(x, y, z, k, i, (n - 1) as nat) == 0) by {
                    assert(xi * 0 == 0);
                }
            }
            assert(xi * (prev + cval(y, j) * cval(z, k - s)) == xi * prev + xi * cval(y, j) * cval(z, k - s))
                by (nonlinear_arith);
        }
    }
}


/// A convolution sum at a negative index is zero.
proof fn lemma_conv_sum_negative<S: PrimeField>(
    y: Seq<FieldElement<S>>,
    z: Seq<FieldElement<S>>,
    k: int,
    n: nat,
)
    requires
        k < 0,
    ensures
        conv_sum(y, z, k, n) == 0,
    decreases n,
{
    S::lemma_prime_field();
    lemma_zero::<S>();
    if n > 0 {
        lemma_conv_sum_negative(y, z, k, (n - 1) as nat);
        assert(cval(z, k - (n - 1)) == 0);
    }
}

/// Coefficient `k` of `(x * y) * z`, before reduction, is the column sum.
proof fn lemma_left_congruence<S: PrimeField>(
    x: Seq<FieldElement<S>>,
    y: Seq<FieldElement<S>>,
    z: Seq<FieldElement<S>>,
    k: int,
    n: nat,
)
    requires
        poly_ok(x),
        poly_ok(y),
        poly_ok(z),
    ensures
        conv_sum(poly_mul(x, y), z, k, n) % S::prime() == cols3(x, y, z, k, n, x.len())
            % S::prime(),
    decreases n,
{
    S::lemma_prime_field();
    let p = S::prime();
    if n > 0 {
        let s = n - 1;
        lemma_left_congruence(x, y, z, k, (n - 1) as nat);
        lemma_mul_coeff(x, y, s);
        lemma_col(x, y, z, k, s, x.len());
        let a = conv_sum(x, y, s, x.len());
        let zz = cval(z, k - s);
        assert((cval(poly_mul(x, y), s) * zz) % p == (a * zz) % p) by {
            lemma_mul_mod_noop_left(a, zz, p);
        }
        let u = conv_sum(poly_mul(x, y), z, k, (n - 1) as nat);
        let w = cols3(x, y, z, k, (n - 1) as nat, x.len());
        lemma_add_mod_noop(u, cval(poly_mul(x, y), s) * zz, p);
        lemma_add_mod_noop(w, a * zz, p);
    }
}

/// Coefficient `k` of `x * (y * z)`, before reduction, is the row sum.
proof fn lemma_right_congruence<S: PrimeField>(
    x: Seq<FieldElement<S>>,
    y: Seq<FieldElement<S>>,
    z: Seq<FieldElement<S>>,
    k: int,
    m: nat,
    n: nat,
)
    requires
        poly_ok(x),
        poly_ok(y),
        poly_ok(z),
        k >= 0,
        n >= m + y.len(),
    ensures
        conv_sum(x, poly_mul(y, z), k, m) % S::prime() == rows3(x, y, z, k, m, n) % S::prime(),
    decreases m,
{
    S::lemma_prime_field();
    let p = S::prime();
    lemma_zero::<S>();
    if m > 0 {
        let i = m - 1;
        lemma_right_congruence(x, y, z, k, (m - 1) as nat, n);
        lemma_row(x, y, z, k, i, n);
        lemma_conv_sum_extend(y, z, k - i, (n - i) as nat);
        let c = conv_sum(y, z, k - i, y.len());
        let xi = cval(x, i);
        assert(cval(poly_mul(y, z), k - i) == c % p) by {
            if k - i >= 0 {
                lemma_mul_coeff(y, z, k - i);
            } else {
                lemma_conv_sum_negative(y, z, k - i, y.len());
                lemma_small_mod(0, p as nat);
            }
        }
        assert((xi * cval(poly_mul(y, z), k - i)) % p == (xi * c) % p) by {
            vstd::arithmetic::div_mod::lemma_mul_mod_noop_right(xi, c, p);
        }
        let u = conv_sum(x, poly_mul(y, z), k, (m - 1) as nat);
        let w = rows3(x, y, z, k, (m - 1) as nat, n);
        lemma_add_mod_noop(u, xi * cval(poly_mul(y, z), k - i), p);
        lemma_add_mod_noop(w, xi * c, p);
    }
}

/// Multiplication of polynomials over a prime field is associative.
pub proof fn lemma_mul_associative<S: PrimeField>(
    x: Seq<FieldElement<S>>,
    y: Seq<FieldElement<S>>,
    z: Seq<FieldElement<S>>,
)
    requires
        poly_ok(x),
        poly_ok(y),
        poly_ok(z),
    ensures
        poly_mul(poly_mul(x, y), z) == poly_mul(x, poly_mul(y, z)),
{
    S::lemma_prime_field();
    let p = S::prime();
    lemma_ops_ok(x, y);
    lemma_ops_ok(y, z);
    let xy = poly_mul(x, y);
    let yz = poly_mul(y, z);
    lemma_ops_ok(xy, z);
    lemma_ops_ok(x, yz);
    assert forall|k: int| k >= 0 implies #[trigger] cval(poly_mul(xy, z), k) == cval(
        poly_mul(x, yz),
        k,
    ) by {
        let n = (xy.len() + x.len() + y.len()) as nat;
        lemma_mul_coeff(xy, z, k);
        lemma_mul_coeff(x, yz, k);
        lemma_conv_sum_extend(xy, z, k, n);
        lemma_left_congruence(x, y, z, k, n);
        lemma_fubini(x, y, z, k, n, x.len());
        lemma_right_congruence(x, y, z, k, x.len(), n);
        let l = conv_sum(xy, z, k, xy.len());
        let r = conv_sum(x, yz, k, x.len());
        lemma_mod_bound(l, p);
        lemma_mod_bound(r, p);
        lemma_small_mod((l % p) as nat, p as nat);
        lemma_small_mod((r % p) as nat, p as nat);
    }
    lemma_poly_ext(poly_mul(xy, z), poly_mul(x, yz));
}


/// The remainder of dividing by the field's polynomial is `x - Q * m`.
proof fn lemma_remainder_as_difference<E: ExtensionField>(x: Seq<FieldElement<E::Sub>>)
    requires
        poly_ok(x),
    ensures
        poly_divmod(x, E::modulus_seq()).1 == poly_sub(
            x,
            poly_mul(poly_divmod(x, E::modulus_seq()).0, E::modulus_seq()),
        ),
{
    E::lemma_modulus();
    E::Sub::lemma_prime_field();
    let p = E::Sub::prime();
    let m = E::modulus_seq();
    lemma_reduce_congruence::<E>(x);
    let (q, r) = poly_divmod(x, m);
    lemma_ops_ok(q, m);
    let qm = poly_mul(q, m);
    lemma_ops_ok(x, qm);
    let d = poly_sub(x, qm);
    assert forall|k: int| k >= 0 implies #[trigger] cval(r, k) == cval(d, k) by {
        lemma_sub_coeff(x, qm, k);
        lemma_mul_coeff(q, m, k);
        let c = conv_sum(q, m, k, q.len());
        let (xk, rk) = (cval(x, k), cval(r, k));
        assert(xk == (c + rk) % p);
        lemma_cval_range(x, k);
        lemma_cval_range(r, k);
        lemma_small_mod(xk as nat, p as nat);
        lemma_same_mod(xk, c + rk, p);
        assert((xk - c) - rk == xk - (c + rk));
        lemma_fundamental_mod_equal(xk - c, rk, p);
        lemma_mod_bound(c, p);
        vstd::arithmetic::div_mod::lemma_sub_mod_noop(xk, c, p);
        lemma_small_mod(rk as nat, p as nat);
    }
    lemma_poly_ext(r, d);
}

/// Integers whose difference is a multiple of `p` have equal remainders.
proof fn lemma_fundamental_mod_equal(a: int, b: int, p: int)
    requires
        p > 0,
        (a - b) % p == 0,
    ensures
        a % p == b % p,
{
    vstd::arithmetic::div_mod::lemma_fundamental_div_mod(a - b, p);
    let k = (a - b) / p;
    assert(a == b + k * p) by (nonlinear_arith)
        requires
            a - b == p * k + 0,
    ;
    vstd::arithmetic::div_mod::lemma_mod_multiples_vanish(k, b, p);
}

/// Multiplication distributes over a difference in its first factor.
proof fn lemma_mul_sub_left<S: PrimeField>(
    u: Seq<FieldElement<S>>,
    v: Seq<FieldElement<S>>,
    w: Seq<FieldElement<S>>,
    k: int,
)
    requires
        poly_ok(u),
        poly_ok(v),
        poly_ok(w),
        k >= 0,
    ensures
        cval(poly_mul(poly_sub(u, v), w), k) == (cval(poly_mul(u, w), k) - cval(poly_mul(v, w), k))
            % S::prime(),
{
    S::lemma_prime_field();
    let p = S::prime();
    lemma_ops_ok(u, v);
    let d = poly_sub(u, v);
    assert forall|i: int| i >= 0 implies #[trigger] cval(d, i) == (cval(u, i) - cval(v, i)) % p by {
        lemma_sub_coeff(u, v, i);
    }
    let n = (d.len() + u.len() + v.len()) as nat;
    lemma_conv_sum_sub(d, u, v, w, k, n);
    lemma_conv_sum_extend(d, w, k, n);
    lemma_conv_sum_extend(u, w, k, n);
    lemma_conv_sum_extend(v, w, k, n);
    lemma_mul_coeff(d, w, k);
    lemma_mul_coeff(u, w, k);
    lemma_mul_coeff(v, w, k);
    let (cu, cv) = (conv_sum(u, w, k, u.len()), conv_sum(v, w, k, v.len()));
    vstd::arithmetic::div_mod::lemma_sub_mod_noop(cu, cv, p);
    let cd = conv_sum(d, w, k, d.len());
    lemma_mod_bound(cd, p);
    lemma_small_mod((cd % p) as nat, p as nat);
}


/// The integer bookkeeping of associativity.
proof fn lemma_associative_arith(
    p: int,
    lk: int,
    rk: int,
    abc: int,
    m1: int,
    m2: int,
    c1: int,
    c2: int,
    cl: int,
    cr: int,
    rl: int,
    rr: int,
    cq: int,
)
    requires
        p > 0,
        0 <= rl < p,
        lk == (abc - m1) % p,
        m1 == c1 % p,
        rk == (abc - m2) % p,
        m2 == c2 % p,
        lk == (cl + rl) % p,
        rk == (cr + rr) % p,
        cq % p == (c2 + cr - c1 - cl) % p,
    ensures
        rl == (rr + cq) % p,
{
    lemma_congruent(lk, abc - m1, p);
    lemma_congruent(m1, c1, p);
    lemma_congruent(rk, abc - m2, p);
    lemma_congruent(m2, c2, p);
    lemma_congruent(lk, cl + rl, p);
    lemma_congruent(rk, cr + rr, p);
    lemma_same_mod(cq, c2 + cr - c1 - cl, p);
    let e1 = (abc - m1) - lk;
    let e2 = c1 - m1;
    let e3 = (abc - m2) - rk;
    let e4 = c2 - m2;
    let e5 = (cl + rl) - lk;
    let e6 = (cr + rr) - rk;
    let e7 = cq - (c2 + cr - c1 - cl);
    lemma_divides_combination(e5, e6, 1, p);
    lemma_divides_combination(e5 - e6, e7, 1, p);
    lemma_divides_combination(e5 - e6 - e7, e4, 1, p);
    lemma_divides_combination(e5 - e6 - e7 - e4, e2, 1, p);
    lemma_divides_combination(e5 - e6 - e7 - e4 + e2, e1, 1, p);
    lemma_divides_combination(e5 - e6 - e7 - e4 + e2 - e1, e3, 1, p);
    assert(rl - (rr + cq) == e5 - e6 - e7 - e4 + e2 - e1 + e3);
    lemma_fundamental_mod_equal(rl, rr + cq, p);
    lemma_small_mod(rl as nat, p as nat);
}

/// Coefficient `k` of the two remainders differs by a multiple of the modulus.
#[verifier::spinoff_prover]
proof fn lemma_associative_coefficient<E: ExtensionField>(
    x: Seq<FieldElement<E::Sub>>,
    z: Seq<FieldElement<E::Sub>>,
    ab: Seq<FieldElement<E::Sub>>,
    bc: Seq<FieldElement<E::Sub>>,
    q1m: Seq<FieldElement<E::Sub>>,
    q2m: Seq<FieldElement<E::Sub>>,
    q1z: Seq<FieldElement<E::Sub>>,
    q2x: Seq<FieldElement<E::Sub>>,
    l: Seq<FieldElement<E::Sub>>,
    r: Seq<FieldElement<E::Sub>>,
    ql: Seq<FieldElement<E::Sub>>,
    rl: Seq<FieldElement<E::Sub>>,
    qr: Seq<FieldElement<E::Sub>>,
    rr: Seq<FieldElement<E::Sub>>,
    k: int,
)
    requires
        poly_ok(x),
        poly_ok(z),
        poly_ok(ab),
        poly_ok(bc),
        poly_ok(q1m),
        poly_ok(q2m),
        poly_ok(q1z),
        poly_ok(q2x),
        poly_ok(ql),
        poly_ok(qr),
        poly_ok(rl),
        poly_ok(E::modulus_seq()),
        l == poly_mul(poly_sub(ab, q1m), z),
        r == poly_mul(poly_sub(bc, q2m), x),
        poly_mul(ab, z) == poly_mul(bc, x),
        poly_mul(q1m, z) == poly_mul(q1z, E::modulus_seq()),
        poly_mul(q2m, x) == poly_mul(q2x, E::modulus_seq()),
        division_invariant(l, ql, rl, E::modulus_seq()),
        division_invariant(r, qr, rr, E::modulus_seq()),
        k >= 0,
    ensures
        ({
            let q = poly_sub(poly_sub(poly_add(q2x, qr), q1z), ql);
            cval(rl, k) == (cval(rr, k) + conv_sum(q, E::modulus_seq(), k, q.len()))
                % E::Sub::prime()
        }),
{
    E::Sub::lemma_prime_field();
    let p = E::Sub::prime();
    let m = E::modulus_seq();
    lemma_ops_ok(q2x, qr);
    let s1 = poly_add(q2x, qr);
    lemma_ops_ok(s1, q1z);
    let s2 = poly_sub(s1, q1z);
    lemma_ops_ok(s2, ql);
    let q = poly_sub(s2, ql);
    assert forall|i: int| i >= 0 implies #[trigger] cval(s1, i) == (cval(q2x, i) + cval(qr, i)) % p by {
        crate::division::lemma_add_coeff(q2x, qr, i);
    }
    assert forall|i: int| i >= 0 implies #[trigger] cval(s2, i) == (cval(s1, i) - cval(q1z, i)) % p by {
        lemma_sub_coeff(s1, q1z, i);
    }
    assert forall|i: int| i >= 0 implies #[trigger] cval(q, i) == (cval(s2, i) - cval(ql, i)) % p by {
        lemma_sub_coeff(s2, ql, i);
    }
    lemma_mul_sub_left(ab, q1m, z, k);
    lemma_mul_sub_left(bc, q2m, x, k);
    lemma_mul_coeff(q1z, m, k);
    lemma_mul_coeff(q2x, m, k);
    let n = (q.len() + s1.len() + s2.len() + q2x.len() + qr.len() + q1z.len() + ql.len()) as nat;
    lemma_conv_sum_sub(q, s2, ql, m, k, n);
    lemma_conv_sum_sub(s2, s1, q1z, m, k, n);
    lemma_conv_sum_linear(s1, q2x, qr, m, k, n);
    lemma_conv_sum_extend(q, m, k, n);
    lemma_conv_sum_extend(s1, m, k, n);
    lemma_conv_sum_extend(s2, m, k, n);
    lemma_conv_sum_extend(q2x, m, k, n);
    lemma_conv_sum_extend(qr, m, k, n);
    lemma_conv_sum_extend(q1z, m, k, n);
    lemma_conv_sum_extend(ql, m, k, n);
    let cq = conv_sum(q, m, k, q.len());
    let cs1 = conv_sum(s1, m, k, s1.len());
    let cs2 = conv_sum(s2, m, k, s2.len());
    let c2 = conv_sum(q2x, m, k, q2x.len());
    let ccr = conv_sum(qr, m, k, qr.len());
    let c1 = conv_sum(q1z, m, k, q1z.len());
    let ccl = conv_sum(ql, m, k, ql.len());
    assert(cq % p == (cs2 - ccl) % p);
    assert(cs2 % p == (cs1 - c1) % p);
    assert(cs1 % p == (c2 + ccr) % p);
    vstd::arithmetic::div_mod::lemma_sub_mod_noop(cs2, ccl, p);
    vstd::arithmetic::div_mod::lemma_sub_mod_noop(cs1 - c1, ccl, p);
    vstd::arithmetic::div_mod::lemma_sub_mod_noop(cs1, c1, p);
    vstd::arithmetic::div_mod::lemma_sub_mod_noop(c2 + ccr, c1, p);
    assert((cs1 - c1) % p == (c2 + ccr - c1) % p);
    vstd::arithmetic::div_mod::lemma_sub_mod_noop(c2 + ccr - c1, ccl, p);
    assert(cq % p == (c2 + ccr - c1 - ccl) % p);
    lemma_cval_range(rl, k);
    lemma_associative_arith(
        p,
        cval(l, k),
        cval(r, k),
        cval(poly_mul(ab, z), k),
        cval(poly_mul(q1m, z), k),
        cval(poly_mul(q2m, x), k),
        c1,
        c2,
        ccl,
        ccr,
        cval(rl, k),
        cval(rr, k),
        cq,
    );
}

/// Multiplication in every extension field is associative.
pub proof fn lemma_ext_mul_associative<E: ExtensionField>(
    a: FieldElement<E>,
    b: FieldElement<E>,
    c: FieldElement<E>,
)
    requires
        a.wf(),
        b.wf(),
        c.wf(),
    ensures
        f_mul::<E>(f_mul::<E>(a.val(), b.val()), c.val()) == f_mul::<E>(
            a.val(),
            f_mul::<E>(b.val(), c.val()),
        ),
{
    E::lemma_modulus();
    E::Sub::lemma_prime_field();
    let m = E::modulus_seq();
    let (x, y, z) = (a.val(), b.val(), c.val());
    lemma_ops_ok(x, y);
    lemma_ops_ok(y, z);
    let ab = poly_mul(x, y);
    let bc = poly_mul(y, z);
    lemma_reduce_congruence::<E>(ab);
    lemma_reduce_congruence::<E>(bc);
    let (q1, r1) = poly_divmod(ab, m);
    let (q2, r2) = poly_divmod(bc, m);
    lemma_ops_ok(r1, z);
    lemma_ops_ok(x, r2);
    let l = poly_mul(r1, z);
    let r = poly_mul(x, r2);
    lemma_reduce_congruence::<E>(l);
    lemma_reduce_congruence::<E>(r);
    let (ql, rl) = poly_divmod(l, m);
    let (qr, rr) = poly_divmod(r, m);
    lemma_remainder_as_difference::<E>(ab);
    lemma_remainder_as_difference::<E>(bc);
    lemma_ops_ok(q1, m);
    lemma_ops_ok(q2, m);
    let q1m = poly_mul(q1, m);
    let q2m = poly_mul(q2, m);
    lemma_ops_ok(q1, z);
    lemma_ops_ok(q2, x);
    let q1z = poly_mul(q1, z);
    let q2x = poly_mul(q2, x);
    lemma_mul_associative(x, y, z);
    lemma_mul_commutative(x, bc);
    lemma_mul_commutative(x, r2);
    lemma_ops_ok(m, z);
    lemma_ops_ok(m, x);
    lemma_mul_associative(q1, m, z);
    lemma_mul_commutative(m, z);
    lemma_mul_associative(q1, z, m);
    lemma_mul_associative(q2, m, x);
    lemma_mul_commutative(m, x);
    lemma_mul_associative(q2, x, m);
    let q = poly_sub(poly_sub(poly_add(q2x, qr), q1z), ql);
    assert forall|k: int| k >= 0 implies #[trigger] cval(rl, k) == (cval(rr, k) + conv_sum(q, m, k, q.len()))
        % E::Sub::prime() by {
        lemma_associative_coefficient::<E>(x, z, ab, bc, q1m, q2m, q1z, q2x, l, r, ql, rl, qr, rr, k);
    }
    lemma_ops_ok(q2x, qr);
    lemma_ops_ok(poly_add(q2x, qr), q1z);
    lemma_ops_ok(poly_sub(poly_add(q2x, qr), q1z), ql);
    lemma_remainder_unique::<E>(rl, rr, q);
}


/// The field axioms hold in every extension field: `+` and `*` are
/// associative and commutative, `*` distributes over `+`, zero and one are
/// identities, `a + (-a) == 0`, and `a / a == 1` wherever the field finds an
/// inverse of `a`.
pub proof fn lemma_ext_field_axioms<E: ExtensionField>(
    a: FieldElement<E>,
    b: FieldElement<E>,
    c: FieldElement<E>,
)
    requires
        a.wf(),
        b.wf(),
        c.wf(),
    ensures
        f_add::<E>(f_add::<E>(a.val(), b.val()), c.val()) == f_add::<E>(
            a.val(),
            f_add::<E>(b.val(), c.val()),
        ),
        f_add::<E>(a.val(), b.val()) == f_add::<E>(b.val(), a.val()),
        f_mul::<E>(f_mul::<E>(a.val(), b.val()), c.val()) == f_mul::<E>(
            a.val(),
            f_mul::<E>(b.val(), c.val()),
        ),
        f_mul::<E>(a.val(), b.val()) == f_mul::<E>(b.val(), a.val()),
        f_mul::<E>(a.val(), f_add::<E>(b.val(), c.val())) == f_add::<E>(
            f_mul::<E>(a.val(), b.val()),
            f_mul::<E>(a.val(), c.val()),
        ),
        f_add::<E>(a.val(), f_zero::<E>()) == a.val(),
        f_mul::<E>(a.val(), f_one::<E>()) == a.val(),
        f_add::<E>(a.val(), f_neg::<E>(a.val())) == f_zero::<E>(),
        E::inverse_spec(a.val()) is Some ==> f_div::<E>(a.val(), a.val()) == Some(f_one::<E>()),
{
    crate::division::lemma_ext_additive_axioms(a, b, c);
    crate::division::lemma_ext_multiplicative_identity(a);
    crate::division::lemma_ext_mul_commutative(a, b);
    crate::division::lemma_ext_distributive(a, b, c);
    lemma_ext_mul_associative(a, b, c);
    E::lemma_modulus();
    E::Sub::lemma_prime_field();
    crate::extension::lemma_of_int_valid::<E::Sub>(1);
    vstd::arithmetic::div_mod::lemma_small_mod(1, E::Sub::prime() as nat);
    crate::extension::lemma_zero::<E::Sub>();
    assert(ext_canonical::<E>(one_poly::<E::Sub>()));
    E::lemma_reduce_canonical(one_poly::<E::Sub>());
}

} // verus!
