use vstd::prelude::*;
use vstd::arithmetic::div_mod::{
    lemma_add_mod_noop, lemma_fundamental_div_mod, lemma_mod_bound, lemma_mod_multiples_vanish,
    lemma_mod_self_0, lemma_mul_mod_noop_left, lemma_small_mod,
};

use crate::extension::{
    czero, ext_canonical, ext_reduce, lemma_division_step, lemma_nonzero, lemma_of_int_valid,
    lemma_remainder_degree, lemma_zero, mod_inverse_of, one_poly, ExtensionField,
};
use crate::field_element::{f_add, f_mul, f_neg, f_one, f_zero, FieldElement};
use crate::finite_field::{lemma_divides_combination, FiniteField, PrimeField};
use crate::polynomial::{
    add_coeffs, all_valid, coeff_at, conv, deg, divmod_from, is_canonical, lemma_trim, monomial,
    monomial_coeffs, mul_coeffs, poly_add, poly_divmod, poly_mul, poly_neg, poly_sub, zero_poly, Coefficient,
};

verus! {

/// Value of the coefficient at `i` (zero past either end).
pub open spec fn cval<S: PrimeField>(s: Seq<FieldElement<S>>, i: int) -> int {
    coeff_at(s, i).val()
}

/// `sum over i < n of a_i * b_(k-i)`, over the integers.
pub open spec fn conv_sum<S: PrimeField>(
    a: Seq<FieldElement<S>>,
    b: Seq<FieldElement<S>>,
    k: int,
    n: nat,
) -> int
    decreases n,
{
    if n == 0 {
        0
    } else {
        conv_sum(a, b, k, (n - 1) as nat) + cval(a, n - 1) * cval(b, k - (n - 1))
    }
}

/// A canonical polynomial with reduced coefficients.
pub open spec fn poly_ok<S: PrimeField>(s: Seq<FieldElement<S>>) -> bool {
    is_canonical(s) && all_valid(s)
}

pub(crate) proof fn lemma_cval_range<S: PrimeField>(s: Seq<FieldElement<S>>, i: int)
    requires
        all_valid(s),
    ensures
        0 <= cval(s, i) < S::prime(),
        coeff_at(s, i) == FieldElement::<S>::of_int(cval(s, i)),
{
    S::lemma_prime_field();
    lemma_zero::<S>();
    if 0 <= i < s.len() {
        assert(<FieldElement<S> as Coefficient>::valid(s[i]));
    }
    FieldElement::<S>::lemma_of_int(coeff_at(s, i));
}

/// The coefficients that `conv` accumulates are the integer sums, reduced.
proof fn lemma_conv_value<S: PrimeField>(
    a: Seq<FieldElement<S>>,
    b: Seq<FieldElement<S>>,
    k: int,
    n: nat,
)
    requires
        all_valid(a),
        all_valid(b),
    ensures
        conv(a, b, k, n).val() == conv_sum(a, b, k, n) % S::prime(),
        conv(a, b, k, n).wf(),
    decreases n,
{
    S::lemma_prime_field();
    let p = S::prime();
    lemma_zero::<S>();
    lemma_small_mod(0, p as nat);
    lemma_of_int_valid::<S>(0);
    if n > 0 {
        let i = n - 1;
        lemma_conv_value(a, b, k, (n - 1) as nat);
        lemma_cval_range(a, i);
        lemma_cval_range(b, k - i);
        let prev = conv(a, b, k, (n - 1) as nat);
        let u = conv_sum(a, b, k, (n - 1) as nat);
        let x = cval(a, i);
        let y = cval(b, k - i);
        if coeff_at(a, i) == czero::<S>() || k - i < 0 || k - i >= b.len() {
            assert(x * y == 0) by {
                if coeff_at(a, i) == czero::<S>() {
                    assert(x == 0);
                } else {
                    assert(y == 0);
                }
            }
        } else {
            lemma_mod_bound(x * y, p);
            lemma_of_int_valid::<S>((x * y) % p);
            assert(coeff_at(a, i) == a[i]);
            assert(coeff_at(b, k - i) == b[k - i]);
            let w = (prev.val() + (x * y) % p) % p;
            lemma_mod_bound(prev.val() + (x * y) % p, p);
            lemma_of_int_valid::<S>(w);
            lemma_add_mod_noop(u, x * y, p);
            lemma_mod_bound(u, p);
            lemma_small_mod((u % p) as nat, p as nat);
            lemma_small_mod(((x * y) % p) as nat, p as nat);
        }
    }
}

/// A convolution sum past the end of `a` adds nothing.
pub(crate) proof fn lemma_conv_sum_extend<S: PrimeField>(
    a: Seq<FieldElement<S>>,
    b: Seq<FieldElement<S>>,
    k: int,
    n: nat,
)
    requires
        n >= a.len(),
    ensures
        conv_sum(a, b, k, n) == conv_sum(a, b, k, a.len()),
    decreases n,
{
    S::lemma_prime_field();
    lemma_zero::<S>();
    if n > a.len() {
        lemma_conv_sum_extend(a, b, k, (n - 1) as nat);
        assert(cval(a, n - 1) == 0);
    }
}

/// Past the product's length every term of the convolution is skipped.
proof fn lemma_conv_skip<S: PrimeField>(
    a: Seq<FieldElement<S>>,
    b: Seq<FieldElement<S>>,
    k: int,
    n: nat,
)
    requires
        n <= a.len(),
        k >= a.len() + b.len() - 1,
    ensures
        conv(a, b, k, n) == czero::<S>(),
    decreases n,
{
    if n > 0 {
        lemma_conv_skip(a, b, k, (n - 1) as nat);
    }
}

/// Coefficient `k` of a product is its convolution sum, reduced.
pub(crate) proof fn lemma_mul_coeff<S: PrimeField>(a: Seq<FieldElement<S>>, b: Seq<FieldElement<S>>, k: int)
    requires
        poly_ok(a),
        poly_ok(b),
        k >= 0,
    ensures
        cval(poly_mul(a, b), k) == conv_sum(a, b, k, a.len()) % S::prime(),
{
    S::lemma_prime_field();
    lemma_zero::<S>();
    let mc = mul_coeffs(a, b);
    lemma_trim(mc);
    lemma_conv_value(a, b, k, a.len());
    if k >= mc.len() {
        lemma_conv_skip(a, b, k, a.len());
        assert(coeff_at(poly_mul(a, b), k) == czero::<S>());
    } else {
        assert(coeff_at(poly_mul(a, b), k) == mc[k]);
        assert(mc[k] == conv(a, b, k, a.len()));
    }
}

/// Coefficient `k` of a sum is the sum of the coefficients, reduced.
pub(crate) proof fn lemma_add_coeff<S: PrimeField>(a: Seq<FieldElement<S>>, b: Seq<FieldElement<S>>, k: int)
    requires
        all_valid(a),
        all_valid(b),
        a.len() > 0,
        b.len() > 0,
        k >= 0,
    ensures
        cval(poly_add(a, b), k) == (cval(a, k) + cval(b, k)) % S::prime(),
{
    S::lemma_prime_field();
    let p = S::prime();
    lemma_zero::<S>();
    lemma_cval_range(a, k);
    lemma_cval_range(b, k);
    let sc = add_coeffs(a, b);
    lemma_trim(sc);
    lemma_small_mod(cval(a, k) as nat, p as nat);
    lemma_small_mod(0, p as nat);
    if k < sc.len() {
        assert(coeff_at(poly_add(a, b), k) == sc[k]);
        if k < b.len() {
            lemma_mod_bound(cval(a, k) + cval(b, k), p);
            lemma_of_int_valid::<S>((cval(a, k) + cval(b, k)) % p);
            assert(coeff_at(b, k) == b[k]);
        } else {
            assert(cval(b, k) == 0);
            assert(coeff_at(a, k) == a[k]);
        }
    } else {
        assert(coeff_at(poly_add(a, b), k) == czero::<S>());
    }
}

proof fn lemma_neg_ok<S: PrimeField>(b: Seq<FieldElement<S>>)
    requires
        poly_ok(b),
    ensures
        poly_ok(poly_neg(b)),
        forall|k: int| k >= 0 ==> #[trigger] cval(poly_neg(b), k) == (S::prime() - cval(b, k)) % S::prime(),
{
    S::lemma_prime_field();
    let p = S::prime();
    lemma_zero::<S>();
    let nraw = Seq::new(b.len(), |i: int| <FieldElement<S> as Coefficient>::neg_spec(b[i]));
    assert(all_valid(nraw)) by {
        assert forall|i: int| 0 <= i < nraw.len() implies #[trigger] <FieldElement<
            S,
        > as Coefficient>::valid(nraw[i]) by {
            lemma_cval_range(b, i);
            lemma_mod_bound(p - cval(b, i), p);
            lemma_of_int_valid::<S>((p - cval(b, i)) % p);
        }
    }
    lemma_trim(nraw);
    assert forall|k: int| k >= 0 implies #[trigger] cval(poly_neg(b), k) == (p - cval(b, k)) % p by {
        lemma_cval_range(b, k);
        if k < b.len() {
            lemma_mod_bound(p - cval(b, k), p);
            lemma_of_int_valid::<S>((p - cval(b, k)) % p);
            assert(coeff_at(poly_neg(b), k) == nraw[k]);
            assert(coeff_at(b, k) == b[k]);
        } else {
            lemma_mod_self_0(p);
            assert(coeff_at(poly_neg(b), k) == czero::<S>());
        }
    }
}

/// Coefficient `k` of a difference is the difference of the coefficients,
/// reduced.
pub(crate) proof fn lemma_sub_coeff<S: PrimeField>(a: Seq<FieldElement<S>>, b: Seq<FieldElement<S>>, k: int)
    requires
        poly_ok(a),
        poly_ok(b),
        k >= 0,
    ensures
        cval(poly_sub(a, b), k) == (cval(a, k) - cval(b, k)) % S::prime(),
{
    S::lemma_prime_field();
    let p = S::prime();
    lemma_neg_ok(b);
    let n = poly_neg(b);
    assert(cval(n, k) == (p - cval(b, k)) % p);
    lemma_add_coeff(a, n, k);
    lemma_cval_range(a, k);
    lemma_cval_range(b, k);
    let (x, y) = (cval(a, k), cval(b, k));
    lemma_add_mod_noop(x, p - y, p);
    lemma_small_mod(x as nat, p as nat);
    lemma_mod_bound(p - y, p);
    vstd::arithmetic::div_mod::lemma_mod_add_multiples_vanish(x - y, p);
    assert(x + (p - y) == (x - y) + p);
}

/// Sums, differences and products of reduced canonical polynomials are
/// reduced and canonical.
pub(crate) proof fn lemma_ops_ok<S: PrimeField>(a: Seq<FieldElement<S>>, b: Seq<FieldElement<S>>)
    requires
        poly_ok(a),
        poly_ok(b),
    ensures
        poly_ok(poly_add(a, b)),
        poly_ok(poly_sub(a, b)),
        poly_ok(poly_mul(a, b)),
{
    S::lemma_prime_field();
    let p = S::prime();
    lemma_zero::<S>();
    lemma_add_ok(a, b);
    lemma_neg_ok(b);
    lemma_add_ok(a, poly_neg(b));
    let mc = mul_coeffs(a, b);
    assert(all_valid(mc)) by {
        assert forall|i: int| 0 <= i < mc.len() implies #[trigger] <FieldElement<
            S,
        > as Coefficient>::valid(mc[i]) by {
            lemma_conv_value(a, b, i, a.len());
        }
    }
    lemma_trim(mc);
}

proof fn lemma_add_ok<S: PrimeField>(a: Seq<FieldElement<S>>, b: Seq<FieldElement<S>>)
    requires
        poly_ok(a),
        poly_ok(b),
    ensures
        poly_ok(poly_add(a, b)),
{
    S::lemma_prime_field();
    let p = S::prime();
    lemma_zero::<S>();
    let sc = add_coeffs(a, b);
    assert(all_valid(sc)) by {
        assert forall|i: int| 0 <= i < sc.len() implies #[trigger] <FieldElement<
            S,
        > as Coefficient>::valid(sc[i]) by {
            lemma_cval_range(a, i);
            lemma_cval_range(b, i);
            lemma_mod_bound(cval(a, i) + cval(b, i), p);
            lemma_of_int_valid::<S>((cval(a, i) + cval(b, i)) % p);
        }
    }
    lemma_trim(sc);
}

/// Reduced canonical polynomials with the same coefficient values are equal.
pub(crate) proof fn lemma_poly_ext<S: PrimeField>(s: Seq<FieldElement<S>>, t: Seq<FieldElement<S>>)
    requires
        poly_ok(s),
        poly_ok(t),
        forall|k: int| k >= 0 ==> #[trigger] cval(s, k) == cval(t, k),
    ensures
        s == t,
{
    S::lemma_prime_field();
    lemma_zero::<S>();
    if s.len() > t.len() {
        let k = s.len() - 1;
        assert(cval(s, k) == cval(t, k));
        lemma_cval_range(s, k);
        assert(s.last() == czero::<S>());
    }
    if t.len() > s.len() {
        let k = t.len() - 1;
        assert(cval(s, k) == cval(t, k));
        lemma_cval_range(t, k);
        assert(t.last() == czero::<S>());
    }
    assert forall|k: int| 0 <= k < s.len() implies s[k] == t[k] by {
        assert(cval(s, k) == cval(t, k));
        lemma_cval_range(s, k);
        lemma_cval_range(t, k);
    }
    assert(s =~= t);
}

/// Convolution is additive in its first argument, modulo the prime.
pub(crate) proof fn lemma_conv_sum_linear<S: PrimeField>(
    x: Seq<FieldElement<S>>,
    q: Seq<FieldElement<S>>,
    t: Seq<FieldElement<S>>,
    d: Seq<FieldElement<S>>,
    k: int,
    n: nat,
)
    requires
        forall|i: int| i >= 0 ==> #[trigger] cval(x, i) == (cval(q, i) + cval(t, i)) % S::prime(),
    ensures
        conv_sum(x, d, k, n) % S::prime() == (conv_sum(q, d, k, n) + conv_sum(t, d, k, n))
            % S::prime(),
    decreases n,
{
    S::lemma_prime_field();
    let p = S::prime();
    if n > 0 {
        let i = n - 1;
        lemma_conv_sum_linear(x, q, t, d, k, (n - 1) as nat);
        let (xi, qi, ti, di) = (cval(x, i), cval(q, i), cval(t, i), cval(d, k - i));
        let cx = conv_sum(x, d, k, (n - 1) as nat);
        let cq = conv_sum(q, d, k, (n - 1) as nat);
        let ct = conv_sum(t, d, k, (n - 1) as nat);
        assert(xi == (qi + ti) % p);
        assert((xi * di) % p == ((qi + ti) * di) % p) by {
            lemma_mul_mod_noop_left(qi + ti, di, p);
        }
        assert((qi + ti) * di == qi * di + ti * di) by (nonlinear_arith);
        lemma_add_mod_noop(cx, xi * di, p);
        lemma_add_mod_noop(cq + ct, qi * di + ti * di, p);
        assert(cq + qi * di + (ct + ti * di) == (cq + ct) + (qi * di + ti * di));
    }
}

/// The long-division invariant `P == Q * d + R`, coefficient by coefficient.
pub open spec fn division_invariant<S: PrimeField>(
    pp: Seq<FieldElement<S>>,
    q: Seq<FieldElement<S>>,
    r: Seq<FieldElement<S>>,
    d: Seq<FieldElement<S>>,
) -> bool {
    forall|k: int|
        k >= 0 ==> #[trigger] cval(pp, k) == (conv_sum(q, d, k, q.len()) + cval(r, k))
            % S::prime()
}

proof fn lemma_division_invariant_step<S: PrimeField>(
    pp: Seq<FieldElement<S>>,
    q: Seq<FieldElement<S>>,
    r: Seq<FieldElement<S>>,
    d: Seq<FieldElement<S>>,
    t: Seq<FieldElement<S>>,
)
    requires
        poly_ok(q),
        poly_ok(r),
        poly_ok(d),
        poly_ok(t),
        division_invariant(pp, q, r, d),
    ensures
        division_invariant(pp, poly_add(q, t), poly_sub(r, poly_mul(t, d)), d),
{
    S::lemma_prime_field();
    let p = S::prime();
    let q2 = poly_add(q, t);
    let td = poly_mul(t, d);
    lemma_ops_ok(q, t);
    lemma_ops_ok(t, d);
    let r2 = poly_sub(r, td);
    assert forall|i: int| i >= 0 implies #[trigger] cval(q2, i) == (cval(q, i) + cval(t, i)) % p by {
        lemma_add_coeff(q, t, i);
    }
    assert forall|k: int| k >= 0 implies #[trigger] cval(pp, k) == (conv_sum(q2, d, k, q2.len())
        + cval(r2, k)) % p by {
        let n = (q2.len() + q.len() + t.len()) as nat;
        lemma_conv_sum_linear(q2, q, t, d, k, n);
        lemma_conv_sum_extend(q2, d, k, n);
        lemma_conv_sum_extend(q, d, k, n);
        lemma_conv_sum_extend(t, d, k, n);
        lemma_sub_coeff(r, td, k);
        lemma_mul_coeff(t, d, k);
        let cq2 = conv_sum(q2, d, k, q2.len());
        let cq = conv_sum(q, d, k, q.len());
        let ct = conv_sum(t, d, k, t.len());
        let rk = cval(r, k);
        let r2k = cval(r2, k);
        lemma_cval_range(td, k);
        assert(cq2 % p == (cq + ct) % p);
        assert(r2k == (rk - ct % p) % p);
        lemma_add_mod_noop(cq2, r2k, p);
        lemma_add_mod_noop(cq + ct, rk - ct % p, p);
        lemma_mod_bound(rk - ct % p, p);
        lemma_small_mod(r2k as nat, p as nat);
        lemma_fundamental_div_mod(ct, p);
        let m = ct / p;
        assert(cq + ct + (rk - ct % p) == (cq + rk) + m * p) by (nonlinear_arith)
            requires
                ct == p * m + ct % p,
        ;
        lemma_mod_multiples_vanish(m, cq + rk, p);
        assert(cval(pp, k) == (cq + rk) % p);
        lemma_add_mod_noop(cq2, r2k, p);
    }
}


/// Long division keeps the invariant `P == Q * d + R`.
proof fn lemma_divmod_invariant<S: PrimeField>(
    pp: Seq<FieldElement<S>>,
    q: Seq<FieldElement<S>>,
    r: Seq<FieldElement<S>>,
    d: Seq<FieldElement<S>>,
)
    requires
        poly_ok(q),
        poly_ok(r),
        poly_ok(d),
        division_invariant(pp, q, r, d),
    ensures
        poly_ok(divmod_from(q, r, d).0),
        poly_ok(divmod_from(q, r, d).1),
        division_invariant(pp, divmod_from(q, r, d).0, divmod_from(q, r, d).1, d),
    decreases r.len(),
{
    if r.len() > 0 && d.len() > 0 && deg(r) >= deg(d) && r.last() != czero::<S>() {
        S::lemma_prime_field();
        lemma_zero::<S>();
        let c = <FieldElement<S> as Coefficient>::div_spec(r.last(), d.last());
        let e = (deg(r) - deg(d)) as nat;
        assert(c.wf()) by {
            lemma_of_int_valid::<S>(0);
            match crate::field_element::f_div::<S>(r.last().val(), d.last().val()) {
                Some(v) => {
                    lemma_mod_bound(
                        S::mul_spec(r.last().val(), crate::division::inverse_value::<S>(d.last().val())),
                        S::prime(),
                    );
                    lemma_of_int_valid::<S>(v);
                },
                None => {},
            }
        }
        let mc = monomial_coeffs(c, e);
        assert(all_valid(mc)) by {
            lemma_of_int_valid::<S>(0);
        }
        lemma_trim(mc);
        let t = monomial(c, e);
        lemma_division_invariant_step(pp, q, r, d, t);
        lemma_ops_ok(q, t);
        lemma_ops_ok(t, d);
        lemma_ops_ok(r, poly_mul(t, d));
        let q2 = poly_add(q, t);
        let r2 = poly_sub(r, poly_mul(t, d));
        if r2.len() < r.len() {
            lemma_divmod_invariant(pp, q2, r2, d);
        }
    }
}

/// The inverse the prime field finds for `v` (zero where there is none).
pub open spec fn inverse_value<S: PrimeField>(v: int) -> int {
    match S::inverse_spec(v) {
        Some(i) => i,
        None => 0,
    }
}

/// Division correctness over a prime field: `p == (p / d) * d + (p % d)`, and
/// the remainder is zero or of degree below the divisor's.
pub proof fn lemma_division_correct<S: PrimeField>(pp: Seq<FieldElement<S>>, d: Seq<FieldElement<S>>)
    requires
        poly_ok(pp),
        poly_ok(d),
        d != zero_poly::<FieldElement<S>>(),
    ensures
        poly_add(poly_mul(poly_divmod(pp, d).0, d), poly_divmod(pp, d).1) == pp,
        deg(poly_divmod(pp, d).1) < deg(d) || poly_divmod(pp, d).1 == zero_poly::<
            FieldElement<S>,
        >(),
{
    S::lemma_prime_field();
    let p = S::prime();
    lemma_zero::<S>();
    lemma_of_int_valid::<S>(0);
    let z = zero_poly::<FieldElement<S>>();
    assert(poly_ok(z));
    assert(division_invariant(pp, z, pp, d)) by {
        assert forall|k: int| k >= 0 implies #[trigger] cval(pp, k) == (conv_sum(z, d, k, z.len())
            + cval(pp, k)) % p by {
            assert(cval(z, 0) == 0);
            assert(z.len() == 1);
            assert(conv_sum(z, d, k, 0) == 0);
            assert(conv_sum(z, d, k, 1) == conv_sum(z, d, k, 0) + cval(z, 0) * cval(d, k - 0));
            assert(conv_sum(z, d, k, z.len()) == 0);
            lemma_cval_range(pp, k);
            lemma_small_mod(cval(pp, k) as nat, p as nat);
        }
    }
    lemma_divmod_invariant(pp, z, pp, d);
    let (q, r) = poly_divmod(pp, d);
    lemma_ops_ok(q, d);
    let qd = poly_mul(q, d);
    lemma_ops_ok(qd, r);
    let sum = poly_add(qd, r);
    assert forall|k: int| k >= 0 implies #[trigger] cval(sum, k) == cval(pp, k) by {
        lemma_add_coeff(qd, r, k);
        lemma_mul_coeff(q, d, k);
        assert(cval(pp, k) == (conv_sum(q, d, k, q.len()) + cval(r, k)) % p);
        lemma_add_mod_noop(conv_sum(q, d, k, q.len()), cval(r, k), p);
        lemma_cval_range(r, k);
        lemma_small_mod(cval(r, k) as nat, p as nat);
    }
    lemma_poly_ext(sum, pp);
    lemma_remainder_degree(pp, d);
}


/// In an extension field, reducing `m - y` gives the coefficient-wise negation
/// of `y`.
proof fn lemma_ext_neg_reduce<E: ExtensionField>(y: Seq<FieldElement<E::Sub>>)
    requires
        ext_canonical::<E>(y),
    ensures
        ext_reduce::<E>(poly_sub(E::modulus_seq(), y)) == poly_neg(y),
        ext_canonical::<E>(poly_neg(y)),
{
    E::lemma_modulus();
    E::Sub::lemma_prime_field();
    let p = E::Sub::prime();
    lemma_zero::<E::Sub>();
    let m = E::modulus_seq();
    let ml = m.len();
    lemma_neg_ok(y);
    let ny = poly_neg(y);
    let nraw = Seq::new(y.len(), |i: int| <FieldElement<E::Sub> as Coefficient>::neg_spec(y[i]));
    lemma_trim(nraw);
    assert(ny.len() <= y.len());
    lemma_ops_ok(m, y);
    let r = poly_sub(m, y);
    // r keeps the modulus's leading coefficient
    let sc = add_coeffs(m, ny);
    assert(sc.len() == ml);
    assert(sc.last() == m.last());
    assert(m.last() != czero::<E::Sub>());
    crate::polynomial::lemma_trim_canonical(sc);
    assert(r == sc);
    // one division step by m, with quotient coefficient lead(m) / lead(m) == 1
    assert(<FieldElement<E::Sub> as Coefficient>::valid(m[ml - 1]));
    lemma_nonzero(m.last());
    let lv = m.last().val();
    lemma_small_mod(lv as nat, p as nat);
    crate::finite_field::lemma_mod_inverse_exists(lv, p);
    let c = <FieldElement<E::Sub> as Coefficient>::div_spec(r.last(), m.last());
    let inv = inverse_value::<E::Sub>(lv);
    assert(c.val() == 1) by {
        lemma_small_mod(1, p as nat);
        lemma_of_int_valid::<E::Sub>(1);
    }
    lemma_of_int_valid::<E::Sub>(1);
    let t = monomial(c, 0);
    let tc = monomial_coeffs(c, 0);
    assert(tc =~= seq![c]);
    crate::polynomial::lemma_trim_canonical(tc);
    assert(t == seq![c]);
    assert(poly_ok(t)) by {
        FieldElement::<E::Sub>::lemma_of_int(c);
    }
    lemma_division_step(r, m);
    lemma_ops_ok(t, m);
    let tm = poly_mul(t, m);
    let r2 = poly_sub(r, tm);
    assert(r2.len() < ml) by {
        if r2 == zero_poly::<FieldElement<E::Sub>>() {
        }
    }
    let q2 = poly_add(zero_poly::<FieldElement<E::Sub>>(), t);
    assert(divmod_from(q2, r2, m) == (q2, r2));
    assert(r.last() == m.last());
    assert(deg(r) - deg(m) == 0);
    assert(poly_divmod(r, m).1 == r2);
    assert forall|k: int| k >= 0 implies #[trigger] cval(r2, k) == cval(ny, k) by {
        lemma_sub_coeff(r, tm, k);
        lemma_mul_coeff(t, m, k);
        lemma_sub_coeff(m, y, k);
        lemma_cval_range(m, k);
        lemma_cval_range(y, k);
        assert(conv_sum(t, m, k, 0) == 0);
        assert(conv_sum(t, m, k, 1) == conv_sum(t, m, k, 0) + cval(t, 0) * cval(m, k - 0));
        assert(cval(t, 0) == 1);
        let (mk, yk) = (cval(m, k), cval(y, k));
        lemma_small_mod(mk as nat, p as nat);
        assert(cval(r2, k) == ((mk - yk) % p - mk) % p);
        vstd::arithmetic::div_mod::lemma_sub_mod_noop(mk - yk, mk, p);
        lemma_mod_bound(mk - yk, p);
        lemma_small_mod(((mk - yk) % p) as nat, p as nat);
        assert((mk - yk) - mk == -yk);
        vstd::arithmetic::div_mod::lemma_mod_add_multiples_vanish(-yk, p);
        assert(-yk + p == p - yk);
    }
    lemma_ops_ok(r, tm);
    lemma_poly_ext(r2, ny);
}

/// Negation in an extension field is an involution, and only zero is its own
/// negation.
pub proof fn lemma_ext_neg<E: ExtensionField>(y: Seq<FieldElement<E::Sub>>)
    requires
        ext_canonical::<E>(y),
    ensures
        ext_canonical::<E>(ext_reduce::<E>(poly_sub(E::modulus_seq(), y))),
        ext_reduce::<E>(poly_sub(E::modulus_seq(), ext_reduce::<E>(poly_sub(E::modulus_seq(), y))))
            == y,
        ext_reduce::<E>(poly_sub(E::modulus_seq(), y)) == y ==> y == zero_poly::<
            FieldElement<E::Sub>,
        >(),
{
    E::Sub::lemma_prime_field();
    let p = E::Sub::prime();
    lemma_zero::<E::Sub>();
    lemma_ext_neg_reduce::<E>(y);
    let ny = poly_neg(y);
    lemma_ext_neg_reduce::<E>(ny);
    lemma_neg_ok(y);
    lemma_neg_ok(ny);
    assert forall|k: int| k >= 0 implies #[trigger] cval(poly_neg(ny), k) == cval(y, k) by {
        lemma_cval_range(y, k);
        let yk = cval(y, k);
        lemma_mod_self_0(p);
        if yk > 0 {
            lemma_small_mod((p - yk) as nat, p as nat);
            lemma_small_mod(yk as nat, p as nat);
        } else {
            lemma_small_mod(0, p as nat);
        }
    }
    lemma_poly_ext(poly_neg(ny), y);
    if ny == y {
        let z = zero_poly::<FieldElement<E::Sub>>();
        lemma_of_int_valid::<E::Sub>(0);
        assert forall|k: int| k >= 0 implies #[trigger] cval(y, k) == cval(z, k) by {
            lemma_cval_range(y, k);
            let yk = cval(y, k);
            assert(cval(ny, k) == yk);
            if yk > 0 {
                lemma_small_mod((p - yk) as nat, p as nat);
                assert(p - yk == yk);
                assert(p % 2 == 1) by {
                    crate::finite_field::lemma_odd_prime(p);
                }
            }
        }
        lemma_poly_ext(y, z);
    }
}


/// Sums of reduced extension-field elements need no reduction.
pub(crate) proof fn lemma_ext_add<E: ExtensionField>(a: Seq<FieldElement<E::Sub>>, b: Seq<FieldElement<E::Sub>>)
    requires
        ext_canonical::<E>(a),
        ext_canonical::<E>(b),
    ensures
        ext_canonical::<E>(poly_add(a, b)),
        ext_reduce::<E>(poly_add(a, b)) == poly_add(a, b),
{
    E::lemma_modulus();
    lemma_ops_ok(a, b);
    lemma_trim(add_coeffs(a, b));
    E::lemma_reduce_canonical(poly_add(a, b));
}

/// The additive field axioms hold in every extension field: `+` is
/// associative and commutative, zero is its identity, and `a + (-a) == 0`.
pub proof fn lemma_ext_additive_axioms<E: ExtensionField>(
    a: FieldElement<E>,
    b: FieldElement<E>,
    c: FieldElement<E>,
)
    requires
        a.wf(),
        b.wf(),
        c.wf(),
    ensures
        f_add::<E>(f_add::<E>(a.val(), b.val()), c.val()) == f_add::<E>(
            a.val(),
            f_add::<E>(b.val(), c.val()),
        ),
        f_add::<E>(a.val(), b.val()) == f_add::<E>(b.val(), a.val()),
        f_add::<E>(a.val(), f_zero::<E>()) == a.val(),
        f_add::<E>(a.val(), f_neg::<E>(a.val())) == f_zero::<E>(),
{
    E::lemma_modulus();
    E::Sub::lemma_prime_field();
    let p = E::Sub::prime();
    lemma_zero::<E::Sub>();
    lemma_of_int_valid::<E::Sub>(0);
    let (x, y, z) = (a.val(), b.val(), c.val());
    let zp = zero_poly::<FieldElement<E::Sub>>();
    assert(ext_canonical::<E>(zp));
    E::lemma_reduce_canonical(zp);
    lemma_ext_add::<E>(x, y);
    lemma_ext_add::<E>(y, x);
    lemma_ext_add::<E>(y, z);
    let xy = poly_add(x, y);
    let yz = poly_add(y, z);
    lemma_ext_add::<E>(xy, z);
    lemma_ext_add::<E>(x, yz);
    lemma_ext_add::<E>(x, zp);
    // commutativity and associativity, coefficient by coefficient
    assert forall|k: int| k >= 0 implies #[trigger] cval(xy, k) == cval(poly_add(y, x), k) by {
        lemma_add_coeff(x, y, k);
        lemma_add_coeff(y, x, k);
    }
    lemma_poly_ext(xy, poly_add(y, x));
    assert forall|k: int| k >= 0 implies #[trigger] cval(poly_add(xy, z), k) == cval(
        poly_add(x, yz),
        k,
    ) by {
        lemma_add_coeff(x, y, k);
        lemma_add_coeff(y, z, k);
        lemma_add_coeff(xy, z, k);
        lemma_add_coeff(x, yz, k);
        let (xk, yk, zk) = (cval(x, k), cval(y, k), cval(z, k));
        lemma_add_mod_noop(xk + yk, zk, p);
        lemma_add_mod_noop(xk, yk + zk, p);
        lemma_cval_range(x, k);
        lemma_cval_range(z, k);
        lemma_small_mod(xk as nat, p as nat);
        lemma_small_mod(zk as nat, p as nat);
        assert(xk + yk + zk == xk + (yk + zk));
    }
    lemma_poly_ext(poly_add(xy, z), poly_add(x, yz));
    // zero is the identity
    assert forall|k: int| k >= 0 implies #[trigger] cval(poly_add(x, zp), k) == cval(x, k) by {
        lemma_add_coeff(x, zp, k);
        lemma_cval_range(x, k);
        lemma_small_mod(cval(x, k) as nat, p as nat);
    }
    lemma_poly_ext(poly_add(x, zp), x);
    // a + (-a) == 0
    lemma_ext_neg_reduce::<E>(x);
    let nx = poly_neg(x);
    lemma_ext_add::<E>(x, nx);
    lemma_neg_ok(x);
    assert forall|k: int| k >= 0 implies #[trigger] cval(poly_add(x, nx), k) == cval(zp, k) by {
        lemma_add_coeff(x, nx, k);
        lemma_cval_range(x, k);
        let xk = cval(x, k);
        lemma_mod_self_0(p);
        lemma_small_mod(0, p as nat);
        if xk > 0 {
            lemma_small_mod((p - xk) as nat, p as nat);
        }
    }
    lemma_poly_ext(poly_add(x, nx), zp);
}


/// Convolving with the constant one picks out a single coefficient.
proof fn lemma_conv_sum_one<S: PrimeField>(a: Seq<FieldElement<S>>, k: int, n: nat)
    requires
        k >= 0,
    ensures
        conv_sum(a, one_poly::<S>(), k, n) == if k < n {
            cval(a, k)
        } else {
            0
        },
    decreases n,
{
    S::lemma_prime_field();
    lemma_small_mod(1, S::prime() as nat);
    lemma_of_int_valid::<S>(1);
    lemma_zero::<S>();
    if n > 0 {
        lemma_conv_sum_one(a, k, (n - 1) as nat);
        let i = n - 1;
        if k - i != 0 {
            assert(cval(one_poly::<S>(), k - i) == 0);
        } else {
            assert(cval(one_poly::<S>(), 0) == 1);
        }
    }
}

/// One is the multiplicative identity of every extension field.
pub proof fn lemma_ext_multiplicative_identity<E: ExtensionField>(a: FieldElement<E>)
    requires
        a.wf(),
    ensures
        f_mul::<E>(a.val(), f_one::<E>()) == a.val(),
{
    E::lemma_modulus();
    E::Sub::lemma_prime_field();
    let p = E::Sub::prime();
    lemma_zero::<E::Sub>();
    lemma_small_mod(1, p as nat);
    lemma_of_int_valid::<E::Sub>(1);
    let one = one_poly::<E::Sub>();
    assert(ext_canonical::<E>(one));
    E::lemma_reduce_canonical(one);
    let x = a.val();
    lemma_ops_ok(x, one);
    let xo = poly_mul(x, one);
    assert forall|k: int| k >= 0 implies #[trigger] cval(xo, k) == cval(x, k) by {
        lemma_mul_coeff(x, one, k);
        lemma_conv_sum_one(x, k, x.len());
        lemma_cval_range(x, k);
        lemma_small_mod(cval(x, k) as nat, p as nat);
        lemma_small_mod(0, p as nat);
        if k >= x.len() {
            assert(cval(x, k) == 0);
        }
    }
    lemma_poly_ext(xo, x);
    E::lemma_reduce_canonical(x);
}


/// Terms past index `k` of a convolution sum vanish.
proof fn lemma_conv_sum_past<S: PrimeField>(
    a: Seq<FieldElement<S>>,
    b: Seq<FieldElement<S>>,
    k: int,
    n: nat,
)
    requires
        k >= 0,
        n >= k + 1,
    ensures
        conv_sum(a, b, k, n) == conv_sum(a, b, k, (k + 1) as nat),
    decreases n,
{
    S::lemma_prime_field();
    lemma_zero::<S>();
    if n > k + 1 {
        lemma_conv_sum_past(a, b, k, (n - 1) as nat);
        assert(cval(b, k - (n - 1)) == 0);
    }
}

/// Splitting the sum of `a_i * b_(k-i)` for `i <= k`: its last `m` terms are
/// the first `m` terms of the sum with `a` and `b` swapped.
proof fn lemma_conv_sum_swap<S: PrimeField>(
    a: Seq<FieldElement<S>>,
    b: Seq<FieldElement<S>>,
    k: int,
    m: nat,
)
    requires
        k >= 0,
        m <= k + 1,
    ensures
        conv_sum(a, b, k, (k + 1) as nat) == conv_sum(a, b, k, (k + 1 - m) as nat) + conv_sum(
            b,
            a,
            k,
            m,
        ),
    decreases m,
{
    if m > 0 {
        lemma_conv_sum_swap(a, b, k, (m - 1) as nat);
        let j = m - 1;
        assert(conv_sum(a, b, k, (k + 1 - j) as nat) == conv_sum(a, b, k, (k - j) as nat) + cval(
            a,
            k - j,
        ) * cval(b, k - (k - j)));
        assert(cval(a, k - j) * cval(b, j) == cval(b, j) * cval(a, k - j)) by (nonlinear_arith);
    }
}

/// Multiplication of polynomials over a prime field is commutative.
pub proof fn lemma_mul_commutative<S: PrimeField>(a: Seq<FieldElement<S>>, b: Seq<FieldElement<S>>)
    requires
        poly_ok(a),
        poly_ok(b),
    ensures
        poly_mul(a, b) == poly_mul(b, a),
{
    lemma_ops_ok(a, b);
    lemma_ops_ok(b, a);
    assert forall|k: int| k >= 0 implies #[trigger] cval(poly_mul(a, b), k) == cval(
        poly_mul(b, a),
        k,
    ) by {
        lemma_mul_coeff(a, b, k);
        lemma_mul_coeff(b, a, k);
        let n = (a.len() + b.len() + k + 1) as nat;
        lemma_conv_sum_extend(a, b, k, n);
        lemma_conv_sum_extend(b, a, k, n);
        lemma_conv_sum_past(a, b, k, n);
        lemma_conv_sum_past(b, a, k, n);
        lemma_conv_sum_swap(a, b, k, (k + 1) as nat);
        assert(conv_sum(a, b, k, 0) == 0);
    }
    lemma_poly_ext(poly_mul(a, b), poly_mul(b, a));
}

/// Multiplication in every extension field is commutative.
pub proof fn lemma_ext_mul_commutative<E: ExtensionField>(a: FieldElement<E>, b: FieldElement<E>)
    requires
        a.wf(),
        b.wf(),
    ensures
        f_mul::<E>(a.val(), b.val()) == f_mul::<E>(b.val(), a.val()),
{
    lemma_mul_commutative(a.val(), b.val());
}


/// `a == b % p` makes `b - a` a multiple of `p`.
pub(crate) proof fn lemma_congruent(a: int, b: int, p: int)
    requires
        p > 0,
        a == b % p,
    ensures
        (b - a) % p == 0,
{
    lemma_fundamental_div_mod(b, p);
    vstd::arithmetic::div_mod::lemma_mod_multiples_basic(b / p, p);
    assert(b - a == (b / p) * p) by (nonlinear_arith)
        requires
            b == p * (b / p) + b % p,
            a == b % p,
    ;
}

/// A product of two integers that are not multiples of a prime is not one.
proof fn lemma_nonzero_product(a: int, b: int, p: int)
    requires
        crate::finite_field::is_prime(p),
        0 < a < p,
        0 < b < p,
    ensures
        (a * b) % p != 0,
{
    lemma_small_mod(a as nat, p as nat);
    crate::finite_field::lemma_mod_inverse_exists(a, p);
    let i = mod_inverse_of(a, p);
    if (a * b) % p == 0 {
        vstd::arithmetic::div_mod::lemma_mul_mod_noop_right(i, a * b, p);
        lemma_mul_mod_noop_left(a * i, b, p);
        assert(i * (a * b) == (a * i) * b) by (nonlinear_arith);
        lemma_small_mod(0, p as nat);
        lemma_small_mod(b as nat, p as nat);
        assert(i * 0 == 0);
        assert(1 * b == b);
    }
}

/// Terms of a convolution sum below the last term of `q` vanish at index
/// `deg q + deg m`.
proof fn lemma_conv_sum_top<S: PrimeField>(
    q: Seq<FieldElement<S>>,
    m: Seq<FieldElement<S>>,
    n: nat,
)
    requires
        q.len() > 0,
        m.len() > 0,
        n < q.len(),
    ensures
        conv_sum(q, m, q.len() + m.len() - 2, n) == 0,
    decreases n,
{
    S::lemma_prime_field();
    lemma_zero::<S>();
    if n > 0 {
        lemma_conv_sum_top(q, m, (n - 1) as nat);
        assert(cval(m, q.len() + m.len() - 2 - (n - 1)) == 0);
    }
}

/// Remainders modulo the field's polynomial are unique: reduced `u` and `v`
/// that differ by a multiple `Q * m` of the modulus are equal.
pub(crate) proof fn lemma_remainder_unique<E: ExtensionField>(
    u: Seq<FieldElement<E::Sub>>,
    v: Seq<FieldElement<E::Sub>>,
    q: Seq<FieldElement<E::Sub>>,
)
    requires
        ext_canonical::<E>(u),
        ext_canonical::<E>(v),
        poly_ok(q),
        forall|k: int|
            k >= 0 ==> #[trigger] cval(u, k) == (cval(v, k) + conv_sum(q, E::modulus_seq(), k, q.len()))
                % E::Sub::prime(),
    ensures
        u == v,
{
    E::lemma_modulus();
    E::Sub::lemma_prime_field();
    let p = E::Sub::prime();
    let m = E::modulus_seq();
    lemma_zero::<E::Sub>();
    if q != zero_poly::<FieldElement<E::Sub>>() {
        let kk = q.len() + m.len() - 2;
        assert(cval(u, kk) == (cval(v, kk) + conv_sum(q, m, kk, q.len())) % p);
        lemma_conv_sum_top(q, m, (q.len() - 1) as nat);
        let lq = cval(q, q.len() - 1);
        let lm = cval(m, m.len() - 1);
        assert(conv_sum(q, m, kk, q.len()) == lq * lm);
        lemma_cval_range(q, q.len() - 1);
        lemma_cval_range(m, m.len() - 1);
        assert(lq != 0) by {
            if q.len() == 1 && lq == 0 {
                assert(q =~= zero_poly::<FieldElement<E::Sub>>());
            }
        }
        assert(lm != 0);
        lemma_nonzero_product(lq, lm, p);
        assert(cval(u, kk) == 0 && cval(v, kk) == 0);
        assert(false);
    }
    assert forall|k: int| k >= 0 implies #[trigger] cval(u, k) == cval(v, k) by {
        assert(cval(u, k) == (cval(v, k) + conv_sum(q, m, k, q.len())) % p);
        assert(conv_sum(q, m, k, 0) == 0);
        assert(cval(q, 0) == 0);
        assert(conv_sum(q, m, k, 1) == conv_sum(q, m, k, 0) + cval(q, 0) * cval(m, k - 0));
        lemma_cval_range(v, k);
        lemma_small_mod(cval(v, k) as nat, p as nat);
    }
    lemma_poly_ext(u, v);
}


/// Equal remainders make the difference a multiple of `p`.
pub(crate) proof fn lemma_same_mod(a: int, b: int, p: int)
    requires
        p > 0,
        a % p == b % p,
    ensures
        (a - b) % p == 0,
{
    lemma_fundamental_div_mod(a, p);
    lemma_fundamental_div_mod(b, p);
    let (qa, qb) = (a / p, b / p);
    assert(a - b == (qa - qb) * p) by (nonlinear_arith)
        requires
            a == p * qa + a % p,
            b == p * qb + b % p,
            a % p == b % p,
    ;
    vstd::arithmetic::div_mod::lemma_mod_multiples_basic(qa - qb, p);
}

/// The integer bookkeeping of the distributive law.
proof fn lemma_distributive_arith(
    p: int,
    x: int,
    y1: int,
    y2: int,
    rx: int,
    r1: int,
    r2: int,
    cx: int,
    c1: int,
    c2: int,
    v: int,
    cq: int,
)
    requires
        p > 0,
        0 <= rx < p,
        x % p == (y1 + y2) % p,
        x % p == (cx + rx) % p,
        y1 % p == (c1 + r1) % p,
        y2 % p == (c2 + r2) % p,
        v % p == (r1 + r2) % p,
        cq % p == (c1 + c2 - cx) % p,
    ensures
        rx == (v + cq) % p,
{
    lemma_same_mod(x, y1 + y2, p);
    lemma_same_mod(x, cx + rx, p);
    lemma_same_mod(y1, c1 + r1, p);
    lemma_same_mod(y2, c2 + r2, p);
    lemma_same_mod(v, r1 + r2, p);
    lemma_same_mod(cq, c1 + c2 - cx, p);
    let d0 = x - (y1 + y2);
    let d1 = x - (cx + rx);
    let d2 = y1 - (c1 + r1);
    let d3 = y2 - (c2 + r2);
    let d4 = v - (r1 + r2);
    let d5 = cq - (c1 + c2 - cx);
    lemma_divides_combination(d0, d2, 1, p);
    lemma_divides_combination(d0 + d2, d3, 1, p);
    lemma_divides_combination(d0 + d2 + d3, d1, 1, p);
    lemma_divides_combination(d0 + d2 + d3 - d1, d4, 1, p);
    lemma_divides_combination(d0 + d2 + d3 - d1 - d4, d5, 1, p);
    assert(rx - (v + cq) == d0 + d2 + d3 - d1 - d4 - d5);
    lemma_fundamental_div_mod(v + cq, p);
    lemma_mod_bound(v + cq, p);
    lemma_fundamental_div_mod(rx - (v + cq), p);
    let k = (rx - (v + cq)) / p;
    let w = (v + cq) / p;
    assert(rx == (k + w) * p + (v + cq) % p) by (nonlinear_arith)
        requires
            rx - (v + cq) == p * k,
            v + cq == p * w + (v + cq) % p,
    ;
    assert(k + w == 0) by (nonlinear_arith)
        requires
            rx == (k + w) * p + (v + cq) % p,
            0 <= rx < p,
            0 <= (v + cq) % p < p,
            p > 0,
    ;
}

/// Convolution is subtractive in its first argument, modulo the prime.
pub(crate) proof fn lemma_conv_sum_sub<S: PrimeField>(
    x: Seq<FieldElement<S>>,
    q: Seq<FieldElement<S>>,
    t: Seq<FieldElement<S>>,
    d: Seq<FieldElement<S>>,
    k: int,
    n: nat,
)
    requires
        forall|i: int| i >= 0 ==> #[trigger] cval(x, i) == (cval(q, i) - cval(t, i)) % S::prime(),
    ensures
        conv_sum(x, d, k, n) % S::prime() == (conv_sum(q, d, k, n) - conv_sum(t, d, k, n))
            % S::prime(),
    decreases n,
{
    S::lemma_prime_field();
    let p = S::prime();
    if n > 0 {
        let i = n - 1;
        lemma_conv_sum_sub(x, q, t, d, k, (n - 1) as nat);
        let (xi, qi, ti, di) = (cval(x, i), cval(q, i), cval(t, i), cval(d, k - i));
        let cx = conv_sum(x, d, k, (n - 1) as nat);
        let cq = conv_sum(q, d, k, (n - 1) as nat);
        let ct = conv_sum(t, d, k, (n - 1) as nat);
        assert(xi == (qi - ti) % p);
        assert((xi * di) % p == ((qi - ti) * di) % p) by {
            lemma_mul_mod_noop_left(qi - ti, di, p);
        }
        assert((qi - ti) * di == qi * di - ti * di) by (nonlinear_arith);
        lemma_add_mod_noop(cx, xi * di, p);
        lemma_add_mod_noop(cq - ct, qi * di - ti * di, p);
        assert(cq + qi * di - (ct + ti * di) == (cq - ct) + (qi * di - ti * di));
    }
}

/// Dividing by the field's polynomial: `x == Q * m + r` coefficient by
/// coefficient, with both parts reduced and canonical.
pub(crate) proof fn lemma_reduce_congruence<E: ExtensionField>(x: Seq<FieldElement<E::Sub>>)
    requires
        poly_ok(x),
    ensures
        poly_ok(poly_divmod(x, E::modulus_seq()).0),
        poly_ok(poly_divmod(x, E::modulus_seq()).1),
        ext_canonical::<E>(poly_divmod(x, E::modulus_seq()).1),
        division_invariant(
            x,
            poly_divmod(x, E::modulus_seq()).0,
            poly_divmod(x, E::modulus_seq()).1,
            E::modulus_seq(),
        ),
{
    E::lemma_modulus();
    E::Sub::lemma_prime_field();
    let p = E::Sub::prime();
    let m = E::modulus_seq();
    lemma_zero::<E::Sub>();
    lemma_of_int_valid::<E::Sub>(0);
    let z = zero_poly::<FieldElement<E::Sub>>();
    assert(division_invariant(x, z, x, m)) by {
        assert forall|k: int| k >= 0 implies #[trigger] cval(x, k) == (conv_sum(z, m, k, z.len())
            + cval(x, k)) % p by {
            assert(cval(z, 0) == 0);
            assert(conv_sum(z, m, k, 0) == 0);
            assert(conv_sum(z, m, k, 1) == conv_sum(z, m, k, 0) + cval(z, 0) * cval(m, k - 0));
            lemma_cval_range(x, k);
            lemma_small_mod(cval(x, k) as nat, p as nat);
        }
    }
    lemma_divmod_invariant(x, z, x, m);
    if m == z {
        assert(m.len() == 1);
    }
    lemma_remainder_degree(x, m);
}

/// Multiplication distributes over addition in every extension field.
pub proof fn lemma_ext_distributive<E: ExtensionField>(
    a: FieldElement<E>,
    b: FieldElement<E>,
    c: FieldElement<E>,
)
    requires
        a.wf(),
        b.wf(),
        c.wf(),
    ensures
        f_mul::<E>(a.val(), f_add::<E>(b.val(), c.val())) == f_add::<E>(
            f_mul::<E>(a.val(), b.val()),
            f_mul::<E>(a.val(), c.val()),
        ),
{
    E::lemma_modulus();
    E::Sub::lemma_prime_field();
    let p = E::Sub::prime();
    let m = E::modulus_seq();
    let (x, y, z) = (a.val(), b.val(), c.val());
    lemma_ext_add::<E>(y, z);
    let bc = poly_add(y, z);
    lemma_ops_ok(x, bc);
    lemma_ops_ok(x, y);
    lemma_ops_ok(x, z);
    let xx = poly_mul(x, bc);
    let y1 = poly_mul(x, y);
    let y2 = poly_mul(x, z);
    lemma_reduce_congruence::<E>(xx);
    lemma_reduce_congruence::<E>(y1);
    lemma_reduce_congruence::<E>(y2);
    let (qx, rx) = poly_divmod(xx, m);
    let (q1, r1) = poly_divmod(y1, m);
    let (q2, r2) = poly_divmod(y2, m);
    lemma_ext_add::<E>(r1, r2);
    let v = poly_add(r1, r2);
    lemma_ops_ok(q1, q2);
    let q12 = poly_add(q1, q2);
    lemma_ops_ok(q12, qx);
    let q = poly_sub(q12, qx);
    lemma_mul_commutative(x, bc);
    lemma_mul_commutative(x, y);
    lemma_mul_commutative(x, z);
    assert forall|i: int| i >= 0 implies #[trigger] cval(bc, i) == (cval(y, i) + cval(z, i)) % p by {
        lemma_add_coeff(y, z, i);
    }
    assert forall|i: int| i >= 0 implies #[trigger] cval(q12, i) == (cval(q1, i) + cval(q2, i)) % p by {
        lemma_add_coeff(q1, q2, i);
    }
    assert forall|i: int| i >= 0 implies #[trigger] cval(q, i) == (cval(q12, i) - cval(qx, i)) % p by {
        lemma_sub_coeff(q12, qx, i);
    }
    assert forall|k: int| k >= 0 implies #[trigger] cval(rx, k) == (cval(v, k) + conv_sum(q, m, k, q.len()))
        % p by {
        // xx == y1 + y2
        let n = (bc.len() + y.len() + z.len()) as nat;
        lemma_mul_coeff(bc, x, k);
        lemma_mul_coeff(y, x, k);
        lemma_mul_coeff(z, x, k);
        lemma_conv_sum_linear(bc, y, z, x, k, n);
        lemma_conv_sum_extend(bc, x, k, n);
        lemma_conv_sum_extend(y, x, k, n);
        lemma_conv_sum_extend(z, x, k, n);
        let (sx, s1, s2) = (conv_sum(bc, x, k, n), conv_sum(y, x, k, n), conv_sum(z, x, k, n));
        lemma_mod_bound(sx, p);
        lemma_small_mod((sx % p) as nat, p as nat);
        lemma_mod_bound(s1, p);
        lemma_mod_bound(s2, p);
        lemma_add_mod_noop(s1, s2, p);
        assert(cval(xx, k) % p == (cval(y1, k) + cval(y2, k)) % p);
        // q's convolution sum
        let nq = (q.len() + q12.len() + q1.len() + q2.len() + qx.len()) as nat;
        lemma_conv_sum_sub(q, q12, qx, m, k, nq);
        lemma_conv_sum_linear(q12, q1, q2, m, k, nq);
        lemma_conv_sum_extend(q, m, k, nq);
        lemma_conv_sum_extend(q12, m, k, nq);
        lemma_conv_sum_extend(q1, m, k, nq);
        lemma_conv_sum_extend(q2, m, k, nq);
        lemma_conv_sum_extend(qx, m, k, nq);
        let (cq, c12, c1, c2, cx) = (
            conv_sum(q, m, k, q.len()),
            conv_sum(q12, m, k, q12.len()),
            conv_sum(q1, m, k, q1.len()),
            conv_sum(q2, m, k, q2.len()),
            conv_sum(qx, m, k, qx.len()),
        );
        assert(cq % p == (c12 - cx) % p);
        assert(c12 % p == (c1 + c2) % p);
        vstd::arithmetic::div_mod::lemma_sub_mod_noop(c12, cx, p);
        vstd::arithmetic::div_mod::lemma_sub_mod_noop(c1 + c2, cx, p);
        assert(cq % p == (c1 + c2 - cx) % p);
        // the three divisions and the sum of remainders
        lemma_add_coeff(r1, r2, k);
        lemma_cval_range(xx, k);
        lemma_cval_range(y1, k);
        lemma_cval_range(y2, k);
        lemma_cval_range(v, k);
        lemma_cval_range(rx, k);
        lemma_small_mod(cval(xx, k) as nat, p as nat);
        lemma_small_mod(cval(y1, k) as nat, p as nat);
        lemma_small_mod(cval(y2, k) as nat, p as nat);
        lemma_small_mod(cval(v, k) as nat, p as nat);
        lemma_distributive_arith(
            p,
            cval(xx, k),
            cval(y1, k),
            cval(y2, k),
            cval(rx, k),
            cval(r1, k),
            cval(r2, k),
            cx,
            c1,
            c2,
            cval(v, k),
            cq,
        );
    }
    lemma_ops_ok(q12, qx);
    lemma_remainder_unique::<E>(rx, v, q);
}

} // verus!
