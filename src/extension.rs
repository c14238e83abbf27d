use vstd::prelude::*;
use vstd::arithmetic::div_mod::{lemma_mod_bound, lemma_small_mod, lemma_mul_mod_noop_left, lemma_mul_mod_noop_right};

use crate::field_element::{f_add, f_div, f_mul, f_neg, f_zero, FieldElement};
use crate::finite_field::{lemma_mod_inverse_exists, mod_inverse, FiniteField, PrimeField};
use crate::polynomial::{
    add_coeffs, all_valid, coeff_at, conv, deg, divmod_from, is_canonical, last_nonzero,
    lemma_last_nonzero_bound,
    lemma_trim, lemma_trim_canonical, monomial, monomial_coeffs, mul_coeffs, poly_mul, poly_neg,
    poly_add, poly_divmod, poly_scale, poly_sub, trim, zero_poly, Coefficient, Polynomial,
};

verus! {

/// The coefficient zero of polynomials over the prime field `S`.
pub open spec fn czero<S: PrimeField>() -> FieldElement<S> {
    <FieldElement<S> as Coefficient>::zero_spec()
}

pub(crate) proof fn lemma_zero<S: PrimeField>()
    ensures
        czero::<S>().val() == 0,
        f_zero::<S>() == 0,
{
    S::lemma_prime_field();
    lemma_small_mod(0, S::prime() as nat);
    FieldElement::<S>::lemma_of_int_val(0);
}

/// Every value the coefficient operations produce is a reduced field element.
pub(crate) proof fn lemma_of_int_valid<S: PrimeField>(m: int)
    requires
        0 <= m < S::prime(),
    ensures
        FieldElement::<S>::of_int(m).wf(),
        FieldElement::<S>::of_int(m).val() == m,
{
    S::lemma_prime_field();
    FieldElement::<S>::lemma_of_int_val(m);
}

/// A reduced coefficient other than zero has a value in `[1, p)`.
pub(crate) proof fn lemma_nonzero<S: PrimeField>(x: FieldElement<S>)
    requires
        x.wf(),
        x != czero::<S>(),
    ensures
        0 < x.val() < S::prime(),
{
    S::lemma_prime_field();
    lemma_zero::<S>();
    FieldElement::<S>::lemma_eq(x, czero::<S>());
}

/// Multiplying `c * x^e` by `d` only shifts and scales `d`: below `e` terms of
/// the monomial nothing has been added.
proof fn lemma_conv_monomial<S: PrimeField>(
    c: FieldElement<S>,
    e: nat,
    d: Seq<FieldElement<S>>,
    k: int,
    n: nat,
)
    requires
        n <= e,
    ensures
        conv(monomial_coeffs(c, e), d, k, n) == czero::<S>(),
    decreases n,
{
    if n > 0 {
        lemma_conv_monomial(c, e, d, k, (n - 1) as nat);
    }
}

/// One step of long division over a prime field: the leading coefficient
/// cancels, so the remainder gets shorter, or becomes zero.
pub proof fn lemma_division_step<S: PrimeField>(r: Seq<FieldElement<S>>, d: Seq<FieldElement<S>>)
    requires
        is_canonical(r),
        all_valid(r),
        is_canonical(d),
        all_valid(d),
        d.last() != czero::<S>(),
        deg(r) >= deg(d),
        r.last() != czero::<S>(),
    ensures
        ({
            let t = monomial(
                <FieldElement<S> as Coefficient>::div_spec(r.last(), d.last()),
                (deg(r) - deg(d)) as nat,
            );
            let r2 = poly_sub(r, poly_mul(t, d));
            &&& is_canonical(r2)
            &&& all_valid(r2)
            &&& (r2.len() < r.len() || r2 == zero_poly::<FieldElement<S>>())
        }),
{
    S::lemma_prime_field();
    let p = S::prime();
    lemma_zero::<S>();
    let lr = r.last();
    let ld = d.last();
    assert(<FieldElement<S> as Coefficient>::valid(r[r.len() - 1]));
    assert(<FieldElement<S> as Coefficient>::valid(d[d.len() - 1]));
    lemma_nonzero(lr);
    lemma_nonzero(ld);
    let (a, b) = (lr.val(), ld.val());
    lemma_small_mod(b as nat, p as nat);
    lemma_mod_inverse_exists(b, p);
    let i = mod_inverse_of(b, p);
    let cv = (a * i) % p;
    lemma_mod_bound(a * i, p);
    assert(f_div::<S>(a, b) == Some(cv));
    let c = FieldElement::<S>::of_int(cv);
    assert(c == <FieldElement<S> as Coefficient>::div_spec(lr, ld));
    lemma_of_int_valid::<S>(cv);
    // c * b == a (mod p), and c is not zero
    assert((cv * b) % p == a) by {
        lemma_mul_mod_noop_left(a * i, b, p);
        lemma_mul_mod_noop_right(a, i * b, p);
        assert((a * i) * b == a * (i * b)) by (nonlinear_arith);
        assert((i * b) % p == 1) by {
            assert(i * b == b * i) by (nonlinear_arith);
        }
        lemma_small_mod(a as nat, p as nat);
    }
    assert(cv != 0) by {
        if cv == 0 {
            lemma_small_mod(0, p as nat);
            assert(0 * b == 0);
        }
    }
    assert(c != czero::<S>());
    let e = (deg(r) - deg(d)) as nat;
    let tc = monomial_coeffs(c, e);
    assert(tc.last() == c);
    lemma_trim_canonical(tc);
    let t = monomial(c, e);
    assert(t == tc);
    let rl = r.len();
    let dl = d.len();
    let mc = mul_coeffs(t, d);
    assert(mc.len() == rl);
    // the last coefficient of the product is the leading coefficient of r
    lemma_conv_monomial(c, e, d, rl - 1, e);
    assert(coeff_at(t, e as int) == c);
    let prod_last = <FieldElement<S> as Coefficient>::mul_spec(c, ld);
    assert(f_mul::<S>(cv, b) == a);
    assert(prod_last == FieldElement::<S>::of_int(a));
    FieldElement::<S>::lemma_of_int(lr);
    lemma_of_int_valid::<S>(a);
    assert(<FieldElement<S> as Coefficient>::add_spec(czero::<S>(), prod_last) == lr) by {
        assert(f_add::<S>(0, a) == a) by {
            lemma_small_mod(a as nat, p as nat);
        }
    }
    assert(mc.last() == conv(t, d, rl - 1, (e + 1) as nat));
    assert(mc.last() == lr);
    lemma_trim_canonical(mc);
    let prod = poly_mul(t, d);
    assert(prod == mc);
    // its negation keeps the length, with leading coefficient -lr
    let nc = Seq::new(prod.len(), |j: int| <FieldElement<S> as Coefficient>::neg_spec(prod[j]));
    assert(f_neg::<S>(a) == p - a) by {
        lemma_small_mod((p - a) as nat, p as nat);
    }
    lemma_of_int_valid::<S>(p - a);
    assert(nc.last() == FieldElement::<S>::of_int(p - a));
    assert(nc.last() != czero::<S>());
    lemma_trim_canonical(nc);
    let np = poly_neg(prod);
    assert(np == nc);
    // the sum cancels the leading coefficient
    let sc = add_coeffs(r, np);
    assert(sc.len() == rl);
    assert(f_add::<S>(a, p - a) == 0) by {
        vstd::arithmetic::div_mod::lemma_mod_self_0(p);
    }
    assert(sc.last() == czero::<S>());
    assert(all_valid(sc)) by {
        assert forall|j: int| 0 <= j < sc.len() implies #[trigger] FieldElement::<S>::valid(
            sc[j],
        ) by {
            let v = f_add::<S>(coeff_at(r, j).val(), np[j].val());
            lemma_mod_bound(coeff_at(r, j).val() + np[j].val(), p);
            lemma_of_int_valid::<S>(v);
        }
    }
    lemma_trim(sc);
    if rl > 1 {
        lemma_last_nonzero_bound(sc.drop_last());
    } else {
        assert(trim(sc) =~= zero_poly::<FieldElement<S>>());
    }
}

/// The inverse `mod_inverse` picks, where it exists.
pub open spec fn mod_inverse_of(b: int, p: int) -> int {
    match crate::finite_field::mod_inverse(b, p) {
        Some(t) => t,
        None => 0,
    }
}

/// Long division over a prime field ends with a remainder shorter than the
/// divisor, or zero.
pub proof fn lemma_divmod_remainder<S: PrimeField>(
    q: Seq<FieldElement<S>>,
    r: Seq<FieldElement<S>>,
    d: Seq<FieldElement<S>>,
)
    requires
        is_canonical(r),
        all_valid(r),
        is_canonical(d),
        all_valid(d),
        d.last() != czero::<S>(),
    ensures
        divmod_from(q, r, d).1.len() < d.len() || divmod_from(q, r, d).1 == zero_poly::<
            FieldElement<S>,
        >(),
    decreases r.len(),
{
    if deg(r) >= deg(d) && r.last() != czero::<S>() {
        lemma_division_step(r, d);
        let t = monomial(
            <FieldElement<S> as Coefficient>::div_spec(r.last(), d.last()),
            (deg(r) - deg(d)) as nat,
        );
        let q2 = poly_add(q, t);
        let r2 = poly_sub(r, poly_mul(t, d));
        if r2.len() < r.len() {
            lemma_divmod_remainder(q2, r2, d);
        }
    } else if r.last() == czero::<S>() {
        assert(r.len() == 1);
        assert(r =~= zero_poly::<FieldElement<S>>());
    }
}


/// Dividing by a non-zero polynomial over a prime field leaves a remainder of
/// degree below the divisor's, or the zero polynomial.
pub proof fn lemma_remainder_degree<S: PrimeField>(p: Seq<FieldElement<S>>, d: Seq<FieldElement<S>>)
    requires
        is_canonical(p),
        all_valid(p),
        is_canonical(d),
        all_valid(d),
        d != zero_poly::<FieldElement<S>>(),
    ensures
        deg(poly_divmod(p, d).1) < deg(d) || poly_divmod(p, d).1 == zero_poly::<FieldElement<S>>(),
{
    if d.last() == czero::<S>() {
        assert(d.len() == 1);
        assert(d =~= zero_poly::<FieldElement<S>>());
    }
    lemma_divmod_remainder(zero_poly::<FieldElement<S>>(), p, d);
}

/// A list that agrees with the canonical `a` at every index (zero past its
/// end) trims to `a`.
proof fn lemma_trim_agrees<C: Coefficient>(s: Seq<C>, a: Seq<C>)
    requires
        is_canonical(a),
        s.len() >= a.len(),
        forall|i: int| 0 <= i < s.len() ==> s[i] == coeff_at(a, i),
    ensures
        trim(s) == a,
    decreases s.len(),
{
    if s.len() == a.len() {
        assert(s =~= a);
        lemma_trim_canonical(a);
    } else {
        let t = s.drop_last();
        assert(s.last() == C::zero_spec());
        lemma_trim_agrees(t, a);
        lemma_trim(t);
        crate::polynomial::lemma_last_nonzero_bound(t);
        assert(last_nonzero(s) == last_nonzero(t));
        assert(trim(s) =~= trim(t));
    }
}

/// Adding `b` and then subtracting it again gives back `a`.
pub proof fn lemma_add_sub_cancel<S: PrimeField>(a: Seq<FieldElement<S>>, b: Seq<FieldElement<S>>)
    requires
        is_canonical(a),
        all_valid(a),
        is_canonical(b),
        all_valid(b),
    ensures
        poly_sub(poly_add(a, b), b) == a,
{
    S::lemma_prime_field();
    let p = S::prime();
    lemma_zero::<S>();
    let s1 = add_coeffs(a, b);
    lemma_trim(s1);
    let t1 = trim(s1);
    let nraw = Seq::new(b.len(), |i: int| <FieldElement<S> as Coefficient>::neg_spec(b[i]));
    // b is canonical, so its negation keeps its length
    assert(<FieldElement<S> as Coefficient>::valid(b[b.len() - 1]));
    if b.len() > 1 {
        lemma_nonzero(b.last());
        let v = b.last().val();
        assert(f_neg::<S>(v) == p - v) by {
            lemma_small_mod((p - v) as nat, p as nat);
        }
        lemma_of_int_valid::<S>(p - v);
        assert(nraw.last() != czero::<S>());
    }
    lemma_trim_canonical(nraw);
    let n1 = poly_neg(b);
    assert(n1 == nraw);
    let s2 = add_coeffs(t1, n1);
    assert forall|i: int| 0 <= i < s2.len() implies s2[i] == coeff_at(a, i) by {
        let ai = coeff_at(a, i);
        if i < a.len() {
            assert(<FieldElement<S> as Coefficient>::valid(a[i]));
        }
        assert(ai.wf() && 0 <= ai.val() < p) by {
            if i >= a.len() {
                lemma_of_int_valid::<S>(0);
            }
        }
        if i < b.len() {
            assert(<FieldElement<S> as Coefficient>::valid(b[i]));
            let bv = b[i].val();
            let av = ai.val();
            assert(coeff_at(t1, i) == s1[i]);
            let sum = (av + bv) % p;
            lemma_mod_bound(av + bv, p);
            lemma_of_int_valid::<S>(sum);
            let nb = (p - bv) % p;
            lemma_mod_bound(p - bv, p);
            lemma_of_int_valid::<S>(nb);
            let r = (sum + nb) % p;
            assert(r == av) by {
                vstd::arithmetic::div_mod::lemma_add_mod_noop(av + bv, p - bv, p);
                lemma_small_mod(sum as nat, p as nat);
                lemma_small_mod(nb as nat, p as nat);
                assert(av + bv + (p - bv) == av + p);
                vstd::arithmetic::div_mod::lemma_mod_add_multiples_vanish(av, p);
                lemma_small_mod(av as nat, p as nat);
            }
            FieldElement::<S>::lemma_of_int(ai);
        } else {
            if i < s1.len() {
                assert(coeff_at(t1, i) == s1[i]);
            }
        }
    }
    assert(s2.len() >= a.len()) by {
        if a.len() > b.len() {
            assert(s1.last() == a.last());
            assert(last_nonzero(s1) == s1.len() - 1);
        }
    }
    lemma_trim_agrees(s2, a);
}

/// The polynomial over `S` with integer coefficients `vals`, each reduced
/// modulo the prime, trailing zeros trimmed.
pub open spec fn coeffs_of<S: PrimeField>(vals: Seq<i64>) -> Seq<FieldElement<S>> {
    trim(Seq::new(vals.len(), |i: int| FieldElement::<S>::of_int(vals[i] as int % S::prime())))
}

/// The constant polynomial one.
pub open spec fn one_poly<S: PrimeField>() -> Seq<FieldElement<S>> {
    seq![FieldElement::<S>::of_int(1)]
}

impl<S: PrimeField> Polynomial<FieldElement<S>> {
    /// The polynomial whose coefficients are the integers `values`, reduced
    /// into the field `S`.
    pub fn from_values(values: Vec<i64>) -> (r: Self)
        requires
            values@.len() > 0,
        ensures
            r@ == coeffs_of::<S>(values@),
            r.wf(),
    {
        let ghost target = Seq::new(
            values@.len(),
            |i: int| FieldElement::<S>::of_int(values@[i] as int % S::prime()),
        );
        let mut coeffs: Vec<FieldElement<S>> = Vec::new();
        let mut i: usize = 0;
        while i < values.len()
            invariant
                i <= values@.len(),
                target == Seq::new(
                    values@.len(),
                    |i: int| FieldElement::<S>::of_int(values@[i] as int % S::prime()),
                ),
                coeffs@ == target.subrange(0, i as int),
                all_valid(coeffs@),
            decreases values@.len() - i,
        {
            proof {
                S::lemma_prime_field();
                S::lemma_model(values@[i as int]);
            }
            let c = FieldElement::<S>::new(values[i]);
            proof {
                FieldElement::<S>::lemma_of_int(c);
            }
            coeffs.push(c);
            i = i + 1;
            assert(coeffs@ =~= target.subrange(0, i as int));
        }
        assert(coeffs@ =~= target);
        Polynomial::new(coeffs)
    }
}

/// A list of integers whose last is not a multiple of the prime gives a
/// canonical polynomial of the same length.
pub proof fn lemma_coeffs_of<S: PrimeField>(vals: Seq<i64>)
    requires
        vals.len() > 0,
        (vals.last() as int) % S::prime() != 0,
    ensures
        is_canonical(coeffs_of::<S>(vals)),
        all_valid(coeffs_of::<S>(vals)),
        coeffs_of::<S>(vals).len() == vals.len(),
{
    S::lemma_prime_field();
    lemma_zero::<S>();
    let raw = Seq::new(vals.len(), |i: int| FieldElement::<S>::of_int(vals[i] as int % S::prime()));
    assert forall|i: int| 0 <= i < raw.len() implies #[trigger] FieldElement::<S>::valid(raw[i]) by {
        lemma_mod_bound(vals[i] as int, S::prime());
        lemma_of_int_valid::<S>(vals[i] as int % S::prime());
    }
    let l = vals.last() as int % S::prime();
    lemma_mod_bound(vals.last() as int, S::prime());
    lemma_of_int_valid::<S>(l);
    assert(raw.last() != czero::<S>());
    lemma_trim_canonical(raw);
}

/// The constant polynomial one.
fn one_polynomial<S: PrimeField>() -> (r: Polynomial<FieldElement<S>>)
    ensures
        r@ == one_poly::<S>(),
        r.wf(),
{
    let one = FieldElement::<S>::one();
    proof {
        S::lemma_prime_field();
        lemma_small_mod(1, S::prime() as nat);
        FieldElement::<S>::lemma_of_int(one);
        lemma_zero::<S>();
        lemma_of_int_valid::<S>(1);
    }
    let r = Polynomial::new(vec![one]);
    proof {
        lemma_trim_canonical(one_poly::<S>());
        assert(r@ =~= one_poly::<S>());
    }
    r
}

/// A field of polynomials over the prime field `Sub`, reduced modulo an
/// irreducible polynomial.
pub trait ExtensionField {
    type Sub: PrimeField;

    spec fn modulus_seq() -> Seq<FieldElement<Self::Sub>>;

    /// The irreducible polynomial the field is built on.
    fn modulus_poly() -> (r: Polynomial<FieldElement<Self::Sub>>)
        ensures
            r@ == Self::modulus_seq(),
            r.wf(),
    ;

    proof fn lemma_modulus()
        ensures
            is_canonical(Self::modulus_seq()),
            all_valid(Self::modulus_seq()),
            2 <= Self::modulus_seq().len() <= 64,
    ;
}

/// Remainder modulo the field's polynomial.
pub open spec fn ext_reduce<E: ExtensionField>(m: Seq<FieldElement<E::Sub>>) -> Seq<
    FieldElement<E::Sub>,
> {
    poly_divmod(m, E::modulus_seq()).1
}

pub open spec fn ext_canonical<E: ExtensionField>(m: Seq<FieldElement<E::Sub>>) -> bool {
    &&& is_canonical(m)
    &&& all_valid(m)
    &&& m.len() < E::modulus_seq().len()
}

/// Size of a remainder in the Euclidean algorithm: 0 for the zero polynomial.
pub open spec fn poly_measure<C: Coefficient>(r: Seq<C>) -> nat {
    if r == zero_poly::<C>() {
        0
    } else {
        r.len()
    }
}

/// Final `(r0, t0)` of the extended Euclidean algorithm over polynomials from
/// the state `(r0, r1, t0, t1)`: while `r1` is not zero, with `q = r0 / r1`,
/// `(r0, r1) = (r1, r0 - q * r1)` and `(t0, t1) = (t1, t0 - q * t1)`, the `t`
/// reduced modulo the field's polynomial.
pub open spec fn poly_xgcd<E: ExtensionField>(
    r0: Seq<FieldElement<E::Sub>>,
    r1: Seq<FieldElement<E::Sub>>,
    t0: Seq<FieldElement<E::Sub>>,
    t1: Seq<FieldElement<E::Sub>>,
) -> (Seq<FieldElement<E::Sub>>, Seq<FieldElement<E::Sub>>)
    decreases poly_measure(r1),
{
    if r1 == zero_poly::<FieldElement<E::Sub>>() || r1.len() == 0 {
        (r0, t0)
    } else {
        let q = poly_divmod(r0, r1).0;
        let r2 = poly_sub(r0, poly_mul(q, r1));
        let t2 = ext_reduce::<E>(poly_sub(t0, poly_mul(q, t1)));
        if poly_measure(r2) < poly_measure(r1) {
            poly_xgcd::<E>(r1, r2, t1, t2)
        } else {
            (r1, t1)
        }
    }
}

/// The inverse the extended Euclidean algorithm finds for `m`: the final Bezout
/// coefficient scaled by the inverse of the final remainder's leading
/// coefficient, reduced; kept only where it multiplies `m` to one.
pub open spec fn ext_inverse<E: ExtensionField>(m: Seq<FieldElement<E::Sub>>) -> Option<
    Seq<FieldElement<E::Sub>>,
> {
    if m == zero_poly::<FieldElement<E::Sub>>() {
        None
    } else {
        let (g, t) = poly_xgcd::<E>(
            E::modulus_seq(),
            m,
            zero_poly::<FieldElement<E::Sub>>(),
            one_poly::<E::Sub>(),
        );
        match mod_inverse(g.last().val(), E::Sub::prime()) {
            None => None,
            Some(li) => {
                let cand = ext_reduce::<E>(poly_scale(t, FieldElement::<E::Sub>::of_int(li)));
                if ext_reduce::<E>(poly_mul(m, cand)) == one_poly::<E::Sub>() {
                    Some(cand)
                } else {
                    None
                }
            },
        }
    }
}

/// Remainder modulo the field's polynomial.
fn reduce_poly<E: ExtensionField>(v: &Polynomial<FieldElement<E::Sub>>) -> (r: Polynomial<
    FieldElement<E::Sub>,
>)
    requires
        v.wf(),
        v@.len() <= 2 * E::modulus_seq().len(),
    ensures
        r@ == ext_reduce::<E>(v@),
        ext_canonical::<E>(r@),
{
    let m = E::modulus_poly();
    proof {
        E::lemma_modulus();
        let ms = E::modulus_seq();
        assert(ms.last() != czero::<E::Sub>());
        if ms == zero_poly::<FieldElement<E::Sub>>() {
            assert(ms.len() == 1);
        }
        lemma_divmod_remainder(zero_poly::<FieldElement<E::Sub>>(), v@, ms);
    }
    match v.div_mod(&m) {
        Some((_, rem)) => rem,
        None => {
            proof {
                assert(false);
            }
            m
        },
    }
}

/// The inverse of `v` in the field, by the extended Euclidean algorithm over
/// polynomials, normalised by the final remainder's leading coefficient, and
/// checked by multiplying back.
pub fn polynomial_inverse<E: ExtensionField>(v: &Polynomial<FieldElement<E::Sub>>) -> (r: Option<
    Polynomial<FieldElement<E::Sub>>,
>)
    requires
        ext_canonical::<E>(v@),
    ensures
        r is None <==> ext_inverse::<E>(v@) is None,
        r matches Some(t) ==> ext_inverse::<E>(v@) == Some(t@) && ext_canonical::<E>(t@),
{
    proof {
        E::lemma_modulus();
    }
    if v.is_zero() {
        return None;
    }
    let ghost ms = E::modulus_seq();
    let mut r0 = E::modulus_poly();
    let mut r1 = v.duplicate();
    let z = FieldElement::<E::Sub>::zero();
    let mut t0 = Polynomial::new(vec![z]);
    let mut t1 = one_polynomial::<E::Sub>();
    proof {
        E::Sub::lemma_prime_field();
        FieldElement::<E::Sub>::lemma_of_int(z);
        lemma_zero::<E::Sub>();
        assert(t0@ =~= zero_poly::<FieldElement<E::Sub>>());
    }
    let mut done = false;
    while !done && !r1.is_zero()
        invariant
            2 <= ms.len() <= 64,
            ms == E::modulus_seq(),
            r0.wf(),
            r1.wf(),
            r0@.len() <= ms.len(),
            r1@.len() <= ms.len(),
            ext_canonical::<E>(t0@),
            ext_canonical::<E>(t1@),
            poly_xgcd::<E>(ms, v@, zero_poly::<FieldElement<E::Sub>>(), one_poly::<E::Sub>())
                == if done {
                (r0@, t0@)
            } else {
                poly_xgcd::<E>(r0@, r1@, t0@, t1@)
            },
        decreases
                if done {
                    0
                } else {
                    poly_measure(r1@) + 1
                },
    {
        let q = match r0.div_mod(&r1) {
            Some((q, _)) => q,
            None => {
                proof {
                    assert(false);
                }
                r0.duplicate()
            },
        };
        let qr = q.mul(&r1);
        let r2 = r0.sub(&qr);
        let qt = q.mul(&t1);
        let t2raw = t0.sub(&qt);
        let t2 = reduce_poly::<E>(&t2raw);
        proof {
            E::lemma_modulus();
        }
        let progress = r2.is_zero() || r2.degree() < r1.degree();
        if progress {
            r0 = r1;
            r1 = r2;
            t0 = t1;
            t1 = t2;
        } else {
            r0 = r1.duplicate();
            t0 = t1.duplicate();
            done = true;
        }
    }
    let lead = r0.leading_coefficient();
    assert(<FieldElement<E::Sub> as Coefficient>::valid(r0@[r0@.len() - 1]));
    let li = match lead.inverse() {
        Some(li) => li,
        None => {
            return None;
        },
    };
    proof {
        E::Sub::lemma_prime_field();
        FieldElement::<E::Sub>::lemma_of_int(li);
    }
    let scaled = t0.scale(&li);
    let cand = reduce_poly::<E>(&scaled);
    let prod = v.mul(&cand);
    let back = reduce_poly::<E>(&prod);
    let one = one_polynomial::<E::Sub>();
    if back.equals(&one) {
        Some(cand)
    } else {
        None
    }
}


impl<E: ExtensionField> FieldElement<E> {
    /// The element of the extension field whose polynomial has the integer
    /// coefficients `values`, reduced.
    pub fn from_values(values: Vec<i64>) -> (r: Self)
        requires
            0 < values@.len() <= 2 * E::modulus_seq().len(),
        ensures
            r.val() == ext_reduce::<E>(coeffs_of::<E::Sub>(values@)),
            r.wf(),
    {
        proof {
            lemma_trim(Seq::new(
                values@.len(),
                |i: int| FieldElement::<E::Sub>::of_int(values@[i] as int % E::Sub::prime()),
            ));
        }
        FieldElement::new(Polynomial::from_values(values))
    }
}

/// An extension field is a finite field: elements are polynomials of degree
/// below the modulus's, sums and products are reduced modulo it.
impl<E: ExtensionField> FiniteField for E {
    type T = Polynomial<FieldElement<E::Sub>>;

    type Model = Seq<FieldElement<E::Sub>>;

    open spec fn model(v: Self::T) -> Self::Model {
        v@
    }

    open spec fn canonical(m: Self::Model) -> bool {
        ext_canonical::<E>(m)
    }

    open spec fn reducible(v: Self::T) -> bool {
        &&& v.wf()
        &&& v@.len() <= 2 * E::modulus_seq().len()
    }

    open spec fn modulus_spec() -> Self::Model {
        E::modulus_seq()
    }

    open spec fn zero_spec() -> Self::Model {
        zero_poly::<FieldElement<E::Sub>>()
    }

    open spec fn one_spec() -> Self::Model {
        one_poly::<E::Sub>()
    }

    open spec fn reduce_spec(m: Self::Model) -> Self::Model {
        ext_reduce::<E>(m)
    }

    open spec fn add_spec(a: Self::Model, b: Self::Model) -> Self::Model {
        poly_add(a, b)
    }

    open spec fn sub_spec(a: Self::Model, b: Self::Model) -> Self::Model {
        poly_sub(a, b)
    }

    open spec fn mul_spec(a: Self::Model, b: Self::Model) -> Self::Model {
        poly_mul(a, b)
    }

    open spec fn inverse_spec(m: Self::Model) -> Option<Self::Model> {
        ext_inverse::<E>(m)
    }

    fn modulus() -> (r: Self::T) {
        proof {
            E::lemma_modulus();
        }
        E::modulus_poly()
    }

    fn zero() -> (r: Self::T) {
        let z = FieldElement::<E::Sub>::zero();
        proof {
            E::lemma_modulus();
            E::Sub::lemma_prime_field();
            FieldElement::<E::Sub>::lemma_of_int(z);
            lemma_zero::<E::Sub>();
        }
        let r = Polynomial::new(vec![z]);
        assert(r@ =~= zero_poly::<FieldElement<E::Sub>>());
        r
    }

    fn one() -> (r: Self::T) {
        proof {
            E::lemma_modulus();
        }
        one_polynomial::<E::Sub>()
    }

    fn reduce(v: Self::T) -> (r: Self::T) {
        reduce_poly::<E>(&v)
    }

    fn add_raw(a: &Self::T, b: &Self::T) -> (r: Self::T) {
        a.add(b)
    }

    fn sub_raw(a: &Self::T, b: &Self::T) -> (r: Self::T) {
        a.sub(b)
    }

    fn mul_raw(a: &Self::T, b: &Self::T) -> (r: Self::T) {
        proof {
            E::lemma_modulus();
        }
        a.mul(b)
    }

    fn inverse(v: &Self::T) -> (r: Option<Self::T>) {
        proof {
            lemma_zero::<E::Sub>();
        }
        polynomial_inverse::<E>(v)
    }

    fn equals(a: &Self::T, b: &Self::T) -> (r: bool) {
        a.equals(b)
    }

    fn duplicate(a: &Self::T) -> (r: Self::T) {
        a.duplicate()
    }

    proof fn lemma_reduce_canonical(m: Self::Model) {
        E::lemma_modulus();
    }

    proof fn lemma_neg(m: Self::Model) {
        crate::division::lemma_ext_neg::<E>(m);
    }

    proof fn lemma_canonical_reducible(v: Self::T) {
    }
}

} // verus!
