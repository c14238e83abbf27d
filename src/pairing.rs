use vstd::prelude::*;

use crate::elliptic_curve::{
    int_pow, lemma_int_pow_monotone, point_add, point_double, point_mul, point_trace, tangent_num, AffinePoint, BaseModel,
    EllipticCurve, PointModel,
};
use crate::field_element::{f_add, f_div, f_mul, f_one, f_pow, f_sub, FieldElement};
use crate::finite_field::{bits_of, lemma_bits_value, FiniteField, NonExtendedField};

verus! {

/// The line through `p` and `q` (the tangent where they are equal, the
/// vertical where they are opposite or the slope has no inverse), evaluated at
/// `t`: `m(xt - x1) - (yt - y1)`, or `xt - x1` for a vertical line.
pub open spec fn line_value<E: EllipticCurve>(
    p: PointModel<E>,
    q: PointModel<E>,
    t: PointModel<E>,
) -> BaseModel<E> {
    let (x1, y1) = p.unwrap();
    let (x2, y2) = q.unwrap();
    let (xt, yt) = t.unwrap();
    let slope = if x1 != x2 {
        f_div::<E::BaseField>(f_sub::<E::BaseField>(y2, y1), f_sub::<E::BaseField>(x2, x1))
    } else if y1 == y2 {
        f_div::<E::BaseField>(tangent_num::<E>(x1), f_add::<E::BaseField>(y1, y1))
    } else {
        None
    };
    match slope {
        Some(m) => f_sub::<E::BaseField>(
            f_mul::<E::BaseField>(m, f_sub::<E::BaseField>(xt, x1)),
            f_sub::<E::BaseField>(yt, y1),
        ),
        None => f_sub::<E::BaseField>(xt, x1),
    }
}

/// One bit of Miller's loop on the state `(f, point)`: `f <- f^2 * l(point,
/// point, q)`, `point <- 2 point`; where the bit is set, also `f <- f *
/// l(point, p, q)` and `point <- point + p`. A line through the point at
/// infinity ends the loop without result.
pub open spec fn miller_step<E: EllipticCurve>(
    p: PointModel<E>,
    q: PointModel<E>,
    st: Option<(BaseModel<E>, PointModel<E>)>,
    bit: bool,
) -> Option<(BaseModel<E>, PointModel<E>)> {
    match st {
        None => None,
        Some((f, pt)) => {
            if pt is None || q is None || p is None {
                None
            } else {
                let f1 = f_mul::<E::BaseField>(f_mul::<E::BaseField>(f, f), line_value::<E>(pt, pt, q));
                let pt1 = point_double::<E>(pt);
                if !bit {
                    Some((f1, pt1))
                } else if pt1 is None {
                    None
                } else {
                    Some((f_mul::<E::BaseField>(f1, line_value::<E>(pt1, p, q)), point_add::<E>(pt1, p)))
                }
            }
        },
    }
}

/// Miller's loop over big-endian `bits`, from `f = 1` and `point = p`.
pub open spec fn miller_bits<E: EllipticCurve>(
    p: PointModel<E>,
    q: PointModel<E>,
    bits: Seq<bool>,
) -> Option<(BaseModel<E>, PointModel<E>)>
    decreases bits.len(),
{
    if bits.len() == 0 {
        Some((f_one::<E::BaseField>(), p))
    } else {
        miller_step::<E>(p, q, miller_bits::<E>(p, q, bits.drop_last()), bits.last())
    }
}

/// The value of Miller's loop over the bits of `r` after the leading one,
/// where the walk ends at the point at infinity (`p * r == infinity`).
pub open spec fn miller_spec<E: EllipticCurve>(p: PointModel<E>, q: PointModel<E>) -> Option<
    BaseModel<E>,
> {
    let bits = bits_of(E::r_spec() as nat);
    match miller_bits::<E>(p, q, bits.subrange(1, bits.len() as int)) {
        Some((f, None)) => Some(f),
        _ => None,
    }
}

/// `(q^k - 1) / r`, `q` the modulus of the scalar field, `k` the embedding
/// degree.
pub open spec fn final_exponent<E: EllipticCurve>() -> int {
    (int_pow(E::ScalarField::modulus_spec(), E::embedding_degree_spec()) - 1) / E::r_spec()
}

/// `p` is in the G1 subgroup: its trace equals `p * k`.
pub open spec fn valid_g1<E: EllipticCurve>(p: PointModel<E>) -> bool {
    point_trace::<E>(p) == point_mul::<E>(p, E::embedding_degree_spec())
}

/// `q` is in the G2 subgroup: its trace is the point at infinity.
pub open spec fn valid_g2<E: EllipticCurve>(q: PointModel<E>) -> bool {
    point_trace::<E>(q) is None
}

/// The Tate pairing: the Miller loop's value raised to the final exponent;
/// `None` where `p` or `q` is outside its subgroup or the loop fails.
pub open spec fn pairing_spec<E: EllipticCurve>(p: PointModel<E>, q: PointModel<E>) -> Option<
    BaseModel<E>,
> {
    if !valid_g1::<E>(p) || !valid_g2::<E>(q) {
        None
    } else {
        match miller_spec::<E>(p, q) {
            None => None,
            Some(f) => Some(f_pow::<E::BaseField>(f, final_exponent::<E>() as nat)),
        }
    }
}

/// The line through `p` and `q` evaluated at `t` (see `line_value`).
pub fn dist_relationship<E: EllipticCurve>(
    p: &AffinePoint<E>,
    q: &AffinePoint<E>,
    t: &AffinePoint<E>,
) -> (r: FieldElement<E::BaseField>)
    requires
        p.wf(),
        q.wf(),
        t.wf(),
        p@ is Some,
        q@ is Some,
        t@ is Some,
    ensures
        r.val() == line_value::<E>(p@, q@, t@),
        r.wf(),
{
    let (x1, y1) = match p.xy() {
        Some(c) => c,
        None => {
            proof {
                assert(false);
            }
            return FieldElement::zero();
        },
    };
    let (x2, y2) = match q.xy() {
        Some(c) => c,
        None => {
            proof {
                assert(false);
            }
            return FieldElement::zero();
        },
    };
    let (xt, yt) = match t.xy() {
        Some(c) => c,
        None => {
            proof {
                assert(false);
            }
            return FieldElement::zero();
        },
    };
    let slope = if !x1.equals(&x2) {
        y2.sub(&y1).div(&x2.sub(&x1))
    } else if y1.equals(&y2) {
        let x_pow_2 = x1.mul(&x1);
        let num = x_pow_2.add(&x_pow_2).add(&x_pow_2).add(&E::a());
        num.div(&y1.add(&y1))
    } else {
        None
    };
    match slope {
        Some(m) => m.mul(&xt.sub(&x1)).sub(&yt.sub(&y1)),
        None => xt.sub(&x1),
    }
}

/// Subgroup test for G1: `trace(p) == p * k`.
pub fn is_valid_g1<E: EllipticCurve>(p: &AffinePoint<E>) -> (r: bool)
    requires
        p.wf(),
    ensures
        r == valid_g1::<E>(p@),
{
    proof {
        E::lemma_parameters();
    }
    let k = E::embedding_degree();
    let tr = p.trace_map();
    let pk = p.mul(k as i64);
    tr.equals(&pk)
}

/// Subgroup test for G2: `trace(q)` is the point at infinity.
pub fn is_valid_g2<E: EllipticCurve>(q: &AffinePoint<E>) -> (r: bool)
    requires
        q.wf(),
    ensures
        r == valid_g2::<E>(q@),
{
    q.trace_map().is_inf()
}

/// Miller's loop over the bits of `r`; `None` where a line would pass through
/// the point at infinity or the walk does not end there (`p * r` is not
/// infinity).
pub fn miller_loop<E: EllipticCurve>(p: &AffinePoint<E>, q: &AffinePoint<E>) -> (r: Option<
    FieldElement<E::BaseField>,
>)
    requires
        p.wf(),
        q.wf(),
    ensures
        r is None <==> miller_spec::<E>(p@, q@) is None,
        r matches Some(f) ==> miller_spec::<E>(p@, q@) == Some(f.val()) && f.wf(),
{
    proof {
        E::lemma_parameters();
        lemma_bits_value(E::r_spec() as nat);
    }
    let bits = E::ScalarField::to_bits(E::r());
    let ghost tail = bits@.subrange(1, bits@.len() as int);
    let mut point = p.duplicate();
    let mut f = FieldElement::<E::BaseField>::one();
    let mut i: usize = 1;
    assert(tail.subrange(0, 0) =~= Seq::<bool>::empty());
    while i < bits.len()
        invariant
            p.wf(),
            q.wf(),
            1 <= i <= bits@.len(),
            bits@ == bits_of(E::r_spec() as nat),
            tail == bits@.subrange(1, bits@.len() as int),
            miller_bits::<E>(p@, q@, tail.subrange(0, i - 1)) == Some((f.val(), point@)),
            f.wf(),
            point.wf(),
        decreases bits@.len() - i,
    {
        proof {
            assert(tail.subrange(0, i as int).drop_last() =~= tail.subrange(0, i - 1));
            assert(tail.subrange(0, i as int).last() == bits@[i as int]);
        }
        if point.is_inf() || q.is_inf() || p.is_inf() {
            proof {
                lemma_miller_stuck::<E>(p@, q@, tail, i as nat);
            }
            return None;
        }
        let f_new = dist_relationship(&point, &point, q);
        f = f.mul(&f).mul(&f_new);
        point = point.double();
        if bits[i] {
            if point.is_inf() {
                proof {
                    lemma_miller_stuck::<E>(p@, q@, tail, i as nat);
                }
                return None;
            }
            let f_add_new = dist_relationship(&point, p, q);
            f = f.mul(&f_add_new);
            point = point.add(p);
        }
        i = i + 1;
    }
    assert(tail.subrange(0, bits@.len() - 1) =~= tail);
    if point.is_inf() {
        Some(f)
    } else {
        None
    }
}

/// Once Miller's loop has failed, it stays failed.
proof fn lemma_miller_stuck<E: EllipticCurve>(
    p: PointModel<E>,
    q: PointModel<E>,
    tail: Seq<bool>,
    i: nat,
)
    requires
        1 <= i <= tail.len(),
        miller_bits::<E>(p, q, tail.subrange(0, i as int)) is None,
    ensures
        miller_bits::<E>(p, q, tail) is None,
    decreases tail.len() - i,
{
    if i < tail.len() {
        assert(tail.subrange(0, i as int + 1).drop_last() =~= tail.subrange(0, i as int));
        lemma_miller_stuck::<E>(p, q, tail, i + 1);
    } else {
        assert(tail.subrange(0, i as int) =~= tail);
    }
}

/// Raises the Miller loop's value to `(q^k - 1) / r`.
pub fn final_exponentiation<E: EllipticCurve>(f: &FieldElement<E::BaseField>) -> (r: FieldElement<
    E::BaseField,
>)
    requires
        f.wf(),
    ensures
        r.val() == f_pow::<E::BaseField>(f.val(), final_exponent::<E>() as nat),
        r.wf(),
{
    proof {
        E::lemma_parameters();
    }
    let k = E::embedding_degree();
    let q = E::ScalarField::modulus();
    proof {
        E::ScalarField::lemma_model(q);
    }
    let ghost qm = E::ScalarField::modulus_spec();
    let mut qk: i64 = 1;
    let mut i: usize = 0;
    while i < k
        invariant
            i <= k,
            k == E::embedding_degree_spec(),
            1 <= k <= 64,
            q == qm,
            qm == E::ScalarField::modulus_spec(),
            qm >= 2,
            int_pow(qm, k as nat) <= i64::MAX,
            qk == int_pow(qm, i as nat),
        decreases k - i,
    {
        proof {
            lemma_int_pow_monotone(qm, (i + 1) as nat, k as nat);
            assert(qk * q == int_pow(qm, (i + 1) as nat)) by (nonlinear_arith)
                requires
                    qk == int_pow(qm, i as nat),
                    int_pow(qm, (i + 1) as nat) == qm * int_pow(qm, i as nat),
                    q == qm,
            ;
        }
        qk = qk * q;
        i = i + 1;
    }
    proof {
        lemma_int_pow_monotone(qm, 0, k as nat);
    }
    let exp = (qk - 1) / E::r();
    f.pow::<E::ScalarField>(exp)
}

/// The Tate pairing of `p` and `q`; `None` where `p` is not in G1, `q` is not
/// in G2, or Miller's loop fails.
pub fn tate_pairing<E: EllipticCurve>(p: &AffinePoint<E>, q: &AffinePoint<E>) -> (r: Option<
    FieldElement<E::BaseField>,
>)
    requires
        p.wf(),
        q.wf(),
    ensures
        r is None <==> pairing_spec::<E>(p@, q@) is None,
        r matches Some(v) ==> pairing_spec::<E>(p@, q@) == Some(v.val()) && v.wf(),
{
    if !is_valid_g1(p) || !is_valid_g2(q) {
        return None;
    }
    match miller_loop(p, q) {
        None => None,
        Some(f) => Some(final_exponentiation::<E>(&f)),
    }
}

/// The pairing protocol on a curve.
pub trait Pairing: EllipticCurve {
    /// The Tate pairing of `p` and `q` (see `tate_pairing`).
    fn pairing(p: &AffinePoint<Self>, q: &AffinePoint<Self>) -> (r: Option<
        FieldElement<Self::BaseField>,
    >)
        requires
            p.wf(),
            q.wf(),
        ensures
            r is None <==> pairing_spec::<Self>(p@, q@) is None,
            r matches Some(v) ==> pairing_spec::<Self>(p@, q@) == Some(v.val()),
    {
        tate_pairing(p, q)
    }
}

} // verus!
