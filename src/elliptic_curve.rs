use vstd::prelude::*;

use crate::field_element::{f_add, f_div, f_mul, f_neg, f_pow, f_sub, FieldElement};
use crate::finite_field::{bits_of, lemma_bits_value, FiniteField, NonExtendedField};

verus! {

/// Model of a coordinate of a curve point.
pub type BaseModel<E> = <<E as EllipticCurve>::BaseField as FiniteField>::Model;

/// Model of a curve point: `None` for the point at infinity, else its
/// coordinates.
pub type PointModel<E> = Option<(BaseModel<E>, BaseModel<E>)>;

/// `b` raised to `e`, over the integers.
pub open spec fn int_pow(b: int, e: nat) -> int
    decreases e,
{
    if e == 0 {
        1
    } else {
        b * int_pow(b, (e - 1) as nat)
    }
}

/// A short Weierstrass curve `y^2 = x^3 + a*x + b` over `BaseField`, with
/// scalars (and the modulus of its Frobenius-like map) from `ScalarField`.
pub trait EllipticCurve: Sized {
    type BaseField: FiniteField;

    type ScalarField: NonExtendedField;

    spec fn a_spec() -> BaseModel<Self>;

    spec fn b_spec() -> BaseModel<Self>;

    spec fn generator_x_spec() -> BaseModel<Self>;

    spec fn generator_y_spec() -> BaseModel<Self>;

    spec fn embedding_degree_spec() -> nat;

    spec fn order_spec() -> int;

    spec fn r_spec() -> int;

    fn a() -> (r: FieldElement<Self::BaseField>)
        ensures
            r.val() == Self::a_spec(),
            r.wf(),
    ;

    fn b() -> (r: FieldElement<Self::BaseField>)
        ensures
            r.val() == Self::b_spec(),
            r.wf(),
    ;

    fn embedding_degree() -> (r: usize)
        ensures
            r == Self::embedding_degree_spec(),
    ;

    /// Coordinates of the generator of the curve's cyclic group.
    fn generator_x() -> (r: FieldElement<Self::BaseField>)
        ensures
            r.val() == Self::generator_x_spec(),
            r.wf(),
    ;

    fn generator_y() -> (r: FieldElement<Self::BaseField>)
        ensures
            r.val() == Self::generator_y_spec(),
            r.wf(),
    ;

    /// Number of points of the extended curve.
    fn order() -> (r: i64)
        ensures
            r == Self::order_spec(),
    ;

    /// The largest prime factor of the order of the non-extended curve.
    fn r() -> (r: i64)
        ensures
            r == Self::r_spec(),
    ;

    /// The constants fit the integer types the algorithms use.
    proof fn lemma_parameters()
        ensures
            Self::ScalarField::modulus_spec() >= 2,
            1 <= Self::embedding_degree_spec() <= 64,
            int_pow(Self::ScalarField::modulus_spec(), Self::embedding_degree_spec()) <= i64::MAX,
            1 <= Self::r_spec(),
            0 <= Self::order_spec(),
    ;
}

/// A point of the curve `E` in affine coordinates.
pub enum AffinePoint<E: EllipticCurve> {
    Infinity,
    XY(FieldElement<E::BaseField>, FieldElement<E::BaseField>),
}

/// The generator: its coordinates, where they lie on the curve.
pub open spec fn generator_spec<E: EllipticCurve>() -> PointModel<E> {
    point_xy::<E>(E::generator_x_spec(), E::generator_y_spec())
}

/// `y^2 == x^3 + a*x + b`.
pub open spec fn on_curve<E: EllipticCurve>(x: BaseModel<E>, y: BaseModel<E>) -> bool {
    let fx = f_add::<E::BaseField>(
        f_add::<E::BaseField>(
            f_mul::<E::BaseField>(f_mul::<E::BaseField>(x, x), x),
            f_mul::<E::BaseField>(E::a_spec(), x),
        ),
        E::b_spec(),
    );
    f_mul::<E::BaseField>(y, y) == fx
}

/// The point `(x, y)` where it lies on the curve, else the point at infinity.
pub open spec fn point_xy<E: EllipticCurve>(x: BaseModel<E>, y: BaseModel<E>) -> PointModel<E> {
    if on_curve::<E>(x, y) {
        Some((x, y))
    } else {
        None
    }
}

pub open spec fn point_neg<E: EllipticCurve>(p: PointModel<E>) -> PointModel<E> {
    match p {
        Some((x, y)) => Some((x, f_neg::<E::BaseField>(y))),
        None => None,
    }
}

/// `3 * x^2 + a`, the numerator of the tangent's slope.
pub open spec fn tangent_num<E: EllipticCurve>(x: BaseModel<E>) -> BaseModel<E> {
    let x2 = f_mul::<E::BaseField>(x, x);
    f_add::<E::BaseField>(
        f_add::<E::BaseField>(f_add::<E::BaseField>(x2, x2), x2),
        E::a_spec(),
    )
}

/// Point doubling: infinity where `y == 0` or the tangent is vertical; else
/// with `m = (3x^2 + a) / 2y`, `x' = m^2 - 2x` and `y' = m(x - x') - y`.
pub open spec fn point_double<E: EllipticCurve>(p: PointModel<E>) -> PointModel<E> {
    match p {
        None => None,
        Some((x, y)) => {
            if y == E::BaseField::zero_spec() {
                None
            } else {
                match f_div::<E::BaseField>(tangent_num::<E>(x), f_add::<E::BaseField>(y, y)) {
                    None => None,
                    Some(m) => {
                        let nx = f_sub::<E::BaseField>(
                            f_sub::<E::BaseField>(f_mul::<E::BaseField>(m, m), x),
                            x,
                        );
                        let ny = f_sub::<E::BaseField>(
                            f_mul::<E::BaseField>(m, f_sub::<E::BaseField>(x, nx)),
                            y,
                        );
                        point_xy::<E>(nx, ny)
                    },
                }
            }
        },
    }
}

/// The group law: `p + p` doubles, `p + (-p)` is infinity, infinity is the
/// identity; else with `m = (y2 - y1) / (x2 - x1)`, `x = m^2 - x1 - x2` and
/// `y = y1 + m(x - x1)`, the sum is `(x, -y)`.
pub open spec fn point_add<E: EllipticCurve>(p: PointModel<E>, q: PointModel<E>) -> PointModel<E> {
    if p == q {
        point_double::<E>(p)
    } else if p == point_neg::<E>(q) {
        None
    } else {
        match (p, q) {
            (Some((x1, y1)), Some((x2, y2))) => {
                match f_div::<E::BaseField>(
                    f_sub::<E::BaseField>(y2, y1),
                    f_sub::<E::BaseField>(x2, x1),
                ) {
                    None => None,
                    Some(m) => {
                        let x = f_sub::<E::BaseField>(
                            f_sub::<E::BaseField>(f_mul::<E::BaseField>(m, m), x1),
                            x2,
                        );
                        let y = f_add::<E::BaseField>(
                            y1,
                            f_mul::<E::BaseField>(m, f_sub::<E::BaseField>(x, x1)),
                        );
                        point_xy::<E>(x, f_neg::<E::BaseField>(y))
                    },
                }
            },
            (Some((x1, y1)), None) => point_xy::<E>(x1, y1),
            (None, _) => q,
        }
    }
}

/// Double-and-add over the big-endian `bits` that follow the leading one:
/// double the accumulator for each bit, then add `p` where the bit is set.
pub open spec fn mul_bits<E: EllipticCurve>(p: PointModel<E>, bits: Seq<bool>) -> PointModel<E>
    decreases bits.len(),
{
    if bits.len() == 0 {
        p
    } else {
        let acc = point_double::<E>(mul_bits::<E>(p, bits.drop_last()));
        if bits.last() {
            point_add::<E>(acc, p)
        } else {
            acc
        }
    }
}

/// Scalar multiplication `p * n`, by double-and-add.
pub open spec fn point_mul<E: EllipticCurve>(p: PointModel<E>, n: nat) -> PointModel<E> {
    if p is None || n == 0 {
        None
    } else {
        let bits = bits_of(n);
        mul_bits::<E>(p, bits.subrange(1, bits.len() as int))
    }
}

/// The point `(x^e, y^e)` (through `point_xy`).
pub open spec fn frobenius<E: EllipticCurve>(x: BaseModel<E>, y: BaseModel<E>, e: nat) -> PointModel<
    E,
> {
    point_xy::<E>(f_pow::<E::BaseField>(x, e), f_pow::<E::BaseField>(y, e))
}

/// `p` plus the images of `p` under the maps raising each coordinate to
/// `q^i`, for `i` from 1 below `n`, `q` the modulus of the scalar field.
pub open spec fn trace_from<E: EllipticCurve>(x: BaseModel<E>, y: BaseModel<E>, n: nat) -> PointModel<
    E,
>
    decreases n,
{
    if n <= 1 {
        Some((x, y))
    } else {
        let i = (n - 1) as nat;
        let e = int_pow(E::ScalarField::modulus_spec(), i);
        point_add::<E>(trace_from::<E>(x, y, i), frobenius::<E>(x, y, e as nat))
    }
}

/// The trace map: the sum of `phi^i(p)` for `i` from 0 below the embedding
/// degree.
pub open spec fn point_trace<E: EllipticCurve>(p: PointModel<E>) -> PointModel<E> {
    match p {
        None => None,
        Some((x, y)) => trace_from::<E>(x, y, E::embedding_degree_spec()),
    }
}

/// `p` added to itself `n` more times, left to right.
pub open spec fn repeated_sum<E: EllipticCurve>(p: PointModel<E>, n: nat) -> PointModel<E>
    decreases n,
{
    if n == 0 {
        p
    } else {
        point_add::<E>(repeated_sum::<E>(p, (n - 1) as nat), p)
    }
}

impl<E: EllipticCurve> View for AffinePoint<E> {
    type V = PointModel<E>;

    open spec fn view(&self) -> PointModel<E> {
        match self {
            AffinePoint::Infinity => None,
            AffinePoint::XY(x, y) => Some((x.val(), y.val())),
        }
    }
}

impl<E: EllipticCurve> AffinePoint<E> {
    /// The coordinates are reduced field elements.
    pub open spec fn wf(&self) -> bool {
        match self {
            AffinePoint::Infinity => true,
            AffinePoint::XY(x, y) => x.wf() && y.wf(),
        }
    }

    /// The generator of the curve's cyclic group.
    pub fn generator_point() -> (r: Self)
        ensures
            r@ == generator_spec::<E>(),
            r.wf(),
    {
        Self::new_xy(E::generator_x(), E::generator_y())
    }

    /// The point `(x, y)` where it lies on the curve, else the point at infinity.
    pub fn new_xy(x: FieldElement<E::BaseField>, y: FieldElement<E::BaseField>) -> (r: Self)
        requires
            x.wf(),
            y.wf(),
        ensures
            r@ == point_xy::<E>(x.val(), y.val()),
            r.wf(),
    {
        if Self::is_on_curve(&x, &y) {
            AffinePoint::XY(x, y)
        } else {
            Self::new_inf()
        }
    }

    pub fn new_inf() -> (r: Self)
        ensures
            r@ is None,
            r.wf(),
    {
        AffinePoint::Infinity
    }

    /// Whether `y^2 == x^3 + a*x + b`.
    pub fn is_on_curve(x: &FieldElement<E::BaseField>, y: &FieldElement<E::BaseField>) -> (r: bool)
        requires
            x.wf(),
            y.wf(),
        ensures
            r == on_curve::<E>(x.val(), y.val()),
    {
        let lhs = y.mul(y);
        let x3 = x.mul(x).mul(x);
        let ax = E::a().mul(x);
        let rhs = x3.add(&ax).add(&E::b());
        lhs.equals(&rhs)
    }

    /// The coordinates, `None` for the point at infinity.
    pub fn xy(&self) -> (r: Option<(FieldElement<E::BaseField>, FieldElement<E::BaseField>)>)
        requires
            self.wf(),
        ensures
            self@ is None <==> r is None,
            r matches Some((x, y)) ==> self@ == Some((x.val(), y.val())) && x.wf() && y.wf(),
    {
        match self {
            AffinePoint::XY(x, y) => Some((x.duplicate(), y.duplicate())),
            AffinePoint::Infinity => None,
        }
    }

    pub fn x(&self) -> (r: Option<FieldElement<E::BaseField>>)
        requires
            self.wf(),
        ensures
            self@ is None <==> r is None,
            r matches Some(x) ==> self@.unwrap().0 == x.val(),
    {
        match self.xy() {
            Some((x, _)) => Some(x),
            None => None,
        }
    }

    pub fn y(&self) -> (r: Option<FieldElement<E::BaseField>>)
        requires
            self.wf(),
        ensures
            self@ is None <==> r is None,
            r matches Some(y) ==> self@.unwrap().1 == y.val(),
    {
        match self.xy() {
            Some((_, y)) => Some(y),
            None => None,
        }
    }

    /// Whether this is the point at infinity.
    pub fn is_inf(&self) -> (r: bool)
        ensures
            r == (self@ is None),
    {
        match self {
            AffinePoint::Infinity => true,
            AffinePoint::XY(..) => false,
        }
    }

    pub fn equals(&self, other: &Self) -> (r: bool)
        ensures
            r == (self@ == other@),
    {
        match (self, other) {
            (AffinePoint::Infinity, AffinePoint::Infinity) => true,
            (AffinePoint::XY(x1, y1), AffinePoint::XY(x2, y2)) => x1.equals(x2) && y1.equals(y2),
            _ => false,
        }
    }

    pub fn duplicate(&self) -> (r: Self)
        ensures
            r@ == self@,
            self.wf() ==> r.wf(),
    {
        match self {
            AffinePoint::Infinity => AffinePoint::Infinity,
            AffinePoint::XY(x, y) => AffinePoint::XY(x.duplicate(), y.duplicate()),
        }
    }

    /// `-p`: `(x, y)` becomes `(x, -y)`.
    pub fn neg(&self) -> (r: Self)
        requires
            self.wf(),
        ensures
            r@ == point_neg::<E>(self@),
            r.wf(),
    {
        match self {
            AffinePoint::XY(x, y) => AffinePoint::XY(x.duplicate(), y.neg()),
            AffinePoint::Infinity => AffinePoint::Infinity,
        }
    }

    /// `2p`, along the tangent at `p`.
    pub fn double(&self) -> (r: Self)
        requires
            self.wf(),
        ensures
            r@ == point_double::<E>(self@),
            r.wf(),
    {
        match self {
            AffinePoint::XY(x, y) => {
                if y.is_zero() {
                    return AffinePoint::Infinity;
                }
                let x_pow_2 = x.mul(x);
                let num = x_pow_2.add(&x_pow_2).add(&x_pow_2).add(&E::a());
                let den = y.add(y);
                match num.div(&den) {
                    None => AffinePoint::Infinity,
                    Some(m) => {
                        let new_x = m.mul(&m).sub(x).sub(x);
                        let new_y = m.mul(&x.sub(&new_x)).sub(y);
                        Self::new_xy(new_x, new_y)
                    },
                }
            },
            AffinePoint::Infinity => AffinePoint::Infinity,
        }
    }

    /// The group law.
    pub fn add(&self, other: &Self) -> (r: Self)
        requires
            self.wf(),
            other.wf(),
        ensures
            r@ == point_add::<E>(self@, other@),
            r.wf(),
    {
        if self.equals(other) {
            return self.double();
        }
        let n = other.neg();
        if self.equals(&n) {
            return AffinePoint::Infinity;
        }
        match self {
            AffinePoint::XY(x1, y1) => match other {
                AffinePoint::XY(x2, y2) => {
                    let num = y2.sub(y1);
                    let den = x2.sub(x1);
                    match num.div(&den) {
                        None => AffinePoint::Infinity,
                        Some(m) => {
                            let x = m.mul(&m).sub(x1).sub(x2);
                            let y = y1.add(&m.mul(&x.sub(x1)));
                            Self::new_xy(x, y.neg())
                        },
                    }
                },
                AffinePoint::Infinity => Self::new_xy(x1.duplicate(), y1.duplicate()),
            },
            AffinePoint::Infinity => other.duplicate(),
        }
    }

    /// Scalar multiplication `self * scalar` by double-and-add over the
    /// big-endian bits of `scalar`, the leading bit taken as the starting point.
    pub fn mul(&self, scalar: i64) -> (r: Self)
        requires
            self.wf(),
            scalar >= 0,
        ensures
            r@ == point_mul::<E>(self@, scalar as nat),
            r.wf(),
    {
        match self {
            AffinePoint::Infinity => AffinePoint::Infinity,
            AffinePoint::XY(..) => {
                if scalar == 0 {
                    return AffinePoint::Infinity;
                }
                let bits = E::ScalarField::to_bits(scalar);
                proof {
                    lemma_bits_value(scalar as nat);
                }
                let ghost tail = bits@.subrange(1, bits@.len() as int);
                let mut point = self.duplicate();
                let mut i: usize = 1;
                assert(tail.subrange(0, 0) =~= Seq::<bool>::empty());
                while i < bits.len()
                    invariant
                        self.wf(),
                        1 <= i <= bits@.len(),
                        bits@ == bits_of(scalar as nat),
                        tail == bits@.subrange(1, bits@.len() as int),
                        point@ == mul_bits::<E>(self@, tail.subrange(0, i - 1)),
                        point.wf(),
                    decreases bits@.len() - i,
                {
                    point = point.double();
                    if bits[i] {
                        point = point.add(self);
                    }
                    proof {
                        assert(tail.subrange(0, i as int).drop_last() =~= tail.subrange(0, i - 1));
                        assert(tail.subrange(0, i as int).last() == bits@[i as int]);
                    }
                    i = i + 1;
                }
                assert(tail.subrange(0, bits@.len() - 1) =~= tail);
                point
            },
        }
    }

    /// The trace map: `p` plus the images of `p` under raising each coordinate
    /// to the powers `q^i` (`0 < i < k`) of the scalar field's modulus.
    pub fn trace_map(&self) -> (r: Self)
        requires
            self.wf(),
        ensures
            r@ == point_trace::<E>(self@),
            r.wf(),
    {
        match self {
            AffinePoint::XY(x, y) => {
                let k = E::embedding_degree();
                let q = E::ScalarField::modulus();
                proof {
                    E::lemma_parameters();
                    E::ScalarField::lemma_model(q);
                }
                let ghost qm = E::ScalarField::modulus_spec();
                let mut point = AffinePoint::XY(x.duplicate(), y.duplicate());
                let mut power: i64 = 1;
                let mut i: usize = 1;
                while i < k
                    invariant
                        x.wf(),
                        y.wf(),
                        1 <= i <= k || k < 1,
                        k == E::embedding_degree_spec(),
                        1 <= k <= 64,
                        q == qm,
                        qm == E::ScalarField::modulus_spec(),
                        qm >= 2,
                        int_pow(qm, k as nat) <= i64::MAX,
                        power == int_pow(qm, (i - 1) as nat),
                        point@ == trace_from::<E>(x.val(), y.val(), i as nat),
                        point.wf(),
                    decreases k - i,
                {
                    proof {
                        lemma_int_pow_monotone(qm, i as nat, k as nat);
                        assert(power * q == int_pow(qm, i as nat)) by (nonlinear_arith)
                            requires
                                power == int_pow(qm, (i - 1) as nat),
                                int_pow(qm, i as nat) == qm * int_pow(qm, (i - 1) as nat),
                                q == qm,
                        ;
                    }
                    power = power * q;
                    let new_x = x.pow::<E::ScalarField>(power);
                    let new_y = y.pow::<E::ScalarField>(power);
                    let image = Self::new_xy(new_x, new_y);
                    proof {
                        assert(image@ == frobenius::<E>(x.val(), y.val(), int_pow(qm, i as nat) as nat));
                        assert(trace_from::<E>(x.val(), y.val(), (i + 1) as nat) == point_add::<E>(
                            trace_from::<E>(x.val(), y.val(), i as nat),
                            frobenius::<E>(x.val(), y.val(), int_pow(qm, i as nat) as nat),
                        ));
                    }
                    point = point.add(&image);
                    i = i + 1;
                }
                point
            },
            AffinePoint::Infinity => AffinePoint::Infinity,
        }
    }
}

/// A point at infinity, or one whose coordinates satisfy the curve equation.
pub open spec fn is_curve_point<E: EllipticCurve>(p: PointModel<E>) -> bool {
    match p {
        None => true,
        Some((x, y)) => on_curve::<E>(x, y),
    }
}

/// The coordinates of a point model are reduced.
pub open spec fn is_reduced_point<E: EllipticCurve>(p: PointModel<E>) -> bool {
    match p {
        None => true,
        Some((x, y)) => E::BaseField::canonical(x) && E::BaseField::canonical(y),
    }
}

/// Identities of the group law: the point at infinity is neutral on either
/// side, doubling is adding a point to itself, a point plus its negation is
/// the point at infinity, and negating twice gives the point back.
pub proof fn lemma_group_identities<E: EllipticCurve>(p: PointModel<E>)
    requires
        is_curve_point::<E>(p),
        is_reduced_point::<E>(p),
    ensures
        point_add::<E>(p, None) == p,
        point_add::<E>(None, p) == p,
        point_double::<E>(p) == point_add::<E>(p, p),
        point_add::<E>(p, point_neg::<E>(p)) is None,
        point_neg::<E>(point_neg::<E>(p)) == p,
{
    if let Some((x, y)) = p {
        E::BaseField::lemma_neg(y);
    }
}

/// Powers of a base of at least 2 are positive and grow with the exponent.
pub proof fn lemma_int_pow_monotone(b: int, i: nat, k: nat)
    requires
        b >= 2,
        i <= k,
    ensures
        0 < int_pow(b, i) <= int_pow(b, k),
    decreases k,
{
    if i < k {
        lemma_int_pow_monotone(b, i, (k - 1) as nat);
        assert(int_pow(b, (k - 1) as nat) <= int_pow(b, k)) by (nonlinear_arith)
            requires
                int_pow(b, k) == b * int_pow(b, (k - 1) as nat),
                int_pow(b, (k - 1) as nat) > 0,
                b >= 2,
        ;
    } else if k > 0 {
        lemma_int_pow_monotone(b, (k - 1) as nat, (k - 1) as nat);
        assert(0 < int_pow(b, k)) by (nonlinear_arith)
            requires
                int_pow(b, k) == b * int_pow(b, (k - 1) as nat),
                int_pow(b, (k - 1) as nat) > 0,
                b >= 2,
        ;
    }
}

/// Every point of the cyclic group the generator spans: the generator added to
/// itself `i` more times at index `i`, as many as the curve's order.
pub fn get_all_points<E: EllipticCurve>() -> (r: Vec<AffinePoint<E>>)
    ensures
        E::order_spec() <= usize::MAX ==> r@.len() == E::order_spec(),
        forall|i: int|
            0 <= i < r@.len() ==> #[trigger] r@[i]@ == repeated_sum::<E>(
                generator_spec::<E>(),
                i as nat,
            ),
{
    proof {
        E::lemma_parameters();
    }
    let max = match E::ScalarField::to_uint(E::order()) {
        Some(m) => m,
        None => {
            return Vec::new();
        },
    };
    let g = AffinePoint::<E>::generator_point();
    let mut result: Vec<AffinePoint<E>> = Vec::new();
    let mut acc = g.duplicate();
    let mut i: usize = 0;
    while i < max
        invariant
            g@ == generator_spec::<E>(),
            g.wf(),
            i <= max,
            max == E::order_spec(),
            result@.len() == i,
            acc@ == repeated_sum::<E>(g@, i as nat),
            acc.wf(),
            forall|j: int|
                0 <= j < i ==> #[trigger] result@[j]@ == repeated_sum::<E>(g@, j as nat),
        decreases max - i,
    {
        result.push(acc.duplicate());
        acc = acc.add(&g);
        i = i + 1;
    }
    result
}

impl<E: EllipticCurve> PartialEq for AffinePoint<E> {
    fn eq(&self, other: &Self) -> (r: bool) {
        self.equals(other)
    }
}

impl<E: EllipticCurve> vstd::std_specs::cmp::PartialEqSpecImpl for AffinePoint<E> {
    open spec fn obeys_eq_spec() -> bool {
        true
    }

    open spec fn eq_spec(&self, other: &Self) -> bool {
        self@ == other@
    }
}

} // verus!
