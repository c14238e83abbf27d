use vstd::prelude::*;

use vstd::arithmetic::power::{lemma_pow0, lemma_pow1, lemma_pow_adds, pow};
use crate::finite_field::{
    bits_of, bits_value, lemma_bits_value, lemma_mod_inverse_exists, mod_inverse, FiniteField, NonExtendedField, PrimeField,
};
use vstd::arithmetic::div_mod::{
    lemma_add_mod_noop, lemma_mod_bound, lemma_mul_mod_noop_left, lemma_mul_mod_noop_right,
    lemma_small_mod,
};
use crate::polynomial::Coefficient;

verus! {

/// Field sum of two reduced models.
pub open spec fn f_add<M: FiniteField>(a: M::Model, b: M::Model) -> M::Model {
    M::reduce_spec(M::add_spec(a, b))
}

/// Field negation: the modulus minus the value, reduced.
pub open spec fn f_neg<M: FiniteField>(a: M::Model) -> M::Model {
    M::reduce_spec(M::sub_spec(M::modulus_spec(), a))
}

pub open spec fn f_sub<M: FiniteField>(a: M::Model, b: M::Model) -> M::Model {
    f_add::<M>(a, f_neg::<M>(b))
}

pub open spec fn f_mul<M: FiniteField>(a: M::Model, b: M::Model) -> M::Model {
    M::reduce_spec(M::mul_spec(a, b))
}

pub open spec fn f_zero<M: FiniteField>() -> M::Model {
    M::reduce_spec(M::zero_spec())
}

pub open spec fn f_one<M: FiniteField>() -> M::Model {
    M::reduce_spec(M::one_spec())
}

/// `a / b`, where `b` has an inverse.
pub open spec fn f_div<M: FiniteField>(a: M::Model, b: M::Model) -> Option<M::Model> {
    match M::inverse_spec(b) {
        Some(i) => Some(f_mul::<M>(a, i)),
        None => None,
    }
}

/// Square-and-multiply over big-endian `bits`: for each bit, square the
/// accumulator, then multiply by `base` where the bit is set.
pub open spec fn f_pow_bits<M: FiniteField>(base: M::Model, bits: Seq<bool>) -> M::Model
    decreases bits.len(),
{
    if bits.len() == 0 {
        f_one::<M>()
    } else {
        let a = f_pow_bits::<M>(base, bits.drop_last());
        let sq = f_mul::<M>(a, a);
        if bits.last() {
            f_mul::<M>(sq, base)
        } else {
            sq
        }
    }
}

/// `base` raised to the non-negative integer `e`.
pub open spec fn f_pow<M: FiniteField>(base: M::Model, e: nat) -> M::Model {
    f_pow_bits::<M>(base, bits_of(e))
}

/// An element of the field `M`, always held in reduced form.
#[derive(Debug, Clone)]
pub struct FieldElement<M: FiniteField> {
    value: M::T,
}

impl<M: FiniteField> FieldElement<M> {
    /// The model of the representative held.
    pub closed spec fn val(&self) -> M::Model {
        M::model(self.value)
    }

    pub open spec fn wf(&self) -> bool {
        M::canonical(self.val())
    }

    /// The field finds an inverse of this element.
    pub open spec fn spec_inverse_exists(&self) -> bool {
        M::inverse_spec(self.val()) is Some
    }

    /// Reduces `value` and wraps it.
    pub fn new(value: M::T) -> (r: Self)
        requires
            M::reducible(value),
        ensures
            r.val() == M::reduce_spec(M::model(value)),
            r.wf(),
    {
        FieldElement { value: M::reduce(value) }
    }

    /// The representative held.
    pub fn value(&self) -> (r: &M::T)
        ensures
            M::model(*r) == self.val(),
    {
        &self.value
    }

    pub fn zero() -> (r: Self)
        ensures
            r.val() == f_zero::<M>(),
            r.val() == M::zero_spec(),
            r.wf(),
    {
        let v = M::zero();
        proof {
            M::lemma_reduce_canonical(M::model(v));
            M::lemma_canonical_reducible(v);
        }
        Self::new(v)
    }

    pub fn one() -> (r: Self)
        ensures
            r.val() == f_one::<M>(),
            r.val() == M::one_spec(),
            r.wf(),
    {
        let v = M::one();
        proof {
            M::lemma_reduce_canonical(M::model(v));
            M::lemma_canonical_reducible(v);
        }
        Self::new(v)
    }

    pub fn is_zero(&self) -> (r: bool)
        ensures
            r == (self.val() == M::zero_spec()),
    {
        let z = M::zero();
        M::equals(&z, &self.value)
    }

    pub fn equals(&self, o: &Self) -> (r: bool)
        ensures
            r == (self.val() == o.val()),
    {
        M::equals(&self.value, &o.value)
    }

    pub fn duplicate(&self) -> (r: Self)
        ensures
            r.val() == self.val(),
    {
        FieldElement { value: M::duplicate(&self.value) }
    }

    /// The sum, reduced.
    pub fn add(&self, rhs: &Self) -> (r: Self)
        requires
            self.wf(),
            rhs.wf(),
        ensures
            r.val() == f_add::<M>(self.val(), rhs.val()),
            r.wf(),
    {
        Self::new(M::add_raw(&self.value, &rhs.value))
    }

    /// The additive inverse: the modulus minus the value, reduced.
    pub fn neg(&self) -> (r: Self)
        requires
            self.wf(),
        ensures
            r.val() == f_neg::<M>(self.val()),
            r.wf(),
    {
        let m = M::modulus();
        Self::new(M::sub_raw(&m, &self.value))
    }

    /// `self + (-rhs)`.
    pub fn sub(&self, rhs: &Self) -> (r: Self)
        requires
            self.wf(),
            rhs.wf(),
        ensures
            r.val() == f_sub::<M>(self.val(), rhs.val()),
            r.wf(),
    {
        let n = rhs.neg();
        self.add(&n)
    }

    /// The product, reduced.
    pub fn mul(&self, rhs: &Self) -> (r: Self)
        requires
            self.wf(),
            rhs.wf(),
        ensures
            r.val() == f_mul::<M>(self.val(), rhs.val()),
            r.wf(),
    {
        Self::new(M::mul_raw(&self.value, &rhs.value))
    }

    /// The multiplicative inverse; `None` for zero, which has none.
    pub fn inverse(&self) -> (r: Option<Self>)
        requires
            self.wf(),
        ensures
            r is None <==> M::inverse_spec(self.val()) is None,
            r matches Some(i) ==> M::inverse_spec(self.val()) == Some(i.val()),
            self.val() == M::zero_spec() ==> r is None,
            r matches Some(i) ==> i.wf() && f_mul::<M>(self.val(), i.val()) == M::one_spec(),
    {
        match M::inverse(&self.value) {
            Some(t) => Some(FieldElement { value: t }),
            None => None,
        }
    }

    /// `self * rhs^-1`; `None` when `rhs` has no inverse.
    pub fn div(&self, rhs: &Self) -> (r: Option<Self>)
        requires
            self.wf(),
            rhs.wf(),
        ensures
            r matches Some(q) ==> Some(q.val()) == f_div::<M>(self.val(), rhs.val()),
            r is None <==> f_div::<M>(self.val(), rhs.val()) is None,
            rhs.val() == M::zero_spec() ==> r is None,
            r matches Some(q) ==> q.wf(),
    {
        match rhs.inverse() {
            Some(i) => Some(self.mul(&i)),
            None => None,
        }
    }

    /// `self` raised to `exp`, by square-and-multiply over the big-endian bits
    /// of `exp`, which `S` decomposes.
    pub fn pow<S: NonExtendedField>(&self, exp: i64) -> (r: Self)
        requires
            self.wf(),
            exp >= 0,
        ensures
            r.val() == f_pow::<M>(self.val(), exp as nat),
            r.wf(),
    {
        let bits = S::to_bits(exp);
        let mut acc = Self::one();
        let mut i: usize = 0;
        while i < bits.len()
            invariant
                self.wf(),
                i <= bits@.len(),
                bits@ == bits_of(exp as nat),
                acc.val() == f_pow_bits::<M>(self.val(), bits@.subrange(0, i as int)),
                acc.wf(),
            decreases bits@.len() - i,
        {
            let sq = acc.mul(&acc);
            acc = if bits[i] {
                sq.mul(self)
            } else {
                sq
            };
            proof {
                assert(bits@.subrange(0, i + 1).drop_last() =~= bits@.subrange(0, i as int));
            }
            i = i + 1;
        }
        assert(bits@.subrange(0, bits@.len() as int) =~= bits@);
        acc
    }
}

impl<M: NonExtendedField> FieldElement<M> {
    /// The element whose representative is the integer `m`.
    pub closed spec fn of_int(m: int) -> Self {
        FieldElement { value: m as i64 }
    }

    pub proof fn lemma_of_int(x: Self)
        ensures
            Self::of_int(x.val()) == x,
    {
        M::lemma_model(x.value);
    }

    pub proof fn lemma_of_int_val(m: int)
        requires
            i64::MIN <= m <= i64::MAX,
        ensures
            Self::of_int(m).val() == m,
    {
        M::lemma_model(m as i64);
    }

    /// Elements of an integer field are equal exactly when their values are.
    pub proof fn lemma_eq(a: Self, b: Self)
        ensures
            (a == b) <==> (a.val() == b.val()),
    {
        M::lemma_model(a.value);
        M::lemma_model(b.value);
    }
}

impl<M: FiniteField> PartialEq for FieldElement<M> {
    fn eq(&self, other: &Self) -> (r: bool) {
        M::equals(&self.value, &other.value)
    }
}

impl<M: FiniteField> vstd::std_specs::cmp::PartialEqSpecImpl for FieldElement<M> {
    open spec fn obeys_eq_spec() -> bool {
        true
    }

    open spec fn eq_spec(&self, other: &Self) -> bool {
        self.val() == other.val()
    }
}

/// The field axioms hold in every prime field: `+` and `*` are associative
/// and commutative, `*` distributes over `+`, zero and one are identities,
/// `a + (-a) == 0`, and `a / a == 1` for `a != 0`.
pub proof fn lemma_field_axioms<M: PrimeField>(a: FieldElement<M>, b: FieldElement<M>, c: FieldElement<M>)
    requires
        a.wf(),
        b.wf(),
        c.wf(),
    ensures
        f_add::<M>(f_add::<M>(a.val(), b.val()), c.val()) == f_add::<M>(
            a.val(),
            f_add::<M>(b.val(), c.val()),
        ),
        f_add::<M>(a.val(), b.val()) == f_add::<M>(b.val(), a.val()),
        f_mul::<M>(f_mul::<M>(a.val(), b.val()), c.val()) == f_mul::<M>(
            a.val(),
            f_mul::<M>(b.val(), c.val()),
        ),
        f_mul::<M>(a.val(), b.val()) == f_mul::<M>(b.val(), a.val()),
        f_mul::<M>(a.val(), f_add::<M>(b.val(), c.val())) == f_add::<M>(
            f_mul::<M>(a.val(), b.val()),
            f_mul::<M>(a.val(), c.val()),
        ),
        f_add::<M>(a.val(), f_zero::<M>()) == a.val(),
        f_mul::<M>(a.val(), f_one::<M>()) == a.val(),
        f_add::<M>(a.val(), f_neg::<M>(a.val())) == f_zero::<M>(),
        a.val() != f_zero::<M>() ==> f_div::<M>(a.val(), a.val()) == Some(f_one::<M>()),
{
    M::lemma_prime_field();
    let p = M::prime();
    let (x, y, z) = (a.val(), b.val(), c.val());
    lemma_small_mod(0, p as nat);
    lemma_small_mod(1, p as nat);
    lemma_small_mod(x as nat, p as nat);
    lemma_small_mod(y as nat, p as nat);
    lemma_small_mod(z as nat, p as nat);
    // associativity of +
    assert(f_add::<M>(f_add::<M>(x, y), z) == (x + y + z) % p) by {
        lemma_add_mod_noop(x + y, z, p);
    }
    assert(f_add::<M>(x, f_add::<M>(y, z)) == (x + y + z) % p) by {
        lemma_add_mod_noop(x, y + z, p);
        assert(x + (y + z) == x + y + z);
    }
    // associativity and commutativity of *
    assert(f_mul::<M>(f_mul::<M>(x, y), z) == (x * y * z) % p) by {
        lemma_mul_mod_noop_left(x * y, z, p);
    }
    assert(f_mul::<M>(x, f_mul::<M>(y, z)) == (x * y * z) % p) by {
        lemma_mul_mod_noop_right(x, y * z, p);
        assert(x * (y * z) == x * y * z) by (nonlinear_arith);
    }
    assert(x * y == y * x) by (nonlinear_arith);
    // distributivity
    assert(f_mul::<M>(x, f_add::<M>(y, z)) == (x * y + x * z) % p) by {
        lemma_mul_mod_noop_right(x, y + z, p);
        assert(x * (y + z) == x * y + x * z) by (nonlinear_arith);
    }
    assert(f_add::<M>(f_mul::<M>(x, y), f_mul::<M>(x, z)) == (x * y + x * z) % p) by {
        lemma_add_mod_noop(x * y, x * z, p);
        lemma_mod_bound(x * y, p);
        lemma_mod_bound(x * z, p);
        lemma_small_mod(((x * y) % p) as nat, p as nat);
        lemma_small_mod(((x * z) % p) as nat, p as nat);
    }
    // identities and inverses
    assert(f_one::<M>() == 1);
    assert(f_mul::<M>(x, 1) == x) by {
        assert(x * 1 == x);
    }
    assert(f_add::<M>(x, f_neg::<M>(x)) == 0) by {
        lemma_add_mod_noop(x, p - x, p);
        vstd::arithmetic::div_mod::lemma_mod_self_0(p);
        lemma_mod_bound(p - x, p);
        lemma_small_mod(((p - x) % p) as nat, p as nat);
    }
    if x != 0 {
        lemma_mod_inverse_exists(x, p);
        let i = match mod_inverse(x, p) {
            Some(t) => t,
            None => 0,
        };
        assert(f_div::<M>(x, x) == Some((x * i) % p));
    }
}

/// In a prime field every element other than zero has an inverse, and the
/// product of the two is one.
pub proof fn lemma_inverse_correct<M: PrimeField>(a: FieldElement<M>)
    requires
        a.wf(),
        a.val() != f_zero::<M>(),
    ensures
        a.spec_inverse_exists(),
        M::inverse_spec(a.val()) matches Some(i) && f_mul::<M>(a.val(), i) == f_one::<M>()
            && M::canonical(i),
{
    M::lemma_prime_field();
    let p = M::prime();
    lemma_small_mod(0, p as nat);
    lemma_small_mod(1, p as nat);
    lemma_small_mod(a.val() as nat, p as nat);
    lemma_mod_inverse_exists(a.val(), p);
}

proof fn lemma_pow_bits_value<M: PrimeField>(x: int, bits: Seq<bool>)
    requires
        0 <= x < M::prime(),
    ensures
        f_pow_bits::<M>(x, bits) == pow(x, bits_value(bits)) % M::prime(),
    decreases bits.len(),
{
    M::lemma_prime_field();
    let p = M::prime();
    if bits.len() == 0 {
        lemma_pow0(x);
        lemma_small_mod(1, p as nat);
    } else {
        let rest = bits.drop_last();
        lemma_pow_bits_value::<M>(x, rest);
        let v = bits_value(rest);
        let big = pow(x, v);
        let a = big % p;
        // squaring: (a * a) % p == x^(2v) % p
        lemma_mul_mod_noop_left(big, a, p);
        lemma_mul_mod_noop_right(big, big, p);
        lemma_pow_adds(x, v, v);
        let sq = (a * a) % p;
        assert(sq == pow(x, v + v) % p);
        if bits.last() {
            lemma_mul_mod_noop_left(pow(x, v + v), x, p);
            lemma_pow_adds(x, v + v, 1);
            lemma_pow1(x);
            assert(bits_value(bits) == v + v + 1);
        } else {
            assert(bits_value(bits) == v + v);
        }
    }
}

/// In a prime field, square-and-multiply computes the ordinary power:
/// `x^e mod p`.
pub proof fn lemma_pow_is_power<M: PrimeField>(x: FieldElement<M>, e: nat)
    requires
        x.wf(),
    ensures
        f_pow::<M>(x.val(), e) == pow(x.val(), e) % M::prime(),
{
    M::lemma_prime_field();
    lemma_bits_value(e);
    lemma_pow_bits_value::<M>(x.val(), bits_of(e));
}

/// Elements of an integer field serve as polynomial coefficients; the
/// coefficient operations are the field operations.
impl<M: NonExtendedField> Coefficient for FieldElement<M> {
    open spec fn valid(a: Self) -> bool {
        a.wf()
    }

    open spec fn zero_spec() -> Self {
        Self::of_int(f_zero::<M>())
    }

    open spec fn add_spec(a: Self, b: Self) -> Self {
        Self::of_int(f_add::<M>(a.val(), b.val()))
    }

    open spec fn mul_spec(a: Self, b: Self) -> Self {
        Self::of_int(f_mul::<M>(a.val(), b.val()))
    }

    open spec fn neg_spec(a: Self) -> Self {
        Self::of_int(f_neg::<M>(a.val()))
    }

    /// Division by an element without inverse gives zero.
    open spec fn div_spec(a: Self, b: Self) -> Self {
        match f_div::<M>(a.val(), b.val()) {
            Some(q) => Self::of_int(q),
            None => Self::of_int(f_zero::<M>()),
        }
    }

    fn zero() -> (r: Self) {
        let r = FieldElement::<M>::zero();
        proof {
            Self::lemma_of_int(r);
        }
        r
    }

    fn add(&self, o: &Self) -> (r: Self) {
        let r = FieldElement::<M>::add(self, o);
        proof {
            Self::lemma_of_int(r);
        }
        r
    }

    fn mul(&self, o: &Self) -> (r: Self) {
        let r = FieldElement::<M>::mul(self, o);
        proof {
            Self::lemma_of_int(r);
        }
        r
    }

    fn neg(&self) -> (r: Self) {
        let r = FieldElement::<M>::neg(self);
        proof {
            Self::lemma_of_int(r);
        }
        r
    }

    fn div(&self, o: &Self) -> (r: Self) {
        match FieldElement::<M>::div(self, o) {
            Some(q) => {
                proof {
                    Self::lemma_of_int(q);
                }
                q
            },
            None => {
                let z = FieldElement::<M>::zero();
                proof {
                    Self::lemma_of_int(z);
                }
                z
            },
        }
    }

    fn equals(&self, o: &Self) -> (r: bool) {
        proof {
            Self::lemma_eq(*self, *o);
        }
        FieldElement::<M>::equals(self, o)
    }

    fn duplicate(&self) -> (r: Self) {
        let r = FieldElement::<M>::duplicate(self);
        proof {
            Self::lemma_eq(r, *self);
        }
        r
    }
}

} // verus!
