use vstd::prelude::*;

verus! {

/// The ring operations a polynomial needs from its coefficients.
///
/// Each executable operation is pinned to a spec function, so that polynomial
/// contracts can be stated coefficient by coefficient.
pub trait Coefficient: Sized {
    /// Values on which the operations are defined (e.g. reduced field elements).
    spec fn valid(a: Self) -> bool;

    spec fn zero_spec() -> Self;

    spec fn add_spec(a: Self, b: Self) -> Self;

    spec fn mul_spec(a: Self, b: Self) -> Self;

    spec fn neg_spec(a: Self) -> Self;

    spec fn div_spec(a: Self, b: Self) -> Self;

    fn zero() -> (r: Self)
        ensures
            r == Self::zero_spec(),
            Self::valid(r),
    ;

    fn add(&self, o: &Self) -> (r: Self)
        requires
            Self::valid(*self),
            Self::valid(*o),
        ensures
            r == Self::add_spec(*self, *o),
            Self::valid(r),
    ;

    fn mul(&self, o: &Self) -> (r: Self)
        requires
            Self::valid(*self),
            Self::valid(*o),
        ensures
            r == Self::mul_spec(*self, *o),
            Self::valid(r),
    ;

    fn neg(&self) -> (r: Self)
        requires
            Self::valid(*self),
        ensures
            r == Self::neg_spec(*self),
            Self::valid(r),
    ;

    fn div(&self, o: &Self) -> (r: Self)
        requires
            Self::valid(*self),
            Self::valid(*o),
            *o != Self::zero_spec(),
        ensures
            r == Self::div_spec(*self, *o),
            Self::valid(r),
    ;

    fn equals(&self, o: &Self) -> (r: bool)
        ensures
            r == (*self == *o),
    ;

    fn duplicate(&self) -> (r: Self)
        ensures
            r == *self,
    ;
}

/// Machine integers as coefficients form the ring of integers modulo 2^64:
/// sums and products wrap, and division truncates (`i64::MIN / -1` wraps).
impl Coefficient for i64 {
    open spec fn valid(a: i64) -> bool {
        true
    }

    open spec fn zero_spec() -> i64 {
        0
    }

    open spec fn add_spec(a: i64, b: i64) -> i64 {
        vstd::wrapping::i64_specs::wrapping_add(a, b)
    }

    open spec fn mul_spec(a: i64, b: i64) -> i64 {
        vstd::wrapping::i64_specs::wrapping_mul(a, b)
    }

    open spec fn neg_spec(a: i64) -> i64 {
        vstd::wrapping::i64_specs::wrapping_sub(0, a)
    }

    open spec fn div_spec(a: i64, b: i64) -> i64 {
        match a.checked_div(b) {
            Some(v) => v,
            None => i64::MIN,
        }
    }

    fn zero() -> (r: i64) {
        0
    }

    fn add(&self, o: &i64) -> (r: i64) {
        self.wrapping_add(*o)
    }

    fn mul(&self, o: &i64) -> (r: i64) {
        self.wrapping_mul(*o)
    }

    fn neg(&self) -> (r: i64) {
        0i64.wrapping_sub(*self)
    }

    fn div(&self, o: &i64) -> (r: i64) {
        match self.checked_div(*o) {
            Some(v) => v,
            None => i64::MIN,
        }
    }

    fn equals(&self, o: &i64) -> (r: bool) {
        *self == *o
    }

    fn duplicate(&self) -> (r: i64) {
        *self
    }
}


/// A polynomial with coefficients in `C`; index `i` holds the coefficient of x^i.
///
/// The coefficient list is kept canonical: trailing zero coefficients are trimmed,
/// and the zero polynomial is the single coefficient zero.
#[derive(Debug, Clone)]
pub struct Polynomial<C> {
    coeffs: Vec<C>,
}

/// The coefficient at index `i`, zero past the end.
pub open spec fn coeff_at<C: Coefficient>(s: Seq<C>, i: int) -> C {
    if 0 <= i < s.len() {
        s[i]
    } else {
        C::zero_spec()
    }
}

/// Index of the last non-zero coefficient (0 when all are zero).
pub open spec fn last_nonzero<C: Coefficient>(s: Seq<C>) -> nat
    decreases s.len(),
{
    if s.len() <= 1 {
        0
    } else if s.last() != C::zero_spec() {
        (s.len() - 1) as nat
    } else {
        last_nonzero(s.drop_last())
    }
}

/// The coefficient list with trailing zeros trimmed.
pub open spec fn trim<C: Coefficient>(s: Seq<C>) -> Seq<C> {
    s.subrange(0, last_nonzero(s) as int + 1)
}

pub open spec fn is_canonical<C: Coefficient>(s: Seq<C>) -> bool {
    &&& s.len() > 0
    &&& (s.len() == 1 || s.last() != C::zero_spec())
}

pub open spec fn all_valid<C: Coefficient>(s: Seq<C>) -> bool {
    forall|i: int| 0 <= i < s.len() ==> #[trigger] C::valid(s[i])
}

/// The zero polynomial.
pub open spec fn zero_poly<C: Coefficient>() -> Seq<C> {
    seq![C::zero_spec()]
}

/// Degree of a canonical coefficient list.
pub open spec fn deg<C>(s: Seq<C>) -> int {
    s.len() - 1
}

pub proof fn lemma_last_nonzero_bound<C: Coefficient>(s: Seq<C>)
    requires
        s.len() > 0,
    ensures
        last_nonzero(s) < s.len(),
        last_nonzero(s) > 0 ==> s[last_nonzero(s) as int] != C::zero_spec(),
        forall|i: int| last_nonzero(s) < i < s.len() ==> s[i] == C::zero_spec(),
    decreases s.len(),
{
    if s.len() > 1 && s.last() == C::zero_spec() {
        lemma_last_nonzero_bound(s.drop_last());
        assert forall|i: int| last_nonzero(s) < i < s.len() implies s[i] == C::zero_spec() by {
            if i < s.len() - 1 {
                assert(s.drop_last()[i] == s[i]);
            }
        }
    }
}

/// Trimming gives a canonical list that agrees with the input at every index.
pub proof fn lemma_trim<C: Coefficient>(s: Seq<C>)
    requires
        s.len() > 0,
    ensures
        is_canonical(trim(s)),
        trim(s).len() <= s.len(),
        forall|i: int| 0 <= i < s.len() ==> coeff_at(trim(s), i) == s[i],
        all_valid(s) ==> all_valid(trim(s)),
{
    lemma_last_nonzero_bound(s);
}

pub proof fn lemma_trim_canonical<C: Coefficient>(s: Seq<C>)
    requires
        is_canonical(s),
    ensures
        trim(s) == s,
{
    assert(s.subrange(0, s.len() as int) =~= s);
}

/// Coefficient-wise sum, over the longer of the two lengths.
pub open spec fn add_coeffs<C: Coefficient>(a: Seq<C>, b: Seq<C>) -> Seq<C> {
    Seq::new(
        if a.len() >= b.len() {
            a.len()
        } else {
            b.len()
        },
        |i: int|
            if i < b.len() {
                C::add_spec(coeff_at(a, i), b[i])
            } else {
                a[i]
            },
    )
}

pub open spec fn poly_add<C: Coefficient>(a: Seq<C>, b: Seq<C>) -> Seq<C> {
    trim(add_coeffs(a, b))
}

pub open spec fn poly_neg<C: Coefficient>(a: Seq<C>) -> Seq<C> {
    trim(Seq::new(a.len(), |i: int| C::neg_spec(a[i])))
}

pub open spec fn poly_sub<C: Coefficient>(a: Seq<C>, b: Seq<C>) -> Seq<C> {
    poly_add(a, poly_neg(b))
}

pub open spec fn poly_scale<C: Coefficient>(a: Seq<C>, c: C) -> Seq<C> {
    trim(Seq::new(a.len(), |i: int| C::mul_spec(a[i], c)))
}

/// Coefficient `k` of the product `a * b`, accumulated over the terms of `a`
/// below index `n`, in increasing order and skipping zero terms.
pub open spec fn conv<C: Coefficient>(a: Seq<C>, b: Seq<C>, k: int, n: nat) -> C
    decreases n,
{
    if n == 0 {
        C::zero_spec()
    } else {
        let i = n - 1;
        let prev = conv(a, b, k, (n - 1) as nat);
        if coeff_at(a, i) == C::zero_spec() || k - i < 0 || k - i >= b.len() {
            prev
        } else {
            C::add_spec(prev, C::mul_spec(a[i], b[k - i]))
        }
    }
}

pub open spec fn mul_coeffs<C: Coefficient>(a: Seq<C>, b: Seq<C>) -> Seq<C> {
    Seq::new((a.len() + b.len() - 1) as nat, |k: int| conv(a, b, k, a.len()))
}

pub open spec fn poly_mul<C: Coefficient>(a: Seq<C>, b: Seq<C>) -> Seq<C> {
    trim(mul_coeffs(a, b))
}

/// Coefficients of `c * x^e`, before trimming.
pub open spec fn monomial_coeffs<C: Coefficient>(c: C, e: nat) -> Seq<C> {
    Seq::new(
        e + 1,
        |i: int|
            if i == e {
                c
            } else {
                C::zero_spec()
            },
    )
}

/// The polynomial `c * x^e`.
pub open spec fn monomial<C: Coefficient>(c: C, e: nat) -> Seq<C> {
    trim(monomial_coeffs(c, e))
}

/// Schoolbook long division of `r` by `d`, with `q` the quotient found so far:
/// while the remainder is non-zero and of degree at least `deg(d)`, subtract
/// `(lead(r) / lead(d)) * x^(deg(r) - deg(d)) * d`. A step that does not lower
/// the degree (possible only where coefficient division is inexact) ends it.
pub open spec fn divmod_from<C: Coefficient>(q: Seq<C>, r: Seq<C>, d: Seq<C>) -> (Seq<C>, Seq<C>)
    decreases r.len(),
{
    if r.len() > 0 && d.len() > 0 && deg(r) >= deg(d) && r.last() != C::zero_spec() {
        let t = monomial(C::div_spec(r.last(), d.last()), (deg(r) - deg(d)) as nat);
        let q2 = poly_add(q, t);
        let r2 = poly_sub(r, poly_mul(t, d));
        if r2.len() < r.len() {
            divmod_from(q2, r2, d)
        } else {
            (q2, r2)
        }
    } else {
        (q, r)
    }
}

/// Quotient and remainder of `p` divided by `d`.
pub open spec fn poly_divmod<C: Coefficient>(p: Seq<C>, d: Seq<C>) -> (Seq<C>, Seq<C>) {
    divmod_from(zero_poly::<C>(), p, d)
}

impl<C: Coefficient> View for Polynomial<C> {
    type V = Seq<C>;

    closed spec fn view(&self) -> Seq<C> {
        self.coeffs@
    }
}

impl<C: Coefficient> Polynomial<C> {
    pub open spec fn wf(&self) -> bool {
        &&& is_canonical(self@)
        &&& all_valid(self@)
    }

    /// Creates a polynomial from its coefficients, trimming trailing zeros.
    pub fn new(coeffs: Vec<C>) -> (r: Self)
        requires
            coeffs@.len() > 0,
            all_valid(coeffs@),
        ensures
            r@ == trim(coeffs@),
            r.wf(),
    {
        let mut coeffs = coeffs;
        let zero = C::zero();
        let mut n: usize = coeffs.len();
        assert(coeffs@.subrange(0, n as int) =~= coeffs@);
        while n > 1 && coeffs[n - 1].equals(&zero)
            invariant
                1 <= n <= coeffs@.len(),
                last_nonzero(coeffs@.subrange(0, n as int)) == last_nonzero(coeffs@),
                forall|i: int| n <= i < coeffs@.len() ==> coeffs@[i] == C::zero_spec(),
                zero == C::zero_spec(),
            decreases n,
        {
            assert(coeffs@.subrange(0, n - 1) =~= coeffs@.subrange(0, n as int).drop_last());
            n = n - 1;
        }
        proof {
            let s = coeffs@.subrange(0, n as int);
            assert(s.len() == n);
            if n > 1 {
                assert(s.last() != C::zero_spec());
            }
            assert(last_nonzero(s) == n - 1);
        }
        coeffs.truncate(n);
        proof {
            lemma_trim(coeffs@);
        }
        Polynomial { coeffs }
    }

    pub fn from_coefficients(coeffs: &[C]) -> (r: Self)
        requires
            coeffs@.len() > 0,
            all_valid(coeffs@),
        ensures
            r@ == trim(coeffs@),
            r.wf(),
    {
        let mut v: Vec<C> = Vec::new();
        let mut i: usize = 0;
        while i < coeffs.len()
            invariant
                i <= coeffs@.len(),
                v@ == coeffs@.subrange(0, i as int),
            decreases coeffs@.len() - i,
        {
            v.push(coeffs[i].duplicate());
            i = i + 1;
        }
        assert(v@ =~= coeffs@);
        Self::new(v)
    }

    /// The canonical coefficient list.
    pub fn coefficients(&self) -> (r: &[C])
        ensures
            r@ == self@,
    {
        self.coeffs.as_slice()
    }

    /// Index of the last non-zero coefficient (0 for the zero polynomial).
    pub fn degree(&self) -> (r: usize)
        requires
            self.wf(),
        ensures
            r == deg(self@),
            r == last_nonzero(self@),
    {
        proof {
            lemma_trim_canonical(self@);
            lemma_last_nonzero_bound(self@);
        }
        self.coeffs.len() - 1
    }

    /// The coefficient of the highest-degree term.
    pub fn leading_coefficient(&self) -> (r: &C)
        requires
            self.wf(),
        ensures
            *r == self@.last(),
    {
        &self.coeffs[self.degree()]
    }

    /// Whether every coefficient is zero.
    pub fn is_zero(&self) -> (r: bool)
        requires
            self.wf(),
        ensures
            r == (forall|i: int| 0 <= i < self@.len() ==> self@[i] == C::zero_spec()),
            r == (self@ == zero_poly::<C>()),
    {
        let zero = C::zero();
        let r = self.coeffs.len() == 1 && self.coeffs[0].equals(&zero);
        proof {
            if r {
                assert(self@ =~= zero_poly::<C>());
            }
            if !r && self@.len() > 1 {
                assert(self@[self@.len() - 1] != C::zero_spec());
            }
        }
        r
    }

    /// The sum `self + other`.
    pub fn add(&self, other: &Self) -> (r: Self)
        requires
            self.wf(),
            other.wf(),
        ensures
            r@ == poly_add(self@, other@),
            r.wf(),
            r@.len() <= self@.len() || r@.len() <= other@.len(),
    {
        let la = self.coeffs.len();
        let lb = other.coeffs.len();
        let n = if la >= lb {
            la
        } else {
            lb
        };
        let zero = C::zero();
        let mut coeffs: Vec<C> = Vec::new();
        let mut i: usize = 0;
        while i < n
            invariant
                la == self@.len(),
                lb == other@.len(),
                n == add_coeffs(self@, other@).len(),
                i <= n,
                zero == C::zero_spec(),
                C::valid(zero),
                self.wf(),
                other.wf(),
                coeffs@ == add_coeffs(self@, other@).subrange(0, i as int),
                all_valid(coeffs@),
            decreases n - i,
        {
            let c = if i < lb {
                if i < la {
                    self.coeffs[i].add(&other.coeffs[i])
                } else {
                    zero.add(&other.coeffs[i])
                }
            } else {
                self.coeffs[i].duplicate()
            };
            coeffs.push(c);
            i = i + 1;
            assert(coeffs@ =~= add_coeffs(self@, other@).subrange(0, i as int));
        }
        assert(coeffs@ =~= add_coeffs(self@, other@));
        proof {
            lemma_trim(coeffs@);
        }
        Self::new(coeffs)
    }

    /// The negation `-self`.
    pub fn neg(&self) -> (r: Self)
        requires
            self.wf(),
        ensures
            r@ == poly_neg(self@),
            r.wf(),
            r@.len() <= self@.len(),
    {
        let ghost target = Seq::new(self@.len(), |i: int| C::neg_spec(self@[i]));
        let mut coeffs: Vec<C> = Vec::new();
        let mut i: usize = 0;
        while i < self.coeffs.len()
            invariant
                i <= self@.len(),
                self.wf(),
                target == Seq::new(self@.len(), |i: int| C::neg_spec(self@[i])),
                coeffs@ == target.subrange(0, i as int),
                all_valid(coeffs@),
            decreases self@.len() - i,
        {
            coeffs.push(self.coeffs[i].neg());
            i = i + 1;
            assert(coeffs@ =~= target.subrange(0, i as int));
        }
        assert(coeffs@ =~= target);
        proof {
            lemma_trim(coeffs@);
        }
        Self::new(coeffs)
    }

    /// The difference `self - other`, computed as `self + (-other)`.
    pub fn sub(&self, other: &Self) -> (r: Self)
        requires
            self.wf(),
            other.wf(),
        ensures
            r@ == poly_sub(self@, other@),
            r.wf(),
            r@.len() <= self@.len() || r@.len() <= other@.len(),
    {
        let n = other.neg();
        self.add(&n)
    }

    /// Every coefficient multiplied by `scalar`.
    pub fn scale(&self, scalar: &C) -> (r: Self)
        requires
            self.wf(),
            C::valid(*scalar),
        ensures
            r@ == poly_scale(self@, *scalar),
            r.wf(),
            r@.len() <= self@.len(),
    {
        let ghost target = Seq::new(self@.len(), |i: int| C::mul_spec(self@[i], *scalar));
        let mut coeffs: Vec<C> = Vec::new();
        let mut i: usize = 0;
        while i < self.coeffs.len()
            invariant
                i <= self@.len(),
                self.wf(),
                C::valid(*scalar),
                target == Seq::new(self@.len(), |i: int| C::mul_spec(self@[i], *scalar)),
                coeffs@ == target.subrange(0, i as int),
                all_valid(coeffs@),
            decreases self@.len() - i,
        {
            coeffs.push(self.coeffs[i].mul(scalar));
            i = i + 1;
            assert(coeffs@ =~= target.subrange(0, i as int));
        }
        assert(coeffs@ =~= target);
        proof {
            lemma_trim(coeffs@);
        }
        Self::new(coeffs)
    }

    /// The product `self * other`: full convolution, skipping zero terms of `self`.
    pub fn mul(&self, other: &Self) -> (r: Self)
        requires
            self.wf(),
            other.wf(),
            self@.len() + other@.len() <= usize::MAX,
        ensures
            r@ == poly_mul(self@, other@),
            r.wf(),
            r@.len() <= self@.len() + other@.len() - 1,
    {
        let la = self.coeffs.len();
        let lb = other.coeffs.len();
        let n = la + lb - 1;
        let zero = C::zero();
        let mut coeffs: Vec<C> = Vec::new();
        let mut k: usize = 0;
        while k < n
            invariant
                k <= n,
                zero == C::zero_spec(),
                coeffs@.len() == k,
                forall|m: int| 0 <= m < k ==> coeffs@[m] == C::zero_spec(),
            decreases n - k,
        {
            coeffs.push(C::zero());
            k = k + 1;
        }
        let mut i: usize = 0;
        while i < la
            invariant
                la == self@.len(),
                lb == other@.len(),
                n == la + lb - 1,
                i <= la,
                zero == C::zero_spec(),
                self.wf(),
                other.wf(),
                coeffs@.len() == n,
                forall|m: int| 0 <= m < n ==> coeffs@[m] == conv(self@, other@, m, i as nat),
                all_valid(coeffs@),
            decreases la - i,
        {
            if !self.coeffs[i].equals(&zero) {
                let mut j: usize = 0;
                while j < lb
                    invariant
                        la == self@.len(),
                        lb == other@.len(),
                        n == la + lb - 1,
                        i < la,
                        j <= lb,
                        self@[i as int] != C::zero_spec(),
                        self.wf(),
                        other.wf(),
                        coeffs@.len() == n,
                        forall|m: int|
                            0 <= m < n ==> coeffs@[m] == if i <= m < i + j {
                                conv(self@, other@, m, (i + 1) as nat)
                            } else {
                                conv(self@, other@, m, i as nat)
                            },
                        all_valid(coeffs@),
                    decreases lb - j,
                {
                    let prod = self.coeffs[i].mul(&other.coeffs[j]);
                    let t = coeffs[i + j].add(&prod);
                    coeffs.set(i + j, t);
                    j = j + 1;
                }
            }
            i = i + 1;
        }
        assert(coeffs@ =~= mul_coeffs(self@, other@));
        proof {
            lemma_trim(coeffs@);
        }
        Self::new(coeffs)
    }

    /// The polynomial `c * x^e`.
    pub fn monomial(c: C, e: usize) -> (r: Self)
        requires
            C::valid(c),
            e < usize::MAX,
        ensures
            r@ == monomial(c, e as nat),
            r.wf(),
    {
        let mut coeffs: Vec<C> = Vec::new();
        let mut i: usize = 0;
        while i < e
            invariant
                i <= e,
                coeffs@.len() == i,
                forall|m: int| 0 <= m < i ==> coeffs@[m] == C::zero_spec(),
                all_valid(coeffs@),
            decreases e - i,
        {
            coeffs.push(C::zero());
            i = i + 1;
        }
        coeffs.push(c);
        assert(coeffs@ =~= monomial_coeffs(c, e as nat));
        Self::new(coeffs)
    }

    /// Long division: `None` when `divisor` is the zero polynomial, else the
    /// quotient and the remainder.
    pub fn div_mod(&self, divisor: &Self) -> (r: Option<(Self, Self)>)
        requires
            self.wf(),
            divisor.wf(),
            self@.len() + divisor@.len() <= usize::MAX,
        ensures
            divisor@ == zero_poly::<C>() <==> r is None,
            r matches Some((q, m)) ==> {
                &&& (q@, m@) == poly_divmod(self@, divisor@)
                &&& q.wf()
                &&& m.wf()
                &&& q@.len() <= self@.len()
                &&& m@.len() <= self@.len()
            },
    {
        if divisor.is_zero() {
            return None;
        }
        let zero = C::zero();
        let mut quotient = Polynomial::new(vec![C::zero()]);
        let mut remainder = self.duplicate();
        let dd = divisor.degree();
        let mut done = false;
        assert(quotient@ =~= zero_poly::<C>());
        while !done && remainder.degree() >= dd && !remainder.leading_coefficient().equals(&zero)
            invariant
                self.wf(),
                divisor.wf(),
                divisor@ != zero_poly::<C>(),
                dd == deg(divisor@),
                zero == C::zero_spec(),
                quotient.wf(),
                remainder.wf(),
                remainder@.len() <= self@.len(),
                quotient@.len() <= self@.len(),
                self@.len() + divisor@.len() <= usize::MAX,
                poly_divmod(self@, divisor@) == if done {
                    (quotient@, remainder@)
                } else {
                    divmod_from(quotient@, remainder@, divisor@)
                },
            decreases
                if done {
                    0
                } else {
                    remainder@.len() + 1
                },
        {
            let e = remainder.degree() - dd;
            assert(divisor@.last() != C::zero_spec()) by {
                if divisor@.len() == 1 && divisor@.last() == C::zero_spec() {
                    assert(divisor@ =~= zero_poly::<C>());
                }
            }
            let c = remainder.leading_coefficient().div(divisor.leading_coefficient());
            let term = Self::monomial(c, e);
            proof {
                lemma_trim(monomial_coeffs(c, e as nat));
            }
            let q2 = quotient.add(&term);
            proof {
                lemma_trim(add_coeffs(quotient@, term@));
            }
            let prod = term.mul(divisor);
            let r2 = remainder.sub(&prod);
            proof {
                lemma_trim(mul_coeffs(term@, divisor@));
                lemma_trim(Seq::new(prod@.len(), |i: int| C::neg_spec(prod@[i])));
                lemma_trim(add_coeffs(remainder@, poly_neg(prod@)));
            }
            if r2.coeffs.len() >= remainder.coeffs.len() {
                done = true;
            }
            quotient = q2;
            remainder = r2;
        }
        Some((quotient, remainder))
    }

    /// The quotient of long division; `None` when `divisor` is zero.
    pub fn div(&self, divisor: &Self) -> (r: Option<Self>)
        requires
            self.wf(),
            divisor.wf(),
            self@.len() + divisor@.len() <= usize::MAX,
        ensures
            divisor@ == zero_poly::<C>() <==> r is None,
            r matches Some(q) ==> q@ == poly_divmod(self@, divisor@).0 && q.wf(),
    {
        match self.div_mod(divisor) {
            Some((q, _)) => Some(q),
            None => None,
        }
    }

    /// The remainder of long division; `None` when `divisor` is zero.
    pub fn rem(&self, divisor: &Self) -> (r: Option<Self>)
        requires
            self.wf(),
            divisor.wf(),
            self@.len() + divisor@.len() <= usize::MAX,
        ensures
            divisor@ == zero_poly::<C>() <==> r is None,
            r matches Some(m) ==> m@ == poly_divmod(self@, divisor@).1 && m.wf(),
    {
        match self.div_mod(divisor) {
            Some((_, m)) => Some(m),
            None => None,
        }
    }

    /// Whether the two polynomials have the same coefficients.
    pub fn equals(&self, other: &Self) -> (r: bool)
        ensures
            r == (self@ == other@),
    {
        if self.coeffs.len() != other.coeffs.len() {
            return false;
        }
        let mut i: usize = 0;
        while i < self.coeffs.len()
            invariant
                i <= self@.len(),
                self@.len() == other@.len(),
                forall|k: int| 0 <= k < i ==> self@[k] == other@[k],
            decreases self@.len() - i,
        {
            if !self.coeffs[i].equals(&other.coeffs[i]) {
                return false;
            }
            i = i + 1;
        }
        assert(self@ =~= other@);
        true
    }

    pub fn duplicate(&self) -> (r: Self)
        ensures
            r@ == self@,
    {
        let mut v: Vec<C> = Vec::new();
        let mut i: usize = 0;
        while i < self.coeffs.len()
            invariant
                i <= self@.len(),
                v@ == self@.subrange(0, i as int),
            decreases self@.len() - i,
        {
            v.push(self.coeffs[i].duplicate());
            i = i + 1;
        }
        assert(v@ =~= self@);
        Polynomial { coeffs: v }
    }
}


impl<C: Coefficient> PartialEq for Polynomial<C> {
    fn eq(&self, other: &Self) -> (r: bool) {
        self.equals(other)
    }
}

impl<C: Coefficient> vstd::std_specs::cmp::PartialEqSpecImpl for Polynomial<C> {
    open spec fn obeys_eq_spec() -> bool {
        true
    }

    open spec fn eq_spec(&self, other: &Self) -> bool {
        self@ == other@
    }
}

} // verus!
