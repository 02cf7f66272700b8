//! Exact rational coefficients.
//!
//! A [`Coefficient`] holds the numerator and denominator of a rational in
//! lowest terms as minimal two's-complement little-endian byte strings. The
//! arithmetic itself is done by `num-rational`.

use vstd::prelude::*;
use num_bigint::BigInt;
use num_rational::BigRational;

verus! {

/// The absolute value of an integer.
pub open spec fn abs(x: int) -> nat {
    if x < 0 { (-x) as nat } else { x as nat }
}

/// The minimal little-endian two's-complement encoding of `x`.
pub open spec fn signed_bytes(x: int) -> Seq<u8>
    decreases abs(x),
{
    if -128 <= x < 128 {
        seq![(x % 256) as u8]
    } else {
        seq![(x % 256) as u8] + signed_bytes(x / 256)
    }
}

/// The integer that a little-endian two's-complement byte string encodes.
pub open spec fn bytes_value(s: Seq<u8>) -> int
    decreases s.len(),
{
    if s.len() == 0 {
        0
    } else if s.len() == 1 {
        if s[0] < 128 { s[0] as int } else { s[0] - 256 }
    } else {
        s[0] + 256 * bytes_value(s.drop_first())
    }
}

/// Euclid's greatest common divisor.
pub open spec fn gcd(a: nat, b: nat) -> nat
    decreases b,
{
    if b == 0 { a } else { gcd(b, a % b) }
}

/// The lowest-terms form of `n / d`, for `d > 0`.
pub open spec fn reduce(n: int, d: int) -> (int, int) {
    let g = gcd(abs(n), abs(d)) as int;
    (n / g, d / g)
}

/// A rational `(n, d)` in lowest terms with a positive denominator.
pub open spec fn is_reduced(r: (int, int)) -> bool {
    r.1 > 0 && gcd(abs(r.0), abs(r.1)) == 1
}

/// The product of two rationals, in lowest terms.
pub open spec fn rat_mul(a: (int, int), b: (int, int)) -> (int, int) {
    reduce(a.0 * b.0, a.1 * b.1)
}

/// The sum of two rationals, in lowest terms.
pub open spec fn rat_add(a: (int, int), b: (int, int)) -> (int, int) {
    reduce(a.0 * b.1 + b.0 * a.1, a.1 * b.1)
}

/// The rational `n / d`, for `d != 0`, in lowest terms with a positive denominator.
pub open spec fn fraction(n: int, d: int) -> (int, int) {
    if d > 0 {
        reduce(n, d)
    } else {
        reduce(-n, -d)
    }
}

/// The quotient of two rationals, in lowest terms.
pub open spec fn rat_div(a: (int, int), b: (int, int)) -> (int, int) {
    fraction(a.0 * b.1, a.1 * b.0)
}

/// The negation of a rational.
pub open spec fn rat_neg(a: (int, int)) -> (int, int) {
    (-a.0, a.1)
}

/// An exact rational scalar.
#[derive(Debug, PartialEq, Eq)]
pub struct Coefficient {
    numer: Vec<u8>,
    denom: Vec<u8>,
}

impl View for Coefficient {
    type V = (int, int);

    /// The rational as a numerator and a denominator.
    closed spec fn view(&self) -> (int, int) {
        (bytes_value(self.numer@), bytes_value(self.denom@))
    }
}

impl Coefficient {

    /// Both parts are minimally encoded and the fraction is in lowest terms.
    #[verifier::type_invariant]
    pub closed spec fn wf(&self) -> bool {
        &&& self.numer@ == signed_bytes(bytes_value(self.numer@))
        &&& self.denom@ == signed_bytes(bytes_value(self.denom@))
        &&& is_reduced(self@)
    }

    /// Creates the rational equal to the integer `value`.
    pub fn from_integer(value: i64) -> (r: Coefficient)
        ensures
            r@ == (value as int, 1int),
    {
        rational_from_integer(value)
    }

    /// Creates the rational `numer / denom`.
    pub fn new(numer: i64, denom: i64) -> (r: Coefficient)
        requires
            denom != 0,
        ensures
            r@ == fraction(numer as int, denom as int),
    {
        let n = Coefficient::from_integer(numer);
        let d = Coefficient::from_integer(denom);
        let r = n.divided_by(&d);
        assert(numer as int * 1 == numer as int && 1 * denom as int == denom as int);
        r
    }

    /// Creates the rational whose numerator and denominator are the integers
    /// that the little-endian two's-complement byte strings `numer` and
    /// `denom` encode, of any size.
    pub fn from_signed_bytes(numer: &[u8], denom: &[u8]) -> (r: Coefficient)
        requires
            bytes_value(denom@) != 0,
        ensures
            r@ == fraction(bytes_value(numer@), bytes_value(denom@)),
    {
        rational_new(numer, denom)
    }

    /// The numerator, in lowest terms, as minimal little-endian two's-complement bytes.
    pub fn numer_bytes(&self) -> (r: &Vec<u8>)
        ensures
            bytes_value(r@) == self@.0,
            r@ == signed_bytes(self@.0),
    {
        proof {
            use_type_invariant(self);
        }
        &self.numer
    }

    /// The denominator, positive and in lowest terms, as minimal little-endian
    /// two's-complement bytes.
    pub fn denom_bytes(&self) -> (r: &Vec<u8>)
        ensures
            bytes_value(r@) == self@.1,
            r@ == signed_bytes(self@.1),
            self@.1 > 0,
    {
        proof {
            use_type_invariant(self);
        }
        &self.denom
    }

    /// Returns the quotient of two rationals.
    pub fn divided_by(&self, other: &Coefficient) -> (r: Coefficient)
        requires
            other@.0 != 0,
        ensures
            r@ == rat_div(self@, other@),
    {
        proof {
            use_type_invariant(self);
            use_type_invariant(other);
        }
        rational_div(self, other)
    }

    /// Returns whether this rational is zero.
    pub fn is_zero(&self) -> (b: bool)
        ensures
            b == (self@.0 == 0),
    {
        proof {
            use_type_invariant(self);
            reveal_with_fuel(signed_bytes, 2);
            reveal_with_fuel(bytes_value, 2);
        }
        self.numer.len() == 1 && self.numer[0] == 0
    }

    /// Returns whether the two rationals are equal.
    pub fn equals(&self, other: &Coefficient) -> (b: bool)
        ensures
            b == (self@ == other@),
    {
        proof {
            use_type_invariant(self);
            use_type_invariant(other);
        }
        bytes_equal(&self.numer, &other.numer) && bytes_equal(&self.denom, &other.denom)
    }

    /// Returns the product of two rationals.
    pub fn times(&self, other: &Coefficient) -> (r: Coefficient)
        ensures
            r@ == rat_mul(self@, other@),
    {
        proof {
            use_type_invariant(self);
            use_type_invariant(other);
        }
        rational_mul(self, other)
    }

    /// Returns the sum of two rationals.
    pub fn plus(&self, other: &Coefficient) -> (r: Coefficient)
        ensures
            r@ == rat_add(self@, other@),
    {
        proof {
            use_type_invariant(self);
            use_type_invariant(other);
        }
        rational_add(self, other)
    }

    /// Returns the negation of a rational.
    pub fn negated(&self) -> (r: Coefficient)
        ensures
            r@ == rat_neg(self@),
    {
        proof {
            use_type_invariant(self);
        }
        rational_neg(self)
    }
}

fn bytes_equal(a: &Vec<u8>, b: &Vec<u8>) -> (r: bool)
    ensures
        r == (a@ == b@),
{
    if a.len() != b.len() {
        return false;
    }
    let mut i: usize = 0;
    while i < a.len()
        invariant
            a@.len() == b@.len(),
            i <= a@.len(),
            forall|j: int| 0 <= j < i ==> a@[j] == b@[j],
        decreases a@.len() - i,
    {
        if a[i] != b[i] {
            return false;
        }
        i = i + 1;
    }
    assert(a@ =~= b@);
    true
}

/// `num-rational`'s `Ratio::from_integer` on a `BigInt` made from `value`:
/// the rational `value / 1`, read back as minimal byte strings.
#[verifier::external_body]
fn rational_from_integer(value: i64) -> (r: Coefficient)
    ensures
        r.wf(),
        r@ == (value as int, 1int),
{
    let r = BigRational::from_integer(BigInt::from(value));
    Coefficient { numer: r.numer().to_signed_bytes_le(), denom: r.denom().to_signed_bytes_le() }
}

/// `num-rational`'s `Mul` on two `BigRational`s in lowest terms: their
/// product, which `Ratio::new` puts in lowest terms with a positive
/// denominator, read back as minimal byte strings.
#[verifier::external_body]
fn rational_mul(a: &Coefficient, b: &Coefficient) -> (r: Coefficient)
    requires
        a.wf(),
        b.wf(),
    ensures
        r.wf(),
        r@ == rat_mul(a@, b@),
{
    let x = BigRational::new_raw(BigInt::from_signed_bytes_le(&a.numer), BigInt::from_signed_bytes_le(&a.denom));
    let y = BigRational::new_raw(BigInt::from_signed_bytes_le(&b.numer), BigInt::from_signed_bytes_le(&b.denom));
    let p = x * y;
    Coefficient { numer: p.numer().to_signed_bytes_le(), denom: p.denom().to_signed_bytes_le() }
}

/// `num-rational`'s `Add` on two `BigRational`s in lowest terms: their sum,
/// which `Ratio::new` puts in lowest terms with a positive denominator, read
/// back as minimal byte strings.
#[verifier::external_body]
fn rational_add(a: &Coefficient, b: &Coefficient) -> (r: Coefficient)
    requires
        a.wf(),
        b.wf(),
    ensures
        r.wf(),
        r@ == rat_add(a@, b@),
{
    let x = BigRational::new_raw(BigInt::from_signed_bytes_le(&a.numer), BigInt::from_signed_bytes_le(&a.denom));
    let y = BigRational::new_raw(BigInt::from_signed_bytes_le(&b.numer), BigInt::from_signed_bytes_le(&b.denom));
    let p = x + y;
    Coefficient { numer: p.numer().to_signed_bytes_le(), denom: p.denom().to_signed_bytes_le() }
}

/// `num-rational`'s `Ratio::new` on the `BigInt`s that the byte strings encode
/// (`BigInt::from_signed_bytes_le`): `numer / denom` in lowest terms with a
/// positive denominator, read back as minimal byte strings. `Ratio::new`
/// panics on a zero denominator, which `requires` rules out.
#[verifier::external_body]
fn rational_new(numer: &[u8], denom: &[u8]) -> (r: Coefficient)
    requires
        bytes_value(denom@) != 0,
    ensures
        r.wf(),
        r@ == fraction(bytes_value(numer@), bytes_value(denom@)),
{
    let p = BigRational::new(BigInt::from_signed_bytes_le(numer), BigInt::from_signed_bytes_le(denom));
    Coefficient { numer: p.numer().to_signed_bytes_le(), denom: p.denom().to_signed_bytes_le() }
}

/// `num-rational`'s `Div` on two `BigRational`s in lowest terms, the divisor
/// nonzero: their quotient, which `Ratio::new` puts in lowest terms with a
/// positive denominator, read back as minimal byte strings. A zero divisor
/// makes `Ratio::new` panic, which `requires` rules out.
#[verifier::external_body]
fn rational_div(a: &Coefficient, b: &Coefficient) -> (r: Coefficient)
    requires
        a.wf(),
        b.wf(),
        b@.0 != 0,
    ensures
        r.wf(),
        r@ == rat_div(a@, b@),
{
    let x = BigRational::new_raw(BigInt::from_signed_bytes_le(&a.numer), BigInt::from_signed_bytes_le(&a.denom));
    let y = BigRational::new_raw(BigInt::from_signed_bytes_le(&b.numer), BigInt::from_signed_bytes_le(&b.denom));
    let p = x / y;
    Coefficient { numer: p.numer().to_signed_bytes_le(), denom: p.denom().to_signed_bytes_le() }
}

/// `num-rational`'s `Neg` on a `BigRational` in lowest terms: the numerator
/// negated over the same denominator, read back as minimal byte strings.
#[verifier::external_body]
fn rational_neg(a: &Coefficient) -> (r: Coefficient)
    requires
        a.wf(),
    ensures
        r.wf(),
        r@ == rat_neg(a@),
{
    let x = BigRational::new_raw(BigInt::from_signed_bytes_le(&a.numer), BigInt::from_signed_bytes_le(&a.denom));
    let p = -x;
    Coefficient { numer: p.numer().to_signed_bytes_le(), denom: p.denom().to_signed_bytes_le() }
}

impl Clone for Coefficient {
    fn clone(&self) -> (r: Self)
        ensures
            r@ == self@,
    {
        proof {
            use_type_invariant(self);
        }
        let numer = self.numer.clone();
        let denom = self.denom.clone();
        assert(numer@ == self.numer@);
        assert(denom@ == self.denom@);
        Coefficient { numer, denom }
    }
}

// ---------------------------------------------------------------------------
// Laws of rational arithmetic.
// ---------------------------------------------------------------------------

/// Bezout coefficients and cofactors of the gcd: with `g == gcd(a, b)`,
/// `a * x + b * y == g`, `a == p * g` and `b == q * g`.
proof fn lemma_gcd_bezout(a: nat, b: nat) -> (r: (int, int, int, int))
    ensures
        a * r.0 + b * r.1 == gcd(a, b),
        a == r.2 * gcd(a, b),
        b == r.3 * gcd(a, b),
    decreases b,
{
    if b == 0 {
        (1, 0, 1, 0)
    } else {
        let t: int = (a as int) / (b as int);
        let m: int = (a as int) % (b as int);
        assert(m == a % b);
        let (x, y, p, q) = lemma_gcd_bezout(b, (a % b) as nat);
        let g = gcd(a, b) as int;
        assert(g == gcd(b, (a % b) as nat));
        assert(a == b * t + m) by {
            vstd::arithmetic::div_mod::lemma_fundamental_div_mod(a as int, b as int);
        }
        assert(a * y + b * (x - t * y) == g) by (nonlinear_arith)
            requires
                b * x + m * y == g,
                a == b * t + m,
        ;
        assert(a == (t * p + q) * g) by (nonlinear_arith)
            requires
                a == b * t + m,
                b == p * g,
                m == q * g,
        ;
        (y, x - t * y, t * p + q, p)
    }
}

/// The gcd is positive when either argument is.
proof fn lemma_gcd_positive(a: nat, b: nat)
    requires
        a > 0 || b > 0,
    ensures
        gcd(a, b) > 0,
{
    let r = lemma_gcd_bezout(a, b);
    if gcd(a, b) == 0 {
        assert(r.2 * 0 == 0 && r.3 * 0 == 0);
    }
}

/// Exact division of a multiple.
proof fn lemma_exact_div(q: int, g: int)
    requires
        g > 0,
    ensures
        (q * g) / g == q,
{
    vstd::arithmetic::div_mod::lemma_fundamental_div_mod_converse_div(q * g, g, q, 0);
}

/// Reducing `n / d` gives a rational in lowest terms with the same value.
pub proof fn lemma_reduce(n: int, d: int)
    requires
        d > 0,
    ensures
        is_reduced(reduce(n, d)),
        reduce(n, d).0 * d == n * reduce(n, d).1,
{
    let g = gcd(abs(n), abs(d)) as int;
    let (x, y, p, q) = lemma_gcd_bezout(abs(n), abs(d));
    lemma_gcd_positive(abs(n), abs(d));
    assert(abs(d) == d);
    assert(p >= 0) by (nonlinear_arith)
        requires
            abs(n) == p * g,
            g > 0,
    ;
    let pn: int = if n < 0 { -p } else { p };
    assert(n == pn * g) by (nonlinear_arith)
        requires
            abs(n) == p * g,
            pn == (if n < 0 { -p } else { p }),
            abs(n) == (if n < 0 { -n } else { n }),
    ;
    assert(d == q * g);
    lemma_exact_div(pn, g);
    lemma_exact_div(q, g);
    assert(reduce(n, d) == (pn, q));
    assert(q > 0) by (nonlinear_arith)
        requires
            d == q * g,
            d > 0,
            g > 0,
    ;
    assert(pn * d == n * q) by (nonlinear_arith)
        requires
            n == pn * g,
            d == q * g,
    ;
    assert(p * x + q * y == 1) by (nonlinear_arith)
        requires
            abs(n) * x + abs(d) * y == g,
            abs(n) == p * g,
            abs(d) == q * g,
            g > 0,
    ;
    assert(abs(pn) == p);
    let h = gcd(p as nat, q as nat) as int;
    let (x2, y2, p2, q2) = lemma_gcd_bezout(p as nat, q as nat);
    assert(h * (p2 * x + q2 * y) == 1) by (nonlinear_arith)
        requires
            p * x + q * y == 1,
            p == p2 * h,
            q == q2 * h,
    ;
    assert(h == 1) by (nonlinear_arith)
        requires
            h * (p2 * x + q2 * y) == 1,
            h >= 0,
    ;
}

/// Rationals in lowest terms with positive denominators are equal when their
/// values are.
pub proof fn lemma_reduced_unique(a: (int, int), b: (int, int))
    requires
        is_reduced(a),
        is_reduced(b),
        a.0 * b.1 == b.0 * a.1,
    ensures
        a == b,
{
    let (xa, ya, _pa, _qa) = lemma_gcd_bezout(abs(a.0), abs(a.1));
    let (xb, yb, _pb, _qb) = lemma_gcd_bezout(abs(b.0), abs(b.1));
    let sa: int = if a.0 < 0 { -xa } else { xa };
    let sb: int = if b.0 < 0 { -xb } else { xb };
    assert(a.0 * sa + a.1 * ya == 1) by (nonlinear_arith)
        requires
            abs(a.0) * xa + abs(a.1) * ya == 1,
            abs(a.1) == a.1,
            sa == (if a.0 < 0 { -xa } else { xa }),
            abs(a.0) == (if a.0 < 0 { -a.0 } else { a.0 }),
    ;
    assert(b.0 * sb + b.1 * yb == 1) by (nonlinear_arith)
        requires
            abs(b.0) * xb + abs(b.1) * yb == 1,
            abs(b.1) == b.1,
            sb == (if b.0 < 0 { -xb } else { xb }),
            abs(b.0) == (if b.0 < 0 { -b.0 } else { b.0 }),
    ;
    let k1 = b.0 * sa + b.1 * ya;
    let k2 = a.0 * sb + a.1 * yb;
    assert(b.1 == a.1 * k1) by (nonlinear_arith)
        requires
            a.0 * sa + a.1 * ya == 1,
            a.0 * b.1 == b.0 * a.1,
            k1 == b.0 * sa + b.1 * ya,
    ;
    assert(a.1 == b.1 * k2) by (nonlinear_arith)
        requires
            b.0 * sb + b.1 * yb == 1,
            a.0 * b.1 == b.0 * a.1,
            k2 == a.0 * sb + a.1 * yb,
    ;
    assert(k1 == 1) by (nonlinear_arith)
        requires
            b.1 == a.1 * k1,
            a.1 == b.1 * k2,
            a.1 > 0,
            b.1 > 0,
    ;
    assert(a.0 == b.0) by (nonlinear_arith)
        requires
            a.0 * b.1 == b.0 * a.1,
            a.1 == b.1,
            b.1 > 0,
    ;
}

/// Fractions with positive denominators and equal values reduce alike.
pub proof fn lemma_reduce_same_value(n: int, d: int, m: int, e: int)
    requires
        d > 0,
        e > 0,
        n * e == m * d,
    ensures
        reduce(n, d) == reduce(m, e),
{
    lemma_reduce(n, d);
    lemma_reduce(m, e);
    let r = reduce(n, d);
    let s = reduce(m, e);
    assert((r.0 * s.1) * (d * e) == (s.0 * r.1) * (d * e)) by (nonlinear_arith)
        requires
            r.0 * d == n * r.1,
            s.0 * e == m * s.1,
            n * e == m * d,
    ;
    assert(r.0 * s.1 == s.0 * r.1) by (nonlinear_arith)
        requires
            (r.0 * s.1) * (d * e) == (s.0 * r.1) * (d * e),
            d > 0,
            e > 0,
    ;
    lemma_reduced_unique(r, s);
}

/// Rational addition commutes.
pub proof fn lemma_rat_add_commutes(a: (int, int), b: (int, int))
    ensures
        rat_add(a, b) == rat_add(b, a),
{
    assert(a.1 * b.1 == b.1 * a.1) by (nonlinear_arith);
}

/// Adding two rationals to a third gives the same in either order.
pub proof fn lemma_rat_add_right_commutes(x: (int, int), a: (int, int), b: (int, int))
    requires
        x.1 > 0,
        a.1 > 0,
        b.1 > 0,
    ensures
        rat_add(rat_add(x, a), b) == rat_add(rat_add(x, b), a),
{
    lemma_rat_add_then(x, a, b);
    lemma_rat_add_then(x, b, a);
    lemma_three_sums(x.0, x.1, a.0, a.1, b.0, b.1);
}

proof fn lemma_three_sums(x0: int, x1: int, a0: int, a1: int, b0: int, b1: int)
    ensures
        (x0 * a1 + a0 * x1) * b1 + b0 * (x1 * a1) == (x0 * b1 + b0 * x1) * a1 + a0 * (x1 * b1),
        (x1 * a1) * b1 == (x1 * b1) * a1,
{
    vstd::arithmetic::mul::lemma_mul_is_distributive_add_other_way(b1, x0 * a1, a0 * x1);
    vstd::arithmetic::mul::lemma_mul_is_distributive_add_other_way(a1, x0 * b1, b0 * x1);
    vstd::arithmetic::mul::lemma_mul_is_associative(x0, a1, b1);
    vstd::arithmetic::mul::lemma_mul_is_associative(x0, b1, a1);
    vstd::arithmetic::mul::lemma_mul_is_commutative(a1, b1);
    vstd::arithmetic::mul::lemma_mul_is_associative(a0, x1, b1);
    vstd::arithmetic::mul::lemma_mul_is_associative(a0, x1, b1);
    vstd::arithmetic::mul::lemma_mul_is_associative(b0, x1, a1);
    vstd::arithmetic::mul::lemma_mul_is_associative(x1, a1, b1);
    vstd::arithmetic::mul::lemma_mul_is_associative(x1, b1, a1);
}

proof fn lemma_scaled_sum(s0: int, s1: int, n1: int, d1: int, b0: int, b1: int)
    requires
        s0 * d1 == n1 * s1,
    ensures
        (s0 * b1 + b0 * s1) * (d1 * b1) == (n1 * b1 + b0 * d1) * (s1 * b1),
{
    vstd::arithmetic::mul::lemma_mul_is_distributive_add_other_way(d1 * b1, s0 * b1, b0 * s1);
    vstd::arithmetic::mul::lemma_mul_is_distributive_add_other_way(s1 * b1, n1 * b1, b0 * d1);
    assert((s0 * b1) * (d1 * b1) == (s0 * d1) * (b1 * b1)) by (nonlinear_arith);
    assert((n1 * b1) * (s1 * b1) == (n1 * s1) * (b1 * b1)) by (nonlinear_arith);
    assert((b0 * s1) * (d1 * b1) == (b0 * d1) * (s1 * b1)) by (nonlinear_arith);
}

/// The sum of `x`, `a` and then `b`, as one fraction before reducing.
proof fn lemma_rat_add_then(x: (int, int), a: (int, int), b: (int, int))
    requires
        x.1 > 0,
        a.1 > 0,
        b.1 > 0,
    ensures
        rat_add(rat_add(x, a), b) == reduce((x.0 * a.1 + a.0 * x.1) * b.1 + b.0 * (x.1 * a.1), (x.1 * a.1) * b.1),
{
    let n1 = x.0 * a.1 + a.0 * x.1;
    let d1 = x.1 * a.1;
    assert(d1 > 0) by (nonlinear_arith)
        requires
            x.1 > 0,
            a.1 > 0,
            d1 == x.1 * a.1,
    ;
    lemma_reduce(n1, d1);
    let s = rat_add(x, a);
    assert(s == reduce(n1, d1));
    assert(s.1 * b.1 > 0 && d1 * b.1 > 0) by (nonlinear_arith)
        requires
            s.1 > 0,
            d1 > 0,
            b.1 > 0,
    ;
    lemma_scaled_sum(s.0, s.1, n1, d1, b.0, b.1);
    lemma_reduce_same_value(s.0 * b.1 + b.0 * s.1, s.1 * b.1, n1 * b.1 + b.0 * d1, d1 * b.1);
}

} // verus!
