//! Exact rationals with 64-bit numerator and denominator.
//!
//! Every operation computes its exact result with 128-bit intermediates,
//! reduces it to lowest terms and reports overflow when the reduced result
//! does not fit back into 64 bits.
use vstd::prelude::*;

verus! {

/// Greatest common divisor, by Euclid's recurrence.
pub open spec fn gcd(a: nat, b: nat) -> nat
    decreases b,
{
    if b == 0 {
        a
    } else {
        gcd(b, a % b)
    }
}

/// Relies on `num::integer::gcd` for `u128`: the greatest common divisor,
/// with `gcd(a, 0) == a` and `gcd(0, b) == b`.
#[verifier::external_body]
fn gcd_u128(a: u128, b: u128) -> (r: u128)
    ensures
        r == gcd(a as nat, b as nat),
{
    num::integer::gcd(a, b)
}

pub open spec fn divides(g: int, n: int) -> bool {
    exists|k: int| #[trigger] (g * k) == n
}

proof fn lemma_divides_mod(g: int, a: int, b: int)
    requires
        b > 0,
        g > 0,
        divides(g, b),
        divides(g, a % b),
        a >= 0,
    ensures
        divides(g, a),
{
    let kb = choose|k: int| #[trigger] (g * k) == b;
    let km = choose|k: int| #[trigger] (g * k) == a % b;
    vstd::arithmetic::div_mod::lemma_fundamental_div_mod(a, b);
    let q = a / b;
    assert(a == b * q + a % b);
    assert(g * (kb * q + km) == a) by (nonlinear_arith)
        requires
            g * kb == b,
            g * km == a % b,
            a == b * q + a % b,
    ;
}

/// The recurrence yields a positive common divisor.
pub proof fn lemma_gcd_divides(a: nat, b: nat)
    requires
        a > 0 || b > 0,
    ensures
        gcd(a, b) > 0,
        divides(gcd(a, b) as int, a as int),
        divides(gcd(a, b) as int, b as int),
    decreases b,
{
    if b == 0 {
        assert(gcd(a, b) * 1 == a);
        assert(gcd(a, b) * 0 == 0);
    } else {
        let r = a % b;
        lemma_gcd_divides(b, r);
        let g = gcd(b, r);
        assert(gcd(a, b) == g);
        lemma_divides_mod(g as int, a as int, b as int);
    }
}

/// Every common divisor of `a` and `b` divides their gcd.
pub proof fn lemma_divides_gcd(c: int, a: nat, b: nat)
    requires
        c > 0,
        divides(c, a as int),
        divides(c, b as int),
    ensures
        divides(c, gcd(a, b) as int),
    decreases b,
{
    if b > 0 {
        let ka = choose|k: int| #[trigger] (c * k) == a;
        let kb = choose|k: int| #[trigger] (c * k) == b;
        vstd::arithmetic::div_mod::lemma_fundamental_div_mod(a as int, b as int);
        let q = (a as int) / (b as int);
        assert(c * (ka - kb * q) == a as int % b as int) by (nonlinear_arith)
            requires
                c * ka == a,
                c * kb == b,
                a == b * q + (a as int % b as int),
        ;
        lemma_divides_gcd(c, b, (a % b) as nat);
    }
}

/// A positive multiple of `c` is at least `c`.
pub proof fn lemma_divides_le(c: int, x: int)
    requires
        c > 0,
        x > 0,
        divides(c, x),
    ensures
        c <= x,
{
    let k = choose|k: int| #[trigger] (c * k) == x;
    assert(c <= x) by (nonlinear_arith)
        requires
            c * k == x,
            c > 0,
            x > 0,
    ;
}

/// `n / d` is in lowest terms.
pub open spec fn coprime(n: int, d: int) -> bool {
    gcd(abs(n), d as nat) == 1
}

/// An exact rational in pair form: numerator and positive denominator.
pub type Q = (int, int);

pub open spec fn qeq(a: Q, b: Q) -> bool {
    a.0 * b.1 == b.0 * a.1
}

pub open spec fn qle(a: Q, b: Q) -> bool {
    a.0 * b.1 <= b.0 * a.1
}

pub open spec fn qlt(a: Q, b: Q) -> bool {
    a.0 * b.1 < b.0 * a.1
}

pub open spec fn qadd(a: Q, b: Q) -> Q {
    (a.0 * b.1 + b.0 * a.1, a.1 * b.1)
}

pub open spec fn qsub(a: Q, b: Q) -> Q {
    (a.0 * b.1 - b.0 * a.1, a.1 * b.1)
}

pub open spec fn qmul(a: Q, b: Q) -> Q {
    (a.0 * b.0, a.1 * b.1)
}

/// Quotient `a / b`, with the sign moved to the numerator.
pub open spec fn qdiv(a: Q, b: Q) -> Q {
    if b.0 >= 0 {
        (a.0 * b.1, a.1 * b.0)
    } else {
        (-(a.0 * b.1), -(a.1 * b.0))
    }
}

pub open spec fn qint(n: int) -> Q {
    (n, 1)
}

pub open spec fn abs(n: int) -> nat {
    if n >= 0 {
        n as nat
    } else {
        (-n) as nat
    }
}

/// Lowest-terms form of `n / d` (for `d > 0`).
pub open spec fn canon(n: int, d: int) -> Q {
    let g = gcd(abs(n), d as nat) as int;
    if n >= 0 {
        (n / g, d / g)
    } else {
        (-((-n) / g), d / g)
    }
}

pub open spec fn fits64(n: int) -> bool {
    i64::MIN <= n <= i64::MAX
}

/// The reduced form of `n / d` when both of its parts fit in 64 bits.
pub open spec fn reduce_fit(n: int, d: int) -> Option<Frac> {
    let c = canon(n, d);
    if fits64(c.0) && fits64(c.1) {
        Some(Frac { num: c.0 as i64, den: c.1 as i64 })
    } else {
        None
    }
}

pub open spec fn fadd(a: Frac, b: Frac) -> Option<Frac> {
    reduce_fit(qadd(a@, b@).0, qadd(a@, b@).1)
}

pub open spec fn fsub(a: Frac, b: Frac) -> Option<Frac> {
    reduce_fit(qsub(a@, b@).0, qsub(a@, b@).1)
}

pub open spec fn fmul(a: Frac, b: Frac) -> Option<Frac> {
    reduce_fit(qmul(a@, b@).0, qmul(a@, b@).1)
}

/// Quotient; `None` for a zero divisor.
pub open spec fn fdiv(a: Frac, b: Frac) -> Option<Frac> {
    if b.num == 0 {
        None
    } else {
        reduce_fit(qdiv(a@, b@).0, qdiv(a@, b@).1)
    }
}

pub open spec fn fle(a: Frac, b: Frac) -> bool {
    qle(a@, b@)
}

pub open spec fn flt(a: Frac, b: Frac) -> bool {
    qlt(a@, b@)
}

/// The smaller of two values, the first on a tie.
pub open spec fn fmin(a: Frac, b: Frac) -> Frac {
    if fle(a, b) {
        a
    } else {
        b
    }
}

/// The larger of two values, the first on a tie.
pub open spec fn fmax(a: Frac, b: Frac) -> Frac {
    if fle(b, a) {
        a
    } else {
        b
    }
}

pub open spec fn fint(n: int) -> Frac {
    Frac { num: n as i64, den: 1 }
}

/// A computation whose exact result, or an intermediate value, does not fit in 64 bits.
#[derive(Clone, Copy, Debug, PartialEq, Eq, Structural)]
pub struct Overflow;

/// An exact rational number `num / den`.
#[derive(Clone, Copy, Debug, PartialEq, Eq, Structural)]
pub struct Frac {
    pub num: i64,
    pub den: i64,
}

impl View for Frac {
    type V = Q;

    open spec fn view(&self) -> Q {
        (self.num as int, self.den as int)
    }
}

impl Frac {
    /// A positive denominator, and lowest terms.
    pub open spec fn wf(&self) -> bool {
        self.den > 0 && coprime(self.num as int, self.den as int)
    }
}

proof fn lemma_exact_div(n: nat, g: nat)
    requires
        g > 0,
        divides(g as int, n as int),
    ensures
        (n / g) * g == n,
{
    let k = choose|k: int| #[trigger] (g * k) == n;
    assert(k >= 0) by (nonlinear_arith)
        requires
            g * k == n,
            g > 0,
            n >= 0,
    ;
    vstd::arithmetic::div_mod::lemma_div_multiples_vanish(k, g as int);
    assert(g * k == k * g) by (nonlinear_arith);
}

/// The reduced form has a positive denominator and the same value.
pub proof fn lemma_canon(n: int, d: int)
    requires
        d > 0,
    ensures
        canon(n, d).1 > 0,
        qeq(canon(n, d), (n, d)),
        n >= 0 ==> 0 <= canon(n, d).0 <= n,
        n < 0 ==> n <= canon(n, d).0 <= 0,
        canon(n, d).1 <= d,
        coprime(canon(n, d).0, canon(n, d).1),
{
    let g = gcd(abs(n), d as nat);
    lemma_gcd_divides(abs(n), d as nat);
    lemma_exact_div(abs(n), g);
    lemma_exact_div(d as nat, g);
    let a = abs(n) / g;
    let e = (d as nat) / g;
    assert(e > 0) by (nonlinear_arith)
        requires
            e * g == d,
            d > 0,
            g > 0,
    ;
    assert(a <= abs(n) && e <= d) by (nonlinear_arith)
        requires
            a * g == abs(n),
            e * g == d,
            g > 0,
    ;
    assert(a * d == abs(n) * e) by (nonlinear_arith)
        requires
            a * g == abs(n),
            e * g == d,
    ;
    // The gcd `c` of the reduced parts times `g` divides both `|n|` and `d`,
    // hence `g`; so `c` is 1.
    let c = gcd(a, e);
    lemma_gcd_divides(a, e);
    let ca = choose|k: int| #[trigger] (c * k) == a;
    let ce = choose|k: int| #[trigger] (c * k) == e;
    assert((c * g) * ca == abs(n) && (c * g) * ce == d) by (nonlinear_arith)
        requires
            c * ca == a,
            c * ce == e,
            a * g == abs(n),
            e * g == d,
    ;
    assert(c * g > 0) by (nonlinear_arith)
        requires
            c > 0,
            g > 0,
    ;
    lemma_divides_gcd((c * g) as int, abs(n), d as nat);
    lemma_divides_le((c * g) as int, g as int);
    assert(c == 1) by (nonlinear_arith)
        requires
            c * g <= g,
            c > 0,
            g > 0,
    ;
    if n >= 0 {
        assert(canon(n, d) == (a as int, e as int));
    } else {
        assert(canon(n, d) == (-a, e as int));
        assert((-a) * d == n * e) by (nonlinear_arith)
            requires
                a * d == abs(n) * e,
                abs(n) == -n,
        ;
    }
}

pub proof fn lemma_reduce_fit(n: int, d: int)
    requires
        d > 0,
    ensures
        reduce_fit(n, d) matches Some(f) ==> f.wf() && qeq(f@, (n, d)),
        fits64(n) && fits64(d) ==> reduce_fit(n, d) is Some,
{
    lemma_canon(n, d);
}

pub proof fn lemma_qeq_refl(a: Q)
    ensures
        qeq(a, a),
{
}

/// Equality of values is transitive through a middle term with a positive denominator.
pub proof fn lemma_qeq_trans(a: Q, b: Q, c: Q)
    requires
        b.1 > 0,
        qeq(a, b),
        qeq(b, c),
    ensures
        qeq(a, c),
{
    assert(a.0 * c.1 * b.1 == c.0 * a.1 * b.1) by (nonlinear_arith)
        requires
            a.0 * b.1 == b.0 * a.1,
            b.0 * c.1 == c.0 * b.1,
    ;
    assert(a.0 * c.1 == c.0 * a.1) by (nonlinear_arith)
        requires
            a.0 * c.1 * b.1 == c.0 * a.1 * b.1,
            b.1 > 0,
    ;
}

pub proof fn lemma_qadd_cong(a: Q, a2: Q, b: Q, b2: Q)
    requires
        a.1 > 0,
        a2.1 > 0,
        b.1 > 0,
        b2.1 > 0,
        qeq(a, a2),
        qeq(b, b2),
    ensures
        qeq(qadd(a, b), qadd(a2, b2)),
        qadd(a, b).1 > 0,
{
    let (x0, x1) = a;
    let (y0, y1) = b;
    let (u0, u1) = a2;
    let (v0, v1) = b2;
    vstd::arithmetic::mul::lemma_mul_is_distributive_add_other_way(u1 * v1, x0 * y1, y0 * x1);
    vstd::arithmetic::mul::lemma_mul_is_distributive_add_other_way(x1 * y1, u0 * v1, v0 * u1);
    assert((x0 * y1) * (u1 * v1) == (x0 * u1) * (y1 * v1)) by (nonlinear_arith);
    assert((y0 * x1) * (u1 * v1) == (y0 * v1) * (x1 * u1)) by (nonlinear_arith);
    assert((u0 * v1) * (x1 * y1) == (u0 * x1) * (y1 * v1)) by (nonlinear_arith);
    assert((v0 * u1) * (x1 * y1) == (v0 * y1) * (x1 * u1)) by (nonlinear_arith);
    assert((x0 * u1) * (y1 * v1) == (u0 * x1) * (y1 * v1));
    assert((y0 * v1) * (x1 * u1) == (v0 * y1) * (x1 * u1));
    assert(a.1 * b.1 > 0) by (nonlinear_arith)
        requires
            a.1 > 0,
            b.1 > 0,
    ;
}

pub proof fn lemma_qsub_cong(a: Q, a2: Q, b: Q, b2: Q)
    requires
        a.1 > 0,
        a2.1 > 0,
        b.1 > 0,
        b2.1 > 0,
        qeq(a, a2),
        qeq(b, b2),
    ensures
        qeq(qsub(a, b), qsub(a2, b2)),
        qsub(a, b).1 > 0,
{
    let (x0, x1) = a;
    let (y0, y1) = b;
    let (u0, u1) = a2;
    let (v0, v1) = b2;
    vstd::arithmetic::mul::lemma_mul_is_distributive_sub_other_way(u1 * v1, x0 * y1, y0 * x1);
    vstd::arithmetic::mul::lemma_mul_is_distributive_sub_other_way(x1 * y1, u0 * v1, v0 * u1);
    assert((x0 * y1) * (u1 * v1) == (x0 * u1) * (y1 * v1)) by (nonlinear_arith);
    assert((y0 * x1) * (u1 * v1) == (y0 * v1) * (x1 * u1)) by (nonlinear_arith);
    assert((u0 * v1) * (x1 * y1) == (u0 * x1) * (y1 * v1)) by (nonlinear_arith);
    assert((v0 * u1) * (x1 * y1) == (v0 * y1) * (x1 * u1)) by (nonlinear_arith);
    assert((x0 * u1) * (y1 * v1) == (u0 * x1) * (y1 * v1));
    assert((y0 * v1) * (x1 * u1) == (v0 * y1) * (x1 * u1));
    assert(a.1 * b.1 > 0) by (nonlinear_arith)
        requires
            a.1 > 0,
            b.1 > 0,
    ;
}

pub proof fn lemma_qmul_cong(a: Q, a2: Q, b: Q, b2: Q)
    requires
        a.1 > 0,
        a2.1 > 0,
        b.1 > 0,
        b2.1 > 0,
        qeq(a, a2),
        qeq(b, b2),
    ensures
        qeq(qmul(a, b), qmul(a2, b2)),
        qmul(a, b).1 > 0,
{
    let (x0, x1) = a;
    let (y0, y1) = b;
    let (u0, u1) = a2;
    let (v0, v1) = b2;
    assert((x0 * y0) * (u1 * v1) == (x0 * u1) * (y0 * v1)) by (nonlinear_arith);
    assert((u0 * v0) * (x1 * y1) == (u0 * x1) * (v0 * y1)) by (nonlinear_arith);
    assert(a.1 * b.1 > 0) by (nonlinear_arith)
        requires
            a.1 > 0,
            b.1 > 0,
    ;
}

/// Division by a positive value respects equality of values.
pub proof fn lemma_qdiv_cong(a: Q, a2: Q, b: Q, b2: Q)
    requires
        a.1 > 0,
        a2.1 > 0,
        b.1 > 0,
        b2.1 > 0,
        b.0 > 0,
        b2.0 > 0,
        qeq(a, a2),
        qeq(b, b2),
    ensures
        qeq(qdiv(a, b), qdiv(a2, b2)),
        qdiv(a, b).1 > 0,
{
    let (x0, x1) = a;
    let (y0, y1) = b;
    let (u0, u1) = a2;
    let (v0, v1) = b2;
    assert((x0 * y1) * (u1 * v0) == (x0 * u1) * (y1 * v0)) by (nonlinear_arith);
    assert((u0 * v1) * (x1 * y0) == (u0 * x1) * (v1 * y0)) by (nonlinear_arith);
    assert((y0 * v1) * (x1 * u1) == (v0 * y1) * (x1 * u1)) by (nonlinear_arith)
        requires
            y0 * v1 == v0 * y1,
    ;
    assert((x0 * u1) * (y1 * v0) == (u0 * x1) * (v1 * y0)) by (nonlinear_arith)
        requires
            x0 * u1 == u0 * x1,
            y0 * v1 == v0 * y1,
    ;
    assert(a.1 * b.0 > 0) by (nonlinear_arith)
        requires
            a.1 > 0,
            b.0 > 0,
    ;
}

/// The exact operations keep denominators positive.
pub proof fn lemma_dens(a: Q, b: Q)
    requires
        a.1 > 0,
        b.1 > 0,
    ensures
        qadd(a, b).1 > 0,
        qsub(a, b).1 > 0,
        qmul(a, b).1 > 0,
        b.0 > 0 ==> qdiv(a, b).1 > 0,
{
    assert(a.1 * b.1 > 0) by (nonlinear_arith)
        requires
            a.1 > 0,
            b.1 > 0,
    ;
    if b.0 > 0 {
        assert(a.1 * b.0 > 0) by (nonlinear_arith)
            requires
                a.1 > 0,
                b.0 > 0,
        ;
    }
}

/// `a + (b - a)` equals `b`.
pub proof fn lemma_add_diff(a: Q, b: Q)
    requires
        a.1 > 0,
        b.1 > 0,
    ensures
        qeq(qadd(a, qsub(b, a)), b),
{
    let (a0, a1) = a;
    let (b0, b1) = b;
    let u = a0 * (b1 * a1);
    let w = (b0 * a1 - a0 * b1) * a1;
    vstd::arithmetic::mul::lemma_mul_is_distributive_sub_other_way(a1, b0 * a1, a0 * b1);
    assert(a0 * (b1 * a1) == (a0 * b1) * a1) by (nonlinear_arith);
    assert(u + w == (b0 * a1) * a1);
    assert(qadd(a, qsub(b, a)) == (u + w, a1 * (b1 * a1)));
    assert(((b0 * a1) * a1) * b1 == b0 * (a1 * (b1 * a1))) by (nonlinear_arith);
}

/// Order of values is transitive.
pub proof fn lemma_qle_trans(a: Q, b: Q, c: Q)
    requires
        a.1 > 0,
        b.1 > 0,
        c.1 > 0,
        qle(a, b),
        qle(b, c),
    ensures
        qle(a, c),
{
    assert(a.0 * b.1 * c.1 <= b.0 * a.1 * c.1) by (nonlinear_arith)
        requires
            a.0 * b.1 <= b.0 * a.1,
            c.1 > 0,
    ;
    assert(b.0 * c.1 * a.1 <= c.0 * b.1 * a.1) by (nonlinear_arith)
        requires
            b.0 * c.1 <= c.0 * b.1,
            a.1 > 0,
    ;
    assert(a.0 * c.1 * b.1 <= c.0 * a.1 * b.1) by (nonlinear_arith)
        requires
            a.0 * b.1 * c.1 <= b.0 * a.1 * c.1,
            b.0 * c.1 * a.1 <= c.0 * b.1 * a.1,
    ;
    assert(a.0 * c.1 <= c.0 * a.1) by (nonlinear_arith)
        requires
            a.0 * c.1 * b.1 <= c.0 * a.1 * b.1,
            b.1 > 0,
    ;
}

/// Subtracting the same value keeps the order.
pub proof fn lemma_qsub_mono(a: Q, b: Q, c: Q)
    requires
        a.1 > 0,
        b.1 > 0,
        c.1 > 0,
        qle(a, b),
    ensures
        qle(qsub(a, c), qsub(b, c)),
{
    let (a0, a1) = a;
    let (b0, b1) = b;
    let (c0, c1) = c;
    let k = c1 * c1;
    assert(k > 0) by (nonlinear_arith)
        requires
            c1 > 0,
            k == c1 * c1,
    ;
    assert(a0 * b1 * k <= b0 * a1 * k) by (nonlinear_arith)
        requires
            a0 * b1 <= b0 * a1,
            k > 0,
    ;
    vstd::arithmetic::mul::lemma_mul_is_distributive_sub_other_way(b1 * c1, a0 * c1, c0 * a1);
    vstd::arithmetic::mul::lemma_mul_is_distributive_sub_other_way(a1 * c1, b0 * c1, c0 * b1);
    assert((a0 * c1) * (b1 * c1) == a0 * b1 * k) by (nonlinear_arith)
        requires
            k == c1 * c1,
    ;
    assert((b0 * c1) * (a1 * c1) == b0 * a1 * k) by (nonlinear_arith)
        requires
            k == c1 * c1,
    ;
    assert((c0 * a1) * (b1 * c1) == (c0 * b1) * (a1 * c1)) by (nonlinear_arith);
}

/// Adding the same value keeps the order.
pub proof fn lemma_qadd_mono(c: Q, a: Q, b: Q)
    requires
        a.1 > 0,
        b.1 > 0,
        c.1 > 0,
        qle(a, b),
    ensures
        qle(qadd(c, a), qadd(c, b)),
{
    let (a0, a1) = a;
    let (b0, b1) = b;
    let (c0, c1) = c;
    let k = c1 * c1;
    assert(k > 0) by (nonlinear_arith)
        requires
            c1 > 0,
            k == c1 * c1,
    ;
    assert(a0 * b1 * k <= b0 * a1 * k) by (nonlinear_arith)
        requires
            a0 * b1 <= b0 * a1,
            k > 0,
    ;
    vstd::arithmetic::mul::lemma_mul_is_distributive_add_other_way(c1 * b1, c0 * a1, a0 * c1);
    vstd::arithmetic::mul::lemma_mul_is_distributive_add_other_way(c1 * a1, c0 * b1, b0 * c1);
    assert((a0 * c1) * (c1 * b1) == a0 * b1 * k) by (nonlinear_arith)
        requires
            k == c1 * c1,
    ;
    assert((b0 * c1) * (c1 * a1) == b0 * a1 * k) by (nonlinear_arith)
        requires
            k == c1 * c1,
    ;
    assert((c0 * a1) * (c1 * b1) == (c0 * b1) * (c1 * a1)) by (nonlinear_arith);
}

/// Multiplying by a non-negative value keeps the order.
pub proof fn lemma_qmul_mono(a: Q, b: Q, c: Q)
    requires
        a.1 > 0,
        b.1 > 0,
        c.1 > 0,
        c.0 >= 0,
        qle(a, b),
    ensures
        qle(qmul(a, c), qmul(b, c)),
{
    let (a0, a1) = a;
    let (b0, b1) = b;
    let (c0, c1) = c;
    let k = c0 * c1;
    assert(k >= 0) by (nonlinear_arith)
        requires
            c0 >= 0,
            c1 > 0,
            k == c0 * c1,
    ;
    assert(a0 * b1 * k <= b0 * a1 * k) by (nonlinear_arith)
        requires
            a0 * b1 <= b0 * a1,
            k >= 0,
    ;
    assert((a0 * c0) * (b1 * c1) == a0 * b1 * k) by (nonlinear_arith)
        requires
            k == c0 * c1,
    ;
    assert((b0 * c0) * (a1 * c1) == b0 * a1 * k) by (nonlinear_arith)
        requires
            k == c0 * c1,
    ;
}

/// Dividing by a positive value keeps the order.
pub proof fn lemma_qdiv_mono(a: Q, b: Q, c: Q)
    requires
        a.1 > 0,
        b.1 > 0,
        c.1 > 0,
        c.0 > 0,
        qle(a, b),
    ensures
        qle(qdiv(a, c), qdiv(b, c)),
{
    let (a0, a1) = a;
    let (b0, b1) = b;
    let (c0, c1) = c;
    let k = c0 * c1;
    assert(k > 0) by (nonlinear_arith)
        requires
            c0 > 0,
            c1 > 0,
            k == c0 * c1,
    ;
    assert(a0 * b1 * k <= b0 * a1 * k) by (nonlinear_arith)
        requires
            a0 * b1 <= b0 * a1,
            k > 0,
    ;
    assert((a0 * c1) * (b1 * c0) == a0 * b1 * k) by (nonlinear_arith)
        requires
            k == c0 * c1,
    ;
    assert((b0 * c1) * (a1 * c0) == b0 * a1 * k) by (nonlinear_arith)
        requires
            k == c0 * c1,
    ;
}

/// A checked sum of values equal to `xq` and `yq` equals `xq + yq`.
pub proof fn lemma_fadd_of(x: Frac, y: Frac, xq: Q, yq: Q)
    requires
        x.wf(),
        y.wf(),
        xq.1 > 0,
        yq.1 > 0,
        qeq(x@, xq),
        qeq(y@, yq),
    ensures
        fadd(x, y) matches Some(r) ==> r.wf() && qeq(r@, qadd(xq, yq)) && qadd(xq, yq).1 > 0,
{
    lemma_ops_exact(x, y);
    lemma_qadd_cong(x@, xq, y@, yq);
    lemma_dens(xq, yq);
    if let Some(r) = fadd(x, y) {
        lemma_qeq_trans(r@, qadd(x@, y@), qadd(xq, yq));
    }
}

/// A checked difference of values equal to `xq` and `yq` equals `xq - yq`.
pub proof fn lemma_fsub_of(x: Frac, y: Frac, xq: Q, yq: Q)
    requires
        x.wf(),
        y.wf(),
        xq.1 > 0,
        yq.1 > 0,
        qeq(x@, xq),
        qeq(y@, yq),
    ensures
        fsub(x, y) matches Some(r) ==> r.wf() && qeq(r@, qsub(xq, yq)) && qsub(xq, yq).1 > 0,
{
    lemma_ops_exact(x, y);
    lemma_qsub_cong(x@, xq, y@, yq);
    lemma_dens(xq, yq);
    if let Some(r) = fsub(x, y) {
        lemma_qeq_trans(r@, qsub(x@, y@), qsub(xq, yq));
    }
}

/// A checked product of values equal to `xq` and `yq` equals `xq * yq`.
pub proof fn lemma_fmul_of(x: Frac, y: Frac, xq: Q, yq: Q)
    requires
        x.wf(),
        y.wf(),
        xq.1 > 0,
        yq.1 > 0,
        qeq(x@, xq),
        qeq(y@, yq),
    ensures
        fmul(x, y) matches Some(r) ==> r.wf() && qeq(r@, qmul(xq, yq)) && qmul(xq, yq).1 > 0,
{
    lemma_ops_exact(x, y);
    lemma_qmul_cong(x@, xq, y@, yq);
    lemma_dens(xq, yq);
    if let Some(r) = fmul(x, y) {
        lemma_qeq_trans(r@, qmul(x@, y@), qmul(xq, yq));
    }
}

/// A checked quotient by a positive value equal to `yq` equals `xq / yq`.
pub proof fn lemma_fdiv_of(x: Frac, y: Frac, xq: Q, yq: Q)
    requires
        x.wf(),
        y.wf(),
        xq.1 > 0,
        yq.1 > 0,
        yq.0 > 0,
        qeq(x@, xq),
        qeq(y@, yq),
    ensures
        y.num > 0,
        fdiv(x, y) matches Some(r) ==> r.wf() && qeq(r@, qdiv(xq, yq)) && qdiv(xq, yq).1 > 0,
{
    assert(y.num > 0) by (nonlinear_arith)
        requires
            y.num * yq.1 == yq.0 * y.den,
            yq.0 > 0,
            yq.1 > 0,
            y.den > 0,
    ;
    lemma_ops_exact(x, y);
    lemma_qdiv_cong(x@, xq, y@, yq);
    lemma_dens(xq, yq);
    if let Some(r) = fdiv(x, y) {
        lemma_qeq_trans(r@, qdiv(x@, y@), qdiv(xq, yq));
    }
}

/// Order respects equality of values.
pub proof fn lemma_qle_cong(a: Q, a2: Q, b: Q, b2: Q)
    requires
        a.1 > 0,
        a2.1 > 0,
        b.1 > 0,
        b2.1 > 0,
        qeq(a, a2),
        qeq(b, b2),
    ensures
        qle(a, b) == qle(a2, b2),
        qlt(a, b) == qlt(a2, b2),
{
    // a0/a1 <= b0/b1 iff a0 b1 <= b0 a1; scale by a2.1 * b2.1 > 0.
    let k = a2.1 * b2.1;
    assert(k > 0) by (nonlinear_arith)
        requires
            a2.1 > 0,
            b2.1 > 0,
            k == a2.1 * b2.1,
    ;
    let j = a.1 * b.1;
    assert(j > 0) by (nonlinear_arith)
        requires
            a.1 > 0,
            b.1 > 0,
            j == a.1 * b.1,
    ;
    assert(a.0 * b.1 * k == a2.0 * b2.1 * j) by (nonlinear_arith)
        requires
            a.0 * a2.1 == a2.0 * a.1,
            k == a2.1 * b2.1,
            j == a.1 * b.1,
    ;
    assert(b.0 * a.1 * k == b2.0 * a2.1 * j) by (nonlinear_arith)
        requires
            b.0 * b2.1 == b2.0 * b.1,
            k == a2.1 * b2.1,
            j == a.1 * b.1,
    ;
    assert((a.0 * b.1 <= b.0 * a.1) == (a.0 * b.1 * k <= b.0 * a.1 * k)) by (nonlinear_arith)
        requires
            k > 0,
    ;
    assert((a2.0 * b2.1 <= b2.0 * a2.1) == (a2.0 * b2.1 * j <= b2.0 * a2.1 * j)) by (nonlinear_arith)
        requires
            j > 0,
    ;
    assert((a.0 * b.1 < b.0 * a.1) == (a.0 * b.1 * k < b.0 * a.1 * k)) by (nonlinear_arith)
        requires
            k > 0,
    ;
    assert((a2.0 * b2.1 < b2.0 * a2.1) == (a2.0 * b2.1 * j < b2.0 * a2.1 * j)) by (nonlinear_arith)
        requires
            j > 0,
    ;
}

/// The reduced results of the checked operations equal the exact ones in value.
pub proof fn lemma_ops_exact(a: Frac, b: Frac)
    requires
        a.wf(),
        b.wf(),
    ensures
        fadd(a, b) matches Some(f) ==> f.wf() && qeq(f@, qadd(a@, b@)) && qadd(a@, b@).1 > 0,
        fsub(a, b) matches Some(f) ==> f.wf() && qeq(f@, qsub(a@, b@)) && qsub(a@, b@).1 > 0,
        fmul(a, b) matches Some(f) ==> f.wf() && qeq(f@, qmul(a@, b@)) && qmul(a@, b@).1 > 0,
        fdiv(a, b) matches Some(f) ==> f.wf() && qeq(f@, qdiv(a@, b@)) && qdiv(a@, b@).1 > 0,
{
    assert(a.den * b.den > 0) by (nonlinear_arith)
        requires
            a.den > 0,
            b.den > 0,
    ;
    lemma_reduce_fit(qadd(a@, b@).0, qadd(a@, b@).1);
    lemma_reduce_fit(qsub(a@, b@).0, qsub(a@, b@).1);
    lemma_reduce_fit(qmul(a@, b@).0, qmul(a@, b@).1);
    if b.num != 0 {
        if b.num > 0 {
            assert(a.den * b.num > 0) by (nonlinear_arith)
                requires
                    a.den > 0,
                    b.num > 0,
            ;
        } else {
            assert(-(a.den * b.num) > 0) by (nonlinear_arith)
                requires
                    a.den > 0,
                    b.num < 0,
            ;
        }
        lemma_reduce_fit(qdiv(a@, b@).0, qdiv(a@, b@).1);
    }
}

/// Zero reduces to `0 / 1`.
pub proof fn lemma_canon_zero(d: int)
    requires
        d > 0,
    ensures
        canon(0, d) == (0int, 1int),
{
    reveal_with_fuel(gcd, 2);
    assert(gcd(0, d as nat) == d);
    vstd::arithmetic::div_mod::lemma_div_basics(d);
}

/// A value over itself reduces to `1 / 1`.
pub proof fn lemma_canon_self(d: int)
    requires
        d > 0,
    ensures
        canon(d, d) == (1int, 1int),
{
    reveal_with_fuel(gcd, 2);
    assert(gcd(d as nat, d as nat) == d);
    vstd::arithmetic::div_mod::lemma_div_basics(d);
}

/// Integers are in lowest terms.
pub proof fn lemma_fint(n: int)
    requires
        fits64(n),
    ensures
        fint(n)@ == (n, 1int),
        fint(n).wf(),
{
    reveal_with_fuel(gcd, 2);
    assert(abs(n) % 1 == 0);
}

pub proof fn lemma_fint_view()
    ensures
        fint(0)@ == (0int, 1int),
        fint(1)@ == (1int, 1int),
        fint(0).wf(),
        fint(1).wf(),
{
    lemma_fint(0);
    lemma_fint(1);
}

/// `0 / d` becomes zero and `d / d` becomes one.
pub proof fn lemma_reduce_zero_one(d: int)
    requires
        d > 0,
    ensures
        reduce_fit(0, d) == Some(fint(0)),
        reduce_fit(d, d) == Some(fint(1)),
{
    lemma_canon_zero(d);
    lemma_canon_self(d);
    lemma_fint_view();
}

/// Reduces `n / d` and narrows it to 64 bits.
fn reduce(n: i128, d: i128) -> (r: Option<Frac>)
    requires
        d > 0,
        n > i128::MIN,
    ensures
        r == reduce_fit(n as int, d as int),
{
    let mag: u128 = if n < 0 {
        (-n) as u128
    } else {
        n as u128
    };
    assert(mag == abs(n as int));
    let g = gcd_u128(mag, d as u128);
    proof {
        lemma_gcd_divides(mag as nat, d as nat);
    }
    let rn = mag / g;
    let rd = (d as u128) / g;
    if rd > i64::MAX as u128 {
        return None;
    }
    if n >= 0 {
        if rn > i64::MAX as u128 {
            None
        } else {
            Some(Frac { num: rn as i64, den: rd as i64 })
        }
    } else {
        if rn > 0x8000_0000_0000_0000u128 {
            None
        } else {
            let neg: i128 = -(rn as i128);
            Some(Frac { num: neg as i64, den: rd as i64 })
        }
    }
}

proof fn lemma_mul_bound(x: int, y: int)
    requires
        -0x8000_0000_0000_0000 <= x <= 0x8000_0000_0000_0000,
        -0x7fff_ffff_ffff_ffff <= y <= 0x7fff_ffff_ffff_ffff,
    ensures
        -0x3fff_ffff_ffff_ffff_8000_0000_0000_0000 <= x * y <= 0x3fff_ffff_ffff_ffff_8000_0000_0000_0000,
{
    assert(-0x3fff_ffff_ffff_ffff_8000_0000_0000_0000 <= x * y <= 0x3fff_ffff_ffff_ffff_8000_0000_0000_0000)
        by (nonlinear_arith)
        requires
            -0x8000_0000_0000_0000 <= x <= 0x8000_0000_0000_0000,
            -0x7fff_ffff_ffff_ffff <= y <= 0x7fff_ffff_ffff_ffff,
    ;
}

impl Frac {
    /// `num / den` in lowest terms; `None` for a zero denominator or when
    /// the reduced value needs more than 64 bits.
    pub fn new(num: i64, den: i64) -> (r: Option<Frac>)
        ensures
            den == 0 ==> r is None,
            den > 0 ==> r == reduce_fit(num as int, den as int),
            den < 0 ==> r == reduce_fit(-num, -den),
            r matches Some(f) ==> f.wf() && qeq(f@, (num as int, den as int)),
    {
        if den == 0 {
            return None;
        }
        let r = if den > 0 {
            reduce(num as i128, den as i128)
        } else {
            reduce(-(num as i128), -(den as i128))
        };
        proof {
            if den > 0 {
                lemma_reduce_fit(num as int, den as int);
            } else {
                lemma_reduce_fit(-num, -den);
                if let Some(f) = r {
                    assert(f.num * den == num * f.den) by (nonlinear_arith)
                        requires
                            f.num * (-den) == (-num) * f.den,
                    ;
                }
            }
        }
        r
    }

    /// The integer `n`.
    pub fn from_int(n: i64) -> (r: Frac)
        ensures
            r.wf(),
            r@ == qint(n as int),
            r == fint(n as int),
    {
        proof {
            lemma_fint(n as int);
        }
        Frac { num: n, den: 1 }
    }

    pub fn zero() -> (r: Frac)
        ensures
            r.wf(),
            r@ == qint(0),
            r == fint(0),
    {
        proof {
            lemma_fint(0);
        }
        Frac { num: 0, den: 1 }
    }

    /// Exact sum, reduced; `None` when it does not fit.
    pub fn add(&self, o: &Frac) -> (r: Option<Frac>)
        requires
            self.wf(),
            o.wf(),
        ensures
            r == fadd(*self, *o),
            r matches Some(f) ==> f.wf() && qeq(f@, qadd(self@, o@)),
    {
        proof {
            lemma_mul_bound(self.num as int, o.den as int);
            lemma_mul_bound(o.num as int, self.den as int);
            lemma_mul_bound(self.den as int, o.den as int);
            assert(self.den * o.den > 0) by (nonlinear_arith)
                requires
                    self.den > 0,
                    o.den > 0,
            ;
            lemma_reduce_fit(qadd(self@, o@).0, qadd(self@, o@).1);
        }
        let n = (self.num as i128) * (o.den as i128) + (o.num as i128) * (self.den as i128);
        let d = (self.den as i128) * (o.den as i128);
        reduce(n, d)
    }

    /// Exact difference, reduced; `None` when it does not fit.
    pub fn sub(&self, o: &Frac) -> (r: Option<Frac>)
        requires
            self.wf(),
            o.wf(),
        ensures
            r == fsub(*self, *o),
            r matches Some(f) ==> f.wf() && qeq(f@, qsub(self@, o@)),
    {
        proof {
            lemma_mul_bound(self.num as int, o.den as int);
            lemma_mul_bound(o.num as int, self.den as int);
            lemma_mul_bound(self.den as int, o.den as int);
            assert(self.den * o.den > 0) by (nonlinear_arith)
                requires
                    self.den > 0,
                    o.den > 0,
            ;
            lemma_reduce_fit(qsub(self@, o@).0, qsub(self@, o@).1);
        }
        let n = (self.num as i128) * (o.den as i128) - (o.num as i128) * (self.den as i128);
        let d = (self.den as i128) * (o.den as i128);
        reduce(n, d)
    }

    /// Exact product, reduced; `None` when it does not fit.
    pub fn mul(&self, o: &Frac) -> (r: Option<Frac>)
        requires
            self.wf(),
            o.wf(),
        ensures
            r == fmul(*self, *o),
            r matches Some(f) ==> f.wf() && qeq(f@, qmul(self@, o@)),
    {
        proof {
            assert(-0x4000_0000_0000_0000_0000_0000_0000_0000 <= self.num * o.num <= 0x4000_0000_0000_0000_0000_0000_0000_0000)
                by (nonlinear_arith)
                requires
                    -0x8000_0000_0000_0000 <= self.num <= 0x7fff_ffff_ffff_ffff,
                    -0x8000_0000_0000_0000 <= o.num <= 0x7fff_ffff_ffff_ffff,
            ;
            lemma_mul_bound(self.den as int, o.den as int);
            assert(self.den * o.den > 0) by (nonlinear_arith)
                requires
                    self.den > 0,
                    o.den > 0,
            ;
            lemma_reduce_fit(qmul(self@, o@).0, qmul(self@, o@).1);
        }
        let n = (self.num as i128) * (o.num as i128);
        let d = (self.den as i128) * (o.den as i128);
        reduce(n, d)
    }

    /// Exact quotient, reduced; `None` for a zero divisor or when it does not fit.
    pub fn div(&self, o: &Frac) -> (r: Option<Frac>)
        requires
            self.wf(),
            o.wf(),
        ensures
            r == fdiv(*self, *o),
            r matches Some(f) ==> f.wf() && qeq(f@, qdiv(self@, o@)),
    {
        if o.num == 0 {
            return None;
        }
        proof {
            lemma_mul_bound(self.num as int, o.den as int);
            lemma_mul_bound(o.num as int, self.den as int);
            if o.num > 0 {
                assert(self.den * o.num > 0) by (nonlinear_arith)
                    requires
                        self.den > 0,
                        o.num > 0,
                ;
            } else {
                assert(-(self.den * o.num) > 0) by (nonlinear_arith)
                    requires
                        self.den > 0,
                        o.num < 0,
                ;
            }
            lemma_reduce_fit(qdiv(self@, o@).0, qdiv(self@, o@).1);
        }
        let n = (self.num as i128) * (o.den as i128);
        let d = (self.den as i128) * (o.num as i128);
        if d > 0 {
            reduce(n, d)
        } else {
            reduce(-n, -d)
        }
    }

    /// `self <= o` as numbers.
    pub fn le(&self, o: &Frac) -> (r: bool)
        requires
            self.wf(),
            o.wf(),
        ensures
            r == qle(self@, o@),
    {
        proof {
            lemma_mul_bound(self.num as int, o.den as int);
            lemma_mul_bound(o.num as int, self.den as int);
        }
        (self.num as i128) * (o.den as i128) <= (o.num as i128) * (self.den as i128)
    }

    /// `self < o` as numbers.
    pub fn lt(&self, o: &Frac) -> (r: bool)
        requires
            self.wf(),
            o.wf(),
        ensures
            r == qlt(self@, o@),
    {
        proof {
            lemma_mul_bound(self.num as int, o.den as int);
            lemma_mul_bound(o.num as int, self.den as int);
        }
        (self.num as i128) * (o.den as i128) < (o.num as i128) * (self.den as i128)
    }

    pub fn min(&self, o: &Frac) -> (r: Frac)
        requires
            self.wf(),
            o.wf(),
        ensures
            r == fmin(*self, *o),
            r.wf(),
    {
        if self.le(o) {
            *self
        } else {
            *o
        }
    }

    pub fn max(&self, o: &Frac) -> (r: Frac)
        requires
            self.wf(),
            o.wf(),
        ensures
            r == fmax(*self, *o),
            r.wf(),
    {
        if o.le(self) {
            *self
        } else {
            *o
        }
    }

    /// Equality as numbers.
    pub fn same_value(&self, o: &Frac) -> (r: bool)
        requires
            self.wf(),
            o.wf(),
        ensures
            r == qeq(self@, o@),
    {
        proof {
            lemma_mul_bound(self.num as int, o.den as int);
            lemma_mul_bound(o.num as int, self.den as int);
        }
        (self.num as i128) * (o.den as i128) == (o.num as i128) * (self.den as i128)
    }
}

} // verus!
