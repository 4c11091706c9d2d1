//! Musical positions: a whole number of beats plus an exact fraction of a beat.
use vstd::prelude::*;

use crate::frac::{
    abs, gcd, lemma_divides_gcd, lemma_divides_le, lemma_gcd_divides, fadd, fint, fsub, lemma_qeq_trans, lemma_reduce_fit, qadd, qeq, qint, qle, qlt, Frac, Q};

verus! {

/// A musical position `measure + fraction`, with `0 <= fraction < 1`.
#[derive(Clone, Copy, Debug, PartialEq, Eq, Structural)]
pub struct Beat {
    pub measure: i64,
    pub fraction: Frac,
}

/// Splits a rational into its floor and the remainder in `[0, 1)`.
pub open spec fn beat_of(v: Frac) -> Beat {
    Beat {
        measure: (v.num as int / v.den as int) as i64,
        fraction: Frac { num: (v.num as int % v.den as int) as i64, den: v.den },
    }
}

/// The position as one rational; `None` when it does not fit in 64 bits.
pub open spec fn beat_frac(b: Beat) -> Option<Frac> {
    fadd(fint(b.measure as int), b.fraction)
}

/// The exact sum of two positions in normal form; `None` when it does not fit.
pub open spec fn beat_add_spec(a: Beat, b: Beat) -> Option<Beat> {
    match (beat_frac(a), beat_frac(b)) {
        (Some(x), Some(y)) => match fadd(x, y) {
            Some(v) => Some(beat_of(v)),
            None => None,
        },
        _ => None,
    }
}

impl View for Beat {
    type V = Q;

    open spec fn view(&self) -> Q {
        qadd(qint(self.measure as int), self.fraction@)
    }
}

/// A smaller whole part means a smaller position, whatever the fractions.
proof fn lemma_measure_order(a: Beat, b: Beat)
    requires
        a.wf(),
        b.wf(),
        a.measure < b.measure,
    ensures
        qlt(a@, b@),
{
    let m1 = a.measure as int;
    let m2 = b.measure as int;
    let n1 = a.fraction.num as int;
    let d1 = a.fraction.den as int;
    let n2 = b.fraction.num as int;
    let d2 = b.fraction.den as int;
    assert(a@ == (m1 * d1 + n1, d1)) by (nonlinear_arith)
        requires
            a@ == qadd(qint(m1), (n1, d1)),
    ;
    assert(b@ == (m2 * d2 + n2, d2)) by (nonlinear_arith)
        requires
            b@ == qadd(qint(m2), (n2, d2)),
    ;
    assert(n1 * d2 < d1 * d2) by (nonlinear_arith)
        requires
            0 <= n1 < d1,
            d2 > 0,
    ;
    assert((m1 + 1) * d1 * d2 <= m2 * d1 * d2) by (nonlinear_arith)
        requires
            m1 + 1 <= m2,
            d1 > 0,
            d2 > 0,
    ;
    assert(0 <= n2 * d1) by (nonlinear_arith)
        requires
            0 <= n2,
            d1 > 0,
    ;
    assert((m1 * d1 + n1) * d2 < (m2 * d2 + n2) * d1) by (nonlinear_arith)
        requires
            n1 * d2 < d1 * d2,
            (m1 + 1) * d1 * d2 <= m2 * d1 * d2,
            0 <= n2 * d1,
    ;
}

/// With equal whole parts, positions compare as their fractions.
proof fn lemma_fraction_order(a: Beat, b: Beat)
    requires
        a.wf(),
        b.wf(),
        a.measure == b.measure,
    ensures
        qlt(a@, b@) == qlt(a.fraction@, b.fraction@),
        qle(a@, b@) == qle(a.fraction@, b.fraction@),
{
    let m = a.measure as int;
    let n1 = a.fraction.num as int;
    let d1 = a.fraction.den as int;
    let n2 = b.fraction.num as int;
    let d2 = b.fraction.den as int;
    assert(a@ == (m * d1 + n1, d1)) by (nonlinear_arith)
        requires
            a@ == qadd(qint(m), (n1, d1)),
    ;
    assert(b@ == (m * d2 + n2, d2)) by (nonlinear_arith)
        requires
            b@ == qadd(qint(m), (n2, d2)),
    ;
    assert((m * d1 + n1) * d2 - (m * d2 + n2) * d1 == n1 * d2 - n2 * d1) by (nonlinear_arith);
}

/// Splitting a rational keeps its value and yields a normal form.
pub proof fn lemma_beat_of(v: Frac)
    requires
        v.wf(),
    ensures
        beat_of(v).wf(),
        qeq(beat_of(v)@, v@),
        beat_of(v).measure as int == v.num as int / v.den as int,
        beat_of(v).fraction.num as int == v.num as int % v.den as int,
{
    let n = v.num as int;
    let d = v.den as int;
    vstd::arithmetic::div_mod::lemma_fundamental_div_mod(n, d);
    let qq = n / d;
    let rr = n % d;
    if n >= 0 {
        assert(0 <= qq <= n) by (nonlinear_arith)
            requires
                n == d * qq + rr,
                0 <= rr < d,
                d >= 1,
                n >= 0,
        ;
    } else {
        assert(n <= qq < 0) by (nonlinear_arith)
            requires
                n == d * qq + rr,
                0 <= rr < d,
                d >= 1,
                n < 0,
        ;
    }
    let r = beat_of(v);
    assert(r.measure as int == qq);
    assert(r.fraction.num as int == rr);
    assert(r@ == (qq * d + rr, d)) by (nonlinear_arith)
        requires
            r@ == qadd(qint(qq), (rr, d)),
            d > 0,
    ;
    assert(qeq(r@, v@)) by (nonlinear_arith)
        requires
            r@ == (qq * d + rr, d),
            n == d * qq + rr,
            v@ == (n, d),
    ;
    // A common divisor of the remainder and `d` divides `n`, so it is 1.
    let c = gcd(rr as nat, d as nat);
    lemma_gcd_divides(rr as nat, d as nat);
    let cr = choose|k: int| #[trigger] (c * k) == rr;
    let cd = choose|k: int| #[trigger] (c * k) == d;
    let cn = if n >= 0 { cd * qq + cr } else { -(cd * qq + cr) };
    assert(c * cn == abs(n)) by (nonlinear_arith)
        requires
            c * cr == rr,
            c * cd == d,
            n == d * qq + rr,
            cn == (if n >= 0 { cd * qq + cr } else { -(cd * qq + cr) }),
            abs(n) == (if n >= 0 { n } else { -n }),
    ;
    lemma_divides_gcd(c as int, abs(n), d as nat);
    lemma_divides_le(c as int, 1);
}

pub proof fn lemma_beat_pos(b: Beat)
    requires
        b.wf(),
    ensures
        b@.1 > 0,
{
    assert(b@.1 == 1 * b.fraction.den);
}

impl Beat {
    /// `self < o` as positions.
    pub fn lt(&self, o: &Beat) -> (r: bool)
        requires
            self.wf(),
            o.wf(),
        ensures
            r == qlt(self@, o@),
    {
        proof {
            if self.measure < o.measure {
                lemma_measure_order(*self, *o);
            } else if o.measure < self.measure {
                lemma_measure_order(*o, *self);
            } else {
                lemma_fraction_order(*self, *o);
            }
        }
        if self.measure != o.measure {
            self.measure < o.measure
        } else {
            self.fraction.lt(&o.fraction)
        }
    }

    /// `self <= o` as positions.
    pub fn le(&self, o: &Beat) -> (r: bool)
        requires
            self.wf(),
            o.wf(),
        ensures
            r == qle(self@, o@),
    {
        proof {
            if self.measure < o.measure {
                lemma_measure_order(*self, *o);
            } else if o.measure < self.measure {
                lemma_measure_order(*o, *self);
            } else {
                lemma_fraction_order(*self, *o);
            }
        }
        if self.measure != o.measure {
            self.measure < o.measure
        } else {
            self.fraction.le(&o.fraction)
        }
    }

    pub open spec fn wf(&self) -> bool {
        &&& self.fraction.wf()
        &&& 0 <= self.fraction.num < self.fraction.den
    }

    /// Beat zero, the start of the chart.
    pub fn zero() -> (r: Beat)
        ensures
            r.wf(),
            qeq(r@, qint(0)),
    {
        Beat { measure: 0, fraction: Frac::zero() }
    }

    /// Splits `v` into whole beats and a fraction in `[0, 1)`.
    pub fn from_frac(v: Frac) -> (r: Beat)
        requires
            v.wf(),
        ensures
            r == beat_of(v),
            r.wf(),
            qeq(r@, v@),
    {
        let den = v.den;
        let (q, rem) = if v.num >= 0 {
            (v.num / den, v.num % den)
        } else {
            let m: u64 = (-(v.num as i128)) as u64;
            let q0: u64 = m / (den as u64);
            let r0: u64 = m % (den as u64);
            if r0 == 0 {
                (-(q0 as i128) as i64, 0i64)
            } else {
                ((-(q0 as i128) - 1) as i64, (den as u64 - r0) as i64)
            }
        };
        proof {
            let n = v.num as int;
            let d = den as int;
            vstd::arithmetic::div_mod::lemma_fundamental_div_mod(n, d);
            if n < 0 {
                let m = -n;
                vstd::arithmetic::div_mod::lemma_fundamental_div_mod(m, d);
                let q0 = m / d;
                let r0 = m % d;
                if r0 == 0 {
                    assert(n == (-q0) * d) by (nonlinear_arith)
                        requires
                            m == d * q0 + r0,
                            n == -m,
                            r0 == 0,
                    ;
                    vstd::arithmetic::div_mod::lemma_fundamental_div_mod_converse(n, d, -q0, 0);
                } else {
                    assert(n == (-q0 - 1) * d + (d - r0)) by (nonlinear_arith)
                        requires
                            m == d * q0 + r0,
                            n == -m,
                    ;
                    vstd::arithmetic::div_mod::lemma_fundamental_div_mod_converse(n, d, -q0 - 1, d - r0);
                }
            }
            let qq = n / d;
            let rr = n % d;
            if n >= 0 {
                assert(0 <= qq <= n) by (nonlinear_arith)
                    requires
                        n == d * qq + rr,
                        0 <= rr < d,
                        d >= 1,
                        n >= 0,
                ;
            } else {
                assert(n <= qq < 0) by (nonlinear_arith)
                    requires
                        n == d * qq + rr,
                        0 <= rr < d,
                        d >= 1,
                        n < 0,
                ;
            }
            assert(q as int == n / d);
            assert(rem as int == n % d);
        }
        let r = Beat { measure: q, fraction: Frac { num: rem, den } };
        proof {
            lemma_beat_of(v);
        }
        proof {
            let n = v.num as int;
            let d = den as int;
            assert(n == d * (n / d) + n % d);
            assert(r@ == ((n / d) * d + n % d, d)) by (nonlinear_arith)
                requires
                    r@ == qadd(qint(n / d), (n % d, d)),
                    d > 0,
            ;
            assert(qeq(r@, v@)) by (nonlinear_arith)
                requires
                    r@ == ((n / d) * d + n % d, d),
                    n == d * (n / d) + n % d,
                    v@ == (n, d),
            ;
        }
        r
    }

    /// `measure + fraction` in normal form; `None` when it does not fit.
    pub fn new(measure: i64, fraction: Frac) -> (r: Option<Beat>)
        requires
            fraction.wf(),
        ensures
            r == (match fadd(fint(measure as int), fraction) {
                Some(v) => Some(beat_of(v)),
                None => None,
            }),
            r matches Some(b) ==> b.wf() && qeq(b@, qadd(qint(measure as int), fraction@)),
    {
        let v = Frac::from_int(measure).add(&fraction)?;
        let b = Beat::from_frac(v);
        proof {
            lemma_qeq_trans(b@, v@, qadd(qint(measure as int), fraction@));
        }
        Some(b)
    }

    /// The position as a single rational.
    pub fn to_frac(&self) -> (r: Option<Frac>)
        requires
            self.wf(),
        ensures
            r == beat_frac(*self),
            r matches Some(f) ==> f.wf() && qeq(f@, self@),
    {
        let m = Frac::from_int(self.measure);
        proof {
            lemma_reduce_fit(qadd(m@, self.fraction@).0, qadd(m@, self.fraction@).1);
        }
        m.add(&self.fraction)
    }

    /// Exact sum of two positions; `None` when it does not fit.
    pub fn add(&self, o: &Beat) -> (r: Option<Beat>)
        requires
            self.wf(),
            o.wf(),
        ensures
            r == beat_add_spec(*self, *o),
            r matches Some(b) ==> b.wf(),
    {
        let a = self.to_frac()?;
        let b = o.to_frac()?;
        let v = a.add(&b)?;
        Some(Beat::from_frac(v))
    }

    /// Exact difference of two positions; `None` when it does not fit.
    pub fn sub(&self, o: &Beat) -> (r: Option<Beat>)
        requires
            self.wf(),
            o.wf(),
        ensures
            r == (match (beat_frac(*self), beat_frac(*o)) {
                (Some(a), Some(b)) => match fsub(a, b) {
                    Some(v) => Some(beat_of(v)),
                    None => None,
                },
                _ => None,
            }),
            r matches Some(b) ==> b.wf(),
    {
        let a = self.to_frac()?;
        let b = o.to_frac()?;
        let v = a.sub(&b)?;
        Some(Beat::from_frac(v))
    }
}

} // verus!
