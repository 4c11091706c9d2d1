//! Easing curves: maps of the progress ratio `[0, 1]` onto itself.
use vstd::prelude::*;

use crate::frac::{
    canon, fint, flt, fmul, fsub, lemma_canon_self, lemma_canon_zero, lemma_ops_exact, qeq, qmul,
    qsub, reduce_fit, Frac, Q,
};

verus! {

/// The polynomial easing families; `Linear` is the identity.
#[derive(Clone, Copy, Debug, PartialEq, Eq, Structural)]
pub enum Easing {
    Linear,
    EaseInQuad,
    EaseOutQuad,
    EaseInOutQuad,
    EaseInCubic,
    EaseOutCubic,
    EaseInOutCubic,
}

pub open spec fn half() -> Frac {
    Frac { num: 1, den: 2 }
}

proof fn lemma_half()
    ensures
        half().wf(),
{
    reveal_with_fuel(crate::frac::gcd, 3);
}

/// `t^2`, or `t^3` when `cubic`.
pub open spec fn power(t: Frac, cubic: bool) -> Option<Frac> {
    match fmul(t, t) {
        Some(sq) => if cubic {
            fmul(sq, t)
        } else {
            Some(sq)
        },
        None => None,
    }
}

/// `1 - (1 - t)^k`.
pub open spec fn ease_out(t: Frac, cubic: bool) -> Option<Frac> {
    match fsub(fint(1), t) {
        Some(u) => match power(u, cubic) {
            Some(p) => fsub(fint(1), p),
            None => None,
        },
        None => None,
    }
}

/// `c * t^k` for `t < 1/2`, else `1 - c * (1 - t)^k`, with `c = 2^(k-1)`.
pub open spec fn ease_in_out(t: Frac, cubic: bool) -> Option<Frac> {
    let c = if cubic {
        fint(4)
    } else {
        fint(2)
    };
    if flt(t, half()) {
        match power(t, cubic) {
            Some(p) => fmul(c, p),
            None => None,
        }
    } else {
        match fsub(fint(1), t) {
            Some(u) => match power(u, cubic) {
                Some(p) => match fmul(c, p) {
                    Some(q) => fsub(fint(1), q),
                    None => None,
                },
                None => None,
            },
            None => None,
        }
    }
}

/// The eased ratio for progress `t`; `None` when a value overflows.
pub open spec fn ease_spec(e: Easing, t: Frac) -> Option<Frac> {
    match e {
        Easing::Linear => Some(t),
        Easing::EaseInQuad => power(t, false),
        Easing::EaseOutQuad => ease_out(t, false),
        Easing::EaseInOutQuad => ease_in_out(t, false),
        Easing::EaseInCubic => power(t, true),
        Easing::EaseOutCubic => ease_out(t, true),
        Easing::EaseInOutCubic => ease_in_out(t, true),
    }
}

/// Every curve maps 0 to 0 and 1 to 1.
pub proof fn lemma_ease_ends(e: Easing)
    ensures
        ease_spec(e, fint(0)) == Some(fint(0)),
        ease_spec(e, fint(1)) == Some(fint(1)),
{
    lemma_canon_zero(1);
    lemma_canon_self(1);
    let zero = fint(0);
    crate::frac::lemma_fint(0);
    let one = fint(1);
    crate::frac::lemma_fint(1);
    assert(zero@ == (0int, 1int));
    assert(one@ == (1int, 1int));
    assert(canon(0, 1) == (0int, 1int));
    assert(reduce_fit(0, 1) == Some(zero));
    assert(fmul(zero, zero) == Some(zero));
    assert(fmul(one, one) == Some(one));
    assert(fsub(one, zero) == Some(one));
    assert(fsub(one, one) == Some(zero));
    assert(fmul(fint(2), zero) == Some(zero));
    assert(fmul(fint(4), zero) == Some(zero));
    assert(power(zero, false) == Some(zero));
    assert(power(zero, true) == Some(zero));
    assert(power(one, false) == Some(one));
    assert(power(one, true) == Some(one));
    assert(flt(zero, half()));
    assert(!flt(one, half()));
}

proof fn lemma_power_wf(t: Frac, cubic: bool)
    requires
        t.wf(),
    ensures
        power(t, cubic) matches Some(v) ==> v.wf(),
{
    lemma_ops_exact(t, t);
    if let Some(sq) = fmul(t, t) {
        lemma_ops_exact(sq, t);
    }
}

/// Eased ratios are well formed.
#[verifier::rlimit(40)]
pub proof fn lemma_ease_wf(e: Easing, t: Frac)
    requires
        t.wf(),
    ensures
        ease_spec(e, t) matches Some(v) ==> v.wf(),
{
    let one = fint(1);
    crate::frac::lemma_fint(1);
    lemma_power_wf(t, false);
    lemma_power_wf(t, true);
    lemma_ops_exact(one, t);
    if let Some(u) = fsub(one, t) {
        lemma_power_wf(u, false);
        lemma_power_wf(u, true);
        if let Some(p) = power(u, false) {
            lemma_ops_exact(one, p);
            crate::frac::lemma_fint(2);
            lemma_ops_exact(fint(2), p);
            if let Some(q) = fmul(fint(2), p) {
                lemma_ops_exact(one, q);
            }
        }
        if let Some(p) = power(u, true) {
            lemma_ops_exact(one, p);
            crate::frac::lemma_fint(4);
            lemma_ops_exact(fint(4), p);
            if let Some(q) = fmul(fint(4), p) {
                lemma_ops_exact(one, q);
            }
        }
    }
    if let Some(p) = power(t, false) {
        crate::frac::lemma_fint(2);
        lemma_ops_exact(fint(2), p);
    }
    if let Some(p) = power(t, true) {
        crate::frac::lemma_fint(4);
        lemma_ops_exact(fint(4), p);
    }
}

/// `a * f <= b` for `f = num / den`, in integers: `a * num <= b * den`.
pub open spec fn scaled_le(f: Q, a: int, b: int) -> bool {
    a * f.0 <= b * f.1
}

/// A ratio in `[0, 1]`.
pub open spec fn unit(f: Q) -> bool {
    f.1 > 0 && 0 <= f.0 && f.0 <= f.1
}

/// Bounds of the form `a * x <= b` carry over between equal values.
proof fn lemma_scaled_cong(f: Q, g: Q, a: int, b: int)
    requires
        f.1 > 0,
        g.1 > 0,
        qeq(f, g),
    ensures
        scaled_le(f, a, b) == scaled_le(g, a, b),
        (0 <= f.0) == (0 <= g.0),
{
    assert((a * f.0 <= b * f.1) == (a * f.0 * g.1 <= b * f.1 * g.1)) by (nonlinear_arith)
        requires
            g.1 > 0,
    ;
    assert((a * g.0 <= b * g.1) == (a * g.0 * f.1 <= b * g.1 * f.1)) by (nonlinear_arith)
        requires
            f.1 > 0,
    ;
    assert(a * f.0 * g.1 == a * g.0 * f.1) by (nonlinear_arith)
        requires
            f.0 * g.1 == g.0 * f.1,
    ;
    assert(b * f.1 * g.1 == b * g.1 * f.1) by (nonlinear_arith);
    assert((0 <= f.0) == (0 <= g.0)) by (nonlinear_arith)
        requires
            f.0 * g.1 == g.0 * f.1,
            f.1 > 0,
            g.1 > 0,
    ;
}

proof fn lemma_unit_cong(f: Q, g: Q)
    requires
        f.1 > 0,
        g.1 > 0,
        qeq(f, g),
        unit(g),
    ensures
        unit(f),
{
    lemma_scaled_cong(f, g, 1, 1);
}

/// A product of ratios in `[0, 1]` stays in `[0, 1]`; with `a * x <= 1` and
/// `b * y <= 1` also `a * b * (x * y) <= 1`.
proof fn lemma_mul_unit(x: Q, y: Q, a: int, b: int)
    requires
        unit(x),
        unit(y),
        a >= 1,
        b >= 1,
        scaled_le(x, a, 1),
        scaled_le(y, b, 1),
    ensures
        unit(qmul(x, y)),
        scaled_le(qmul(x, y), a * b, 1),
{
    assert(x.0 * y.0 >= 0 && x.1 * y.1 > 0) by (nonlinear_arith)
        requires
            x.0 >= 0,
            y.0 >= 0,
            x.1 > 0,
            y.1 > 0,
    ;
    assert((a * x.0) * (b * y.0) <= x.1 * y.1) by (nonlinear_arith)
        requires
            0 <= a * x.0 <= x.1,
            0 <= b * y.0 <= y.1,
    ;
    assert(a * b * (x.0 * y.0) == (a * x.0) * (b * y.0)) by (nonlinear_arith);
    assert(a * b >= 1) by (nonlinear_arith)
        requires
            a >= 1,
            b >= 1,
    ;
    assert(x.0 * y.0 <= a * b * (x.0 * y.0)) by (nonlinear_arith)
        requires
            x.0 * y.0 >= 0,
            a * b >= 1,
    ;
}

/// A checked product of ratios in `[0, 1]`, with the bounds of the factors.
proof fn lemma_fmul_unit(x: Frac, y: Frac, a: int, b: int)
    requires
        x.wf(),
        y.wf(),
        unit(x@),
        unit(y@),
        a >= 1,
        b >= 1,
        scaled_le(x@, a, 1),
        scaled_le(y@, b, 1),
    ensures
        fmul(x, y) matches Some(m) ==> m.wf() && unit(m@) && scaled_le(m@, a * b, 1),
{
    lemma_ops_exact(x, y);
    lemma_mul_unit(x@, y@, a, b);
    if let Some(m) = fmul(x, y) {
        lemma_scaled_cong(m@, qmul(x@, y@), a * b, 1);
        lemma_unit_cong(m@, qmul(x@, y@));
    }
}

/// `1 - x` of a ratio in `[0, 1]` stays in `[0, 1]`.
proof fn lemma_one_minus_unit(x: Frac)
    requires
        x.wf(),
        unit(x@),
    ensures
        fsub(fint(1), x) matches Some(u) ==> u.wf() && unit(u@),
{
    crate::frac::lemma_fint(1);
    lemma_ops_exact(fint(1), x);
    assert(fint(1)@ == (1int, 1int));
    if let Some(u) = fsub(fint(1), x) {
        let d = qsub(fint(1)@, x@);
        assert(1 * (x.den as int) == x.den as int && (x.num as int) * 1 == x.num as int);
        assert(d == (x.den - x.num, x.den as int));
        lemma_unit_cong(u@, d);
    }
}

/// `t^k` of a ratio in `[0, 1]` stays in `[0, 1]`; if `2 t <= 1`, then
/// `2^k t^k <= 1`.
proof fn lemma_power_unit(t: Frac, cubic: bool, a: int)
    requires
        t.wf(),
        unit(t@),
        a == 1 || a == 2,
        scaled_le(t@, a, 1),
    ensures
        power(t, cubic) matches Some(p) ==> p.wf() && unit(p@) && scaled_le(p@, if cubic { a * a * a } else { a * a }, 1),
{
    lemma_fmul_unit(t, t, a, a);
    if let Some(sq) = fmul(t, t) {
        lemma_fmul_unit(sq, t, a * a, a);
    }
}

/// `c * p` for `c = 2^(k-1)` and `2^k p <= 1` is in `[0, 1]`.
proof fn lemma_scale_unit(p: Frac, cubic: bool)
    requires
        p.wf(),
        unit(p@),
        scaled_le(p@, if cubic { 8 } else { 4 }, 1),
    ensures
        fmul(if cubic { fint(4) } else { fint(2) }, p) matches Some(q) ==> q.wf() && unit(q@),
{
    let c = if cubic { fint(4) } else { fint(2) };
    crate::frac::lemma_fint(4);
    crate::frac::lemma_fint(2);
    assert(fint(4)@ == (4int, 1int));
    assert(fint(2)@ == (2int, 1int));
    lemma_ops_exact(c, p);
    if let Some(q) = fmul(c, p) {
        let m = qmul(c@, p@);
        assert(c@.1 == 1);
        assert(m.0 >= 0 && m.1 > 0) by (nonlinear_arith)
            requires
                m == (c@.0 * p.num, 1 * p.den),
                c@.0 > 0,
                p.num >= 0,
                p.den > 0,
        ;
        if cubic {
            assert(m == (4 * p.num, 1 * p.den));
        } else {
            assert(m == (2 * p.num, 1 * p.den));
        }
        lemma_unit_cong(q@, m);
    }
}

/// Every curve maps a progress ratio in `[0, 1]` to a ratio in `[0, 1]`.
pub proof fn lemma_ease_unit(e: Easing, t: Frac)
    requires
        t.wf(),
        unit(t@),
    ensures
        ease_spec(e, t) matches Some(v) ==> v.wf() && unit(v@),
{
    let one = fint(1);
    crate::frac::lemma_fint(1);
    assert(one@ == (1int, 1int));
    lemma_power_unit(t, false, 1);
    lemma_power_unit(t, true, 1);
    lemma_one_minus_unit(t);
    if let Some(u) = fsub(one, t) {
        lemma_power_unit(u, false, 1);
        lemma_power_unit(u, true, 1);
        if let Some(p) = power(u, false) {
            lemma_one_minus_unit(p);
        }
        if let Some(p) = power(u, true) {
            lemma_one_minus_unit(p);
        }
    }
    if e == Easing::EaseInOutQuad || e == Easing::EaseInOutCubic {
        let cubic = e == Easing::EaseInOutCubic;
        let c = if cubic { fint(4) } else { fint(2) };
        if flt(t, half()) {
            lemma_power_unit(t, cubic, 2);
            if let Some(p) = power(t, cubic) {
                lemma_scale_unit(p, cubic);
            }
        } else if let Some(u) = fsub(one, t) {
            lemma_ops_exact(one, t);
            let d = qsub(one@, t@);
            assert(1 * (t.den as int) == t.den as int && (t.num as int) * 1 == t.num as int);
            assert(d == (t.den - t.num, t.den as int));
            lemma_scaled_cong(u@, d, 2, 1);
            lemma_power_unit(u, cubic, 2);
            if let Some(p) = power(u, cubic) {
                lemma_scale_unit(p, cubic);
                if let Some(q) = fmul(c, p) {
                    lemma_one_minus_unit(q);
                }
            }
        }
    }
}

fn power_exec(t: Frac, cubic: bool) -> (r: Option<Frac>)
    requires
        t.wf(),
    ensures
        r == power(t, cubic),
        r matches Some(v) ==> v.wf(),
{
    let sq = t.mul(&t)?;
    if cubic {
        sq.mul(&t)
    } else {
        Some(sq)
    }
}

impl Easing {
    /// Applies the curve to the progress ratio `t`.
    pub fn ease(&self, t: Frac) -> (r: Option<Frac>)
        requires
            t.wf(),
        ensures
            r == ease_spec(*self, t),
            r matches Some(v) ==> v.wf(),
    {
        let one = Frac::from_int(1);
        match self {
            Easing::Linear => Some(t),
            Easing::EaseInQuad => power_exec(t, false),
            Easing::EaseInCubic => power_exec(t, true),
            Easing::EaseOutQuad | Easing::EaseOutCubic => {
                let cubic = *self == Easing::EaseOutCubic;
                let u = one.sub(&t)?;
                let p = power_exec(u, cubic)?;
                one.sub(&p)
            },
            Easing::EaseInOutQuad | Easing::EaseInOutCubic => {
                let cubic = *self == Easing::EaseInOutCubic;
                let c = if cubic {
                    Frac::from_int(4)
                } else {
                    Frac::from_int(2)
                };
                proof {
                    lemma_half();
                }
                if t.lt(&Frac { num: 1, den: 2 }) {
                    let p = power_exec(t, cubic)?;
                    c.mul(&p)
                } else {
                    let u = one.sub(&t)?;
                    let p = power_exec(u, cubic)?;
                    let q = c.mul(&p)?;
                    one.sub(&q)
                }
            },
        }
    }
}

} // verus!
