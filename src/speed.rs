//! Scroll distance: the integral of a line's piecewise-linear speed curve.
use vstd::prelude::*;

use crate::frac::{
    lemma_dens, lemma_qadd_cong, lemma_qdiv_cong, lemma_qle_cong, lemma_qle_trans,
    lemma_qmul_cong, qle, qlt, fadd, fdiv, fint, fits64, fle, flt, fmax, fmin, fmul, fsub, lemma_canon, lemma_fadd_of,
    lemma_fdiv_of, lemma_fmul_of, lemma_fsub_of, lemma_qeq_refl, lemma_qeq_trans, qadd, qdiv, qeq,
    qint, qmul, qsub, Frac, Q,
};

verus! {

/// Speed before the first speed event and across gaps, in distance units per second.
pub const BASELINE_SPEED: i64 = 10;

/// A speed ramp with its beats already converted to seconds.
#[derive(Clone, Copy, Debug)]
pub struct SpeedEvent {
    pub start_time: Frac,
    pub end_time: Frac,
    pub start_value: Frac,
    pub end_value: Frac,
}

impl SpeedEvent {
    pub open spec fn wf(&self) -> bool {
        &&& self.start_time.wf()
        &&& self.end_time.wf()
        &&& self.start_value.wf()
        &&& self.end_value.wf()
    }

    /// A ramp from `start_value` at `start_time` to `end_value` at `end_time`.
    pub fn new(start_time: Frac, end_time: Frac, start_value: Frac, end_value: Frac) -> (r: Option<SpeedEvent>)
        requires
            start_time.wf(),
            end_time.wf(),
            start_value.wf(),
            end_value.wf(),
        ensures
            r is Some <==> fle(start_time, end_time),
            r matches Some(e) ==> e.wf() && fle(e.start_time, e.end_time) && e == (SpeedEvent {
                start_time,
                end_time,
                start_value,
                end_value,
            }),
    {
        if start_time.le(&end_time) {
            Some(SpeedEvent { start_time, end_time, start_value, end_value })
        } else {
            None
        }
    }
}

/// The integration cursor at time zero: (time, speed, distance so far).
pub open spec fn start_cursor() -> (Frac, Frac, Frac) {
    (fint(0), fint(BASELINE_SPEED as int), fint(0))
}

/// Distance covered at constant speed `v` from `t` up to the start of `e`, cut off at `time`.
pub open spec fn gap_area(t: Frac, v: Frac, e: SpeedEvent, time: Frac, area: Frac) -> Option<Frac> {
    if flt(t, e.start_time) {
        match fsub(fmin(e.start_time, time), t) {
            Some(d) => match fmul(fmax(d, fint(0)), v) {
                Some(inc) => fadd(area, inc),
                None => None,
            },
            None => None,
        }
    } else {
        Some(area)
    }
}

/// Area under the ramp of `e` from its start up to `min(time, end)`: a trapezoid.
pub open spec fn ramp_area(e: SpeedEvent, td: Frac) -> Option<Frac> {
    match fsub(e.end_time, e.start_time) {
        Some(span) => match fsub(e.end_value, e.start_value) {
            Some(value_span) => match fdiv(td, span) {
                Some(ratio) => match fmul(ratio, value_span) {
                    Some(rise) => match fadd(e.start_value, rise) {
                        Some(speed_end) => match fadd(e.start_value, speed_end) {
                            Some(sum) => match fmul(td, sum) {
                                Some(twice) => fdiv(twice, fint(2)),
                                None => None,
                            },
                            None => None,
                        },
                        None => None,
                    },
                    None => None,
                },
                None => None,
            },
            None => None,
        },
        None => None,
    }
}

/// One step of the integration over event `e`.
pub open spec fn speed_step(c: (Frac, Frac, Frac), e: SpeedEvent, time: Frac) -> Option<(Frac, Frac, Frac)> {
    match gap_area(c.0, c.1, e, time, c.2) {
        Some(a1) => match fsub(fmin(time, e.end_time), e.start_time) {
            Some(d) => {
                let td = fmax(d, fint(0));
                if flt(fint(0), td) {
                    match ramp_area(e, td) {
                        Some(ra) => match fadd(a1, ra) {
                            Some(a2) => Some((e.end_time, e.end_value, a2)),
                            None => None,
                        },
                        None => None,
                    }
                } else {
                    Some((e.end_time, e.end_value, a1))
                }
            },
            None => None,
        },
        None => None,
    }
}

/// The cursor after the events of `evs`, in order; `None` once a value overflows.
pub open spec fn speed_fold(evs: Seq<SpeedEvent>, time: Frac) -> Option<(Frac, Frac, Frac)>
    decreases evs.len(),
{
    if evs.len() == 0 {
        Some(start_cursor())
    } else {
        match speed_fold(evs.drop_last(), time) {
            Some(c) => speed_step(c, evs.last(), time),
            None => None,
        }
    }
}

/// Distance travelled from time zero to `time`: the events, then the rest
/// at the last known speed.
pub open spec fn distance_spec(evs: Seq<SpeedEvent>, time: Frac) -> Option<Frac> {
    match speed_fold(evs, time) {
        Some(c) => if flt(c.0, time) {
            match fsub(time, c.0) {
                Some(d) => match fmul(d, c.1) {
                    Some(inc) => fadd(c.2, inc),
                    None => None,
                },
                None => None,
            }
        } else {
            Some(c.2)
        },
        None => None,
    }
}

proof fn lemma_fold_none(evs: Seq<SpeedEvent>, time: Frac, i: int)
    requires
        0 <= i <= evs.len(),
        speed_fold(evs.subrange(0, i), time) is None,
    ensures
        speed_fold(evs, time) is None,
    decreases evs.len() - i,
{
    if i < evs.len() {
        assert(evs.subrange(0, i + 1).drop_last() =~= evs.subrange(0, i));
        lemma_fold_none(evs, time, i + 1);
    } else {
        assert(evs.subrange(0, i) =~= evs);
    }
}

fn gap(t: Frac, v: Frac, e: &SpeedEvent, time: Frac, area: Frac) -> (r: Option<Frac>)
    requires
        t.wf(),
        v.wf(),
        e.wf(),
        time.wf(),
        area.wf(),
    ensures
        r == gap_area(t, v, *e, time, area),
        r matches Some(a) ==> a.wf(),
{
    if t.lt(&e.start_time) {
        let d = e.start_time.min(&time).sub(&t)?;
        let inc = d.max(&Frac::zero()).mul(&v)?;
        area.add(&inc)
    } else {
        Some(area)
    }
}

fn ramp(e: &SpeedEvent, td: Frac) -> (r: Option<Frac>)
    requires
        e.wf(),
        td.wf(),
    ensures
        r == ramp_area(*e, td),
        r matches Some(a) ==> a.wf(),
{
    let span = e.end_time.sub(&e.start_time)?;
    let value_span = e.end_value.sub(&e.start_value)?;
    let ratio = td.div(&span)?;
    let rise = ratio.mul(&value_span)?;
    let speed_end = e.start_value.add(&rise)?;
    let sum = e.start_value.add(&speed_end)?;
    let twice = td.mul(&sum)?;
    twice.div(&Frac::from_int(2))
}

/// Scroll distance travelled from time zero to `time` under the speed events
/// `events`, which are sorted by start time. Before the first event and
/// after the last one the speed is the baseline, or the last event's end
/// speed. `None` when a value on the way needs more than 64 bits.
pub fn distance_at(events: &Vec<SpeedEvent>, time: Frac) -> (r: Option<Frac>)
    requires
        time.wf(),
        forall|i: int| 0 <= i < events.len() ==> #[trigger] events[i].wf(),
    ensures
        r == distance_spec(events@, time),
        r matches Some(d) ==> d.wf() && qeq(d@, exact_distance(events@, time@)),
{
    proof {
        lemma_distance_exact(events@, time);
    }
    let mut t = Frac::zero();
    let mut v = Frac::from_int(BASELINE_SPEED);
    let mut area = Frac::zero();
    let mut i: usize = 0;
    assert(events@.subrange(0, 0) =~= Seq::<SpeedEvent>::empty());
    while i < events.len()
        invariant
            0 <= i <= events.len(),
            time.wf(),
            forall|j: int| 0 <= j < events.len() ==> #[trigger] events[j].wf(),
            t.wf(),
            v.wf(),
            area.wf(),
            speed_fold(events@.subrange(0, i as int), time) == Some((t, v, area)),
        decreases events.len() - i,
    {
        let e = &events[i];
        assert(events[i as int].wf());
        assert(e.end_time.wf());
        assert(events@.subrange(0, i + 1).drop_last() =~= events@.subrange(0, i as int));
        assert(events@.subrange(0, i + 1).last() == events@[i as int]);
        let a1 = match gap(t, v, e, time, area) {
            Some(a) => a,
            None => {
                proof {
                    lemma_fold_none(events@, time, i + 1);
                }
                return None;
            },
        };
        let d = match time.min(&e.end_time).sub(&e.start_time) {
            Some(d) => d,
            None => {
                proof {
                    lemma_fold_none(events@, time, i + 1);
                }
                return None;
            },
        };
        let td = d.max(&Frac::zero());
        let a2 = if Frac::zero().lt(&td) {
            let ra = match ramp(e, td) {
                Some(ra) => ra,
                None => {
                    proof {
                        lemma_fold_none(events@, time, i + 1);
                    }
                    return None;
                },
            };
            match a1.add(&ra) {
                Some(a2) => a2,
                None => {
                    proof {
                        lemma_fold_none(events@, time, i + 1);
                    }
                    return None;
                },
            }
        } else {
            a1
        };
        t = e.end_time;
        v = e.end_value;
        area = a2;
        i = i + 1;
    }
    assert(events@.subrange(0, i as int) =~= events@);
    if t.lt(&time) {
        let d = time.sub(&t)?;
        let inc = d.mul(&v)?;
        area.add(&inc)
    } else {
        Some(area)
    }
}

/// The trapezoid under the ramp of `e` over its first `td` seconds:
/// `td * (v0 + (v0 + td / span * (v1 - v0))) / 2`.
pub open spec fn trapezoid(e: SpeedEvent, td: Q) -> Q {
    let span = qsub(e.end_time@, e.start_time@);
    let speed_end = qadd(e.start_value@, qmul(qdiv(td, span), qsub(e.end_value@, e.start_value@)));
    qdiv(qmul(td, qadd(e.start_value@, speed_end)), qint(2))
}

/// The computed area under a ramp of positive length is the exact trapezoid.
pub proof fn lemma_ramp_area_exact(e: SpeedEvent, td: Frac)
    requires
        e.wf(),
        td.wf(),
        flt(e.start_time, e.end_time),
    ensures
        ramp_area(e, td) matches Some(a) ==> a.wf() && qeq(a@, trapezoid(e, td@)),
{
    let sv = e.start_value;
    lemma_qeq_refl(e.start_time@);
    lemma_qeq_refl(e.end_time@);
    lemma_qeq_refl(e.start_value@);
    lemma_qeq_refl(e.end_value@);
    lemma_qeq_refl(td@);
    lemma_fsub_of(e.end_time, e.start_time, e.end_time@, e.start_time@);
    lemma_fsub_of(e.end_value, sv, e.end_value@, sv@);
    let span_q = qsub(e.end_time@, e.start_time@);
    assert(span_q.0 > 0);
    if let (Some(span), Some(value_span)) = (fsub(e.end_time, e.start_time), fsub(e.end_value, sv)) {
        let vs_q = qsub(e.end_value@, sv@);
        lemma_fdiv_of(td, span, td@, span_q);
        if let Some(ratio) = fdiv(td, span) {
            let ratio_q = qdiv(td@, span_q);
            lemma_fmul_of(ratio, value_span, ratio_q, vs_q);
            if let Some(rise) = fmul(ratio, value_span) {
                let rise_q = qmul(ratio_q, vs_q);
                lemma_fadd_of(sv, rise, sv@, rise_q);
                if let Some(speed_end) = fadd(sv, rise) {
                    let se_q = qadd(sv@, rise_q);
                    lemma_fadd_of(sv, speed_end, sv@, se_q);
                    if let Some(sum) = fadd(sv, speed_end) {
                        let sum_q = qadd(sv@, se_q);
                        lemma_fmul_of(td, sum, td@, sum_q);
                        if let Some(twice) = fmul(td, sum) {
                            assert(fint(2)@ == (2int, 1int));
                            lemma_qeq_refl(fint(2)@);
                            crate::frac::lemma_fint(2);
                            lemma_fdiv_of(twice, fint(2), qmul(td@, sum_q), qint(2));
                        }
                    }
                }
            }
        }
    }
}

/// The computed distance at constant speed `v` over `d` seconds is `d * v`.
pub proof fn lemma_gap_step_exact(d: Frac, v: Frac, area: Frac)
    requires
        d.wf(),
        v.wf(),
        area.wf(),
    ensures
        (match fmul(d, v) {
            Some(inc) => fadd(area, inc),
            None => None,
        }) matches Some(a) ==> qeq(a@, qadd(area@, qmul(d@, v@))),
{
    lemma_qeq_refl(d@);
    lemma_qeq_refl(v@);
    lemma_qeq_refl(area@);
    lemma_fmul_of(d, v, d@, v@);
    if let Some(inc) = fmul(d, v) {
        lemma_fadd_of(area, inc, area@, qmul(d@, v@));
    }
}

pub open spec fn qmin(a: Q, b: Q) -> Q {
    if qle(a, b) {
        a
    } else {
        b
    }
}

pub open spec fn qmax(a: Q, b: Q) -> Q {
    if qle(b, a) {
        a
    } else {
        b
    }
}

/// One step of the integration in exact values: the gap before `e` at the
/// current speed, then the trapezoid under `e` up to `time`.
pub open spec fn exact_step(c: (Q, Q, Q), e: SpeedEvent, time: Q) -> (Q, Q, Q) {
    let a1 = if qlt(c.0, e.start_time@) {
        qadd(c.2, qmul(qmax(qsub(qmin(e.start_time@, time), c.0), qint(0)), c.1))
    } else {
        c.2
    };
    let td = qmax(qsub(qmin(time, e.end_time@), e.start_time@), qint(0));
    let a2 = if qlt(qint(0), td) {
        qadd(a1, trapezoid(e, td))
    } else {
        a1
    };
    (e.end_time@, e.end_value@, a2)
}

pub open spec fn exact_fold(evs: Seq<SpeedEvent>, time: Q) -> (Q, Q, Q)
    decreases evs.len(),
{
    if evs.len() == 0 {
        (qint(0), qint(BASELINE_SPEED as int), qint(0))
    } else {
        exact_step(exact_fold(evs.drop_last(), time), evs.last(), time)
    }
}

/// The distance at `time` in exact values.
pub open spec fn exact_distance(evs: Seq<SpeedEvent>, time: Q) -> Q {
    let c = exact_fold(evs, time);
    if qlt(c.0, time) {
        qadd(c.2, qmul(qsub(time, c.0), c.1))
    } else {
        c.2
    }
}

proof fn lemma_max0(d: Frac, dq: Q)
    requires
        d.wf(),
        dq.1 > 0,
        qeq(d@, dq),
    ensures
        fmax(d, fint(0)).wf(),
        qeq(fmax(d, fint(0))@, qmax(dq, qint(0))),
        qmax(dq, qint(0)).1 > 0,
        flt(fint(0), fmax(d, fint(0))) == qlt(qint(0), qmax(dq, qint(0))),
{
    crate::frac::lemma_fint(0);
    lemma_qeq_refl(qint(0));
    lemma_qle_cong(qint(0), qint(0), d@, dq);
    lemma_qle_cong(d@, dq, qint(0), qint(0));
}

proof fn lemma_trapezoid_cong(e: SpeedEvent, t1: Q, t2: Q)
    requires
        e.wf(),
        flt(e.start_time, e.end_time),
        t1.1 > 0,
        t2.1 > 0,
        qeq(t1, t2),
    ensures
        qeq(trapezoid(e, t1), trapezoid(e, t2)),
        trapezoid(e, t2).1 > 0,
{
    let span = qsub(e.end_time@, e.start_time@);
    let vs = qsub(e.end_value@, e.start_value@);
    let sv = e.start_value@;
    lemma_dens(e.end_time@, e.start_time@);
    lemma_dens(e.end_value@, sv);
    lemma_qeq_refl(span);
    lemma_qeq_refl(vs);
    lemma_qeq_refl(sv);
    lemma_qeq_refl(qint(2));
    lemma_dens(t1, span);
    lemma_dens(t2, span);
    lemma_qdiv_cong(t1, t2, span, span);
    lemma_qmul_cong(qdiv(t1, span), qdiv(t2, span), vs, vs);
    lemma_dens(qdiv(t2, span), vs);
    lemma_qadd_cong(sv, sv, qmul(qdiv(t1, span), vs), qmul(qdiv(t2, span), vs));
    let s1 = qadd(sv, qmul(qdiv(t1, span), vs));
    let s2 = qadd(sv, qmul(qdiv(t2, span), vs));
    lemma_dens(sv, qmul(qdiv(t2, span), vs));
    lemma_qadd_cong(sv, sv, s1, s2);
    lemma_dens(sv, s2);
    lemma_qmul_cong(t1, t2, qadd(sv, s1), qadd(sv, s2));
    lemma_dens(t2, qadd(sv, s2));
    lemma_qdiv_cong(qmul(t1, qadd(sv, s1)), qmul(t2, qadd(sv, s2)), qint(2), qint(2));
    lemma_dens(qmul(t2, qadd(sv, s2)), qint(2));
}

/// A positive part `min(time, end) - start` means the ramp has positive length.
proof fn lemma_positive_ramp(e: SpeedEvent, time: Frac, tdq: Q)
    requires
        e.wf(),
        time.wf(),
        qeq(tdq, qmax(qsub(qmin(time@, e.end_time@), e.start_time@), qint(0))),
        tdq.1 > 0,
        qlt(qint(0), qmax(qsub(qmin(time@, e.end_time@), e.start_time@), qint(0))),
    ensures
        flt(e.start_time, e.end_time),
{
    let m = qmin(time@, e.end_time@);
    let st = e.start_time@;
    let et = e.end_time@;
    assert(qle(m, et));
    assert(m.0 * st.1 - st.0 * m.1 > 0);
    assert(m.0 * et.1 <= et.0 * m.1);
    assert(st.0 * et.1 < et.0 * st.1) by (nonlinear_arith)
        requires
            m.0 * st.1 > st.0 * m.1,
            m.0 * et.1 <= et.0 * m.1,
            m.1 > 0,
            st.1 > 0,
            et.1 > 0,
    ;
}

/// One computed step equals the exact step, given an equal cursor.
proof fn lemma_step_exact(c: (Frac, Frac, Frac), q: (Q, Q, Q), e: SpeedEvent, time: Frac)
    requires
        c.0.wf(),
        c.1.wf(),
        c.2.wf(),
        e.wf(),
        time.wf(),
        c.0@ == q.0,
        c.1@ == q.1,
        q.2.1 > 0,
        qeq(c.2@, q.2),
    ensures
        speed_step(c, e, time) matches Some(c2) ==> c2.0.wf() && c2.1.wf() && c2.2.wf() && c2.0@ == exact_step(q, e, time@).0
            && c2.1@ == exact_step(q, e, time@).1 && exact_step(q, e, time@).2.1 > 0 && qeq(c2.2@, exact_step(q, e, time@).2),
{
    let x = exact_step(q, e, time@);
    lemma_qeq_refl(c.0@);
    lemma_qeq_refl(c.1@);
    lemma_qeq_refl(e.start_time@);
    lemma_qeq_refl(e.end_time@);
    // the gap
    let a1q = if qlt(q.0, e.start_time@) {
        qadd(q.2, qmul(qmax(qsub(qmin(e.start_time@, time@), q.0), qint(0)), q.1))
    } else {
        q.2
    };
    if let Some(a1) = gap_area(c.0, c.1, e, time, c.2) {
        if flt(c.0, e.start_time) {
            let m = fmin(e.start_time, time);
            lemma_qeq_refl(m@);
            lemma_fsub_of(m, c.0, m@, q.0);
            let d = fsub(m, c.0).unwrap();
            lemma_max0(d, qsub(m@, q.0));
            let dm = fmax(d, fint(0));
            lemma_fmul_of(dm, c.1, qmax(qsub(m@, q.0), qint(0)), q.1);
            let inc = fmul(dm, c.1).unwrap();
            lemma_fadd_of(c.2, inc, q.2, qmul(qmax(qsub(m@, q.0), qint(0)), q.1));
        }
        assert(a1.wf() && qeq(a1@, a1q) && a1q.1 > 0);
        // the ramp
        let m2 = fmin(time, e.end_time);
        lemma_qeq_refl(m2@);
        lemma_fsub_of(m2, e.start_time, m2@, e.start_time@);
        if let Some(d2) = fsub(m2, e.start_time) {
            let tdq = qmax(qsub(m2@, e.start_time@), qint(0));
            lemma_max0(d2, qsub(m2@, e.start_time@));
            let td = fmax(d2, fint(0));
            if flt(fint(0), td) {
                lemma_positive_ramp(e, time, td@);
                lemma_ramp_area_exact(e, td);
                lemma_trapezoid_cong(e, td@, tdq);
                lemma_trapezoid_cong(e, tdq, td@);
                crate::frac::lemma_fint(2);
                if let Some(ra) = ramp_area(e, td) {
                    lemma_dens(td@, qint(1));
                    crate::frac::lemma_qeq_trans(ra@, trapezoid(e, td@), trapezoid(e, tdq));
                    lemma_fadd_of(a1, ra, a1q, trapezoid(e, tdq));
                }
            }
        }
    }
}

/// The computed fold equals the exact fold.
proof fn lemma_fold_exact(evs: Seq<SpeedEvent>, time: Frac)
    requires
        time.wf(),
        forall|i: int| 0 <= i < evs.len() ==> #[trigger] evs[i].wf(),
    ensures
        speed_fold(evs, time) matches Some(c) ==> c.0.wf() && c.1.wf() && c.2.wf() && c.0@ == exact_fold(evs, time@).0
            && c.1@ == exact_fold(evs, time@).1 && exact_fold(evs, time@).2.1 > 0 && qeq(c.2@, exact_fold(evs, time@).2),
    decreases evs.len(),
{
    if evs.len() == 0 {
        crate::frac::lemma_fint(0);
        crate::frac::lemma_fint(BASELINE_SPEED as int);
    } else {
        let prev = evs.drop_last();
        assert forall|i: int| 0 <= i < prev.len() implies #[trigger] prev[i].wf() by {
            assert(prev[i] == evs[i]);
        }
        lemma_fold_exact(prev, time);
        assert(evs.last() == evs[evs.len() - 1]);
        if let Some(c) = speed_fold(prev, time) {
            lemma_step_exact(c, exact_fold(prev, time@), evs.last(), time);
        }
    }
}

/// The computed distance equals the exact distance.
pub proof fn lemma_distance_exact(evs: Seq<SpeedEvent>, time: Frac)
    requires
        time.wf(),
        forall|i: int| 0 <= i < evs.len() ==> #[trigger] evs[i].wf(),
    ensures
        distance_spec(evs, time) matches Some(d) ==> qeq(d@, exact_distance(evs, time@)),
{
    lemma_fold_exact(evs, time);
    if let Some(c) = speed_fold(evs, time) {
        if flt(c.0, time) {
            let eq = exact_fold(evs, time@);
            lemma_qeq_refl(time@);
            lemma_qeq_refl(c.0@);
            lemma_qeq_refl(c.1@);
            lemma_fsub_of(time, c.0, time@, eq.0);
            if let Some(d) = fsub(time, c.0) {
                lemma_fmul_of(d, c.1, qsub(time@, eq.0), eq.1);
                if let Some(inc) = fmul(d, c.1) {
                    lemma_fadd_of(c.2, inc, eq.2, qmul(qsub(time@, eq.0), eq.1));
                }
            }
        }
    }
}

/// With no speed events the distance is the baseline speed times the elapsed
/// time, for every non-negative time whose tenfold still fits in 64 bits.
pub proof fn lemma_distance_without_events(time: Frac)
    requires
        time.wf(),
        fle(fint(0), time),
        fits64(BASELINE_SPEED * time.num),
    ensures
        distance_spec(Seq::empty(), time) matches Some(d) && qeq(d@, qmul(qint(BASELINE_SPEED as int), time@)),
{
    let evs = Seq::<SpeedEvent>::empty();
    assert(speed_fold(evs, time) == Some(start_cursor()));
    let zero = fint(0);
    crate::frac::lemma_fint(0);
    let ten = fint(BASELINE_SPEED as int);
    crate::frac::lemma_fint(BASELINE_SPEED as int);
    if flt(zero, time) {
        lemma_canon(time.num as int, time.den as int);
        let d = fsub(time, zero).unwrap();
        assert(qeq(d@, time@));
        assert(0 <= d.num <= time.num);
        assert(d.num * 10 <= time.num * 10);
        assert(fits64(d.num * 10));
        assert(d.num * 10 == 10 * d.num);
        assert(time.num * 10 == 10 * time.num);
        lemma_canon(d.num * 10, d.den as int);
        let inc = fmul(d, ten).unwrap();
        assert(qeq(inc@, (d.num * 10, d.den as int)));
        assert(qeq((d.num * 10, d.den as int), (time.num * 10, time.den as int))) by (nonlinear_arith)
            requires
                d.num * time.den == time.num * d.den,
        ;
        lemma_qeq_trans(inc@, (d.num * 10, d.den as int), (time.num * 10, time.den as int));
        lemma_canon(inc.num as int, inc.den as int);
        let r = fadd(zero, inc).unwrap();
        assert(qeq(r@, inc@));
        lemma_qeq_trans(r@, inc@, (time.num * 10, time.den as int));
        assert(distance_spec(evs, time) == Some(r));
    } else {
        assert(time.num == 0) by (nonlinear_arith)
            requires
                time.num * 1 <= 0 * time.den,
                0 * time.den <= time.num * 1,
                time.den > 0,
        ;
    }
}

} // verus!
