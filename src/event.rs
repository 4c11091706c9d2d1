//! Curve events: one eased segment of one animated line property.
use vstd::prelude::*;

use crate::beat::Beat;
use crate::easing::{ease_spec, lemma_ease_ends, lemma_ease_wf, Easing};
use crate::frac::{
    fadd, fdiv, fint, fle, flt, fmul, fsub, lemma_add_diff,
    lemma_canon, lemma_dens, lemma_fint_view, lemma_reduce_zero_one, lemma_ops_exact, lemma_qadd_cong, lemma_qeq_trans,
    lemma_qle_cong, lemma_qsub_cong, qadd, qdiv, qeq, qmul, qle, qsub, Frac, Overflow,
};
use crate::tempo::{segments_wf, time_at_spec, BpmList, Segment};

verus! {

/// The property a curve event animates.
#[derive(Clone, Copy, Debug, PartialEq, Eq, Structural)]
pub enum LineEventKind {
    X,
    Y,
    Rotation,
    Opacity,
    Speed,
}

/// A segment from `start` at `start_beat` to `end` at `end_beat`, shaped by `easing`.
#[derive(Clone, Copy, Debug, PartialEq, Eq, Structural)]
pub struct LineEvent {
    pub kind: LineEventKind,
    pub start: Frac,
    pub end: Frac,
    pub start_beat: Beat,
    pub end_beat: Beat,
    pub easing: Easing,
}

/// Progress of `time` through `[st, et]`; 1 for a window of no length.
pub open spec fn progress_spec(st: Frac, et: Frac, time: Frac) -> Option<Frac> {
    if fle(et, st) {
        Some(fint(1))
    } else {
        match fsub(time, st) {
            Some(a) => match fsub(et, st) {
                Some(b) => fdiv(a, b),
                None => None,
            },
            None => None,
        }
    }
}

/// `start + (end - start) * k`.
pub open spec fn lerp_spec(start: Frac, end: Frac, k: Frac) -> Option<Frac> {
    match fsub(end, start) {
        Some(w) => match fmul(w, k) {
            Some(m) => fadd(start, m),
            None => None,
        },
        None => None,
    }
}

/// The value of `e` at `time` once its window `[st, et]` is known.
pub open spec fn value_in_window(e: LineEvent, st: Frac, et: Frac, time: Frac) -> Result<Option<Frac>, Overflow> {
    if flt(time, st) || flt(et, time) {
        Ok(None)
    } else {
        match progress_spec(st, et, time) {
            Some(p) => match ease_spec(e.easing, p) {
                Some(k) => match lerp_spec(e.start, e.end, k) {
                    Some(v) => Ok(Some(v)),
                    None => Err(Overflow),
                },
                None => Err(Overflow),
            },
            None => Err(Overflow),
        }
    }
}

/// The value of `e` at `time` seconds under the tempo map `segs`: `None`
/// outside the event's window.
pub open spec fn evaluate_spec(e: LineEvent, segs: Seq<crate::tempo::Segment>, time: Frac) -> Result<Option<Frac>, Overflow> {
    match (time_at_spec(segs, e.start_beat), time_at_spec(segs, e.end_beat)) {
        (Some(st), Some(et)) => value_in_window(e, st, et, time),
        _ => Err(Overflow),
    }
}

impl LineEvent {
    pub open spec fn wf(&self) -> bool {
        &&& self.start.wf()
        &&& self.end.wf()
        &&& self.start_beat.wf()
        &&& self.end_beat.wf()
        &&& qle(self.start_beat@, self.end_beat@)
    }

    /// An event, or `None` when it would end before it starts.
    pub fn new(
        kind: LineEventKind,
        start: Frac,
        end: Frac,
        start_beat: Beat,
        end_beat: Beat,
        easing: Easing,
    ) -> (r: Option<LineEvent>)
        requires
            start.wf(),
            end.wf(),
            start_beat.wf(),
            end_beat.wf(),
        ensures
            r is Some <==> qle(start_beat@, end_beat@),
            r matches Some(e) ==> e.wf() && e == (LineEvent { kind, start, end, start_beat, end_beat, easing }),
    {
        if start_beat.le(&end_beat) {
            Some(LineEvent { kind, start, end, start_beat, end_beat, easing })
        } else {
            None
        }
    }

    /// `end_beat - start_beat`; `None` when it does not fit.
    pub fn duration(&self) -> (r: Option<Beat>)
        requires
            self.wf(),
        ensures
            r == (match (crate::beat::beat_frac(self.end_beat), crate::beat::beat_frac(self.start_beat)) {
                (Some(a), Some(b)) => match fsub(a, b) {
                    Some(v) => Some(crate::beat::beat_of(v)),
                    None => None,
                },
                _ => None,
            }),
    {
        self.end_beat.sub(&self.start_beat)
    }

    /// The value at `time` seconds: `None` strictly outside the window that
    /// the event's beats span under `bpm_list`, else
    /// `start + (end - start) * easing(progress)`.
    pub fn evaluate(&self, time: Frac, bpm_list: &BpmList) -> (r: Result<Option<Frac>, Overflow>)
        requires
            self.wf(),
            time.wf(),
            bpm_list.wf(),
        ensures
            r == evaluate_spec(*self, bpm_list@, time),
            r matches Ok(Some(v)) ==> v.wf() && exact_value(*self, bpm_list@, time, v),
    {
        let st = match bpm_list.time_at(self.start_beat) {
            Some(t) => t,
            None => return Err(Overflow),
        };
        let et = match bpm_list.time_at(self.end_beat) {
            Some(t) => t,
            None => return Err(Overflow),
        };
        if time.lt(&st) || et.lt(&time) {
            return Ok(None);
        }
        let p = if et.le(&st) {
            Frac::from_int(1)
        } else {
            let a = match time.sub(&st) {
                Some(a) => a,
                None => return Err(Overflow),
            };
            let b = match et.sub(&st) {
                Some(b) => b,
                None => return Err(Overflow),
            };
            match a.div(&b) {
                Some(p) => p,
                None => return Err(Overflow),
            }
        };
        let k = match self.easing.ease(p) {
            Some(k) => k,
            None => return Err(Overflow),
        };
        let w = match self.end.sub(&self.start) {
            Some(w) => w,
            None => return Err(Overflow),
        };
        let m = match w.mul(&k) {
            Some(m) => m,
            None => return Err(Overflow),
        };
        proof {
            lemma_lerp_exact(self.start, self.end, k);
            if !fle(et, st) {
                crate::frac::lemma_qeq_refl(time@);
                crate::frac::lemma_qeq_refl(st@);
                crate::frac::lemma_qeq_refl(et@);
                crate::frac::lemma_fsub_of(time, st, time@, st@);
                crate::frac::lemma_fsub_of(et, st, et@, st@);
                let a = fsub(time, st).unwrap();
                let b = fsub(et, st).unwrap();
                crate::frac::lemma_fdiv_of(a, b, qsub(time@, st@), qsub(et@, st@));
            }
        }
        match self.start.add(&m) {
            Some(v) => Ok(Some(v)),
            None => Err(Overflow),
        }
    }
}

/// `v` is the exact value of `e` at `time`: the time lies in the event's
/// window `[st, et]`, the progress is `(time - st) / (et - st)` (1 for a
/// window of no length), and `v = start + (end - start) * easing(progress)`.
pub open spec fn exact_value(e: LineEvent, segs: Seq<Segment>, time: Frac, v: Frac) -> bool {
    match (time_at_spec(segs, e.start_beat), time_at_spec(segs, e.end_beat)) {
        (Some(st), Some(et)) => {
            &&& fle(st, time)
            &&& fle(time, et)
            &&& match progress_spec(st, et, time) {
                Some(p) => {
                    &&& (fle(et, st) ==> p == fint(1))
                    &&& (!fle(et, st) ==> qeq(p@, crate::frac::qdiv(qsub(time@, st@), qsub(et@, st@))))
                    &&& match ease_spec(e.easing, p) {
                        Some(k) => qeq(v@, qadd(e.start@, qmul(qsub(e.end@, e.start@), k@))),
                        None => false,
                    }
                },
                None => false,
            }
        },
        _ => false,
    }
}

/// The computed interpolation is exactly `start + (end - start) * k`.
pub proof fn lemma_lerp_exact(start: Frac, end: Frac, k: Frac)
    requires
        start.wf(),
        end.wf(),
        k.wf(),
    ensures
        lerp_spec(start, end, k) matches Some(v) ==> qeq(v@, qadd(start@, crate::frac::qmul(qsub(end@, start@), k@))),
{
    crate::frac::lemma_qeq_refl(start@);
    crate::frac::lemma_qeq_refl(end@);
    crate::frac::lemma_qeq_refl(k@);
    crate::frac::lemma_fsub_of(end, start, end@, start@);
    if let Some(w) = fsub(end, start) {
        crate::frac::lemma_fmul_of(w, k, qsub(end@, start@), k@);
        if let Some(m) = fmul(w, k) {
            crate::frac::lemma_fadd_of(start, m, start@, crate::frac::qmul(qsub(end@, start@), k@));
        }
    }
}

/// `start + (end - start) * 0` is `start`, and `start + (end - start) * 1` is `end`.
proof fn lemma_lerp_ends(start: Frac, end: Frac)
    requires
        start.wf(),
        end.wf(),
    ensures
        lerp_spec(start, end, fint(0)) matches Some(v) ==> qeq(v@, start@),
        lerp_spec(start, end, fint(1)) matches Some(v) ==> qeq(v@, end@),
{
    lemma_ops_exact(end, start);
    if let Some(w) = fsub(end, start) {
        lemma_fint_view();
        lemma_reduce_zero_one(w.den as int);
        assert((w.num as int) * 0 == 0 && (w.den as int) * 1 == w.den as int);
        assert(qmul(w@, fint(0)@) == (0int, w.den as int));
        assert(fmul(w, fint(0)) == Some(fint(0)));
        crate::frac::lemma_fint(0);
        lemma_ops_exact(start, fint(0));
        lemma_canon(start.num as int, start.den as int);
        crate::frac::lemma_fint(1);
        lemma_ops_exact(w, fint(1));
        if let Some(m) = fmul(w, fint(1)) {
            assert(qeq(m@, w@)) by (nonlinear_arith)
                requires
                    m.num * (w.den * 1) == (w.num * 1) * m.den,
            ;
            lemma_dens(end@, start@);
            lemma_qeq_trans(m@, w@, qsub(end@, start@));
            lemma_ops_exact(start, m);
            if let Some(v) = fadd(start, m) {
                lemma_dens(end@, start@);
                lemma_qadd_cong(start@, start@, m@, qsub(end@, start@));
                lemma_dens(start@, m@);
                lemma_dens(start@, qsub(end@, start@));
                lemma_qeq_trans(v@, qadd(start@, m@), qadd(start@, qsub(end@, start@)));
                lemma_add_diff(start@, end@);
                lemma_qeq_trans(v@, qadd(start@, qsub(end@, start@)), end@);
            }
        }
    }
}

/// Inside a window `[st, et]` (the times of the event's start and end
/// beats): no value exactly strictly outside it, the start value at `st`
/// and the end value at `et` (for a window of positive length), whenever
/// the arithmetic does not overflow.
pub proof fn lemma_evaluate_window(e: LineEvent, st: Frac, et: Frac, time: Frac)
    requires
        e.wf(),
        st.wf(),
        et.wf(),
        time.wf(),
    ensures
        value_in_window(e, st, et, time) matches Ok(x) ==> {
            &&& (x is None <==> (flt(time, st) || flt(et, time)))
            &&& (flt(st, et) && qeq(time@, st@) ==> (x matches Some(v) && qeq(v@, e.start@)))
            &&& (flt(st, et) && qeq(time@, et@) ==> (x matches Some(v) && qeq(v@, e.end@)))
        },
{
    lemma_lerp_ends(e.start, e.end);
    lemma_ease_ends(e.easing);
    if flt(st, et) && qeq(time@, st@) {
        lemma_progress_at_start(st, et, time);
    }
    if flt(st, et) && qeq(time@, et@) {
        lemma_progress_at_end(st, et, time);
    }
}

proof fn lemma_window_width(st: Frac, et: Frac)
    requires
        st.wf(),
        et.wf(),
        flt(st, et),
    ensures
        fsub(et, st) matches Some(b) ==> b.wf() && b.num > 0 && qeq(b@, qsub(et@, st@)),
{
    lemma_ops_exact(et, st);
    if let Some(b) = fsub(et, st) {
        assert(b.num > 0) by (nonlinear_arith)
            requires
                b.num * (et.den * st.den) == (et.num * st.den - st.num * et.den) * b.den,
                et.num * st.den > st.num * et.den,
                et.den * st.den > 0,
                b.den > 0,
        ;
    }
}

proof fn lemma_progress_at_start(st: Frac, et: Frac, time: Frac)
    requires
        st.wf(),
        et.wf(),
        time.wf(),
        flt(st, et),
        qeq(time@, st@),
    ensures
        !flt(time, st) && !flt(et, time),
        fsub(et, st) is Some ==> progress_spec(st, et, time) == Some(fint(0)),
{
    lemma_qle_cong(time@, st@, et@, et@);
    lemma_window_width(st, et);
    lemma_dens(time@, st@);
    lemma_reduce_zero_one(time.den * st.den);
    assert(fsub(time, st) == Some(fint(0)));
    if let Some(b) = fsub(et, st) {
        lemma_fint_view();
        lemma_reduce_zero_one(b.num as int);
        assert(qdiv(fint(0)@, b@) == (0 * (b.den as int), 1 * (b.num as int)));
        assert(0 * (b.den as int) == 0);
        assert(fdiv(fint(0), b) == Some(fint(0)));
    }
}

proof fn lemma_progress_at_end(st: Frac, et: Frac, time: Frac)
    requires
        st.wf(),
        et.wf(),
        time.wf(),
        flt(st, et),
        qeq(time@, et@),
    ensures
        !flt(time, st) && !flt(et, time),
        progress_spec(st, et, time) matches Some(p) ==> p == fint(1),
{
    lemma_qle_cong(st@, st@, time@, et@);
    lemma_window_width(st, et);
    lemma_ops_exact(time, st);
    if let (Some(a), Some(b)) = (fsub(time, st), fsub(et, st)) {
        lemma_dens(time@, st@);
        lemma_dens(et@, st@);
        lemma_qsub_cong(time@, et@, st@, st@);
        lemma_qeq_trans(a@, qsub(time@, st@), qsub(et@, st@));
        lemma_qeq_trans(a@, qsub(et@, st@), b@);
        assert(a.den * b.num > 0) by (nonlinear_arith)
            requires
                a.den > 0,
                b.num > 0,
        ;
        lemma_reduce_zero_one(a.den * b.num);
        assert(fdiv(a, b) == Some(fint(1)));
    }
}

/// An event whose start and end values are equal evaluates to that value
/// at every time of its window, whatever its easing, whenever the
/// arithmetic does not overflow.
pub proof fn lemma_evaluate_constant(e: LineEvent, st: Frac, et: Frac, time: Frac)
    requires
        e.wf(),
        st.wf(),
        et.wf(),
        time.wf(),
        qeq(e.start@, e.end@),
    ensures
        value_in_window(e, st, et, time) matches Ok(Some(v)) ==> qeq(v@, e.start@),
{
    if let Some(p) = progress_spec(st, et, time) {
        lemma_ops_exact(time, st);
        lemma_ops_exact(et, st);
        lemma_fint_view();
        if let (Some(a), Some(b)) = (fsub(time, st), fsub(et, st)) {
            lemma_ops_exact(a, b);
        }
        if let Some(k) = ease_spec(e.easing, p) {
            lemma_ease_wf(e.easing, p);
            lemma_dens(e.end@, e.start@);
            lemma_reduce_zero_one(e.end.den * e.start.den);
            assert(fsub(e.end, e.start) == Some(fint(0)));
            lemma_reduce_zero_one(k.den as int);
            assert(fmul(fint(0), k) == Some(fint(0)));
            crate::frac::lemma_fint(0);
            lemma_ops_exact(e.start, fint(0));
            lemma_canon(e.start.num as int, e.start.den as int);
        }
    }
}

/// Evaluation under a tempo map is evaluation in the window that the
/// event's beats span under it.
pub proof fn lemma_evaluate_in_window(e: LineEvent, segs: Seq<Segment>, time: Frac)
    requires
        e.wf(),
        segments_wf(segs),
        time.wf(),
    ensures
        match (time_at_spec(segs, e.start_beat), time_at_spec(segs, e.end_beat)) {
            (Some(st), Some(et)) => st.wf() && et.wf() && evaluate_spec(e, segs, time) == value_in_window(e, st, et, time),
            _ => evaluate_spec(e, segs, time) is Err,
        },
{
    lemma_time_at_wf(segs, e.start_beat);
    lemma_time_at_wf(segs, e.end_beat);
}

proof fn lemma_time_at_wf(segs: Seq<Segment>, beat: Beat)
    requires
        segments_wf(segs),
        beat.wf(),
    ensures
        time_at_spec(segs, beat) matches Some(t) ==> t.wf(),
{
    crate::frac::lemma_fint(beat.measure as int);
    lemma_ops_exact(fint(beat.measure as int), beat.fraction);
    if let Some(b) = crate::beat::beat_frac(beat) {
        let i = crate::tempo::index_by_beat(segs, b, segs.len() as int);
        crate::tempo::lemma_index_by_beat_range(segs, b, segs.len() as int);
        crate::tempo::lemma_seg_time_exact(segs[i], b);
    }
}

} // verus!
