//! The tempo map: conversion between beats and seconds under a piecewise
//! constant tempo.
use vstd::prelude::*;

use crate::beat::{beat_frac, beat_of, lemma_beat_of, Beat};
use crate::frac::{
    fadd, fdiv, fint, fle, flt, fmul, fsub, lemma_add_diff, lemma_dens, lemma_ops_exact, lemma_qadd_cong, lemma_qdiv_cong,
    lemma_qeq_trans, lemma_qadd_mono, lemma_qdiv_mono, lemma_qle_cong, lemma_qle_trans, lemma_qmul_cong, lemma_qmul_mono,
    lemma_qsub_cong, lemma_qsub_mono, qadd, qdiv, qeq, qint, qle, qmul, qsub, Frac, Q,
};

verus! {

/// A tempo change: from `beat` on, the tempo is `bpm` beats per minute.
#[derive(Clone, Copy, Debug, PartialEq, Eq, Structural)]
pub struct BpmPoint {
    pub beat: Beat,
    pub bpm: Frac,
}

impl BpmPoint {
    pub fn new(beat: Beat, bpm: Frac) -> (r: BpmPoint)
        ensures
            r == (BpmPoint { beat, bpm }),
    {
        BpmPoint { beat, bpm }
    }
}

/// A tempo segment with its start as a rational beat and its start time in seconds.
#[derive(Clone, Copy, Debug, PartialEq, Eq, Structural)]
pub struct Segment {
    pub beat: Frac,
    pub bpm: Frac,
    pub time: Frac,
}

/// Why a list of tempo points was refused.
#[derive(Clone, Copy, Debug, PartialEq, Eq, Structural)]
pub enum TempoError {
    /// There is no tempo point.
    Empty,
    /// The points are not in strictly increasing beat order.
    Unsorted,
    /// A tempo is zero or negative.
    NonPositiveBpm,
    /// A start time or beat needs more than 64 bits.
    Overflow,
}

/// Seconds at beat `b`, inside segment `s`: `time + (b - beat) * 60 / bpm`.
pub open spec fn seg_time(s: Segment, b: Frac) -> Option<Frac> {
    match fsub(b, s.beat) {
        Some(d) => match fmul(d, fint(60)) {
            Some(m) => match fdiv(m, s.bpm) {
                Some(q) => fadd(s.time, q),
                None => None,
            },
            None => None,
        },
        None => None,
    }
}

/// Beat at `t` seconds, inside segment `s`: `beat + (t - time) * bpm / 60`.
pub open spec fn seg_beat(s: Segment, t: Frac) -> Option<Frac> {
    match fsub(t, s.time) {
        Some(d) => match fmul(d, s.bpm) {
            Some(m) => match fdiv(m, fint(60)) {
                Some(q) => fadd(s.beat, q),
                None => None,
            },
            None => None,
        },
        None => None,
    }
}

/// Among the first `n` segments, the last that starts at or before beat `b`;
/// the first segment when none does.
pub open spec fn index_by_beat(segs: Seq<Segment>, b: Frac, n: int) -> int
    decreases n,
{
    if n <= 0 {
        0
    } else if fle(segs[n - 1].beat, b) {
        n - 1
    } else {
        index_by_beat(segs, b, n - 1)
    }
}

/// Among the first `n` segments, the last that starts at or before second `t`;
/// the first segment when none does.
pub open spec fn index_by_time(segs: Seq<Segment>, t: Frac, n: int) -> int
    decreases n,
{
    if n <= 0 {
        0
    } else if fle(segs[n - 1].time, t) {
        n - 1
    } else {
        index_by_time(segs, t, n - 1)
    }
}

pub open spec fn segment_wf(s: Segment) -> bool {
    s.beat.wf() && s.bpm.wf() && s.time.wf() && s.bpm.num > 0
}

/// The segments of a valid tempo map: at least one, in strictly increasing
/// beat order, with positive tempos; the first starts at second zero and
/// each later one where the previous one's line reaches its start beat.
pub open spec fn segments_wf(segs: Seq<Segment>) -> bool {
    &&& segs.len() >= 1
    &&& forall|i: int| 0 <= i < segs.len() ==> segment_wf(#[trigger] segs[i])
    &&& segs[0].time == fint(0)
    &&& forall|i: int|
        0 <= i < segs.len() - 1 ==> flt(#[trigger] segs[i].beat, segs[i + 1].beat)
            && seg_time(segs[i], segs[i + 1].beat) == Some(segs[i + 1].time)
}

/// The segments that `points` describe, computed up to `n` points; `Err`
/// on the first point (in order) that is out of order, not positive or
/// overflows.
pub open spec fn segments_spec(points: Seq<BpmPoint>, n: nat) -> Result<Seq<Segment>, TempoError>
    decreases n,
{
    if n == 0 {
        Ok(Seq::empty())
    } else {
        match segments_spec(points, (n - 1) as nat) {
            Ok(segs) => {
                let p = points[n - 1];
                match beat_frac(p.beat) {
                    None => Err(TempoError::Overflow),
                    Some(b) => if n > 1 && !flt(segs.last().beat, b) {
                        Err(TempoError::Unsorted)
                    } else if p.bpm.num <= 0 {
                        Err(TempoError::NonPositiveBpm)
                    } else if n == 1 {
                        Ok(segs.push(Segment { beat: b, bpm: p.bpm, time: fint(0) }))
                    } else {
                        match seg_time(segs.last(), b) {
                            Some(t) => Ok(segs.push(Segment { beat: b, bpm: p.bpm, time: t })),
                            None => Err(TempoError::Overflow),
                        }
                    },
                }
            },
            Err(e) => Err(e),
        }
    }
}

/// A validated tempo map with the start time of every segment computed.
pub struct BpmList {
    segments: Vec<Segment>,
}

impl View for BpmList {
    type V = Seq<Segment>;

    closed spec fn view(&self) -> Seq<Segment> {
        self.segments@
    }
}

impl BpmList {
    pub open spec fn wf(&self) -> bool {
        segments_wf(self@)
    }

    /// Validates `points` and computes the start time of every segment.
    pub fn new(points: Vec<BpmPoint>) -> (r: Result<BpmList, TempoError>)
        requires
            forall|i: int| 0 <= i < points.len() ==> (#[trigger] points[i]).beat.wf() && points[i].bpm.wf(),
        ensures
            points.len() == 0 ==> r == Err::<BpmList, TempoError>(TempoError::Empty),
            points.len() > 0 ==> match segments_spec(points@, points.len() as nat) {
                Ok(segs) => r matches Ok(l) && l@ == segs,
                Err(e) => r == Err::<BpmList, TempoError>(e),
            },
            r matches Ok(l) ==> l.wf(),
    {
        if points.len() == 0 {
            return Err(TempoError::Empty);
        }
        let mut segments: Vec<Segment> = Vec::new();
        let mut i: usize = 0;
        while i < points.len()
            invariant
                0 <= i <= points.len(),
                forall|j: int| 0 <= j < points.len() ==> (#[trigger] points[j]).beat.wf() && points[j].bpm.wf(),
                segments_spec(points@, i as nat) == Ok::<Seq<Segment>, TempoError>(segments@),
                i > 0 ==> segments_wf(segments@),
                segments@.len() == i,
            decreases points.len() - i,
        {
            let p = points[i];
            assert(p == points[i as int]);
            let b = match p.beat.to_frac() {
                Some(b) => b,
                None => {
                    proof {
                        lemma_segments_err(points@, (i + 1) as nat, points.len() as nat);
                    }
                    return Err(TempoError::Overflow);
                },
            };
            if i > 0 && !segments[i - 1].beat.lt(&b) {
                proof {
                    lemma_segments_err(points@, (i + 1) as nat, points.len() as nat);
                }
                return Err(TempoError::Unsorted);
            }
            if p.bpm.num <= 0 {
                proof {
                    lemma_segments_err(points@, (i + 1) as nat, points.len() as nat);
                }
                return Err(TempoError::NonPositiveBpm);
            }
            let time = if i == 0 {
                Frac::zero()
            } else {
                match segment_time(&segments[i - 1], b) {
                    Some(t) => t,
                    None => {
                        proof {
                            lemma_segments_err(points@, (i + 1) as nat, points.len() as nat);
                        }
                        return Err(TempoError::Overflow);
                    },
                }
            };
            let ghost old_segs = segments@;
            segments.push(Segment { beat: b, bpm: p.bpm, time });
            proof {
                assert(segments@ == old_segs.push(Segment { beat: b, bpm: p.bpm, time }));
                assert forall|j: int| 0 <= j < segments@.len() - 1 implies flt(#[trigger] segments@[j].beat, segments@[j + 1].beat)
                    && seg_time(segments@[j], segments@[j + 1].beat) == Some(segments@[j + 1].time) by {
                    if j < i - 1 {
                        assert(segments@[j] == old_segs[j]);
                        assert(segments@[j + 1] == old_segs[j + 1]);
                    }
                }
                assert forall|j: int| 0 <= j < segments@.len() implies segment_wf(#[trigger] segments@[j]) by {
                    if j < i {
                        assert(segments@[j] == old_segs[j]);
                    }
                }
            }
            i = i + 1;
        }
        Ok(BpmList { segments })
    }

    /// Number of tempo segments.
    pub fn len(&self) -> (r: usize)
        ensures
            r == self@.len(),
    {
        self.segments.len()
    }

    fn find_by_beat(&self, b: Frac) -> (r: usize)
        requires
            self.wf(),
            b.wf(),
        ensures
            r == index_by_beat(self@, b, self@.len() as int),
            r < self@.len(),
    {
        let mut n: usize = self.segments.len();
        while n > 0
            invariant
                0 <= n <= self@.len(),
                self.wf(),
                b.wf(),
                index_by_beat(self@, b, self@.len() as int) == index_by_beat(self@, b, n as int),
            decreases n,
        {
            assert(segment_wf(self@[n - 1]));
            if self.segments[n - 1].beat.le(&b) {
                return n - 1;
            }
            n = n - 1;
        }
        0
    }

    fn find_by_time(&self, t: Frac) -> (r: usize)
        requires
            self.wf(),
            t.wf(),
        ensures
            r == index_by_time(self@, t, self@.len() as int),
            r < self@.len(),
    {
        let mut n: usize = self.segments.len();
        while n > 0
            invariant
                0 <= n <= self@.len(),
                self.wf(),
                t.wf(),
                index_by_time(self@, t, self@.len() as int) == index_by_time(self@, t, n as int),
            decreases n,
        {
            assert(segment_wf(self@[n - 1]));
            if self.segments[n - 1].time.le(&t) {
                return n - 1;
            }
            n = n - 1;
        }
        0
    }

    /// Seconds at `beat`: along the last segment that starts at or before
    /// it, or along the first segment for a beat before every segment.
    pub fn time_at(&self, beat: Beat) -> (r: Option<Frac>)
        requires
            self.wf(),
            beat.wf(),
        ensures
            r == time_at_spec(self@, beat),
            r matches Some(t) ==> t.wf() && (beat_frac(beat) matches Some(b) && qeq(
                t@,
                qseg_time(self@[index_by_beat(self@, b, self@.len() as int)], beat@),
            )),
    {
        let b = beat.to_frac()?;
        let i = self.find_by_beat(b);
        assert(segment_wf(self@[i as int]));
        let r = segment_time(&self.segments[i], b);
        proof {
            let s = self@[i as int];
            lemma_seg_time_exact(s, b);
            crate::beat::lemma_beat_pos(beat);
            lemma_qseg_time_cong(s, b@, beat@);
            lemma_pos_dens(s, b@);
            if let Some(t) = r {
                lemma_qeq_trans(t@, qseg_time(s, b@), qseg_time(s, beat@));
            }
        }
        r
    }

    /// The beat at `time` seconds: along the last segment that starts at or
    /// before it, or along the first segment for a time before every segment.
    pub fn beat_at(&self, time: Frac) -> (r: Option<Beat>)
        requires
            self.wf(),
            time.wf(),
        ensures
            r == beat_at_spec(self@, time),
            r matches Some(b) ==> b.wf() && qeq(b@, qseg_beat(self@[index_by_time(self@, time, self@.len() as int)], time@)),
    {
        let i = self.find_by_time(time);
        assert(segment_wf(self@[i as int]));
        let b = segment_beat(&self.segments[i], time)?;
        let r = Beat::from_frac(b);
        proof {
            let s = self@[i as int];
            lemma_seg_beat_exact(s, time);
            lemma_qeq_trans(r@, b@, qseg_beat(s, time@));
        }
        Some(r)
    }
}

pub open spec fn time_at_spec(segs: Seq<Segment>, beat: Beat) -> Option<Frac> {
    match beat_frac(beat) {
        Some(b) => seg_time(segs[index_by_beat(segs, b, segs.len() as int)], b),
        None => None,
    }
}

pub open spec fn beat_at_spec(segs: Seq<Segment>, time: Frac) -> Option<Beat> {
    match seg_beat(segs[index_by_time(segs, time, segs.len() as int)], time) {
        Some(b) => Some(beat_of(b)),
        None => None,
    }
}

fn segment_time(s: &Segment, b: Frac) -> (r: Option<Frac>)
    requires
        segment_wf(*s),
        b.wf(),
    ensures
        r == seg_time(*s, b),
        r matches Some(t) ==> t.wf(),
{
    let d = b.sub(&s.beat)?;
    let m = d.mul(&Frac::from_int(60))?;
    let q = m.div(&s.bpm)?;
    s.time.add(&q)
}

fn segment_beat(s: &Segment, t: Frac) -> (r: Option<Frac>)
    requires
        segment_wf(*s),
        t.wf(),
    ensures
        r == seg_beat(*s, t),
        r matches Some(b) ==> b.wf(),
{
    let d = t.sub(&s.time)?;
    let m = d.mul(&s.bpm)?;
    let q = m.div(&Frac::from_int(60))?;
    s.beat.add(&q)
}

proof fn lemma_segments_err(points: Seq<BpmPoint>, i: nat, n: nat)
    requires
        1 <= i <= n <= points.len(),
        segments_spec(points, i) is Err,
    ensures
        segments_spec(points, n) == segments_spec(points, i),
    decreases n - i,
{
    if n > i {
        lemma_segments_err(points, i, (n - 1) as nat);
    }
}

pub proof fn lemma_index_by_beat_range(segs: Seq<Segment>, b: Frac, n: int)
    requires
        0 < n <= segs.len(),
    ensures
        0 <= index_by_beat(segs, b, n) < n,
        segments_wf(segs) ==> segment_wf(segs[index_by_beat(segs, b, n)]),
    decreases n,
{
    if !fle(segs[n - 1].beat, b) {
        if n > 1 {
            lemma_index_by_beat_range(segs, b, n - 1);
        } else {
            assert(index_by_beat(segs, b, 0) == 0);
        }
    }
}

/// Equal beats give equal exact times.
proof fn lemma_qseg_time_cong(s: Segment, b1: Q, b2: Q)
    requires
        segment_wf(s),
        b1.1 > 0,
        b2.1 > 0,
        qeq(b1, b2),
    ensures
        qeq(qseg_time(s, b1), qseg_time(s, b2)),
{
    lemma_pos_dens(s, b1);
    lemma_pos_dens(s, b2);
    lemma_qsub_cong(b1, b2, s.beat@, s.beat@);
    lemma_qmul_cong(qsub(b1, s.beat@), qsub(b2, s.beat@), qint(60), qint(60));
    lemma_qdiv_cong(qmul(qsub(b1, s.beat@), qint(60)), qmul(qsub(b2, s.beat@), qint(60)), s.bpm@, s.bpm@);
    lemma_qadd_cong(
        s.time@,
        s.time@,
        qdiv(qmul(qsub(b1, s.beat@), qint(60)), s.bpm@),
        qdiv(qmul(qsub(b2, s.beat@), qint(60)), s.bpm@),
    );
}

/// Exact seconds at beat `b` along segment `s`.
pub open spec fn qseg_time(s: Segment, b: Q) -> Q {
    qadd(s.time@, qdiv(qmul(qsub(b, s.beat@), qint(60)), s.bpm@))
}

/// Exact beat at `t` seconds along segment `s`.
pub open spec fn qseg_beat(s: Segment, t: Q) -> Q {
    qadd(s.beat@, qdiv(qmul(qsub(t, s.time@), s.bpm@), qint(60)))
}

/// A computed time equals the exact one in value.
pub proof fn lemma_seg_time_exact(s: Segment, b: Frac)
    requires
        segment_wf(s),
        b.wf(),
    ensures
        seg_time(s, b) matches Some(t) ==> t.wf() && qeq(t@, qseg_time(s, b@)) && qseg_time(s, b@).1 > 0,
{
    if let Some(d) = fsub(b, s.beat) {
        lemma_ops_exact(b, s.beat);
        let sixty = fint(60);
        crate::frac::lemma_fint(60);
        if let Some(m) = fmul(d, sixty) {
            lemma_ops_exact(d, sixty);
            let dq = qsub(b@, s.beat@);
            lemma_dens(b@, s.beat@);
            lemma_dens(dq, qint(60));
            lemma_dens(qmul(dq, qint(60)), s.bpm@);
            lemma_dens(s.time@, qdiv(qmul(dq, qint(60)), s.bpm@));
            lemma_qmul_cong(d@, dq, sixty@, sixty@);
            lemma_qeq_trans(m@, qmul(d@, sixty@), qmul(dq, sixty@));
            if let Some(q) = fdiv(m, s.bpm) {
                lemma_ops_exact(m, s.bpm);
                let mq = qmul(dq, qint(60));
                lemma_qdiv_cong(m@, mq, s.bpm@, s.bpm@);
                lemma_qeq_trans(q@, qdiv(m@, s.bpm@), qdiv(mq, s.bpm@));
                if let Some(t) = fadd(s.time, q) {
                    lemma_ops_exact(s.time, q);
                    lemma_qadd_cong(s.time@, s.time@, q@, qdiv(mq, s.bpm@));
                    lemma_qeq_trans(t@, qadd(s.time@, q@), qseg_time(s, b@));
                }
            }
        }
    }
}

/// A computed beat equals the exact one in value.
pub proof fn lemma_seg_beat_exact(s: Segment, t: Frac)
    requires
        segment_wf(s),
        t.wf(),
    ensures
        seg_beat(s, t) matches Some(b) ==> b.wf() && qeq(b@, qseg_beat(s, t@)) && qseg_beat(s, t@).1 > 0,
{
    if let Some(d) = fsub(t, s.time) {
        lemma_ops_exact(t, s.time);
        let sixty = fint(60);
        crate::frac::lemma_fint(60);
        if let Some(m) = fmul(d, s.bpm) {
            lemma_ops_exact(d, s.bpm);
            let dq = qsub(t@, s.time@);
            lemma_dens(t@, s.time@);
            lemma_dens(dq, s.bpm@);
            lemma_dens(qmul(dq, s.bpm@), qint(60));
            lemma_dens(s.beat@, qdiv(qmul(dq, s.bpm@), qint(60)));
            lemma_qmul_cong(d@, dq, s.bpm@, s.bpm@);
            lemma_qeq_trans(m@, qmul(d@, s.bpm@), qmul(dq, s.bpm@));
            if let Some(q) = fdiv(m, sixty) {
                lemma_ops_exact(m, sixty);
                let mq = qmul(dq, s.bpm@);
                lemma_qdiv_cong(m@, mq, sixty@, sixty@);
                lemma_qeq_trans(q@, qdiv(m@, sixty@), qdiv(mq, qint(60)));
                if let Some(b) = fadd(s.beat, q) {
                    lemma_ops_exact(s.beat, q);
                    lemma_qadd_cong(s.beat@, s.beat@, q@, qdiv(mq, qint(60)));
                    lemma_qeq_trans(b@, qadd(s.beat@, q@), qseg_beat(s, t@));
                }
            }
        }
    }
}

proof fn lemma_add_sub_cancel(a: Q, x: Q)
    requires
        a.1 > 0,
        x.1 > 0,
    ensures
        qeq(qsub(qadd(a, x), a), x),
{
    let (a0, a1) = a;
    let (x0, x1) = x;
    vstd::arithmetic::mul::lemma_mul_is_distributive_sub_other_way(x1, (a0 * x1 + x0 * a1) * a1, a0 * (a1 * x1));
    vstd::arithmetic::mul::lemma_mul_is_distributive_add_other_way(a1, a0 * x1, x0 * a1);
    assert((a0 * x1) * a1 == a0 * (a1 * x1)) by (nonlinear_arith);
    assert(((x0 * a1) * a1) * x1 == x0 * ((a1 * x1) * a1)) by (nonlinear_arith);
}

proof fn lemma_div_mul_cancel(y: Q, p: Q)
    requires
        y.1 > 0,
        p.1 > 0,
        p.0 > 0,
    ensures
        qeq(qmul(qdiv(y, p), p), y),
{
    let (y0, y1) = y;
    let (p0, p1) = p;
    assert((y0 * p1 * p0) * y1 == y0 * (y1 * p0 * p1)) by (nonlinear_arith);
}

proof fn lemma_mul_div_cancel(y: Q, p: Q)
    requires
        y.1 > 0,
        p.1 > 0,
        p.0 > 0,
    ensures
        qeq(qdiv(qmul(y, p), p), y),
{
    let (y0, y1) = y;
    let (p0, p1) = p;
    assert((y0 * p0 * p1) * y1 == y0 * (y1 * p1 * p0)) by (nonlinear_arith);
}


proof fn lemma_pos_dens(s: Segment, b: Q)
    requires
        segment_wf(s),
        b.1 > 0,
    ensures
        qsub(b, s.beat@).1 > 0,
        qmul(qsub(b, s.beat@), qint(60)).1 > 0,
        qdiv(qmul(qsub(b, s.beat@), qint(60)), s.bpm@).1 > 0,
        qseg_time(s, b).1 > 0,
        qsub(b, s.time@).1 > 0,
        qmul(qsub(b, s.time@), s.bpm@).1 > 0,
        qdiv(qmul(qsub(b, s.time@), s.bpm@), qint(60)).1 > 0,
        qseg_beat(s, b).1 > 0,
{
    let z = qint(0);
    lemma_qsub_cong(b, b, s.beat@, s.beat@);
    lemma_qmul_cong(qsub(b, s.beat@), qsub(b, s.beat@), qint(60), qint(60));
    lemma_qdiv_cong(qmul(qsub(b, s.beat@), qint(60)), qmul(qsub(b, s.beat@), qint(60)), s.bpm@, s.bpm@);
    lemma_qadd_cong(s.time@, s.time@, qdiv(qmul(qsub(b, s.beat@), qint(60)), s.bpm@), qdiv(qmul(qsub(b, s.beat@), qint(60)), s.bpm@));
    lemma_qsub_cong(b, b, s.time@, s.time@);
    lemma_qmul_cong(qsub(b, s.time@), qsub(b, s.time@), s.bpm@, s.bpm@);
    lemma_qdiv_cong(qmul(qsub(b, s.time@), s.bpm@), qmul(qsub(b, s.time@), s.bpm@), qint(60), qint(60));
    lemma_qadd_cong(s.beat@, s.beat@, qdiv(qmul(qsub(b, s.time@), s.bpm@), qint(60)), qdiv(qmul(qsub(b, s.time@), s.bpm@), qint(60)));
}

/// Within one segment the exact conversions are inverse to each other.
proof fn lemma_seg_inverse(s: Segment, b: Q, t: Q)
    requires
        segment_wf(s),
        b.1 > 0,
        t.1 > 0,
        qeq(t, qseg_time(s, b)),
    ensures
        qeq(qseg_beat(s, t), b),
{
    let e = qseg_time(s, b);
    let d = qsub(b, s.beat@);
    let x = qdiv(qmul(d, qint(60)), s.bpm@);
    lemma_pos_dens(s, b);
    lemma_pos_dens(s, t);
    lemma_pos_dens(s, e);
    lemma_dens(x, s.bpm@);
    lemma_dens(s.beat@, d);
    lemma_add_sub_cancel(s.time@, x);
    lemma_qsub_cong(t, e, s.time@, s.time@);
    lemma_qeq_trans(qsub(t, s.time@), qsub(e, s.time@), x);
    lemma_qmul_cong(qsub(t, s.time@), x, s.bpm@, s.bpm@);
    lemma_div_mul_cancel(qmul(d, qint(60)), s.bpm@);
    let a = qmul(qsub(t, s.time@), s.bpm@);
    lemma_qeq_trans(a, qmul(x, s.bpm@), qmul(d, qint(60)));
    lemma_qdiv_cong(a, qmul(d, qint(60)), qint(60), qint(60));
    lemma_mul_div_cancel(d, qint(60));
    lemma_qeq_trans(qdiv(a, qint(60)), qdiv(qmul(d, qint(60)), qint(60)), d);
    lemma_qadd_cong(s.beat@, s.beat@, qdiv(a, qint(60)), d);
    lemma_add_diff(s.beat@, b);
    lemma_qeq_trans(qseg_beat(s, t), qadd(s.beat@, d), b);
}

/// Along a segment, a beat at or after its start maps to a time at or after its start.
proof fn lemma_seg_time_after_start(s: Segment, b: Q)
    requires
        segment_wf(s),
        b.1 > 0,
        qle(s.beat@, b),
    ensures
        qle(s.time@, qseg_time(s, b)),
{
    let p1 = s.bpm@.1;
    let (t0, t1) = s.time@;
    let d = qsub(b, s.beat@);
    assert(d.0 >= 0);
    let m = qmul(d, qint(60));
    assert(m.0 >= 0) by (nonlinear_arith)
        requires
            m.0 == d.0 * 60,
            d.0 >= 0,
    ;
    lemma_pos_dens(s, b);
    let x = qdiv(m, s.bpm@);
    assert(x.0 >= 0) by (nonlinear_arith)
        requires
            x.0 == m.0 * p1,
            m.0 >= 0,
            p1 > 0,
    ;
    let x1 = x.1;
    assert(t0 * (t1 * x1) <= (t0 * x1 + x.0 * t1) * t1) by (nonlinear_arith)
        requires
            x.0 >= 0,
            t1 > 0,
            x1 > 0,
    ;
}


/// Along one segment, time grows with the beat.
proof fn lemma_seg_time_mono(s: Segment, b1: Q, b2: Q)
    requires
        segment_wf(s),
        b1.1 > 0,
        b2.1 > 0,
        qle(b1, b2),
    ensures
        qle(qseg_time(s, b1), qseg_time(s, b2)),
{
    lemma_pos_dens(s, b1);
    lemma_pos_dens(s, b2);
    lemma_qsub_mono(b1, b2, s.beat@);
    lemma_qmul_mono(qsub(b1, s.beat@), qsub(b2, s.beat@), qint(60));
    lemma_qdiv_mono(qmul(qsub(b1, s.beat@), qint(60)), qmul(qsub(b2, s.beat@), qint(60)), s.bpm@);
    lemma_qadd_mono(
        s.time@,
        qdiv(qmul(qsub(b1, s.beat@), qint(60)), s.bpm@),
        qdiv(qmul(qsub(b2, s.beat@), qint(60)), s.bpm@),
    );
}

/// Along one segment, the beat grows with time.
proof fn lemma_seg_beat_mono(s: Segment, t1: Q, t2: Q)
    requires
        segment_wf(s),
        t1.1 > 0,
        t2.1 > 0,
        qle(t1, t2),
    ensures
        qle(qseg_beat(s, t1), qseg_beat(s, t2)),
{
    lemma_pos_dens(s, t1);
    lemma_pos_dens(s, t2);
    lemma_qsub_mono(t1, t2, s.time@);
    lemma_qmul_mono(qsub(t1, s.time@), qsub(t2, s.time@), s.bpm@);
    lemma_qdiv_mono(qmul(qsub(t1, s.time@), s.bpm@), qmul(qsub(t2, s.time@), s.bpm@), qint(60));
    lemma_qadd_mono(
        s.beat@,
        qdiv(qmul(qsub(t1, s.time@), s.bpm@), qint(60)),
        qdiv(qmul(qsub(t2, s.time@), s.bpm@), qint(60)),
    );
}

/// Along a segment, a time at or after its start maps to a beat at or after its start.
proof fn lemma_seg_beat_after_start(s: Segment, t: Q)
    requires
        segment_wf(s),
        t.1 > 0,
        qle(s.time@, t),
    ensures
        qle(s.beat@, qseg_beat(s, t)),
{
    let p0 = s.bpm@.0;
    let d = qsub(t, s.time@);
    assert(d.0 >= 0);
    lemma_pos_dens(s, t);
    let m = qmul(d, s.bpm@);
    assert(m.0 >= 0) by (nonlinear_arith)
        requires
            m.0 == d.0 * p0,
            d.0 >= 0,
            p0 > 0,
    ;
    let x = qdiv(m, qint(60));
    assert(x.0 >= 0) by (nonlinear_arith)
        requires
            x.0 == m.0 * 1,
            m.0 >= 0,
    ;
    let (b0, b1) = s.beat@;
    let x1 = x.1;
    assert(b0 * (b1 * x1) <= (b0 * x1 + x.0 * b1) * b1) by (nonlinear_arith)
        requires
            x.0 >= 0,
            b1 > 0,
            x1 > 0,
    ;
}

/// The segment chosen for a beat: the first, or one that starts at or
/// before it; every later segment starts after it.
proof fn lemma_index_by_beat_props(segs: Seq<Segment>, b: Frac, n: int)
    requires
        0 < n <= segs.len(),
    ensures
        0 <= index_by_beat(segs, b, n) < n,
        index_by_beat(segs, b, n) == 0 || fle(segs[index_by_beat(segs, b, n)].beat, b),
        forall|k: int| index_by_beat(segs, b, n) < k < n ==> !fle(#[trigger] segs[k].beat, b),
    decreases n,
{
    if !fle(segs[n - 1].beat, b) {
        if n > 1 {
            lemma_index_by_beat_props(segs, b, n - 1);
        } else {
            assert(index_by_beat(segs, b, 0) == 0);
        }
    }
}

/// The segment chosen for a time: the first, or one that starts at or
/// before it; every later segment starts after it.
proof fn lemma_index_by_time_props(segs: Seq<Segment>, t: Frac, n: int)
    requires
        0 < n <= segs.len(),
    ensures
        0 <= index_by_time(segs, t, n) < n,
        index_by_time(segs, t, n) == 0 || fle(segs[index_by_time(segs, t, n)].time, t),
        forall|k: int| index_by_time(segs, t, n) < k < n ==> !fle(#[trigger] segs[k].time, t),
    decreases n,
{
    if !fle(segs[n - 1].time, t) {
        if n > 1 {
            lemma_index_by_time_props(segs, t, n - 1);
        } else {
            assert(index_by_time(segs, t, 0) == 0);
        }
    }
}

/// The start of segment `k + 1` is where segment `k` reaches its start beat.
proof fn lemma_next_start(segs: Seq<Segment>, k: int)
    requires
        segments_wf(segs),
        0 <= k < segs.len() - 1,
    ensures
        qeq(segs[k + 1].time@, qseg_time(segs[k], segs[k + 1].beat@)),
        qeq(qseg_beat(segs[k], segs[k + 1].time@), segs[k + 1].beat@),
        qle(segs[k].beat@, segs[k + 1].beat@),
        qle(segs[k].time@, segs[k + 1].time@),
{
    let s = segs[k];
    let n = segs[k + 1];
    assert(segment_wf(s) && segment_wf(n));
    assert(flt(s.beat, n.beat) && seg_time(s, n.beat) == Some(n.time));
    lemma_seg_time_exact(s, n.beat);
    lemma_seg_inverse(s, n.beat@, n.time@);
    lemma_seg_time_after_start(s, n.beat@);
    lemma_pos_dens(s, n.beat@);
    lemma_qle_cong(s.time@, s.time@, qseg_time(s, n.beat@), n.time@);
}

/// Start beats and start times never decrease along the segments.
proof fn lemma_starts_increase(segs: Seq<Segment>, k: int, m: int)
    requires
        segments_wf(segs),
        0 <= k <= m < segs.len(),
    ensures
        qle(segs[k].beat@, segs[m].beat@),
        qle(segs[k].time@, segs[m].time@),
    decreases m - k,
{
    assert(segment_wf(segs[k]) && segment_wf(segs[m]));
    if k < m {
        lemma_starts_increase(segs, k, m - 1);
        lemma_next_start(segs, m - 1);
        assert(segment_wf(segs[m - 1]));
        lemma_qle_trans(segs[k].beat@, segs[m - 1].beat@, segs[m].beat@);
        lemma_qle_trans(segs[k].time@, segs[m - 1].time@, segs[m].time@);
    }
}

/// `time_at` never decreases as the beat grows.
pub proof fn lemma_time_at_monotone(segs: Seq<Segment>, a: Beat, b: Beat)
    requires
        segments_wf(segs),
        a.wf(),
        b.wf(),
        qle(a@, b@),
    ensures
        (time_at_spec(segs, a), time_at_spec(segs, b)) matches (Some(t1), Some(t2)) ==> fle(t1, t2),
{
    if let (Some(x), Some(y)) = (beat_frac(a), beat_frac(b)) {
        let n = segs.len() as int;
        crate::frac::lemma_fint(a.measure as int);
        lemma_ops_exact(fint(a.measure as int), a.fraction);
        crate::frac::lemma_fint(b.measure as int);
        lemma_ops_exact(fint(b.measure as int), b.fraction);
        crate::beat::lemma_beat_pos(a);
        crate::beat::lemma_beat_pos(b);
        lemma_qle_cong(a@, x@, b@, y@);
        let i = index_by_beat(segs, x, n);
        let j = index_by_beat(segs, y, n);
        lemma_index_by_beat_props(segs, x, n);
        lemma_index_by_beat_props(segs, y, n);
        let si = segs[i];
        let sj = segs[j];
        assert(segment_wf(si) && segment_wf(sj));
        if let (Some(t1), Some(t2)) = (seg_time(si, x), seg_time(sj, y)) {
            lemma_seg_time_exact(si, x);
            lemma_seg_time_exact(sj, y);
            if j < i {
                assert(fle(si.beat, x));
                assert(!fle(segs[i].beat, y));
                assert(segment_wf(si));
                lemma_qle_trans(si.beat@, x@, y@);
            }
            // qseg_time(si, x) <= qseg_time(sj, y)
            if i == j {
                lemma_seg_time_mono(si, x@, y@);
            } else {
                let nx = segs[i + 1];
                assert(segment_wf(nx));
                assert(!fle(segs[i + 1].beat, x));
                lemma_seg_time_mono(si, x@, nx.beat@);
                lemma_next_start(segs, i);
                lemma_pos_dens(si, nx.beat@);
                lemma_pos_dens(si, x@);
                lemma_qle_cong(qseg_time(si, x@), qseg_time(si, x@), qseg_time(si, nx.beat@), nx.time@);
                lemma_starts_increase(segs, i + 1, j);
                lemma_qle_trans(qseg_time(si, x@), nx.time@, sj.time@);
                assert(fle(sj.beat, y));
                lemma_seg_time_after_start(sj, y@);
                lemma_pos_dens(sj, y@);
                lemma_qle_trans(qseg_time(si, x@), sj.time@, qseg_time(sj, y@));
            }
            lemma_pos_dens(si, x@);
            lemma_pos_dens(sj, y@);
            lemma_qle_cong(t1@, qseg_time(si, x@), t2@, qseg_time(sj, y@));
        }
    }
}

/// `beat_at` never decreases as time grows.
pub proof fn lemma_beat_at_monotone(segs: Seq<Segment>, t1: Frac, t2: Frac)
    requires
        segments_wf(segs),
        t1.wf(),
        t2.wf(),
        fle(t1, t2),
    ensures
        (beat_at_spec(segs, t1), beat_at_spec(segs, t2)) matches (Some(b1), Some(b2)) ==> qle(b1@, b2@),
{
    let n = segs.len() as int;
    let i = index_by_time(segs, t1, n);
    let j = index_by_time(segs, t2, n);
    lemma_index_by_time_props(segs, t1, n);
    lemma_index_by_time_props(segs, t2, n);
    let si = segs[i];
    let sj = segs[j];
    assert(segment_wf(si) && segment_wf(sj));
    if let (Some(x1), Some(x2)) = (seg_beat(si, t1), seg_beat(sj, t2)) {
        lemma_seg_beat_exact(si, t1);
        lemma_seg_beat_exact(sj, t2);
        if j < i {
            assert(fle(si.time, t1));
            assert(!fle(segs[i].time, t2));
            lemma_qle_trans(si.time@, t1@, t2@);
        }
        if i == j {
            lemma_seg_beat_mono(si, t1@, t2@);
        } else {
            let nx = segs[i + 1];
            assert(segment_wf(nx));
            assert(!fle(segs[i + 1].time, t1));
            lemma_seg_beat_mono(si, t1@, nx.time@);
            lemma_next_start(segs, i);
            lemma_pos_dens(si, nx.time@);
            lemma_pos_dens(si, t1@);
            lemma_qle_cong(qseg_beat(si, t1@), qseg_beat(si, t1@), qseg_beat(si, nx.time@), nx.beat@);
            lemma_starts_increase(segs, i + 1, j);
            lemma_qle_trans(qseg_beat(si, t1@), nx.beat@, sj.beat@);
            assert(fle(sj.time, t2));
            lemma_seg_beat_after_start(sj, t2@);
            lemma_pos_dens(sj, t2@);
            lemma_qle_trans(qseg_beat(si, t1@), sj.beat@, qseg_beat(sj, t2@));
        }
        lemma_pos_dens(si, t1@);
        lemma_pos_dens(sj, t2@);
        lemma_qle_cong(x1@, qseg_beat(si, t1@), x2@, qseg_beat(sj, t2@));
        lemma_beat_of(x1);
        lemma_beat_of(x2);
        crate::beat::lemma_beat_pos(beat_of(x1));
        crate::beat::lemma_beat_pos(beat_of(x2));
        lemma_qle_cong(beat_of(x1)@, x1@, beat_of(x2)@, x2@);
    }
}

/// A time whose segment is `i`: `i` is the first segment or starts at or
/// before it, and every later segment starts after it.
proof fn lemma_index_by_time_unique(segs: Seq<Segment>, t: Frac, n: int, i: int)
    requires
        0 <= i < n <= segs.len(),
        i == 0 || fle(segs[i].time, t),
        forall|k: int| i < k < n ==> !fle(#[trigger] segs[k].time, t),
    ensures
        index_by_time(segs, t, n) == i,
    decreases n,
{
    if n - 1 > i {
        assert(!fle(segs[n - 1].time, t));
        lemma_index_by_time_unique(segs, t, n - 1, i);
    } else if !fle(segs[i].time, t) {
        assert(index_by_time(segs, t, 0) == 0);
    }
}

/// Converting a beat to seconds and back gives the same position, whenever
/// neither conversion overflows.
pub proof fn lemma_round_trip(segs: Seq<Segment>, beat: Beat)
    requires
        segments_wf(segs),
        beat.wf(),
    ensures
        time_at_spec(segs, beat) matches Some(t) ==> (beat_at_spec(segs, t) matches Some(b2) ==> qeq(b2@, beat@)),
{
    if let Some(b) = beat_frac(beat) {
        let n = segs.len() as int;
        crate::frac::lemma_fint(beat.measure as int);
        lemma_ops_exact(fint(beat.measure as int), beat.fraction);
        crate::beat::lemma_beat_pos(beat);
        let i = index_by_beat(segs, b, n);
        lemma_index_by_beat_props(segs, b, n);
        let s = segs[i];
        assert(segment_wf(s));
        if let Some(t) = seg_time(s, b) {
            lemma_seg_time_exact(s, b);
            lemma_pos_dens(s, b@);
            lemma_seg_inverse(s, b@, t@);
            if i > 0 {
                lemma_seg_time_after_start(s, b@);
                lemma_qle_cong(s.time@, s.time@, qseg_time(s, b@), t@);
            }
            assert forall|k: int| i < k < n implies !fle(#[trigger] segs[k].time, t) by {
                if fle(segs[k].time, t) {
                    let nx = segs[i + 1];
                    assert(segment_wf(nx) && segment_wf(segs[k]));
                    lemma_starts_increase(segs, i + 1, k);
                    lemma_qle_trans(nx.time@, segs[k].time@, t@);
                    lemma_seg_beat_mono(s, nx.time@, t@);
                    lemma_next_start(segs, i);
                    lemma_pos_dens(s, nx.time@);
                    lemma_pos_dens(s, t@);
                    lemma_qle_cong(qseg_beat(s, nx.time@), nx.beat@, qseg_beat(s, t@), b@);
                    assert(!fle(segs[i + 1].beat, b));
                }
            }
            lemma_index_by_time_unique(segs, t, n, i);
            if let Some(b2) = seg_beat(s, t) {
                lemma_seg_beat_exact(s, t);
                lemma_beat_of(b2);
                lemma_pos_dens(s, t@);
                lemma_qeq_trans(b2@, qseg_beat(s, t@), b@);
                lemma_qeq_trans(beat_of(b2)@, b2@, b@);
                lemma_qeq_trans(beat_of(b2)@, b@, beat@);
            }
        }
    }
}

} // verus!
