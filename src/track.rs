//! Where notes sit along a judge line's track at a playback time.
use vstd::prelude::*;

use crate::beat::{beat_add_spec, Beat};
use crate::event::{LineEvent, LineEventKind};
use crate::frac::{fint, fle, flt, fmax, fsub, lemma_qle_trans, qadd, qlt, Frac, Overflow};
use crate::note::{Note, NoteKind};
use crate::speed::{distance_at, distance_spec, SpeedEvent};
use crate::tempo::{time_at_spec, BpmList, Segment};

verus! {

/// Ascending start times.
pub open spec fn sorted_by_start(s: Seq<SpeedEvent>) -> bool {
    forall|i: int, j: int| 0 <= i < j < s.len() ==> fle(#[trigger] s[i].start_time, #[trigger] s[j].start_time)
}

pub open spec fn all_wf(s: Seq<SpeedEvent>) -> bool {
    forall|i: int| 0 <= i < s.len() ==> (#[trigger] s[i]).wf()
}

/// The speed events among the first `n` curve events, in their order, with
/// their beats converted to seconds.
pub open spec fn speed_events_spec(evs: Seq<LineEvent>, segs: Seq<Segment>, n: int) -> Result<Seq<SpeedEvent>, Overflow>
    decreases n,
{
    if n <= 0 {
        Ok(Seq::empty())
    } else {
        match speed_events_spec(evs, segs, n - 1) {
            Ok(prev) => {
                let e = evs[n - 1];
                if e.kind != LineEventKind::Speed {
                    Ok(prev)
                } else {
                    match (time_at_spec(segs, e.start_beat), time_at_spec(segs, e.end_beat)) {
                        (Some(st), Some(et)) => Ok(prev.push(SpeedEvent { start_time: st, end_time: et, start_value: e.start, end_value: e.end })),
                        _ => Err(Overflow),
                    }
                }
            },
            Err(o) => Err(o),
        }
    }
}

/// Where `e` goes in `s`: after the last event that starts no later than it.
pub open spec fn insert_pos(s: Seq<SpeedEvent>, e: SpeedEvent) -> int
    decreases s.len(),
{
    if s.len() == 0 {
        0
    } else if flt(e.start_time, s.last().start_time) {
        insert_pos(s.drop_last(), e)
    } else {
        s.len() as int
    }
}

/// Stable insertion sort by start time: each event, in list order, goes
/// after every earlier one that starts no later than it, so events with
/// equal start times keep their order from the list.
pub open spec fn sort_by_start(s: Seq<SpeedEvent>) -> Seq<SpeedEvent>
    decreases s.len(),
{
    if s.len() == 0 {
        s
    } else {
        let sorted = sort_by_start(s.drop_last());
        sorted.insert(insert_pos(sorted, s.last()), s.last())
    }
}

/// Inserts `e` after every event that starts no later than it.
fn insert_by_start(v: &mut Vec<SpeedEvent>, e: SpeedEvent)
    requires
        sorted_by_start(old(v)@),
        all_wf(old(v)@),
        e.wf(),
    ensures
        final(v)@ == old(v)@.insert(insert_pos(old(v)@, e), e),
        sorted_by_start(final(v)@),
        all_wf(final(v)@),
        final(v)@.to_multiset() == old(v)@.to_multiset().insert(e),
{
    let mut pos: usize = v.len();
    assert(v@.subrange(0, pos as int) =~= v@);
    while pos > 0 && e.start_time.lt(&v[pos - 1].start_time)
        invariant
            0 <= pos <= v.len(),
            sorted_by_start(v@),
            all_wf(v@),
            e.wf(),
            forall|k: int| pos <= k < v.len() ==> qlt(e.start_time@, (#[trigger] v@[k]).start_time@),
            insert_pos(v@, e) == insert_pos(v@.subrange(0, pos as int), e),
        decreases pos,
    {
        assert(v@[pos - 1].wf());
        assert(v@.subrange(0, pos as int).drop_last() =~= v@.subrange(0, pos - 1));
        pos = pos - 1;
    }
    proof {
        if pos > 0 {
            assert(v@.subrange(0, pos as int).last() == v@[pos - 1]);
        }
    }
    let ghost s = v@;
    proof {
        if pos > 0 {
            assert(s[pos - 1].wf());
        }
    }
    v.insert(pos, e);
    proof {
        vstd::seq_lib::to_multiset_insert(s, pos as int, e);
        let t = v@;
        assert forall|i: int| 0 <= i < t.len() implies (#[trigger] t[i]).wf() by {
            if i < pos {
                assert(t[i] == s[i]);
            } else if i > pos {
                assert(t[i] == s[i - 1]);
            }
        }
        assert forall|i: int, j: int| 0 <= i < j < t.len() implies fle(#[trigger] t[i].start_time, #[trigger] t[j].start_time) by {
            if i < pos && j < pos {
                assert(t[i] == s[i] && t[j] == s[j]);
            } else if i < pos && j == pos {
                assert(t[i] == s[i]);
                assert(s[i].wf() && s[pos - 1].wf());
                if i < pos - 1 {
                    assert(fle(s[i].start_time, s[pos - 1].start_time));
                    lemma_qle_trans(s[i].start_time@, s[pos - 1].start_time@, e.start_time@);
                }
            } else if i < pos && j > pos {
                assert(t[i] == s[i] && t[j] == s[j - 1]);
            } else if i == pos {
                assert(t[j] == s[j - 1]);
                assert(s[pos as int].wf() && s[j - 1].wf());
                if j - 1 > pos {
                    assert(fle(s[pos as int].start_time, s[j - 1].start_time));
                    lemma_qle_trans(e.start_time@, s[pos as int].start_time@, s[j - 1].start_time@);
                }
            } else {
                assert(t[i] == s[i - 1] && t[j] == s[j - 1]);
            }
        }
    }
}

/// The speed events of a line with their times in seconds, sorted by start
/// time; events that start together keep their order from `events`.
pub fn speed_events(events: &Vec<LineEvent>, bpm_list: &BpmList) -> (r: Result<Vec<SpeedEvent>, Overflow>)
    requires
        forall|i: int| 0 <= i < events.len() ==> (#[trigger] events[i]).wf(),
        bpm_list.wf(),
    ensures
        match speed_events_spec(events@, bpm_list@, events.len() as int) {
            Ok(s) => r matches Ok(v) && v@ == sort_by_start(s) && v@.to_multiset() == s.to_multiset()
                && sorted_by_start(v@) && all_wf(v@),
            Err(o) => r == Err::<Vec<SpeedEvent>, Overflow>(o),
        },
{
    let ghost evs = events@;
    let ghost segs = bpm_list@;
    let mut v: Vec<SpeedEvent> = Vec::new();
    let mut i: usize = 0;
    while i < events.len()
        invariant
            0 <= i <= events.len(),
            evs == events@,
            segs == bpm_list@,
            forall|j: int| 0 <= j < events.len() ==> (#[trigger] events[j]).wf(),
            bpm_list.wf(),
            speed_events_spec(evs, segs, i as int) is Ok,
            v@ == sort_by_start(speed_events_spec(evs, segs, i as int)->Ok_0),
            v@.to_multiset() == speed_events_spec(evs, segs, i as int)->Ok_0.to_multiset(),
            sorted_by_start(v@),
            all_wf(v@),
        decreases events.len() - i,
    {
        let e = &events[i];
        assert(events[i as int].wf());
        let ghost prev = speed_events_spec(evs, segs, i as int)->Ok_0;
        if e.kind == LineEventKind::Speed {
            let st = bpm_list.time_at(e.start_beat);
            let et = bpm_list.time_at(e.end_beat);
            match (st, et) {
                (Some(st), Some(et)) => {
                    let s = SpeedEvent { start_time: st, end_time: et, start_value: e.start, end_value: e.end };
                    insert_by_start(&mut v, s);
                    proof {
                        assert(speed_events_spec(evs, segs, i + 1) == Ok::<Seq<SpeedEvent>, Overflow>(prev.push(s)));
                        assert(prev.push(s).drop_last() =~= prev);
                        vstd::seq_lib::to_multiset_build(prev, s);
                    }
                },
                _ => {
                    proof {
                        lemma_speed_events_err(evs, segs, (i + 1) as int, evs.len() as int);
                    }
                    return Err(Overflow);
                },
            }
        } else {
            assert(speed_events_spec(evs, segs, i + 1) == Ok::<Seq<SpeedEvent>, Overflow>(prev));
        }
        i = i + 1;
    }
    Ok(v)
}

proof fn lemma_speed_events_err(evs: Seq<LineEvent>, segs: Seq<Segment>, i: int, n: int)
    requires
        0 < i <= n <= evs.len(),
        speed_events_spec(evs, segs, i) is Err,
    ensures
        speed_events_spec(evs, segs, n) is Err,
    decreases n - i,
{
    if n > i {
        lemma_speed_events_err(evs, segs, i, n - 1);
    }
}

/// A note's offset along the track from the judge line, and for a hold
/// note the length of its body.
#[derive(Clone, Copy, Debug, PartialEq, Eq, Structural)]
pub struct Placement {
    pub y: Frac,
    pub height: Option<Frac>,
}

/// `distance(time_at(b)) - current`.
pub open spec fn offset_spec(evs: Seq<SpeedEvent>, segs: Seq<Segment>, b: Beat, current: Frac) -> Option<Frac> {
    match time_at_spec(segs, b) {
        Some(t) => match distance_spec(evs, t) {
            Some(d) => fsub(d, current),
            None => None,
        },
        None => None,
    }
}

/// The placement of `note` at `time`: its offset is the distance to its
/// onset minus the distance to now; a hold note's offset stops at zero
/// once its head has passed the line, and its body reaches to the
/// distance of its end.
pub open spec fn placement_spec(evs: Seq<SpeedEvent>, segs: Seq<Segment>, note: Note, time: Frac) -> Result<Placement, Overflow> {
    match distance_spec(evs, time) {
        Some(current) => match offset_spec(evs, segs, note.beat, current) {
            Some(y) => match note.kind {
                NoteKind::Hold { hold_beat } => {
                    let y0 = fmax(y, fint(0));
                    match beat_add_spec(note.beat, hold_beat) {
                        Some(eb) => match offset_spec(evs, segs, eb, current) {
                            Some(top) => match fsub(top, y0) {
                                Some(h) => Ok(Placement { y: y0, height: Some(h) }),
                                None => Err(Overflow),
                            },
                            None => Err(Overflow),
                        },
                        None => Err(Overflow),
                    }
                },
                _ => Ok(Placement { y, height: None }),
            },
            None => Err(Overflow),
        },
        None => Err(Overflow),
    }
}

fn offset(events: &Vec<SpeedEvent>, bpm_list: &BpmList, b: Beat, current: Frac) -> (r: Option<Frac>)
    requires
        all_wf(events@),
        bpm_list.wf(),
        b.wf(),
        current.wf(),
    ensures
        r == offset_spec(events@, bpm_list@, b, current),
        r matches Some(v) ==> v.wf(),
{
    let t = bpm_list.time_at(b)?;
    let d = distance_at(events, t)?;
    d.sub(&current)
}

/// Places `note` of a line whose speed events (sorted by start time) are
/// `events`, at playback time `time`.
pub fn note_placement(events: &Vec<SpeedEvent>, bpm_list: &BpmList, note: &Note, time: Frac) -> (r: Result<Placement, Overflow>)
    requires
        all_wf(events@),
        bpm_list.wf(),
        note.beat.wf(),
        note.kind matches NoteKind::Hold { hold_beat } ==> hold_beat.wf(),
        time.wf(),
    ensures
        r == placement_spec(events@, bpm_list@, *note, time),
{
    let current = match distance_at(events, time) {
        Some(c) => c,
        None => return Err(Overflow),
    };
    let y = match offset(events, bpm_list, note.beat, current) {
        Some(y) => y,
        None => return Err(Overflow),
    };
    match note.kind {
        NoteKind::Hold { hold_beat } => {
            let y0 = y.max(&Frac::zero());
            let end = match note.beat.add(&hold_beat) {
                Some(e) => e,
                None => return Err(Overflow),
            };
            let top = match offset(events, bpm_list, end, current) {
                Some(t) => t,
                None => return Err(Overflow),
            };
            match top.sub(&y0) {
                Some(h) => Ok(Placement { y: y0, height: Some(h) }),
                None => Err(Overflow),
            }
        },
        _ => Ok(Placement { y, height: None }),
    }
}

/// Whether `note` is over at `current`: its onset plus its hold length
/// lies strictly before `current`. `None` when the sum does not fit.
pub fn note_passed(note: &Note, current: &Beat) -> (r: Option<bool>)
    requires
        note.beat.wf(),
        note.kind matches NoteKind::Hold { hold_beat } ==> hold_beat.wf(),
        current.wf(),
    ensures
        r matches Some(p) ==> p == match note.kind {
            NoteKind::Hold { hold_beat } => qlt(qadd(note.beat@, hold_beat@), current@),
            _ => qlt(note.beat@, current@),
        },
        !(note.kind is Hold) ==> r is Some,
        note.kind matches NoteKind::Hold { hold_beat } ==> (r is None <==> beat_add_spec(note.beat, hold_beat) is None),
{
    match note.kind {
        NoteKind::Hold { hold_beat } => {
            let end = note.beat.add(&hold_beat)?;
            proof {
                lemma_beat_sum(note.beat, hold_beat);
                crate::frac::lemma_dens(note.beat@, hold_beat@);
                crate::beat::lemma_beat_pos(*current);
                crate::frac::lemma_qle_cong(end@, qadd(note.beat@, hold_beat@), current@, current@);
            }
            Some(end.lt(current))
        },
        _ => Some(note.beat.lt(current)),
    }
}

proof fn lemma_beat_sum(a: Beat, b: Beat)
    requires
        a.wf(),
        b.wf(),
    ensures
        beat_add_spec(a, b) matches Some(s) ==> s.wf() && crate::frac::qeq(s@, qadd(a@, b@)) && s@.1 > 0,
{
    crate::beat::lemma_beat_pos(a);
    crate::beat::lemma_beat_pos(b);
    crate::frac::lemma_fint(a.measure as int);
    crate::frac::lemma_ops_exact(fint(a.measure as int), a.fraction);
    crate::frac::lemma_fint(b.measure as int);
    crate::frac::lemma_ops_exact(fint(b.measure as int), b.fraction);
    if let (Some(x), Some(y)) = (crate::beat::beat_frac(a), crate::beat::beat_frac(b)) {
        crate::frac::lemma_ops_exact(x, y);
        if let Some(v) = crate::frac::fadd(x, y) {
            crate::beat::lemma_beat_of(v);
            crate::frac::lemma_qadd_cong(x@, a@, y@, b@);
            crate::frac::lemma_dens(x@, y@);
            crate::frac::lemma_qeq_trans(v@, qadd(x@, y@), qadd(a@, b@));
            crate::frac::lemma_qeq_trans(crate::beat::beat_of(v)@, v@, qadd(a@, b@));
        }
    }
}

} // verus!
