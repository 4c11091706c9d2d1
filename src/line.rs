//! Per-line resolution of the animated properties at a playback time.
use vstd::prelude::*;

use crate::beat::{lemma_beat_pos, Beat};
use crate::event::{evaluate_spec, LineEvent, LineEventKind};
use crate::frac::{lemma_qle_trans, qle, Frac, Overflow};
use crate::tempo::{BpmList, Segment};

verus! {

/// Position, rotation (in degrees) and opacity of a judge line.
#[derive(Clone, Copy, Debug, PartialEq, Eq, Structural)]
pub struct LineState {
    pub x: Frac,
    pub y: Frac,
    pub rotation: Frac,
    pub opacity: Frac,
}

/// The evaluation of `e` at `time`, kept behind a name in the proofs below.
#[verifier::opaque]
pub open spec fn eval_at(e: LineEvent, segs: Seq<Segment>, time: Frac) -> Result<Option<Frac>, Overflow> {
    evaluate_spec(e, segs, time)
}

/// The winner among the first `n` events of kind `k` that are active at
/// `time`: the one with the latest start beat, the later one in `evs` on a
/// tie, with its start beat and value. `Err` when evaluating an event of
/// kind `k` overflows.
pub open spec fn resolve_kind(evs: Seq<LineEvent>, segs: Seq<Segment>, time: Frac, k: LineEventKind, n: int) -> Result<Option<(Beat, Frac)>, Overflow>
    decreases n,
{
    if n <= 0 {
        Ok(None)
    } else {
        match resolve_kind(evs, segs, time, k, n - 1) {
            Err(o) => Err(o),
            Ok(best) => {
                let e = evs[n - 1];
                if e.kind != k {
                    Ok(best)
                } else {
                    match eval_at(e, segs, time) {
                        Err(o) => Err(o),
                        Ok(None) => Ok(best),
                        Ok(Some(v)) => match best {
                            Some((b, _)) => if crate::frac::qle(b@, e.start_beat@) {
                                Ok(Some((e.start_beat, v)))
                            } else {
                                Ok(best)
                            },
                            None => Ok(Some((e.start_beat, v))),
                        },
                    }
                }
            },
        }
    }
}

/// `current` where no event of kind `k` is active, else the winner's value.
pub open spec fn resolved_value(r: Option<(Beat, Frac)>, current: Frac) -> Frac {
    match r {
        Some((_, v)) => v,
        None => current,
    }
}

/// The state of a line at `time`: each property takes the value of its
/// active event with the latest start beat, or keeps its value in
/// `current` when none of its events is active. Speed events play no part.
pub open spec fn resolve_spec(evs: Seq<LineEvent>, segs: Seq<Segment>, time: Frac, current: LineState) -> Result<LineState, Overflow> {
    let n = evs.len() as int;
    match (
        resolve_kind(evs, segs, time, LineEventKind::X, n),
        resolve_kind(evs, segs, time, LineEventKind::Y, n),
        resolve_kind(evs, segs, time, LineEventKind::Rotation, n),
        resolve_kind(evs, segs, time, LineEventKind::Opacity, n),
    ) {
        (Ok(x), Ok(y), Ok(r), Ok(o)) => Ok(
            LineState {
                x: resolved_value(x, current.x),
                y: resolved_value(y, current.y),
                rotation: resolved_value(r, current.rotation),
                opacity: resolved_value(o, current.opacity),
            },
        ),
        _ => Err(Overflow),
    }
}

/// One step of the running winner for one property.
fn pick(
    best: Option<(Beat, Frac)>,
    e: &LineEvent,
    v: Frac,
) -> (r: Option<(Beat, Frac)>)
    requires
        e.wf(),
        best matches Some((b, _)) ==> b.wf(),
    ensures
        r == (match best {
            Some((b, _)) => if crate::frac::qle(b@, e.start_beat@) {
                Some((e.start_beat, v))
            } else {
                best
            },
            None => Some((e.start_beat, v)),
        }),
        r matches Some((b, _)) ==> b.wf(),
{
    match best {
        Some((b, _)) => if b.le(&e.start_beat) {
            Some((e.start_beat, v))
        } else {
            best
        },
        None => Some((e.start_beat, v)),
    }
}

/// Resolves the line properties at `time` from the line's curve events.
pub fn resolve_line(events: &Vec<LineEvent>, time: Frac, bpm_list: &BpmList, current: LineState) -> (r: Result<LineState, Overflow>)
    requires
        forall|i: int| 0 <= i < events.len() ==> (#[trigger] events[i]).wf(),
        time.wf(),
        bpm_list.wf(),
    ensures
        r == resolve_spec(events@, bpm_list@, time, current),
{
    let ghost evs = events@;
    let ghost segs = bpm_list@;
    let mut x: Option<(Beat, Frac)> = None;
    let mut y: Option<(Beat, Frac)> = None;
    let mut rot: Option<(Beat, Frac)> = None;
    let mut op: Option<(Beat, Frac)> = None;
    let mut i: usize = 0;
    while i < events.len()
        invariant
            0 <= i <= events.len(),
            evs == events@,
            segs == bpm_list@,
            forall|j: int| 0 <= j < events.len() ==> (#[trigger] events[j]).wf(),
            time.wf(),
            bpm_list.wf(),
            resolve_kind(evs, segs, time, LineEventKind::X, i as int) == Ok::<Option<(Beat, Frac)>, Overflow>(x),
            resolve_kind(evs, segs, time, LineEventKind::Y, i as int) == Ok::<Option<(Beat, Frac)>, Overflow>(y),
            resolve_kind(evs, segs, time, LineEventKind::Rotation, i as int) == Ok::<Option<(Beat, Frac)>, Overflow>(rot),
            resolve_kind(evs, segs, time, LineEventKind::Opacity, i as int) == Ok::<Option<(Beat, Frac)>, Overflow>(op),
            x matches Some((b, _)) ==> b.wf(),
            y matches Some((b, _)) ==> b.wf(),
            rot matches Some((b, _)) ==> b.wf(),
            op matches Some((b, _)) ==> b.wf(),
        decreases events.len() - i,
    {
        let e = &events[i];
        assert(events[i as int].wf());
        if e.kind != LineEventKind::Speed {
            let ev = e.evaluate(time, bpm_list);
            proof {
                reveal(eval_at);
            }
            match ev {
                Err(o) => {
                    proof {
                        lemma_resolve_err(evs, segs, time, e.kind, (i + 1) as int, evs.len() as int);
                    }
                    return Err(o);
                },
                Ok(None) => {},
                Ok(Some(v)) => {
                    match e.kind {
                        LineEventKind::X => x = pick(x, e, v),
                        LineEventKind::Y => y = pick(y, e, v),
                        LineEventKind::Rotation => rot = pick(rot, e, v),
                        LineEventKind::Opacity => op = pick(op, e, v),
                        LineEventKind::Speed => {},
                    }
                },
            }
        }
        i = i + 1;
    }
    Ok(LineState {
        x: match x {
            Some((_, v)) => v,
            None => current.x,
        },
        y: match y {
            Some((_, v)) => v,
            None => current.y,
        },
        rotation: match rot {
            Some((_, v)) => v,
            None => current.rotation,
        },
        opacity: match op {
            Some((_, v)) => v,
            None => current.opacity,
        },
    })
}

/// An evaluation that yields a value.
pub open spec fn active(r: Result<Option<Frac>, Overflow>) -> bool {
    r matches Ok(Some(_))
}

/// The resolved value of a property comes from an active event of that
/// property whose start beat is the latest among all its active events; and
/// when none is active the property keeps its value.
pub proof fn lemma_resolve_winner(evs: Seq<LineEvent>, segs: Seq<Segment>, time: Frac, k: LineEventKind, n: int)
    requires
        0 <= n <= evs.len(),
        forall|i: int| 0 <= i < evs.len() ==> (#[trigger] evs[i]).wf(),
    ensures
        resolve_kind(evs, segs, time, k, n) matches Ok(r) ==> match r {
            Some((b, v)) => {
                &&& exists|w: int|
                    0 <= w < n && (#[trigger] evs[w]).kind == k && evs[w].start_beat == b
                        && eval_at(evs[w], segs, time) == Ok::<Option<Frac>, Overflow>(Some(v))
                &&& forall|j: int|
                    0 <= j < n && (#[trigger] evs[j]).kind == k && active(eval_at(evs[j], segs, time))
                        ==> qle(evs[j].start_beat@, b@)
            },
            None => forall|j: int|
                0 <= j < n && (#[trigger] evs[j]).kind == k ==> eval_at(evs[j], segs, time) == Ok::<Option<Frac>, Overflow>(None),
        },
    decreases n,
{
    if n > 0 {
        lemma_resolve_winner(evs, segs, time, k, n - 1);
        let e = evs[n - 1];
        assert(e.wf());
        if let Ok(best) = resolve_kind(evs, segs, time, k, n - 1) {
            if e.kind == k {
                if let Ok(Some(v)) = eval_at(e, segs, time) {
                    if let Some((b, _)) = best {
                        let w = choose|w: int|
                            0 <= w < n - 1 && (#[trigger] evs[w]).kind == k && evs[w].start_beat == b
                                && active(eval_at(evs[w], segs, time));
                        assert(evs[w].wf());
                        lemma_beat_pos(b);
                        lemma_beat_pos(e.start_beat);
                        if qle(b@, e.start_beat@) {
                            assert forall|j: int|
                                0 <= j < n && (#[trigger] evs[j]).kind == k && active(eval_at(evs[j], segs, time))
                                    implies qle(evs[j].start_beat@, e.start_beat@) by {
                                if j < n - 1 {
                                    assert(evs[j].wf());
                                    lemma_beat_pos(evs[j].start_beat);
                                    lemma_qle_trans(evs[j].start_beat@, b@, e.start_beat@);
                                }
                            }
                        }
                    }
                }
            }
        }
    }
}

proof fn lemma_resolve_err(evs: Seq<LineEvent>, segs: Seq<Segment>, time: Frac, k: LineEventKind, i: int, n: int)
    requires
        0 < i <= n <= evs.len(),
        resolve_kind(evs, segs, time, k, i) is Err,
    ensures
        resolve_kind(evs, segs, time, k, n) is Err,
    decreases n - i,
{
    if n > i {
        lemma_resolve_err(evs, segs, time, k, i, n - 1);
    }
}

} // verus!
