use phichain_core::beat::Beat;
use phichain_core::easing::Easing;
use phichain_core::event::{LineEvent, LineEventKind};
use phichain_core::frac::Frac;
use phichain_core::note::{Note, NoteKind};
use phichain_core::speed::SpeedEvent;
use phichain_core::tempo::{BpmList, BpmPoint};
use phichain_core::track::{note_passed, note_placement, speed_events, Placement};

fn frac(n: i64, d: i64) -> Frac {
    Frac::new(n, d).unwrap()
}

fn beat(m: i64) -> Beat {
    Beat::new(m, Frac::zero()).unwrap()
}

fn at_60() -> BpmList {
    BpmList::new(vec![BpmPoint::new(Beat::zero(), Frac::from_int(60))]).unwrap()
}

fn ev(kind: LineEventKind, start: i64, end: i64, b0: i64, b1: i64) -> LineEvent {
    LineEvent::new(kind, Frac::from_int(start), Frac::from_int(end), beat(b0), beat(b1), Easing::Linear).unwrap()
}

fn ramp() -> Vec<SpeedEvent> {
    vec![SpeedEvent::new(Frac::zero(), Frac::from_int(2), Frac::from_int(10), Frac::from_int(20)).unwrap()]
}

#[test]
fn speed_events_are_converted_and_sorted() {
    let events = vec![
        ev(LineEventKind::Speed, 1, 1, 4, 6),
        ev(LineEventKind::X, 0, 5, 0, 1),
        ev(LineEventKind::Speed, 10, 20, 0, 2),
    ];
    let s = speed_events(&events, &at_60()).unwrap();
    assert_eq!(s.len(), 2);
    assert_eq!(s[0].start_time, Frac::zero());
    assert_eq!(s[0].end_time, Frac::from_int(2));
    assert_eq!(s[0].start_value, Frac::from_int(10));
    assert_eq!(s[1].start_time, Frac::from_int(4));
    assert_eq!(s[1].end_value, Frac::from_int(1));
}

#[test]
fn tap_note_offset_is_distance_difference() {
    let note = Note::new(NoteKind::Tap, true, beat(2), Frac::zero());
    let p = note_placement(&ramp(), &at_60(), &note, Frac::from_int(1)).unwrap();
    assert_eq!(p, Placement { y: frac(35, 2), height: None });
}

#[test]
fn hold_note_is_clamped_at_the_line() {
    let note = Note::new(NoteKind::Hold { hold_beat: beat(2) }, false, beat(1), Frac::zero());
    let p = note_placement(&ramp(), &at_60(), &note, Frac::from_int(2)).unwrap();
    assert_eq!(p, Placement { y: Frac::zero(), height: Some(Frac::from_int(20)) });
    let early = note_placement(&ramp(), &at_60(), &note, Frac::zero()).unwrap();
    assert_eq!(early, Placement { y: frac(25, 2), height: Some(frac(75, 2)) });
}

#[test]
fn passed_notes() {
    let tap = Note::new(NoteKind::Tap, true, beat(1), Frac::zero());
    let hold = Note::new(NoteKind::Hold { hold_beat: beat(2) }, true, beat(1), Frac::zero());
    assert_eq!(note_passed(&tap, &beat(2)), Some(true));
    assert_eq!(note_passed(&tap, &beat(1)), Some(false));
    assert_eq!(note_passed(&hold, &beat(2)), Some(false));
    assert_eq!(note_passed(&hold, &beat(4)), Some(true));
}
