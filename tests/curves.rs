use phichain_core::beat::Beat;
use phichain_core::easing::Easing;
use phichain_core::event::{LineEvent, LineEventKind};
use phichain_core::frac::Frac;
use phichain_core::line::{resolve_line, LineState};
use phichain_core::tempo::{BpmList, BpmPoint};

fn frac(n: i64, d: i64) -> Frac {
    Frac::new(n, d).unwrap()
}

fn beat(m: i64) -> Beat {
    Beat::new(m, Frac::zero()).unwrap()
}

fn at_60() -> BpmList {
    BpmList::new(vec![BpmPoint::new(Beat::zero(), Frac::from_int(60))]).unwrap()
}

fn ev(kind: LineEventKind, start: i64, end: i64, b0: i64, b1: i64, easing: Easing) -> LineEvent {
    LineEvent::new(kind, Frac::from_int(start), Frac::from_int(end), beat(b0), beat(b1), easing).unwrap()
}

#[test]
fn easing_curves() {
    let h = frac(1, 2);
    assert_eq!(Easing::Linear.ease(h), Some(h));
    assert_eq!(Easing::EaseInQuad.ease(h), Some(frac(1, 4)));
    assert_eq!(Easing::EaseOutQuad.ease(h), Some(frac(3, 4)));
    assert_eq!(Easing::EaseInCubic.ease(h), Some(frac(1, 8)));
    assert_eq!(Easing::EaseOutCubic.ease(h), Some(frac(7, 8)));
    assert_eq!(Easing::EaseInOutQuad.ease(frac(1, 4)), Some(frac(1, 8)));
    assert_eq!(Easing::EaseInOutQuad.ease(frac(3, 4)), Some(frac(7, 8)));
    assert_eq!(Easing::EaseInOutCubic.ease(frac(1, 4)), Some(frac(1, 16)));
    assert_eq!(Easing::EaseInOutCubic.ease(h), Some(h));
    for e in [Easing::Linear, Easing::EaseInQuad, Easing::EaseOutQuad, Easing::EaseInOutQuad,
              Easing::EaseInCubic, Easing::EaseOutCubic, Easing::EaseInOutCubic] {
        assert_eq!(e.ease(Frac::zero()), Some(Frac::zero()));
        assert_eq!(e.ease(Frac::from_int(1)), Some(Frac::from_int(1)));
    }
}

#[test]
fn evaluate_interpolates_inside_window() {
    let l = at_60();
    let e = ev(LineEventKind::X, 10, 20, 2, 4, Easing::Linear);
    assert_eq!(e.evaluate(Frac::from_int(3), &l), Ok(Some(Frac::from_int(15))));
    let q = ev(LineEventKind::X, 0, 8, 0, 2, Easing::EaseInQuad);
    assert_eq!(q.evaluate(Frac::from_int(1), &l), Ok(Some(Frac::from_int(2))));
}

#[test]
fn evaluate_outside_window_has_no_value_and_ends_are_defined() {
    let l = at_60();
    let e = ev(LineEventKind::Y, -5, 7, 2, 4, Easing::EaseOutCubic);
    assert_eq!(e.evaluate(frac(19, 10), &l), Ok(None));
    assert_eq!(e.evaluate(frac(41, 10), &l), Ok(None));
    assert_eq!(e.evaluate(Frac::from_int(2), &l), Ok(Some(Frac::from_int(-5))));
    assert_eq!(e.evaluate(Frac::from_int(4), &l), Ok(Some(Frac::from_int(7))));
}

#[test]
fn constant_event_is_constant_for_every_easing() {
    let l = at_60();
    for easing in [Easing::Linear, Easing::EaseInOutQuad, Easing::EaseOutCubic] {
        let e = ev(LineEventKind::Opacity, 3, 3, 1, 5, easing);
        for t in [frac(1, 1), frac(7, 3), frac(5, 1)] {
            assert_eq!(e.evaluate(t, &l), Ok(Some(Frac::from_int(3))));
        }
    }
}

#[test]
fn zero_length_event_takes_end_value() {
    let l = at_60();
    let e = ev(LineEventKind::Rotation, 1, 9, 2, 2, Easing::Linear);
    assert_eq!(e.evaluate(Frac::from_int(2), &l), Ok(Some(Frac::from_int(9))));
}

#[test]
fn event_rejects_negative_duration() {
    assert!(LineEvent::new(LineEventKind::X, Frac::zero(), Frac::zero(), beat(3), beat(2), Easing::Linear).is_none());
    let e = ev(LineEventKind::X, 0, 1, 1, 4, Easing::Linear);
    assert_eq!(e.duration(), Some(beat(3)));
}

#[test]
fn later_starting_event_wins() {
    let l = at_60();
    let events = vec![
        ev(LineEventKind::X, 100, 100, 3, 10, Easing::Linear),
        ev(LineEventKind::X, 0, 10, 0, 10, Easing::Linear),
        ev(LineEventKind::Y, 50, 50, 0, 1, Easing::Linear),
        ev(LineEventKind::Opacity, 1, 1, 0, 10, Easing::Linear),
        ev(LineEventKind::Speed, 9, 9, 0, 10, Easing::Linear),
    ];
    let current = LineState { x: Frac::zero(), y: Frac::zero(), rotation: Frac::from_int(45), opacity: Frac::zero() };
    let s = resolve_line(&events, Frac::from_int(5), &l, current).unwrap();
    assert_eq!(s.x, Frac::from_int(100));
    assert_eq!(s.y, Frac::zero());
    assert_eq!(s.rotation, Frac::from_int(45));
    assert_eq!(s.opacity, Frac::from_int(1));
    let s = resolve_line(&events, Frac::from_int(2), &l, current).unwrap();
    assert_eq!(s.x, Frac::from_int(2));
}

#[test]
fn evaluate_reports_overflow() {
    let l = at_60();
    let e = LineEvent::new(
        LineEventKind::X,
        Frac::from_int(i64::MIN),
        Frac::from_int(i64::MAX),
        beat(0),
        beat(2),
        Easing::Linear,
    )
    .unwrap();
    assert_eq!(e.evaluate(Frac::from_int(1), &l), Err(phichain_core::frac::Overflow));
    assert_eq!(e.evaluate(Frac::from_int(3), &l), Ok(None));
}

#[test]
fn easing_stays_in_unit_interval() {
    let all = [Easing::Linear, Easing::EaseInQuad, Easing::EaseOutQuad, Easing::EaseInOutQuad,
               Easing::EaseInCubic, Easing::EaseOutCubic, Easing::EaseInOutCubic];
    for e in all {
        for t in [frac(1, 7), frac(1, 3), frac(1, 2), frac(5, 9), frac(99, 100)] {
            let v = e.ease(t).unwrap();
            assert!(Frac::zero().le(&v) && v.le(&Frac::from_int(1)));
        }
    }
}

#[test]
fn equal_start_beats_later_event_wins() {
    let l = at_60();
    let events = vec![
        ev(LineEventKind::Y, 1, 1, 0, 4, Easing::Linear),
        ev(LineEventKind::Y, 2, 2, 0, 4, Easing::Linear),
    ];
    let current = LineState { x: Frac::zero(), y: Frac::zero(), rotation: Frac::zero(), opacity: Frac::zero() };
    let s = resolve_line(&events, Frac::from_int(1), &l, current).unwrap();
    assert_eq!(s.y, Frac::from_int(2));
}
