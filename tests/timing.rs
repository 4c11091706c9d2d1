use phichain_core::beat::Beat;
use phichain_core::frac::Frac;
use phichain_core::speed::{distance_at, SpeedEvent};
use phichain_core::tempo::{BpmList, BpmPoint, TempoError};

fn frac(n: i64, d: i64) -> Frac {
    Frac::new(n, d).unwrap()
}

fn beat(m: i64, n: i64, d: i64) -> Beat {
    Beat::new(m, frac(n, d)).unwrap()
}

fn two_tempos() -> BpmList {
    BpmList::new(vec![
        BpmPoint::new(Beat::zero(), Frac::from_int(120)),
        BpmPoint::new(beat(4, 0, 1), Frac::from_int(60)),
    ])
    .unwrap()
}

#[test]
fn frac_reduces_to_lowest_terms() {
    assert_eq!(frac(6, 4), Frac { num: 3, den: 2 });
    assert_eq!(frac(-6, 4), Frac { num: -3, den: 2 });
    assert_eq!(frac(6, -4), Frac { num: -3, den: 2 });
    assert_eq!(frac(0, 7), Frac { num: 0, den: 1 });
    assert!(Frac::new(1, 0).is_none());
}

#[test]
fn frac_arithmetic_is_exact() {
    assert_eq!(frac(1, 3).add(&frac(1, 6)), Some(frac(1, 2)));
    assert_eq!(frac(1, 3).sub(&frac(1, 2)), Some(frac(-1, 6)));
    assert_eq!(frac(2, 3).mul(&frac(9, 4)), Some(frac(3, 2)));
    assert_eq!(frac(2, 3).div(&frac(-4, 9)), Some(frac(-3, 2)));
    assert_eq!(frac(2, 3).div(&Frac::zero()), None);
    assert!(frac(1, 3).lt(&frac(1, 2)));
    assert!(frac(2, 4).same_value(&Frac { num: 1, den: 2 }));
    assert_eq!(Frac::from_int(i64::MAX).add(&Frac::from_int(1)), None);
}

#[test]
fn beat_normalizes_fraction_into_measure() {
    let b = Beat::new(1, frac(3, 2)).unwrap();
    assert_eq!(b.measure, 2);
    assert_eq!(b.fraction, frac(1, 2));
    let n = Beat::new(0, frac(-1, 4)).unwrap();
    assert_eq!(n.measure, -1);
    assert_eq!(n.fraction, frac(3, 4));
    assert_eq!(beat(1, 1, 2).add(&beat(0, 3, 4)), Some(beat(2, 1, 4)));
    assert_eq!(beat(1, 1, 2).sub(&beat(0, 3, 4)), Some(beat(0, 3, 4)));
    assert!(beat(1, 1, 2).lt(&beat(1, 2, 3)));
    assert!(!beat(2, 0, 1).le(&beat(1, 2, 3)));
}

#[test]
fn time_at_walks_the_segments() {
    let l = two_tempos();
    assert_eq!(l.time_at(Beat::zero()), Some(Frac::zero()));
    assert_eq!(l.time_at(beat(1, 0, 1)), Some(frac(1, 2)));
    assert_eq!(l.time_at(beat(4, 0, 1)), Some(Frac::from_int(2)));
    assert_eq!(l.time_at(beat(6, 0, 1)), Some(Frac::from_int(4)));
    assert_eq!(l.time_at(beat(-2, 0, 1)), Some(Frac::from_int(-1)));
}

#[test]
fn beat_at_inverts_time_at() {
    let l = two_tempos();
    for b in [beat(0, 1, 3), beat(1, 0, 1), beat(3, 7, 8), beat(4, 0, 1), beat(6, 1, 2), beat(100, 5, 7)] {
        let t = l.time_at(b).unwrap();
        assert_eq!(l.beat_at(t), Some(b));
    }
    assert_eq!(l.beat_at(Frac::from_int(3)), Some(beat(5, 0, 1)));
}

#[test]
fn conversions_are_monotone() {
    let l = two_tempos();
    let beats = [beat(-1, 0, 1), beat(0, 0, 1), beat(2, 1, 2), beat(4, 0, 1), beat(5, 1, 3), beat(9, 0, 1)];
    for w in beats.windows(2) {
        let t0 = l.time_at(w[0]).unwrap();
        let t1 = l.time_at(w[1]).unwrap();
        assert!(t0.le(&t1));
        assert!(l.beat_at(t0).unwrap().le(&l.beat_at(t1).unwrap()));
    }
}

#[test]
fn tempo_points_are_validated() {
    assert!(matches!(BpmList::new(vec![]), Err(TempoError::Empty)));
    assert!(matches!(
        BpmList::new(vec![
            BpmPoint::new(beat(4, 0, 1), Frac::from_int(120)),
            BpmPoint::new(beat(2, 0, 1), Frac::from_int(120)),
        ]),
        Err(TempoError::Unsorted)
    ));
    assert!(matches!(
        BpmList::new(vec![
            BpmPoint::new(beat(0, 0, 1), Frac::from_int(120)),
            BpmPoint::new(beat(0, 0, 1), Frac::from_int(90)),
        ]),
        Err(TempoError::Unsorted)
    ));
    assert!(matches!(
        BpmList::new(vec![BpmPoint::new(Beat::zero(), Frac::zero())]),
        Err(TempoError::NonPositiveBpm)
    ));
    assert_eq!(two_tempos().len(), 2);
}

#[test]
fn distance_without_events_is_baseline_times_time() {
    assert_eq!(distance_at(&vec![], frac(3, 2)), Some(Frac::from_int(15)));
    assert_eq!(distance_at(&vec![], Frac::zero()), Some(Frac::zero()));
    assert_eq!(distance_at(&vec![], Frac::from_int(7)), Some(Frac::from_int(70)));
}

#[test]
fn distance_integrates_one_ramp() {
    let e = SpeedEvent::new(Frac::zero(), Frac::from_int(2), Frac::from_int(10), Frac::from_int(20)).unwrap();
    let events = vec![e];
    assert_eq!(distance_at(&events, Frac::from_int(2)), Some(Frac::from_int(30)));
    assert_eq!(distance_at(&events, Frac::from_int(1)), Some(frac(25, 2)));
    assert_eq!(distance_at(&events, Frac::from_int(3)), Some(Frac::from_int(50)));
}

#[test]
fn distance_covers_gaps_at_last_speed() {
    let a = SpeedEvent::new(Frac::from_int(1), Frac::from_int(2), Frac::from_int(4), Frac::from_int(4)).unwrap();
    let b = SpeedEvent::new(Frac::from_int(3), Frac::from_int(3), Frac::from_int(8), Frac::from_int(6)).unwrap();
    let events = vec![a, b];
    // 1 s at the baseline 10, 1 s at 4, 1 s of gap at 4, then 6 after the jump.
    assert_eq!(distance_at(&events, Frac::from_int(3)), Some(Frac::from_int(18)));
    assert_eq!(distance_at(&events, Frac::from_int(4)), Some(Frac::from_int(24)));
    assert_eq!(distance_at(&events, frac(1, 2)), Some(Frac::from_int(5)));
}

#[test]
fn speed_event_rejects_negative_span() {
    assert!(SpeedEvent::new(Frac::from_int(2), Frac::from_int(1), Frac::zero(), Frac::zero()).is_none());
}

#[test]
fn tempo_point_that_does_not_fit_is_an_overflow() {
    let huge = Beat { measure: i64::MAX, fraction: frac(1, 2) };
    assert!(huge.to_frac().is_none());
    assert!(matches!(
        BpmList::new(vec![BpmPoint::new(huge, Frac::from_int(120))]),
        Err(TempoError::Overflow)
    ));
}
