use trg::gen::{InvalidDuration, Positive, Source, WireEvent, WirePattern};
use trg::signals::Signal;

#[test]
fn positive_accepts_what_is_above_zero() {
    assert_eq!(Positive::new(1).unwrap().inner(), 1);
    assert_eq!(Positive::new(i64::MAX).unwrap().inner(), i64::MAX);
    assert_eq!(Positive::new(3), Positive::new(3));
}

#[test]
fn positive_rejects_zero_and_below() {
    assert_eq!(Positive::new(0), Err(InvalidDuration { value: 0 }));
    assert_eq!(Positive::new(-1), Err(InvalidDuration { value: -1 }));
    assert_eq!(
        Positive::new(i64::MIN),
        Err(InvalidDuration { value: i64::MIN })
    );
}

#[test]
fn wire_event_keeps_what_it_is_given() {
    let event = WireEvent {
        source: Source::PrimaryPbar,
        time: -7,
        wire_pattern: WirePattern::from_bits(0x00f0),
    };
    let copy = event;
    assert_eq!(copy, event);
    assert_eq!(copy.source, Source::PrimaryPbar);
    assert_eq!(copy.time, -7);
    assert_eq!(copy.wire_pattern.bits(), 0x00f0);
}

#[test]
fn signal_time() {
    assert_eq!(Signal::Cosmic(3).time(), 3);
    assert_eq!(Signal::Pbar(-4).time(), -4);
    assert_eq!(Signal::Afterpulse(i64::MAX).time(), i64::MAX);
}
