use trg::gen::{Positive, Source, WireEvent, WirePattern};
use trg::mlu::{LookupTable, Mlu, TrgSignal};

fn event(time: i64, bits: u16) -> WireEvent {
    WireEvent {
        source: Source::PrimaryCosmic,
        time,
        wire_pattern: WirePattern::from_bits(bits),
    }
}

fn unit(prompt_window: i64, wait_gate: i64, bits: &[u16]) -> Mlu {
    let patterns: Vec<WirePattern> = bits.iter().map(|b| WirePattern::from_bits(*b)).collect();
    Mlu::new(
        Positive::new(prompt_window).unwrap(),
        Positive::new(wait_gate).unwrap(),
        LookupTable::from_iter(&patterns),
    )
}

fn decisions(mlu: &mut Mlu, events: &[WireEvent]) -> Vec<Option<i64>> {
    events
        .iter()
        .map(|e| mlu.process(e).map(|s| s.time))
        .collect()
}

#[test]
fn mlu_decides_at_the_close_of_each_window() {
    let mut mlu = unit(1, 1, &[0b0001]);
    let events: Vec<WireEvent> = (0..6).map(|k| event(4 * k, 0b0001)).collect();
    assert_eq!(
        decisions(&mut mlu, &events),
        vec![None, Some(1), Some(5), Some(9), Some(13), Some(17)]
    );
}

#[test]
fn mlu_first_event_opens_a_window() {
    let mut mlu = unit(10, 5, &[1]);
    assert_eq!(mlu.process(&event(100, 1)), None);
    // within the window
    assert_eq!(mlu.process(&event(109, 1)), None);
    // at the close of the window
    assert_eq!(mlu.process(&event(110, 1)), Some(TrgSignal { time: 110 }));
}

#[test]
fn mlu_accumulates_the_patterns_of_a_window() {
    let mut mlu = unit(10, 5, &[0b0111]);
    assert_eq!(
        decisions(
            &mut mlu,
            &[
                event(0, 0b0001),
                event(3, 0b0010),
                event(9, 0b0100),
                event(12, 0b1000)
            ]
        ),
        vec![None, None, None, Some(10)]
    );

    let mut mlu = unit(10, 5, &[0b0011]);
    assert_eq!(
        decisions(
            &mut mlu,
            &[
                event(0, 0b0001),
                event(3, 0b0010),
                event(9, 0b0100),
                event(12, 0b1000)
            ]
        ),
        vec![None; 4]
    );
}

#[test]
fn mlu_does_not_count_the_event_that_closes_the_window() {
    let mut mlu = unit(10, 5, &[0b0011]);
    assert_eq!(
        decisions(&mut mlu, &[event(0, 0b0001), event(10, 0b0010)]),
        vec![None, None]
    );
}

#[test]
fn mlu_waits_after_a_decision() {
    let mut mlu = unit(10, 5, &[1]);
    assert_eq!(
        decisions(
            &mut mlu,
            &[
                event(0, 1),
                // closes the window at 10 and starts the wait gate until 17
                event(12, 1),
                // within the wait gate, which is extended until 21
                event(16, 1),
                // still within the wait gate, which is extended until 25
                event(20, 1),
                // behind the wait gate: a new window until 35
                event(25, 1),
                event(34, 1),
                event(36, 1),
            ]
        ),
        vec![None, Some(10), None, None, None, None, Some(35)]
    );
}

#[test]
fn mlu_opens_a_new_window_behind_the_wait_gate() {
    let mut mlu = unit(10, 5, &[1, 2]);
    assert_eq!(
        decisions(
            &mut mlu,
            &[
                event(0, 1),
                // at 15 the wait gate behind the window is over: decision
                // for the old window and a new window until 25
                event(15, 2),
                event(24, 4),
                event(25, 1),
            ]
        ),
        vec![None, Some(10), None, None]
    );

    let mut mlu = unit(10, 5, &[1, 2]);
    assert_eq!(
        decisions(&mut mlu, &[event(0, 1), event(15, 2), event(25, 1)]),
        vec![None, Some(10), Some(25)]
    );
}

#[test]
fn mlu_only_patterns_of_the_table_give_a_candidate() {
    let mut mlu = unit(1, 1, &[1]);
    assert_eq!(
        decisions(
            &mut mlu,
            &[event(3, 1), event(6, 2), event(9, 1), event(12, 2)]
        ),
        vec![None, Some(4), None, Some(10)]
    );
    let mut mlu = unit(1, 1, &[]);
    assert_eq!(
        decisions(&mut mlu, &[event(3, 1), event(6, 2), event(9, 1)]),
        vec![None; 3]
    );
}

#[test]
fn mlu_takes_times_at_the_ends_of_the_range() {
    let mut mlu = unit(i64::MAX, i64::MAX, &[1]);
    assert_eq!(
        decisions(
            &mut mlu,
            &[
                event(i64::MIN, 1),
                event(-2, 1),
                event(-1, 1),
                event(i64::MAX, 1),
                event(i64::MAX, 1)
            ]
        ),
        vec![None, None, Some(-1), None, None]
    );
    let mut mlu = unit(1, 1, &[1]);
    assert_eq!(
        decisions(&mut mlu, &[event(i64::MAX, 1), event(i64::MAX, 1)]),
        vec![None, None]
    );
}
