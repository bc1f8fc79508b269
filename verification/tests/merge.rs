use trg::gen::{Source, WireEvent, WirePattern};
use trg::merge::{is_ordered, select, Generator};

fn event(source: Source, time: i64, bits: u16) -> WireEvent {
    WireEvent {
        source,
        time,
        wire_pattern: WirePattern::from_bits(bits),
    }
}

fn source(source: Source, times: &[i64]) -> Vec<WireEvent> {
    times
        .iter()
        .enumerate()
        .map(|(k, t)| event(source, *t, k as u16))
        .collect()
}

#[test]
fn merge_of_nothing() {
    let mut generator = Generator::new();
    assert!(generator.is_exhausted());
    assert_eq!(generator.next(), None);
    assert_eq!(generator.next(), None);
}

#[test]
fn merge_discards_a_source_without_events() {
    let mut generator = Generator::new();
    generator.add_generator(Vec::new());
    assert!(generator.is_exhausted());
    assert_eq!(generator.next(), None);
}

#[test]
fn merge_of_one_source_is_the_source() {
    let events = source(Source::Noise, &[1, 2, 2, 5]);
    let mut generator = Generator::new();
    generator.add_generator(events.clone());
    assert!(!generator.is_exhausted());
    assert_eq!(generator.drain(), events);
    assert!(generator.is_exhausted());
    assert_eq!(generator.next(), None);
}

#[test]
fn merge_is_ordered_in_time() {
    let mut generator = Generator::new();
    generator.add_generator(source(Source::PrimaryCosmic, &[1, 4, 7, 10]));
    generator.add_generator(source(Source::PrimaryPbar, &[-5, 2, 3, 20]));
    generator.add_generator(source(Source::Noise, &[0, 8]));
    let times: Vec<i64> = generator.drain().iter().map(|e| e.time).collect();
    assert_eq!(times, vec![-5, 0, 1, 2, 3, 4, 7, 8, 10, 20]);
}

#[test]
fn merge_takes_the_first_registered_source_on_equal_times() {
    let mut generator = Generator::new();
    generator.add_generator(source(Source::PrimaryCosmic, &[1, 2, 2]));
    generator.add_generator(source(Source::PrimaryPbar, &[1, 1, 2]));
    generator.add_generator(source(Source::Noise, &[0, 2]));
    let merged: Vec<(Source, i64)> = generator.drain()
        .iter()
        .map(|e| (e.source, e.time))
        .collect();
    assert_eq!(
        merged,
        vec![
            (Source::Noise, 0),
            (Source::PrimaryCosmic, 1),
            (Source::PrimaryPbar, 1),
            (Source::PrimaryPbar, 1),
            (Source::PrimaryCosmic, 2),
            (Source::PrimaryCosmic, 2),
            (Source::PrimaryPbar, 2),
            (Source::Noise, 2),
        ]
    );
}

#[test]
fn merge_keeps_the_order_within_each_source() {
    let sources = [
        source(Source::PrimaryCosmic, &[3, 3, 3, 9]),
        source(Source::PrimaryPbar, &[1, 3, 5, 9, 9]),
        source(Source::Noise, &[3]),
    ];
    let mut generator = Generator::new();
    for s in &sources {
        generator.add_generator(s.clone());
    }
    let merged = generator.drain();
    assert_eq!(merged.len(), 10);
    for s in &sources {
        let from_s: Vec<WireEvent> = merged
            .iter()
            .filter(|e| e.source == s[0].source)
            .copied()
            .collect();
        assert_eq!(&from_s, s);
    }
}

#[test]
fn merge_takes_sources_that_are_added_during_the_run() {
    let mut generator = Generator::new();
    generator.add_generator(source(Source::PrimaryCosmic, &[1, 5]));
    assert_eq!(generator.next().map(|e| e.time), Some(1));
    generator.add_generator(source(Source::Noise, &[2, 5]));
    let merged: Vec<(Source, i64)> = generator.drain()
        .iter()
        .map(|e| (e.source, e.time))
        .collect();
    assert_eq!(
        merged,
        vec![
            (Source::Noise, 2),
            (Source::PrimaryCosmic, 5),
            (Source::Noise, 5)
        ]
    );
}

#[test]
fn select_takes_the_first_of_the_earliest() {
    assert_eq!(select(&[]), None);
    let heads = source(Source::Noise, &[5, 3, 9, 3, 4]);
    assert_eq!(select(&heads), Some(1));
    let heads = source(Source::Noise, &[7]);
    assert_eq!(select(&heads), Some(0));
    let heads = source(Source::Noise, &[2, 2, 2]);
    assert_eq!(select(&heads), Some(0));
    let heads = source(Source::Noise, &[3, 2, 1, i64::MIN]);
    assert_eq!(select(&heads), Some(3));
}

#[test]
fn merge_drain_gives_what_next_gives() {
    let build = || {
        let mut generator = Generator::new();
        generator.add_generator(source(Source::PrimaryCosmic, &[1, 4, 4, 10]));
        generator.add_generator(source(Source::PrimaryPbar, &[-5, 4, 4, 20]));
        generator.add_generator(source(Source::Noise, &[4]));
        generator
    };
    let mut one_by_one = Vec::new();
    let mut generator = build();
    while let Some(event) = generator.next() {
        one_by_one.push(event);
    }
    let mut generator = build();
    let drained = generator.drain();
    assert_eq!(drained, one_by_one);
    assert_eq!(drained.len(), 9);
    assert!(is_ordered(&drained));
    assert!(generator.is_exhausted());
    assert!(generator.drain().is_empty());
}

#[test]
fn merge_of_sources_that_go_back_in_time_is_not_ordered() {
    let mut generator = Generator::new();
    generator.add_generator(source(Source::PrimaryCosmic, &[5, 1]));
    generator.add_generator(source(Source::Noise, &[3]));
    let times: Vec<i64> = generator.drain().iter().map(|e| e.time).collect();
    assert_eq!(times, vec![3, 5, 1]);
}

#[test]
fn is_ordered_allows_equal_times() {
    assert!(is_ordered(&[]));
    assert!(is_ordered(&source(Source::Noise, &[7])));
    assert!(is_ordered(&source(Source::Noise, &[1, 1, 2, 2, 9])));
    assert!(is_ordered(&source(Source::Noise, &[i64::MIN, 0, i64::MAX])));
    assert!(!is_ordered(&source(Source::Noise, &[1, 2, 1])));
    assert!(!is_ordered(&source(Source::Noise, &[2, 1])));
    assert!(!is_ordered(&source(Source::Noise, &[1, 2, 3, 4, 3])));
}
