use trg::gen::{Positive, Source, WireEvent, WirePattern};
use trg::mlu::{LookupTable, TrgSignal};
use trg::pipeline::Notification;
use trg::{Observer, Silent, World};

#[derive(Default)]
struct TestObserver {
    events: Vec<WireEvent>,
    trg_in: Vec<TrgSignal>,
    drift_veto: Vec<TrgSignal>,
    scaledown: Vec<TrgSignal>,
    survived: Vec<TrgSignal>,
    dead_time: Vec<TrgSignal>,
    trg_out: Vec<TrgSignal>,
}

impl Observer for TestObserver {
    fn on_notification(&mut self, _note: &Notification) {}

    fn on_wire_event(&mut self, event: &WireEvent) {
        self.events.push(*event);
    }

    fn on_trg_in(&mut self, signal: &TrgSignal) {
        self.trg_in.push(*signal);
    }

    fn on_trg_drift_veto(&mut self, signal: &TrgSignal) {
        self.drift_veto.push(*signal);
    }

    fn on_trg_scaledown(&mut self, signal: &TrgSignal) {
        self.scaledown.push(*signal);
    }

    fn on_trg_scaledown_survived(&mut self, signal: &TrgSignal) {
        self.survived.push(*signal);
    }

    fn on_trg_dead_time(&mut self, signal: &TrgSignal) {
        self.dead_time.push(*signal);
    }

    fn on_trg_out(&mut self, signal: &TrgSignal) {
        self.trg_out.push(*signal);
    }
}

/// The events of a source that fires every `step` ticks after `origin`, as
/// long as `duration` lasts and as long as there are patterns.
fn secondary(
    origin: i64,
    duration: Option<i64>,
    step: i64,
    patterns: impl Iterator<Item = WirePattern>,
) -> Vec<WireEvent> {
    let mut events = Vec::new();
    let mut time = origin;
    for wire_pattern in patterns {
        time += step;
        if let Some(duration) = duration {
            if time >= origin + duration {
                break;
            }
        }
        events.push(WireEvent {
            source: Source::Noise,
            time,
            wire_pattern,
        });
    }
    events
}

fn noise(origin: i64, duration: i64, step: i64) -> Vec<WireEvent> {
    secondary(
        origin,
        Some(duration),
        step,
        std::iter::repeat(WirePattern::from_bits(1)),
    )
}

fn times(signals: Vec<TrgSignal>) -> Vec<i64> {
    signals.into_iter().map(|s| s.time).collect()
}

#[test]
fn world_generator() {
    let noise1 = noise(0, 3, 2);
    let noise2 = noise(1, 3, 2);

    let observer = World::builder()
        .add_generator(noise1)
        .add_generator(noise2)
        .prompt_window(Positive::new(100).unwrap())
        .wait_gate(Positive::new(100).unwrap())
        .lookup_table(LookupTable::default())
        .drift_veto(Positive::new(100).unwrap())
        .scaledown(0)
        .dead_time(Positive::new(100).unwrap())
        .observer(TestObserver::default())
        .build()
        .unwrap()
        .run();

    assert_eq!(
        observer
            .events
            .into_iter()
            .map(|e| e.time)
            .collect::<Vec<_>>(),
        vec![2, 3]
    );
}

#[test]
fn world_prompt_window() {
    let noise = noise(-100, 10, 2);
    let observer = World::builder()
        .add_generator(noise)
        .prompt_window(Positive::new(3).unwrap())
        .wait_gate(Positive::new(100).unwrap())
        .lookup_table(LookupTable::from([WirePattern::from_bits(1)]))
        .drift_veto(Positive::new(100).unwrap())
        .scaledown(0)
        .dead_time(Positive::new(100).unwrap())
        .observer(TestObserver::default())
        .build()
        .unwrap()
        .run();
    assert_eq!(times(observer.trg_in), vec![-95]);
}

#[test]
fn world_wait_gate() {
    let noise = noise(0, 45, 10);
    let observer = World::builder()
        .add_generator(noise)
        .prompt_window(Positive::new(9).unwrap())
        .wait_gate(Positive::new(2).unwrap())
        .lookup_table(LookupTable::from([WirePattern::from_bits(1)]))
        .drift_veto(Positive::new(100).unwrap())
        .scaledown(0)
        .dead_time(Positive::new(100).unwrap())
        .observer(TestObserver::default())
        .build()
        .unwrap()
        .run();
    assert_eq!(times(observer.trg_in), vec![19, 39]);
}

#[test]
fn world_lookup_table() {
    let noise = secondary(
        0,
        None,
        3,
        vec![
            WirePattern::from_bits(1),
            WirePattern::from_bits(2),
            WirePattern::from_bits(1),
            WirePattern::from_bits(2),
        ]
        .into_iter(),
    );
    let observer = World::builder()
        .add_generator(noise)
        .prompt_window(Positive::new(1).unwrap())
        .wait_gate(Positive::new(1).unwrap())
        .lookup_table(LookupTable::from([WirePattern::from_bits(1)]))
        .drift_veto(Positive::new(100).unwrap())
        .scaledown(0)
        .dead_time(Positive::new(100).unwrap())
        .observer(TestObserver::default())
        .build()
        .unwrap()
        .run();
    assert_eq!(times(observer.trg_in), vec![4, 10]);
}

#[test]
fn world_drift_veto() {
    let noise = noise(0, 21, 4);
    let observer = World::builder()
        .add_generator(noise)
        .prompt_window(Positive::new(1).unwrap())
        .wait_gate(Positive::new(1).unwrap())
        .lookup_table(LookupTable::from([WirePattern::from_bits(1)]))
        .drift_veto(Positive::new(5).unwrap())
        .scaledown(0)
        .dead_time(Positive::new(7).unwrap())
        .observer(TestObserver::default())
        .build()
        .unwrap()
        .run();
    assert_eq!(times(observer.drift_veto), vec![9, 17]);
}

#[test]
fn world_scaledown() {
    let noise = noise(0, 25, 4);
    let observer = World::builder()
        .add_generator(noise)
        .prompt_window(Positive::new(1).unwrap())
        .wait_gate(Positive::new(1).unwrap())
        .lookup_table(LookupTable::from([WirePattern::from_bits(1)]))
        .drift_veto(Positive::new(5).unwrap())
        .scaledown(1)
        .dead_time(Positive::new(7).unwrap())
        .observer(TestObserver::default())
        .build()
        .unwrap()
        .run();
    assert_eq!(times(observer.scaledown), vec![5, 21]);
}

#[test]
fn world_dead_time() {
    let noise = noise(0, 21, 4);
    let observer = World::builder()
        .add_generator(noise)
        .prompt_window(Positive::new(1).unwrap())
        .wait_gate(Positive::new(1).unwrap())
        .lookup_table(LookupTable::from([WirePattern::from_bits(1)]))
        .drift_veto(Positive::new(1).unwrap())
        .scaledown(0)
        .dead_time(Positive::new(7).unwrap())
        .observer(TestObserver::default())
        .build()
        .unwrap()
        .run();
    assert_eq!(times(observer.dead_time), vec![9, 17]);
}

#[test]
fn world_trg_out() {
    let noise = noise(0, 21, 4);
    let observer = World::builder()
        .add_generator(noise)
        .prompt_window(Positive::new(1).unwrap())
        .wait_gate(Positive::new(1).unwrap())
        .lookup_table(LookupTable::from([WirePattern::from_bits(1)]))
        .drift_veto(Positive::new(1).unwrap())
        .scaledown(0)
        .dead_time(Positive::new(7).unwrap())
        .observer(TestObserver::default())
        .build()
        .unwrap()
        .run();
    assert_eq!(times(observer.trg_out), vec![5, 13]);
}

#[derive(Default)]
struct TimeAwareObserver {
    last_event: Option<WireEvent>,
}

impl Observer for TimeAwareObserver {
    fn on_notification(&mut self, _note: &Notification) {}

    fn on_wire_event(&mut self, event: &WireEvent) {
        self.last_event = Some(*event);
    }

    fn on_trg_in(&mut self, signal: &TrgSignal) {
        let last_event_time = self.last_event.unwrap().time;
        assert!(signal.time > last_event_time);
    }
}

#[test]
fn world_time_correctness() {
    let noise = noise(0, 7, 3);
    let _ = World::builder()
        .add_generator(noise)
        .prompt_window(Positive::new(1).unwrap())
        .wait_gate(Positive::new(1).unwrap())
        .lookup_table(LookupTable::from([WirePattern::from_bits(1)]))
        .drift_veto(Positive::new(1).unwrap())
        .scaledown(0)
        .dead_time(Positive::new(2).unwrap())
        .observer(TimeAwareObserver::default())
        .build()
        .unwrap()
        .run();
}

fn event(time: i64, bits: u16) -> WireEvent {
    WireEvent {
        source: Source::Noise,
        time,
        wire_pattern: WirePattern::from_bits(bits),
    }
}

fn every_four_ticks() -> Vec<WireEvent> {
    vec![0, 4, 8, 12, 16, 20]
        .into_iter()
        .map(|t| event(t, 1))
        .collect()
}

fn world_of(
    events: Vec<WireEvent>,
    drift_veto: i64,
    scaledown: u32,
    dead_time: i64,
) -> World<TestObserver> {
    World::builder()
        .add_generator(events)
        .prompt_window(Positive::new(1).unwrap())
        .wait_gate(Positive::new(1).unwrap())
        .lookup_table(LookupTable::from([WirePattern::from_bits(1)]))
        .drift_veto(Positive::new(drift_veto).unwrap())
        .scaledown(scaledown)
        .dead_time(Positive::new(dead_time).unwrap())
        .observer(TestObserver::default())
        .build()
        .unwrap()
}

#[test]
fn world_window_closes_one_tick_after_each_event() {
    let observer = world_of(every_four_ticks(), 1, 0, 1).run();
    assert_eq!(times(observer.trg_in), vec![1, 5, 9, 13, 17]);
    assert_eq!(times(observer.trg_out), vec![1, 5, 9, 13, 17]);
}

#[test]
fn world_veto_watermark_moves_without_output() {
    // Candidates at 5, 9, 13, 17 and 21. The one at 13 clears the veto and
    // is then held back by the dead time of the output at 5; it still moves
    // the veto watermark, so that the one at 17 is vetoed.
    let observer = world_of(noise(0, 25, 4), 5, 0, 9).run();
    assert_eq!(times(observer.trg_in), vec![5, 9, 13, 17, 21]);
    assert_eq!(times(observer.trg_out), vec![5, 21]);
    assert_eq!(times(observer.dead_time), vec![13]);
    assert_eq!(times(observer.drift_veto), vec![9, 17]);
}

#[test]
fn world_veto_on_candidates_from_tick_one() {
    let observer = world_of(every_four_ticks(), 5, 0, 7).run();
    assert_eq!(times(observer.trg_in), vec![1, 5, 9, 13, 17]);
    assert_eq!(times(observer.drift_veto), vec![5, 13]);
    assert_eq!(times(observer.trg_out), vec![1, 9, 17]);
    assert!(observer.dead_time.is_empty());
}

#[test]
fn world_scaledown_lets_every_other_candidate_pass() {
    let observer = world_of(every_four_ticks(), 1, 1, 1).run();
    assert_eq!(times(observer.scaledown), vec![1, 9, 17]);
    assert_eq!(times(observer.survived), vec![5, 13]);
    assert_eq!(times(observer.trg_out), vec![5, 13]);
}

#[test]
fn world_scaledown_of_two_lets_every_third_candidate_pass() {
    let observer = world_of(noise(0, 41, 4), 1, 2, 1).run();
    assert_eq!(times(observer.trg_in), vec![5, 9, 13, 17, 21, 25, 29, 33, 37]);
    assert_eq!(times(observer.scaledown), vec![5, 9, 17, 21, 29, 33]);
    assert_eq!(times(observer.trg_out), vec![13, 25, 37]);
}

#[test]
fn world_dead_time_suppresses_close_candidate() {
    let observer = world_of(noise(0, 13, 4), 1, 0, 4).run();
    assert_eq!(times(observer.trg_in), vec![5, 9]);
    assert_eq!(times(observer.trg_out), vec![5]);
    assert_eq!(times(observer.dead_time), vec![9]);
}

#[test]
fn world_trace_tells_each_event_after_its_candidate() {
    let trace = world_of(noise(0, 13, 4), 1, 0, 4).trace();
    let s5 = TrgSignal { time: 5 };
    let s9 = TrgSignal { time: 9 };
    assert_eq!(
        trace,
        vec![
            Notification::WireEvent(event(4, 1)),
            Notification::TrgIn(s5),
            Notification::TrgScaledownSurvived(s5),
            Notification::TrgOut(s5),
            Notification::WireEvent(event(8, 1)),
            Notification::TrgIn(s9),
            Notification::TrgScaledownSurvived(s9),
            Notification::TrgDeadTime(s9),
            Notification::WireEvent(event(12, 1)),
        ]
    );
}

#[derive(Default)]
struct Recorder {
    notes: Vec<Notification>,
}
impl Observer for Recorder {
    fn on_notification(&mut self, note: &Notification) {
        self.notes.push(*note);
    }
}

#[test]
fn world_run_tells_what_trace_returns() {
    let build = || {
        World::builder()
            .add_generator(noise(0, 50, 4))
            .add_generator(noise(1, 50, 7))
            .prompt_window(Positive::new(2).unwrap())
            .wait_gate(Positive::new(3).unwrap())
            .lookup_table(LookupTable::from([WirePattern::from_bits(1)]))
            .drift_veto(Positive::new(5).unwrap())
            .scaledown(1)
            .dead_time(Positive::new(9).unwrap())
            .observer(Recorder::default())
            .build()
            .unwrap()
    };
    let told = build().run().notes;
    assert!(told.len() > 20);
    assert_eq!(told, build().trace());
}

#[test]
fn world_without_sources_tells_nothing() {
    let world = World::builder()
        .prompt_window(Positive::new(1).unwrap())
        .wait_gate(Positive::new(1).unwrap())
        .lookup_table(LookupTable::new())
        .drift_veto(Positive::new(1).unwrap())
        .scaledown(0)
        .dead_time(Positive::new(1).unwrap())
        .observer(TestObserver::default())
        .build()
        .unwrap();
    assert!(world.trace().is_empty());
}

#[test]
fn world_builder_needs_every_setting() {
    let builder = World::<TestObserver>::builder()
        .prompt_window(Positive::new(1).unwrap())
        .wait_gate(Positive::new(1).unwrap())
        .lookup_table(LookupTable::new())
        .drift_veto(Positive::new(1).unwrap())
        .scaledown(0)
        .dead_time(Positive::new(1).unwrap());
    assert!(builder.build().is_none());
    assert!(World::<TestObserver>::builder().build().is_none());
}

#[test]
fn world_new_runs_like_built_world() {
    let mut generator = trg::merge::Generator::new();
    generator.add_generator(noise(0, 21, 4));
    let world = World::new(
        generator,
        Positive::new(1).unwrap(),
        Positive::new(1).unwrap(),
        LookupTable::from([WirePattern::from_bits(1)]),
        Positive::new(1).unwrap(),
        0,
        Positive::new(7).unwrap(),
        TestObserver::default(),
    );
    assert_eq!(times(world.run().trg_out), vec![5, 13]);
}

#[test]
fn world_list_of_notifications_keeps_the_trace() {
    let build = || {
        World::builder()
            .add_generator(noise(0, 50, 4))
            .add_generator(noise(1, 50, 7))
            .prompt_window(Positive::new(2).unwrap())
            .wait_gate(Positive::new(3).unwrap())
            .lookup_table(LookupTable::from([WirePattern::from_bits(1)]))
            .drift_veto(Positive::new(5).unwrap())
            .scaledown(1)
            .dead_time(Positive::new(9).unwrap())
            .observer(vec![Notification::TrgOut(TrgSignal { time: -1 })])
            .build()
            .unwrap()
    };
    let kept = build().run();
    let trace = build().trace();
    assert!(trace.len() > 20);
    assert_eq!(kept[0], Notification::TrgOut(TrgSignal { time: -1 }));
    assert_eq!(kept[1..], trace[..]);
}

#[test]
fn notify_calls_the_method_of_the_notification() {
    let event = event(3, 1);
    let signal = TrgSignal { time: 4 };
    let notes = vec![
        Notification::WireEvent(event),
        Notification::TrgIn(signal),
        Notification::TrgDriftVeto(signal),
        Notification::TrgScaledown(signal),
        Notification::TrgScaledownSurvived(signal),
        Notification::TrgDeadTime(signal),
        Notification::TrgOut(signal),
    ];
    for (k, note) in notes.iter().enumerate() {
        let mut observer = TestObserver::default();
        trg::notify(&mut observer, note);
        let calls = [
            observer.events.len(),
            observer.trg_in.len(),
            observer.drift_veto.len(),
            observer.scaledown.len(),
            observer.survived.len(),
            observer.dead_time.len(),
            observer.trg_out.len(),
        ];
        for (hook, count) in calls.iter().enumerate() {
            assert_eq!(*count, if hook == k { 1 } else { 0 });
        }
    }
    let mut kept: Vec<Notification> = Vec::new();
    trg::notify_all(&mut kept, &notes);
    assert_eq!(kept, notes);
}

#[test]
fn world_silent_observer_comes_back() {
    let world = World::builder()
        .add_generator(noise(0, 21, 4))
        .prompt_window(Positive::new(1).unwrap())
        .wait_gate(Positive::new(1).unwrap())
        .lookup_table(LookupTable::from([WirePattern::from_bits(1)]))
        .drift_veto(Positive::new(5).unwrap())
        .scaledown(0)
        .dead_time(Positive::new(7).unwrap())
        .observer(Silent)
        .build()
        .unwrap();
    assert_eq!(world.run(), Silent);
}

#[derive(Default)]
struct Counting {
    outputs: u32,
    others: u32,
}

impl Observer for Counting {
    fn on_notification(&mut self, _note: &Notification) {
        self.others += 1;
    }

    fn on_trg_out(&mut self, _signal: &TrgSignal) {
        self.outputs += 1;
    }
}

#[test]
fn world_methods_that_are_not_overridden_hand_on_to_on_notification() {
    let world = World::builder()
        .add_generator(noise(0, 13, 4))
        .prompt_window(Positive::new(1).unwrap())
        .wait_gate(Positive::new(1).unwrap())
        .lookup_table(LookupTable::from([WirePattern::from_bits(1)]))
        .drift_veto(Positive::new(1).unwrap())
        .scaledown(0)
        .dead_time(Positive::new(4).unwrap())
        .observer(Counting::default())
        .build()
        .unwrap();
    // three wire events, two candidates that pass the scaledown, one
    // output and one candidate held back by the dead time
    let counted = world.run();
    assert_eq!(counted.outputs, 1);
    assert_eq!(counted.others, 8);
}
