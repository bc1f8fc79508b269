//! The decision pipeline behind the merged stream: every wire event goes
//! through the memory lookup unit, every trigger candidate through the
//! admission cascade, and each decision is reported as a notification.

use crate::gen::{Positive, WireEvent};
use crate::mlu::{mlu_decision, mlu_next, LookupTable, Mlu, MluState, TrgSignal};
use crate::trg::{trg_fresh, trg_next, trg_verdict, TrgBox, TrgConfig, TrgState, Verdict};
use vstd::prelude::*;

verus! {

/// What an observer of the trigger system is told.
#[derive(Clone, Copy, Debug, PartialEq, Eq, Structural)]
pub enum Notification {
    /// A wire event went into the memory lookup unit.
    WireEvent(WireEvent),
    /// A candidate came out of the memory lookup unit.
    TrgIn(TrgSignal),
    /// The candidate was suppressed by the drift veto.
    TrgDriftVeto(TrgSignal),
    /// The candidate was suppressed by the scaledown.
    TrgScaledown(TrgSignal),
    /// The candidate passed the scaledown.
    TrgScaledownSurvived(TrgSignal),
    /// The candidate was suppressed by the dead time.
    TrgDeadTime(TrgSignal),
    /// The candidate was sent out as a trigger.
    TrgOut(TrgSignal),
}

/// The settings of the pipeline.
pub struct Settings {
    /// How long wire patterns are accumulated before a decision.
    pub prompt_window: int,
    /// How long wire events are ignored after a decision.
    pub wait_gate: int,
    /// The wire patterns that make a trigger candidate.
    pub table: Set<u16>,
    /// The settings of the admission cascade.
    pub trg: TrgConfig,
}

impl Settings {
    /// All windows are positive durations.
    pub open spec fn wf(self) -> bool {
        self.prompt_window > 0 && self.wait_gate > 0 && self.trg.wf()
    }
}

/// The state of the pipeline between two wire events.
pub struct Progress {
    /// The state of the memory lookup unit.
    pub mlu: MluState,
    /// The state of the admission cascade.
    pub trg: TrgState,
    /// The last wire event, of which the observer has not been told yet.
    pub pending: Option<WireEvent>,
}

/// The state of a pipeline that has not seen any wire event.
pub open spec fn fresh() -> Progress {
    Progress { mlu: MluState::Idle, trg: trg_fresh(), pending: None }
}

/// The notifications about one candidate, in the order of the stages.
pub open spec fn candidate_notes(signal: TrgSignal, verdict: Verdict) -> Seq<Notification> {
    match verdict {
        Verdict::DriftVeto => seq![Notification::TrgIn(signal), Notification::TrgDriftVeto(signal)],
        Verdict::Scaledown => seq![Notification::TrgIn(signal), Notification::TrgScaledown(signal)],
        Verdict::DeadTime => seq![
            Notification::TrgIn(signal),
            Notification::TrgScaledownSurvived(signal),
            Notification::TrgDeadTime(signal),
        ],
        Verdict::Accepted => seq![
            Notification::TrgIn(signal),
            Notification::TrgScaledownSurvived(signal),
            Notification::TrgOut(signal),
        ],
    }
}

/// The notification about the pending wire event, if there is one.
pub open spec fn pending_notes(progress: Progress) -> Seq<Notification> {
    match progress.pending {
        Some(event) => seq![Notification::WireEvent(event)],
        None => Seq::empty(),
    }
}

/// The notifications about the candidate that `event` brings out, if any.
pub open spec fn trigger_notes(settings: Settings, progress: Progress, event: WireEvent) -> Seq<
    Notification,
> {
    match mlu_decision(progress.mlu, settings.table, event.time as int) {
        Some(time) => candidate_notes(
            TrgSignal { time: time as i64 },
            trg_verdict(settings.trg, progress.trg, time),
        ),
        None => Seq::empty(),
    }
}

/// The notifications that a wire event gives rise to: first the one about
/// the wire event before it, then those about the candidate that it brings
/// out. The event itself stays pending.
pub open spec fn step_notes(settings: Settings, progress: Progress, event: WireEvent) -> Seq<
    Notification,
> {
    pending_notes(progress) + trigger_notes(settings, progress, event)
}

/// The state of the pipeline after a wire event.
pub open spec fn step_next(settings: Settings, progress: Progress, event: WireEvent) -> Progress {
    Progress {
        mlu: mlu_next(
            progress.mlu,
            settings.prompt_window,
            settings.wait_gate,
            event.time as int,
            event.wire_pattern@,
        ),
        trg: match mlu_decision(progress.mlu, settings.table, event.time as int) {
            Some(time) => trg_next(settings.trg, progress.trg, time),
            None => progress.trg,
        },
        pending: Some(event),
    }
}

/// The state of the pipeline after the wire events of `events`.
pub open spec fn progress_after(settings: Settings, progress: Progress, events: Seq<WireEvent>) -> Progress
    decreases events.len(),
{
    if events.len() == 0 {
        progress
    } else {
        step_next(settings, progress_after(settings, progress, events.drop_last()), events.last())
    }
}

/// The notifications given while the wire events of `events` go through.
pub open spec fn notes_during(settings: Settings, progress: Progress, events: Seq<WireEvent>) -> Seq<
    Notification,
>
    decreases events.len(),
{
    if events.len() == 0 {
        Seq::empty()
    } else {
        notes_during(settings, progress, events.drop_last()) + step_notes(
            settings,
            progress_after(settings, progress, events.drop_last()),
            events.last(),
        )
    }
}

/// Everything that an observer is told in a run over `events`: the
/// notifications given while the events go through, and at the end the one
/// about the last wire event.
pub open spec fn trace(settings: Settings, events: Seq<WireEvent>) -> Seq<Notification> {
    notes_during(settings, fresh(), events) + pending_notes(
        progress_after(settings, fresh(), events),
    )
}

/// The wire events that the notifications report, in their order.
pub open spec fn wire_events(notes: Seq<Notification>) -> Seq<WireEvent>
    decreases notes.len(),
{
    if notes.len() == 0 {
        Seq::empty()
    } else {
        let before = wire_events(notes.drop_last());
        match notes.last() {
            Notification::WireEvent(event) => before.push(event),
            _ => before,
        }
    }
}

/// The time of the wire event or of the candidate that a notification is
/// about.
pub open spec fn note_time(note: Notification) -> int {
    match note {
        Notification::WireEvent(event) => event.time as int,
        Notification::TrgIn(signal) => signal.time as int,
        Notification::TrgDriftVeto(signal) => signal.time as int,
        Notification::TrgScaledown(signal) => signal.time as int,
        Notification::TrgScaledownSurvived(signal) => signal.time as int,
        Notification::TrgDeadTime(signal) => signal.time as int,
        Notification::TrgOut(signal) => signal.time as int,
    }
}

/// The run over `events` told event by event: for each wire event first
/// what there is to tell about the candidate that it brings out, then the
/// wire event itself.
pub open spec fn lagged(settings: Settings, events: Seq<WireEvent>) -> Seq<Notification>
    decreases events.len(),
{
    if events.len() == 0 {
        Seq::empty()
    } else {
        lagged(settings, events.drop_last()) + trigger_notes(
            settings,
            progress_after(settings, fresh(), events.drop_last()),
            events.last(),
        ) + seq![Notification::WireEvent(events.last())]
    }
}

proof fn lemma_last_event_pending(settings: Settings, events: Seq<WireEvent>)
    ensures
        progress_after(settings, fresh(), events).pending == if events.len() == 0 {
            None
        } else {
            Some(events.last())
        },
{
}

proof fn lemma_window_closes_later(settings: Settings, events: Seq<WireEvent>)
    requires
        settings.wf(),
    ensures
        progress_after(settings, fresh(), events).mlu matches MluState::Accumulating { stop_time, .. }
            ==> events.len() > 0 && events.last().time < stop_time,
    decreases events.len(),
{
    if events.len() > 0 {
        lemma_window_closes_later(settings, events.drop_last());
    }
}

proof fn lemma_wire_events_add(a: Seq<Notification>, b: Seq<Notification>)
    ensures
        wire_events(a + b) == wire_events(a) + wire_events(b),
    decreases b.len(),
{
    if b.len() == 0 {
        assert(a + b =~= a);
        assert(wire_events(a) + wire_events(b) =~= wire_events(a));
    } else {
        lemma_wire_events_add(a, b.drop_last());
        assert((a + b).drop_last() =~= a + b.drop_last());
        assert((a + b).last() == b.last());
        match b.last() {
            Notification::WireEvent(event) => {
                assert(wire_events(a + b) =~= wire_events(a) + wire_events(b));
            },
            _ => {},
        }
    }
}

proof fn lemma_candidate_notes_silent(signal: TrgSignal, verdict: Verdict)
    ensures
        wire_events(candidate_notes(signal, verdict)) == Seq::<WireEvent>::empty(),
{
    let notes = candidate_notes(signal, verdict);
    reveal_with_fuel(wire_events, 4);
    assert(notes.drop_last().drop_last().len() <= 1);
}

/// Callback causality, in the order of the notifications: what there is to
/// tell about the candidate that a wire event brings out is told after the
/// wire event before it and before the wire event itself.
pub proof fn lemma_trace_lags(settings: Settings, events: Seq<WireEvent>)
    ensures
        trace(settings, events) == lagged(settings, events),
    decreases events.len(),
{
    if events.len() == 0 {
        assert(trace(settings, events) =~= lagged(settings, events));
    } else {
        let before = events.drop_last();
        lemma_trace_lags(settings, before);
        lemma_last_event_pending(settings, events);
        assert(trace(settings, events) =~= lagged(settings, events));
    }
}

/// Callback causality, for the wire events: the observer is told of every
/// wire event once, in the order of arrival; the last one is not left out.
pub proof fn lemma_trace_reports_events(settings: Settings, events: Seq<WireEvent>)
    ensures
        wire_events(trace(settings, events)) == events,
    decreases events.len(),
{
    lemma_trace_lags(settings, events);
    if events.len() > 0 {
        let before = events.drop_last();
        lemma_trace_lags(settings, before);
        lemma_trace_reports_events(settings, before);
        let progress = progress_after(settings, fresh(), before);
        let notes = trigger_notes(settings, progress, events.last());
        match mlu_decision(progress.mlu, settings.table, events.last().time as int) {
            Some(time) => {
                lemma_candidate_notes_silent(
                    TrgSignal { time: time as i64 },
                    trg_verdict(settings.trg, progress.trg, time),
                );
            },
            None => {},
        }
        let last = seq![Notification::WireEvent(events.last())];
        assert(wire_events(last) =~= seq![events.last()]) by {
            reveal_with_fuel(wire_events, 2);
            assert(last.drop_last() =~= Seq::<Notification>::empty());
            assert(last.last() == Notification::WireEvent(events.last()));
        }
        lemma_wire_events_add(lagged(settings, before), notes);
        lemma_wire_events_add(lagged(settings, before) + notes, last);
        assert(wire_events(lagged(settings, events)) =~= events);
    }
}

/// Callback causality, in time: a candidate that wire event `k` brings out
/// closed its window after the wire event before it and no later than the
/// wire event itself.
pub proof fn lemma_candidate_between_events(settings: Settings, events: Seq<WireEvent>, k: int, j: int)
    requires
        settings.wf(),
        0 <= k < events.len(),
        0 <= j < trigger_notes(
            settings,
            progress_after(settings, fresh(), events.take(k)),
            events[k],
        ).len(),
    ensures
        k > 0,
        ({
            let note = trigger_notes(
                settings,
                progress_after(settings, fresh(), events.take(k)),
                events[k],
            )[j];
            &&& !(note is WireEvent)
            &&& events[k - 1].time < note_time(note) <= events[k].time
        }),
{
    lemma_window_closes_later(settings, events.take(k));
}

/// The memory lookup unit and the admission cascade behind it.
#[derive(Clone, Copy, Debug)]
pub struct Pipeline {
    mlu: Mlu,
    trg: TrgBox,
    prev_event: Option<WireEvent>,
}

impl Pipeline {
    /// The settings of the pipeline.
    pub closed spec fn settings(&self) -> Settings {
        Settings {
            prompt_window: self.mlu.prompt_window(),
            wait_gate: self.mlu.wait_gate(),
            table: self.mlu.table(),
            trg: self.trg.config(),
        }
    }

    /// The state of the pipeline.
    pub closed spec fn progress(&self) -> Progress {
        Progress { mlu: self.mlu.state(), trg: self.trg.state(), pending: self.prev_event }
    }

    /// A pipeline that has not seen any wire event.
    pub fn new(
        prompt_window: Positive,
        wait_gate: Positive,
        lookup_table: LookupTable,
        drift_veto: Positive,
        scaledown: u32,
        dead_time: Positive,
    ) -> (pipeline: Pipeline)
        ensures
            pipeline.settings() == (Settings {
                prompt_window: prompt_window@,
                wait_gate: wait_gate@,
                table: lookup_table@,
                trg: TrgConfig {
                    drift_veto: drift_veto@,
                    scaledown: scaledown as nat,
                    dead_time: dead_time@,
                },
            }),
            pipeline.settings().wf(),
            pipeline.progress() == fresh(),
    {
        proof {
            use_type_invariant(&prompt_window);
            use_type_invariant(&wait_gate);
            use_type_invariant(&drift_veto);
            use_type_invariant(&dead_time);
        }
        Pipeline {
            mlu: Mlu::new(prompt_window, wait_gate, lookup_table),
            trg: TrgBox::new(drift_veto, scaledown, dead_time),
            prev_event: None,
        }
    }

    /// Takes the next wire event of the merged stream and returns what the
    /// observer is to be told, in this order.
    pub fn step(&mut self, event: WireEvent) -> (notes: Vec<Notification>)
        ensures
            notes@ == step_notes(old(self).settings(), old(self).progress(), event),
            final(self).progress() == step_next(old(self).settings(), old(self).progress(), event),
            final(self).settings() == old(self).settings(),
    {
        let mut notes: Vec<Notification> = Vec::new();
        if let Some(prev) = self.prev_event {
            notes.push(Notification::WireEvent(prev));
        }
        self.prev_event = Some(event);
        assert(notes@ =~= pending_notes(old(self).progress()));

        if let Some(signal) = self.mlu.process(&event) {
            notes.push(Notification::TrgIn(signal));
            match self.trg.process(&signal) {
                Verdict::DriftVeto => {
                    notes.push(Notification::TrgDriftVeto(signal));
                },
                Verdict::Scaledown => {
                    notes.push(Notification::TrgScaledown(signal));
                },
                Verdict::DeadTime => {
                    notes.push(Notification::TrgScaledownSurvived(signal));
                    notes.push(Notification::TrgDeadTime(signal));
                },
                Verdict::Accepted => {
                    notes.push(Notification::TrgScaledownSurvived(signal));
                    notes.push(Notification::TrgOut(signal));
                },
            }
        }
        assert(notes@ =~= step_notes(old(self).settings(), old(self).progress(), event));
        notes
    }

    /// Ends the run and returns what the observer is still to be told: the
    /// last wire event.
    pub fn finish(self) -> (notes: Vec<Notification>)
        ensures
            notes@ == pending_notes(self.progress()),
    {
        let mut notes: Vec<Notification> = Vec::new();
        if let Some(prev) = self.prev_event {
            notes.push(Notification::WireEvent(prev));
        }
        assert(notes@ =~= pending_notes(self.progress()));
        notes
    }
}

} // verus!
