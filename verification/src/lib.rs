//! Simulation of a particle-detector trigger chain.
//!
//! Wire events from several time-ordered sources are merged into one stream,
//! fed through the memory lookup unit, and the resulting trigger candidates
//! pass a cascade of admission controls before they count as trigger outputs.

use crate::gen::{Positive, WireEvent};
use crate::merge::{merged, Generator};
use crate::mlu::{LookupTable, TrgSignal};
use crate::pipeline::{
    fresh, notes_during, progress_after, trace, Notification, Pipeline, Settings,
};
use crate::trg::TrgConfig;
use vstd::prelude::*;

/// Input data of the trigger system.
pub mod gen;
/// Time-ordered merge of event sources that are pulled on demand.
pub mod lazy;
/// Time-ordered merge of event sources.
pub mod merge;
/// Memory Lookup Unit.
pub mod mlu;
/// Reading a lookup table from its text form.
pub mod parse;
/// Decision pipeline: memory lookup unit and admission cascade.
pub mod pipeline;
/// Discriminator signals by their origin.
pub mod signals;
/// Text form of a lookup table.
pub mod text;
/// Admission cascade: drift veto, scaledown and dead time.
pub mod trg;

verus! {

/// A trait that defines the interface for an observer of the trigger system.
///
/// There is one method for each kind of notification. By default each of
/// them hands its notification on to [`Observer::on_notification`], so that
/// an observer overrides the methods it is interested in and says once, in
/// `on_notification`, what happens with the rest: most often nothing.
pub trait Observer: Sized {
    /// Whether the observer's method for `note` can take the observer from
    /// `before` to `after`. An observer whose methods are proved says here
    /// what they do. Of any other observer nothing is claimed: unless it is
    /// stated otherwise, every change is possible.
    open spec fn sees(before: Self, note: Notification, after: Self) -> bool {
        true
    }

    /// Called for every notification whose own method is not overridden.
    fn on_notification(&mut self, note: &Notification)
        ensures
            Self::sees(*old(self), *note, *final(self)),
    ;

    /// Called when a new [`WireEvent`] is generated.
    fn on_wire_event(&mut self, event: &WireEvent)
        ensures
            Self::sees(*old(self), Notification::WireEvent(*event), *final(self)),
    {
        self.on_notification(&Notification::WireEvent(*event));
    }

    /// Called when a signal goes into the TRG box (i.e. output of the MLU).
    fn on_trg_in(&mut self, signal: &TrgSignal)
        ensures
            Self::sees(*old(self), Notification::TrgIn(*signal), *final(self)),
    {
        self.on_notification(&Notification::TrgIn(*signal));
    }

    /// Called when a TRG signal is suppressed by the drift veto.
    fn on_trg_drift_veto(&mut self, signal: &TrgSignal)
        ensures
            Self::sees(*old(self), Notification::TrgDriftVeto(*signal), *final(self)),
    {
        self.on_notification(&Notification::TrgDriftVeto(*signal));
    }

    /// Called when a TRG signal is suppressed by the scaledown.
    fn on_trg_scaledown(&mut self, signal: &TrgSignal)
        ensures
            Self::sees(*old(self), Notification::TrgScaledown(*signal), *final(self)),
    {
        self.on_notification(&Notification::TrgScaledown(*signal));
    }

    /// Called when a TRG signal passes the scaledown.
    fn on_trg_scaledown_survived(&mut self, signal: &TrgSignal)
        ensures
            Self::sees(*old(self), Notification::TrgScaledownSurvived(*signal), *final(self)),
    {
        self.on_notification(&Notification::TrgScaledownSurvived(*signal));
    }

    /// Called when a TRG signal is suppressed by the dead time.
    fn on_trg_dead_time(&mut self, signal: &TrgSignal)
        ensures
            Self::sees(*old(self), Notification::TrgDeadTime(*signal), *final(self)),
    {
        self.on_notification(&Notification::TrgDeadTime(*signal));
    }

    /// Called when a trigger signal is sent to the DAQ.
    fn on_trg_out(&mut self, signal: &TrgSignal)
        ensures
            Self::sees(*old(self), Notification::TrgOut(*signal), *final(self)),
    {
        self.on_notification(&Notification::TrgOut(*signal));
    }
}

/// A list of notifications is an observer that keeps, in their order, the
/// notifications that it is told.
impl Observer for Vec<Notification> {
    open spec fn sees(before: Self, note: Notification, after: Self) -> bool {
        after@ == before@.push(note)
    }

    fn on_notification(&mut self, note: &Notification) {
        self.push(*note);
    }
}

/// The observer that takes no notice of what it is told.
#[derive(Clone, Copy, Debug, Default, PartialEq, Eq)]
pub struct Silent;

impl Observer for Silent {
    open spec fn sees(before: Self, note: Notification, after: Self) -> bool {
        after == before
    }

    fn on_notification(&mut self, note: &Notification) {
    }
}

/// Whether `states` are states of an observer that is told the
/// notifications of `notes`, first to last: the state before the first
/// notification, and the state after each one, as the observer's method
/// for that notification leaves it.
pub open spec fn follows<O: Observer>(states: Seq<O>, notes: Seq<Notification>) -> bool {
    &&& states.len() == notes.len() + 1
    &&& forall|k: int|
        0 <= k < notes.len() ==> O::sees(#[trigger] states[k], notes[k], states[k + 1])
}

/// Whether an observer that was `before` can be `after` once it has been
/// told the notifications of `notes`, first to last, each by the method
/// that stands for it.
pub open spec fn told<O: Observer>(before: O, notes: Seq<Notification>, after: O) -> bool {
    exists|states: Seq<O>|
        #![trigger follows(states, notes)]
        follows(states, notes) && states[0] == before && states.last() == after
}

/// Telling one list of notifications and then another is telling the two
/// lists put together.
pub proof fn lemma_told_add<O: Observer>(
    before: O,
    first: Seq<Notification>,
    between: O,
    second: Seq<Notification>,
    after: O,
)
    requires
        told(before, first, between),
        told(between, second, after),
    ensures
        told(before, first + second, after),
{
    let early = choose|states: Seq<O>|
        #![trigger follows(states, first)]
        follows(states, first) && states[0] == before && states.last() == between;
    let late = choose|states: Seq<O>|
        #![trigger follows(states, second)]
        follows(states, second) && states[0] == between && states.last() == after;
    let states = early + late.drop_first();
    let notes = first + second;
    assert forall|k: int| 0 <= k < notes.len() implies O::sees(
        #[trigger] states[k],
        notes[k],
        states[k + 1],
    ) by {
        if k < first.len() {
            assert(O::sees(early[k], first[k], early[k + 1]));
            if k + 1 == first.len() {
                assert(states[k + 1] == late[0]);
            }
        } else {
            let j = k - first.len();
            assert(O::sees(late[j], second[j], late[j + 1]));
            if j == 0 {
                assert(states[k] == early.last());
            }
        }
    }
    assert(follows(states, notes));
}

proof fn lemma_list_after(states: Seq<Vec<Notification>>, notes: Seq<Notification>, k: int)
    requires
        follows(states, notes),
        0 <= k <= notes.len(),
    ensures
        states[k]@ == states[0]@ + notes.take(k),
    decreases k,
{
    if k == 0 {
        assert(states[0]@ + notes.take(0) =~= states[0]@);
    } else {
        lemma_list_after(states, notes, k - 1);
        assert(Vec::<Notification>::sees(states[k - 1], notes[k - 1], states[k]));
        assert(states[0]@ + notes.take(k) =~= (states[0]@ + notes.take(k - 1)).push(notes[k - 1]));
    }
}

/// A list of notifications that has been told further notifications holds
/// them behind what it held before, in their order.
pub proof fn lemma_told_list(
    before: Vec<Notification>,
    notes: Seq<Notification>,
    after: Vec<Notification>,
)
    requires
        told(before, notes, after),
    ensures
        after@ == before@ + notes,
{
    let states = choose|states: Seq<Vec<Notification>>|
        #![trigger follows(states, notes)]
        follows(states, notes) && states[0] == before && states.last() == after;
    lemma_list_after(states, notes, notes.len() as int);
    assert(notes.take(notes.len() as int) =~= notes);
}

/// The silent observer stays as it is, whatever it is told.
pub proof fn lemma_told_silent(before: Silent, notes: Seq<Notification>, after: Silent)
    requires
        told(before, notes, after),
    ensures
        after == before,
{
}

/// Calls the method of the observer that the notification stands for.
pub fn notify<O: Observer>(observer: &mut O, note: &Notification)
    ensures
        O::sees(*old(observer), *note, *final(observer)),
{
    match note {
        Notification::WireEvent(event) => observer.on_wire_event(event),
        Notification::TrgIn(signal) => observer.on_trg_in(signal),
        Notification::TrgDriftVeto(signal) => observer.on_trg_drift_veto(signal),
        Notification::TrgScaledown(signal) => observer.on_trg_scaledown(signal),
        Notification::TrgScaledownSurvived(signal) => observer.on_trg_scaledown_survived(signal),
        Notification::TrgDeadTime(signal) => observer.on_trg_dead_time(signal),
        Notification::TrgOut(signal) => observer.on_trg_out(signal),
    }
}

/// Tells the observer the notifications of `notes`, first to last.
pub fn notify_all<O: Observer>(observer: &mut O, notes: &Vec<Notification>)
    ensures
        told(*old(observer), notes@, *final(observer)),
{
    let mut i: usize = 0;
    let ghost mut states = seq![*observer];
    while i < notes.len()
        invariant
            i <= notes.len(),
            follows(states, notes@.take(i as int)),
            states[0] == *old(observer),
            states.last() == *observer,
        decreases notes.len() - i,
    {
        let ghost before = states;
        notify(observer, &notes[i]);
        proof {
            states = before.push(*observer);
            let longer = notes@.take(i + 1);
            assert forall|k: int| 0 <= k < longer.len() implies O::sees(
                #[trigger] states[k],
                longer[k],
                states[k + 1],
            ) by {
                if k < i {
                    assert(O::sees(before[k], notes@.take(i as int)[k], before[k + 1]));
                }
            }
        }
        i += 1;
    }
    proof {
        assert(notes@.take(i as int) =~= notes@);
    }
}

/// A simulation that is ready to run: the sources of wire events, the
/// trigger system behind them, and the observer that follows the run.
pub struct World<O> {
    generator: Generator,
    pipeline: Pipeline,
    observer: O,
}

impl<O> World<O> {
    #[verifier::type_invariant]
    spec fn not_started(self) -> bool {
        self.pipeline.progress() == fresh()
    }

    /// What each source holds.
    pub closed spec fn sources(&self) -> Seq<Seq<WireEvent>> {
        self.generator@
    }

    /// The settings of the trigger system.
    pub closed spec fn settings(&self) -> Settings {
        self.pipeline.settings()
    }

    /// The observer that follows the run.
    pub closed spec fn observer(&self) -> O {
        self.observer
    }

    /// A builder without sources in which nothing is set.
    pub fn builder() -> (builder: WorldBuilder<O>)
        ensures
            builder@ == Plan::<O>::empty(),
    {
        WorldBuilder {
            generator: Generator::new(),
            prompt_window: None,
            wait_gate: None,
            lookup_table: None,
            drift_veto: None,
            scaledown: None,
            dead_time: None,
            observer: None,
        }
    }

    /// A simulation of the sources of `generator` under the given settings.
    pub fn new(
        generator: Generator,
        prompt_window: Positive,
        wait_gate: Positive,
        lookup_table: LookupTable,
        drift_veto: Positive,
        scaledown: u32,
        dead_time: Positive,
        observer: O,
    ) -> (world: World<O>)
        ensures
            world.sources() == generator@,
            world.settings() == (Settings {
                prompt_window: prompt_window@,
                wait_gate: wait_gate@,
                table: lookup_table@,
                trg: TrgConfig {
                    drift_veto: drift_veto@,
                    scaledown: scaledown as nat,
                    dead_time: dead_time@,
                },
            }),
            world.settings().wf(),
            world.observer() == observer,
    {
        let pipeline = Pipeline::new(
            prompt_window,
            wait_gate,
            lookup_table,
            drift_veto,
            scaledown,
            dead_time,
        );
        World { generator, pipeline, observer }
    }

    /// Runs the simulation until all sources are exhausted, and returns
    /// everything that an observer of the run is told, in this order.
    pub fn trace(self) -> (notes: Vec<Notification>)
        ensures
            notes@ == trace(self.settings(), merged(self.sources())),
    {
        proof {
            use_type_invariant(&self);
        }
        let World { generator, pipeline, observer } = self;
        let mut generator = generator;
        let mut pipeline = pipeline;
        let mut notes: Vec<Notification> = Vec::new();
        let ghost settings = pipeline.settings();
        let ghost all = merged(generator@);
        let ghost mut seen = Seq::<WireEvent>::empty();
        loop
            invariant
                pipeline.settings() == settings,
                all == seen + merged(generator@),
                pipeline.progress() == progress_after(settings, fresh(), seen),
                notes@ == notes_during(settings, fresh(), seen),
            ensures
                all == seen,
            decreases merged(generator@).len(),
        {
            match generator.next() {
                None => {
                    proof {
                        assert(seen + Seq::<WireEvent>::empty() =~= seen);
                    }
                    break ;
                },
                Some(event) => {
                    let mut more = pipeline.step(event);
                    notes.append(&mut more);
                    proof {
                        let longer = seen.push(event);
                        assert(longer.drop_last() =~= seen);
                        assert(longer + merged(generator@) =~= all);
                        seen = longer;
                    }
                },
            }
        }
        let mut last = pipeline.finish();
        notes.append(&mut last);
        notes
    }
}

impl<O: Observer> World<O> {
    /// Run a simulation of the trigger system until all generators are
    /// exhausted, and return the observer. The observer is told what
    /// [`World::trace`] returns, each notification as soon as it is due.
    pub fn run(self) -> (observer: O)
        ensures
            told(self.observer(), trace(self.settings(), merged(self.sources())), observer),
    {
        proof {
            use_type_invariant(&self);
        }
        let ghost first = self.observer();
        let World { generator, pipeline, observer } = self;
        let mut generator = generator;
        let mut pipeline = pipeline;
        let mut observer = observer;
        let ghost settings = pipeline.settings();
        let ghost all = merged(generator@);
        let ghost mut seen = Seq::<WireEvent>::empty();
        proof {
            assert(follows(seq![observer], Seq::<Notification>::empty()));
        }
        loop
            invariant
                pipeline.settings() == settings,
                all == seen + merged(generator@),
                pipeline.progress() == progress_after(settings, fresh(), seen),
                told(first, notes_during(settings, fresh(), seen), observer),
            ensures
                all == seen,
            decreases merged(generator@).len(),
        {
            match generator.next() {
                None => {
                    proof {
                        assert(seen + Seq::<WireEvent>::empty() =~= seen);
                    }
                    break ;
                },
                Some(event) => {
                    let ghost before = observer;
                    let notes = pipeline.step(event);
                    notify_all(&mut observer, &notes);
                    proof {
                        let longer = seen.push(event);
                        assert(longer.drop_last() =~= seen);
                        assert(longer + merged(generator@) =~= all);
                        lemma_told_add(
                            first,
                            notes_during(settings, fresh(), seen),
                            before,
                            notes@,
                            observer,
                        );
                        seen = longer;
                    }
                },
            }
        }
        let ghost before = observer;
        let notes = pipeline.finish();
        notify_all(&mut observer, &notes);
        proof {
            lemma_told_add(first, notes_during(settings, fresh(), all), before, notes@, observer);
        }
        observer
    }
}

/// What has been handed to a [`WorldBuilder`].
pub struct Plan<O> {
    /// What each registered source holds.
    pub sources: Seq<Seq<WireEvent>>,
    /// The prompt window, if it is set.
    pub prompt_window: Option<int>,
    /// The wait gate, if it is set.
    pub wait_gate: Option<int>,
    /// The patterns of the lookup table, if it is set.
    pub table: Option<Set<u16>>,
    /// The drift veto, if it is set.
    pub drift_veto: Option<int>,
    /// The scaledown factor, if it is set.
    pub scaledown: Option<nat>,
    /// The dead time, if it is set.
    pub dead_time: Option<int>,
    /// The observer, if it is set.
    pub observer: Option<O>,
}

impl<O> Plan<O> {
    /// No sources, and nothing set.
    pub open spec fn empty() -> Plan<O> {
        Plan {
            sources: Seq::empty(),
            prompt_window: None,
            wait_gate: None,
            table: None,
            drift_veto: None,
            scaledown: None,
            dead_time: None,
            observer: None,
        }
    }

    /// Whether everything is set that a simulation needs.
    pub open spec fn is_complete(self) -> bool {
        &&& self.prompt_window is Some
        &&& self.wait_gate is Some
        &&& self.table is Some
        &&& self.drift_veto is Some
        &&& self.scaledown is Some
        &&& self.dead_time is Some
        &&& self.observer is Some
    }

    /// The settings of the trigger system that the plan describes.
    pub open spec fn settings(self) -> Settings {
        Settings {
            prompt_window: self.prompt_window->0,
            wait_gate: self.wait_gate->0,
            table: self.table->0,
            trg: TrgConfig {
                drift_veto: self.drift_veto->0,
                scaledown: self.scaledown->0,
                dead_time: self.dead_time->0,
            },
        }
    }
}

/// Assembles a [`World`] step by step: the sources are added one by one,
/// every setting is set once, and `build` gives the simulation.
pub struct WorldBuilder<O> {
    generator: Generator,
    prompt_window: Option<Positive>,
    wait_gate: Option<Positive>,
    lookup_table: Option<LookupTable>,
    drift_veto: Option<Positive>,
    scaledown: Option<u32>,
    dead_time: Option<Positive>,
    observer: Option<O>,
}

impl<O> View for WorldBuilder<O> {
    type V = Plan<O>;

    closed spec fn view(&self) -> Plan<O> {
        Plan {
            sources: self.generator@,
            prompt_window: match self.prompt_window {
                Some(window) => Some(window@),
                None => None,
            },
            wait_gate: match self.wait_gate {
                Some(gate) => Some(gate@),
                None => None,
            },
            table: match self.lookup_table {
                Some(table) => Some(table@),
                None => None,
            },
            drift_veto: match self.drift_veto {
                Some(veto) => Some(veto@),
                None => None,
            },
            scaledown: match self.scaledown {
                Some(factor) => Some(factor as nat),
                None => None,
            },
            dead_time: match self.dead_time {
                Some(time) => Some(time@),
                None => None,
            },
            observer: self.observer,
        }
    }
}

impl<O> WorldBuilder<O> {
    /// Add an event generator to the [`World`]. It comes behind the
    /// generators that are there; one without events is left out.
    pub fn add_generator(self, gen: Vec<WireEvent>) -> (builder: Self)
        ensures
            builder@ == (Plan {
                sources: if gen@.len() > 0 {
                    self@.sources.push(gen@)
                } else {
                    self@.sources
                },
                ..self@
            }),
    {
        let mut builder = self;
        builder.generator.add_generator(gen);
        builder
    }

    /// Sets the prompt window.
    pub fn prompt_window(self, prompt_window: Positive) -> (builder: Self)
        ensures
            builder@ == (Plan { prompt_window: Some(prompt_window@), ..self@ }),
    {
        let mut builder = self;
        builder.prompt_window = Some(prompt_window);
        builder
    }

    /// Sets the wait gate.
    pub fn wait_gate(self, wait_gate: Positive) -> (builder: Self)
        ensures
            builder@ == (Plan { wait_gate: Some(wait_gate@), ..self@ }),
    {
        let mut builder = self;
        builder.wait_gate = Some(wait_gate);
        builder
    }

    /// Sets the lookup table of the memory lookup unit.
    pub fn lookup_table(self, lookup_table: LookupTable) -> (builder: Self)
        ensures
            builder@ == (Plan { table: Some(lookup_table@), ..self@ }),
    {
        let mut builder = self;
        builder.lookup_table = Some(lookup_table);
        builder
    }

    /// Sets the drift veto.
    pub fn drift_veto(self, drift_veto: Positive) -> (builder: Self)
        ensures
            builder@ == (Plan { drift_veto: Some(drift_veto@), ..self@ }),
    {
        let mut builder = self;
        builder.drift_veto = Some(drift_veto);
        builder
    }

    /// Sets the scaledown factor.
    pub fn scaledown(self, scaledown: u32) -> (builder: Self)
        ensures
            builder@ == (Plan { scaledown: Some(scaledown as nat), ..self@ }),
    {
        let mut builder = self;
        builder.scaledown = Some(scaledown);
        builder
    }

    /// Sets the dead time.
    pub fn dead_time(self, dead_time: Positive) -> (builder: Self)
        ensures
            builder@ == (Plan { dead_time: Some(dead_time@), ..self@ }),
    {
        let mut builder = self;
        builder.dead_time = Some(dead_time);
        builder
    }

    /// Sets the observer.
    pub fn observer(self, observer: O) -> (builder: Self)
        ensures
            builder@ == (Plan { observer: Some(observer), ..self@ }),
    {
        let mut builder = self;
        builder.observer = Some(observer);
        builder
    }

    /// The simulation, if everything is set that it needs.
    pub fn build(self) -> (world: Option<World<O>>)
        ensures
            world is Some <==> self@.is_complete(),
            world matches Some(w) ==> {
                &&& w.sources() == self@.sources
                &&& w.settings() == self@.settings()
                &&& w.settings().wf()
                &&& w.observer() == self@.observer->0
            },
    {
        let WorldBuilder {
            generator,
            prompt_window,
            wait_gate,
            lookup_table,
            drift_veto,
            scaledown,
            dead_time,
            observer,
        } = self;
        match (prompt_window, wait_gate, lookup_table, drift_veto, scaledown, dead_time, observer) {
            (
                Some(prompt_window),
                Some(wait_gate),
                Some(lookup_table),
                Some(drift_veto),
                Some(scaledown),
                Some(dead_time),
                Some(observer),
            ) => Some(
                World::new(
                    generator,
                    prompt_window,
                    wait_gate,
                    lookup_table,
                    drift_veto,
                    scaledown,
                    dead_time,
                    observer,
                ),
            ),
            _ => None,
        }
    }
}

} // verus!
