//! Memory lookup unit.

use crate::gen::{Positive, WireEvent, WirePattern};
pub use crate::parse::ParseError;
use vstd::prelude::*;
use vstd::std_specs::cmp::PartialEqSpecImpl;
use vstd::std_specs::convert::FromSpecImpl;

verus! {

/// Number of distinct wire patterns.
pub const TABLE_SIZE: usize = 65536;

/// Set of [`WirePattern`]s.
#[derive(Clone, Copy, Debug, Eq)]
pub struct LookupTable {
    inner: [bool; TABLE_SIZE],
}

impl View for LookupTable {
    type V = Set<u16>;

    closed spec fn view(&self) -> Set<u16> {
        Set::new(|bits: u16| self.inner@[bits as int])
    }
}

impl LookupTable {
    /// The table that holds exactly the patterns of `patterns`.
    pub closed spec fn of(patterns: Set<u16>) -> LookupTable {
        choose|table: LookupTable| table@ == patterns
    }

    /// A table is determined by the patterns it holds.
    pub proof fn lemma_of_view(self)
        ensures
            LookupTable::of(self@) == self,
    {
        let other = LookupTable::of(self@);
        assert(other@ == self@);
        assert forall|k: int| 0 <= k < TABLE_SIZE implies self.inner@[k] == other.inner@[k] by {
            assert(self@.contains(k as u16) == other@.contains(k as u16));
        }
        assert(self.inner =~= other.inner);
    }

    /// Creates a new empty lookup table.
    pub fn new() -> (table: LookupTable)
        ensures
            table@ == Set::<u16>::empty(),
    {
        let table = LookupTable { inner: [false;TABLE_SIZE] };
        assert(table@ =~= Set::<u16>::empty());
        table
    }

    /// Adds a wire pattern to the lookup table. Returns whether the pattern was
    /// newly inserted.
    pub fn insert(&mut self, wire_pattern: WirePattern) -> (was_inserted: bool)
        ensures
            was_inserted == Self::insert_reports(old(self)@, wire_pattern@),
            final(self)@ == old(self)@.insert(wire_pattern@),
    {
        let index = wire_pattern.bits() as usize;
        let was_inserted = !self.inner[index];
        self.inner[index] = true;
        assert(self@ =~= old(self)@.insert(wire_pattern@));
        was_inserted
    }

    /// Returns `true` if the given wire pattern is in the lookup table.
    pub fn contains(&self, wire_pattern: WirePattern) -> (is_present: bool)
        ensures
            is_present == self@.contains(wire_pattern@),
    {
        let index = wire_pattern.bits() as usize;
        self.inner[index]
    }

    /// Removes a wire pattern from the lookup table. Returns whether the
    /// pattern was present in the table.
    pub fn remove(&mut self, wire_pattern: WirePattern) -> (was_present: bool)
        ensures
            was_present == Self::remove_reports(old(self)@, wire_pattern@),
            final(self)@ == old(self)@.remove(wire_pattern@),
    {
        let index = wire_pattern.bits() as usize;
        let was_present = self.inner[index];
        self.inner[index] = false;
        assert(self@ =~= old(self)@.remove(wire_pattern@));
        was_present
    }

    /// The patterns that occur in `patterns`.
    pub open spec fn patterns_of(patterns: Seq<WirePattern>) -> Set<u16> {
        Set::new(|bits: u16| exists|k: int| 0 <= k < patterns.len() && patterns[k]@ == bits)
    }

    /// Collects the patterns of a sequence into a table. Patterns that occur
    /// more than once are kept once.
    pub fn from_iter(patterns: &[WirePattern]) -> (table: LookupTable)
        ensures
            table@ == LookupTable::patterns_of(patterns@),
    {
        let mut table = LookupTable::new();
        let mut i: usize = 0;
        while i < patterns.len()
            invariant
                i <= patterns.len(),
                table@ == LookupTable::patterns_of(patterns@.take(i as int)),
            decreases patterns.len() - i,
        {
            table.insert(patterns[i]);
            i += 1;
            assert(table@ =~= LookupTable::patterns_of(patterns@.take(i as int))) by {
                let before = patterns@.take(i - 1);
                let now = patterns@.take(i as int);
                assert forall|bits: u16|
                    LookupTable::patterns_of(before).insert(patterns[i - 1]@).contains(bits)
                    implies LookupTable::patterns_of(now).contains(bits) by {
                    if bits == patterns[i - 1]@ {
                        assert(now[i - 1]@ == bits);
                    } else {
                        let k = choose|k: int| 0 <= k < before.len() && before[k]@ == bits;
                        assert(now[k]@ == bits);
                    }
                }
                assert forall|bits: u16| LookupTable::patterns_of(now).contains(bits)
                    implies LookupTable::patterns_of(before).insert(patterns[i - 1]@).contains(bits) by {
                    let k = choose|k: int| 0 <= k < now.len() && now[k]@ == bits;
                    if k < i - 1 {
                        assert(before[k]@ == bits);
                    }
                }
            }
        }
        assert(patterns@.take(i as int) =~= patterns@);
        table
    }

    /// What [`LookupTable::insert`] reports on a table that holds `patterns`.
    pub open spec fn insert_reports(patterns: Set<u16>, pattern: u16) -> bool {
        !patterns.contains(pattern)
    }

    /// What [`LookupTable::remove`] reports on a table that holds `patterns`.
    pub open spec fn remove_reports(patterns: Set<u16>, pattern: u16) -> bool {
        patterns.contains(pattern)
    }

    /// Inserting a pattern twice reports `true` (if it was new), then `false`,
    /// and the second insertion changes nothing. Removing it afterwards
    /// reports `true`, then `false`, and the second removal changes nothing.
    pub proof fn lemma_membership_idempotent(patterns: Set<u16>, pattern: u16)
        ensures
            !patterns.contains(pattern) ==> Self::insert_reports(patterns, pattern),
            !Self::insert_reports(patterns.insert(pattern), pattern),
            patterns.insert(pattern).insert(pattern) == patterns.insert(pattern),
            Self::remove_reports(patterns.insert(pattern), pattern),
            !Self::remove_reports(patterns.insert(pattern).remove(pattern), pattern),
            patterns.insert(pattern).remove(pattern).remove(pattern) == patterns.insert(
                pattern,
            ).remove(pattern),
    {
        assert(patterns.insert(pattern).insert(pattern) =~= patterns.insert(pattern));
        assert(patterns.insert(pattern).remove(pattern).remove(pattern) =~= patterns.insert(
            pattern,
        ).remove(pattern));
    }
}

impl Default for LookupTable {
    /// Creates a new empty lookup table.
    fn default() -> (table: LookupTable)
        ensures
            table@ == Set::<u16>::empty(),
    {
        LookupTable::new()
    }
}

impl PartialEq for LookupTable {
    /// Two tables are equal when they hold the same patterns.
    fn eq(&self, other: &LookupTable) -> (equal: bool) {
        let mut n: usize = 0;
        while n < TABLE_SIZE
            invariant
                n <= TABLE_SIZE,
                forall|k: int| 0 <= k < n ==> self.inner@[k] == other.inner@[k],
            decreases TABLE_SIZE - n,
        {
            if self.inner[n] != other.inner[n] {
                assert(self@.contains(n as u16) != other@.contains(n as u16));
                return false;
            }
            n += 1;
        }
        assert(self@ =~= other@);
        true
    }
}

impl PartialEqSpecImpl for LookupTable {
    open spec fn obeys_eq_spec() -> bool {
        true
    }

    open spec fn eq_spec(&self, other: &LookupTable) -> bool {
        self@ == other@
    }
}

impl<const N: usize> From<[WirePattern; N]> for LookupTable {
    /// Converts a `[WirePattern; N]` into a `LookupTable`.
    ///
    /// If the array contains any equal values, all but one will be dropped.
    fn from(arr: [WirePattern; N]) -> (table: LookupTable)
        ensures
            table@ == LookupTable::patterns_of(arr@),
    {
        let table = LookupTable::from_iter(arr.as_slice());
        proof {
            table.lemma_of_view();
        }
        table
    }
}

impl<const N: usize> FromSpecImpl<[WirePattern; N]> for LookupTable {
    open spec fn obeys_from_spec() -> bool {
        true
    }

    open spec fn from_spec(arr: [WirePattern; N]) -> LookupTable {
        LookupTable::of(LookupTable::patterns_of(arr@))
    }
}

/// A candidate trigger decision of the memory lookup unit.
#[derive(Clone, Copy, Debug, PartialEq, Eq, Structural)]
pub struct TrgSignal {
    /// The instant at which the prompt window closed.
    pub time: i64,
}

/// What the memory lookup unit is doing between two wire events.
pub enum MluState {
    /// No wire event has been seen yet.
    Idle,
    /// Wire patterns are being accumulated during the prompt window.
    Accumulating {
        /// When accumulation stops and a decision is made.
        stop_time: int,
        /// The wires that fired since the window opened.
        cumulative_pattern: u16,
    },
    /// Wire events are ignored until the wait gate has passed.
    Debouncing {
        /// When the unit can start to accumulate again.
        stop_time: int,
    },
}

/// The state of a unit that has just seen a wire event at `time`: a new
/// prompt window.
pub open spec fn mlu_rearmed(prompt_window: int, time: int, pattern: u16) -> MluState {
    MluState::Accumulating { stop_time: time + prompt_window, cumulative_pattern: pattern }
}

/// The state of the unit after a wire event at `time` that carries `pattern`.
///
/// | state | event | next state |
/// |---|---|---|
/// | idle | any | accumulating until `time + prompt_window` |
/// | accumulating | before `stop_time` | accumulating, with the pattern added |
/// | accumulating | from `stop_time` on, before `stop_time + wait_gate` | debouncing until `time + wait_gate` |
/// | accumulating | from `stop_time + wait_gate` on | accumulating until `time + prompt_window` |
/// | debouncing | before `stop_time` | debouncing until `time + wait_gate` |
/// | debouncing | from `stop_time` on | accumulating until `time + prompt_window` |
pub open spec fn mlu_next(
    state: MluState,
    prompt_window: int,
    wait_gate: int,
    time: int,
    pattern: u16,
) -> MluState {
    match state {
        MluState::Idle => mlu_rearmed(prompt_window, time, pattern),
        MluState::Accumulating { stop_time, cumulative_pattern } => {
            if time < stop_time {
                MluState::Accumulating {
                    stop_time,
                    cumulative_pattern: cumulative_pattern | pattern,
                }
            } else if time < stop_time + wait_gate {
                MluState::Debouncing { stop_time: time + wait_gate }
            } else {
                mlu_rearmed(prompt_window, time, pattern)
            }
        },
        MluState::Debouncing { stop_time } => {
            if time < stop_time {
                MluState::Debouncing { stop_time: time + wait_gate }
            } else {
                mlu_rearmed(prompt_window, time, pattern)
            }
        },
    }
}

/// The time of the candidate that a wire event at `time` brings out, if any:
/// the close of a prompt window that the event is not part of, provided that
/// the accumulated pattern is in the table.
pub open spec fn mlu_decision(state: MluState, table: Set<u16>, time: int) -> Option<int> {
    match state {
        MluState::Accumulating { stop_time, cumulative_pattern } => {
            if time >= stop_time && table.contains(cumulative_pattern) {
                Some(stop_time)
            } else {
                None
            }
        },
        _ => None,
    }
}

/// The time of a candidate, if there is one.
pub open spec fn signal_time(signal: Option<TrgSignal>) -> Option<int> {
    match signal {
        Some(s) => Some(s.time as int),
        None => None,
    }
}

#[derive(Clone, Copy, Debug)]
enum Phase {
    Idle,
    Accumulate { stop_time: i128, cumulative: WirePattern },
    Wait { stop_time: i128 },
}

/// The memory lookup unit: it accumulates the wire patterns that arrive
/// within a prompt window, decides at the close of the window whether they
/// make a trigger candidate, and then ignores wire events for a wait gate.
#[derive(Clone, Copy, Debug)]
pub struct Mlu {
    phase: Phase,
    prompt_window: Positive,
    wait_gate: Positive,
    table: LookupTable,
}

impl Mlu {
    #[verifier::type_invariant]
    spec fn deadline_in_range(self) -> bool {
        match self.phase {
            Phase::Idle => true,
            Phase::Accumulate { stop_time, .. } => i64::MIN < stop_time <= 2 * i64::MAX,
            Phase::Wait { stop_time } => i64::MIN < stop_time <= 2 * i64::MAX,
        }
    }

    /// What the unit is doing.
    pub closed spec fn state(&self) -> MluState {
        match self.phase {
            Phase::Idle => MluState::Idle,
            Phase::Accumulate { stop_time, cumulative } => MluState::Accumulating {
                stop_time: stop_time as int,
                cumulative_pattern: cumulative@,
            },
            Phase::Wait { stop_time } => MluState::Debouncing { stop_time: stop_time as int },
        }
    }

    /// The length of the prompt window.
    pub closed spec fn prompt_window(&self) -> int {
        self.prompt_window@
    }

    /// The length of the wait gate.
    pub closed spec fn wait_gate(&self) -> int {
        self.wait_gate@
    }

    /// The patterns that make a trigger candidate.
    pub closed spec fn table(&self) -> Set<u16> {
        self.table@
    }

    /// An idle unit.
    pub fn new(prompt_window: Positive, wait_gate: Positive, table: LookupTable) -> (mlu: Mlu)
        ensures
            mlu.state() == MluState::Idle,
            mlu.prompt_window() == prompt_window@,
            mlu.wait_gate() == wait_gate@,
            mlu.table() == table@,
    {
        Mlu { phase: Phase::Idle, prompt_window, wait_gate, table }
    }

    /// Takes the next wire event and returns the trigger candidate that it
    /// brings out, if any. The candidate carries the time at which its
    /// prompt window closed, not the time of the event. Wire events are
    /// meant to come in the order of time.
    pub fn process(&mut self, event: &WireEvent) -> (signal: Option<TrgSignal>)
        ensures
            final(self).state() == mlu_next(
                old(self).state(),
                old(self).prompt_window(),
                old(self).wait_gate(),
                event.time as int,
                event.wire_pattern@,
            ),
            signal_time(signal) == mlu_decision(
                old(self).state(),
                old(self).table(),
                event.time as int,
            ),
            final(self).prompt_window() == old(self).prompt_window(),
            final(self).wait_gate() == old(self).wait_gate(),
            final(self).table() == old(self).table(),
    {
        proof {
            use_type_invariant(&*self);
        }
        let time = event.time as i128;
        let prompt_window = self.prompt_window.inner() as i128;
        let wait_gate = self.wait_gate.inner() as i128;
        match self.phase {
            Phase::Accumulate { stop_time, cumulative } => {
                if time < stop_time {
                    self.phase = Phase::Accumulate {
                        stop_time,
                        cumulative: cumulative | event.wire_pattern,
                    };
                    None
                } else {
                    if time < stop_time + wait_gate {
                        self.phase = Phase::Wait { stop_time: time + wait_gate };
                    } else {
                        self.phase = Phase::Accumulate {
                            stop_time: time + prompt_window,
                            cumulative: event.wire_pattern,
                        };
                    }
                    if self.table.contains(cumulative) {
                        Some(TrgSignal { time: stop_time as i64 })
                    } else {
                        None
                    }
                }
            },
            Phase::Wait { stop_time } => {
                if time < stop_time {
                    self.phase = Phase::Wait { stop_time: time + wait_gate };
                } else {
                    self.phase = Phase::Accumulate {
                        stop_time: time + prompt_window,
                        cumulative: event.wire_pattern,
                    };
                }
                None
            },
            Phase::Idle => {
                self.phase = Phase::Accumulate {
                    stop_time: time + prompt_window,
                    cumulative: event.wire_pattern,
                };
                None
            },
        }
    }
}

} // verus!
