//! Input data of the trigger system: wire patterns, durations and wire events.

pub use crate::merge::Generator;
use vstd::prelude::*;
use vstd::std_specs::ops::BitOrSpecImpl;

verus! {

/// Which of the 16 anode wires fired: bit `i` stands for wire `i`.
#[derive(Clone, Copy, Debug, PartialEq, Eq, Structural, Hash)]
pub struct WirePattern(pub u16);

impl View for WirePattern {
    type V = u16;

    open spec fn view(&self) -> u16 {
        self.0
    }
}

impl WirePattern {
    /// The pattern in which wire `i` fired exactly when bit `i` of `bits` is set.
    pub fn from_bits(bits: u16) -> (pattern: WirePattern)
        ensures
            pattern@ == bits,
    {
        WirePattern(bits)
    }

    /// The wires of the pattern as a bit mask.
    pub fn bits(&self) -> (bits: u16)
        ensures
            bits == self@,
    {
        self.0
    }
}

impl core::ops::BitOr for WirePattern {
    type Output = WirePattern;

    /// The wires that fired in either pattern.
    fn bitor(self, rhs: WirePattern) -> (union: WirePattern) {
        WirePattern(self.0 | rhs.0)
    }
}

impl BitOrSpecImpl for WirePattern {
    open spec fn obeys_bitor_spec() -> bool {
        true
    }

    open spec fn bitor_req(self, rhs: WirePattern) -> bool {
        true
    }

    open spec fn bitor_spec(self, rhs: WirePattern) -> WirePattern {
        WirePattern(self.0 | rhs.0)
    }
}

/// The error returned when a duration that is not positive is offered as a
/// timing window.
#[derive(Clone, Copy, Debug, PartialEq, Eq, Structural)]
pub struct InvalidDuration {
    /// The rejected value.
    pub value: i64,
}

/// A duration that is strictly greater than zero.
#[derive(Clone, Copy, Debug, PartialEq, Eq)]
pub struct Positive {
    value: i64,
}

impl View for Positive {
    type V = int;

    closed spec fn view(&self) -> int {
        self.value as int
    }
}

impl Positive {
    /// The wrapped duration is greater than zero.
    #[verifier::type_invariant]
    pub open spec fn is_positive(self) -> bool {
        self@ > 0
    }

    /// Accepts `value` exactly when it is greater than zero.
    pub fn new(value: i64) -> (duration: Result<Positive, InvalidDuration>)
        ensures
            value > 0 ==> duration is Ok && duration->Ok_0@ == value,
            value <= 0 ==> duration == Err::<Positive, InvalidDuration>(InvalidDuration { value }),
    {
        if value > 0 {
            Ok(Positive { value })
        } else {
            Err(InvalidDuration { value })
        }
    }

    /// The wrapped duration.
    pub fn inner(&self) -> (value: i64)
        ensures
            value == self@,
            value > 0,
    {
        proof {
            use_type_invariant(self);
        }
        self.value
    }
}

/// Where a [`WireEvent`] comes from. The trigger logic does not look at it.
#[derive(Clone, Copy, Debug, PartialEq, Eq, Structural, Hash)]
pub enum Source {
    /// First avalanche of a cosmic event.
    PrimaryCosmic,
    /// First avalanche of an antiproton annihilation.
    PrimaryPbar,
    /// Afterpulse that follows a cosmic event.
    SecondaryCosmic,
    /// Afterpulse that follows an antiproton annihilation.
    SecondaryPbar,
    /// Uncorrelated noise.
    Noise,
}

/// One discriminator hit: an input signal to the trigger system.
#[derive(Clone, Copy, Debug, PartialEq, Eq, Structural)]
pub struct WireEvent {
    pub source: Source,
    /// Time of arrival, in ticks of the simulation clock.
    pub time: i64,
    pub wire_pattern: WirePattern,
}

} // verus!
