//! Discriminator signals by their origin.

use vstd::prelude::*;

verus! {

/// A [`Signal`] represents the possible signals that go into the MLU. These are
/// the output of passing digitized anode wire waveforms through a
/// discriminator.
///
/// The inner value is the time of arrival of the signal, in ticks of the
/// simulation clock.
#[derive(Clone, Copy, Debug, PartialEq, Eq, Structural)]
pub enum Signal {
    /// The first/actual signal from a cosmic event.
    Cosmic(i64),
    /// The first/actual from a pbar annihilation event.
    Pbar(i64),
    /// Secondary afterpulse after an event caused by ionization electrons
    /// originating from the drift region of the rTPC.
    Afterpulse(i64),
}

impl Signal {
    /// Returns the time of arrival of the signal.
    pub fn time(&self) -> (time: i64)
        ensures
            time == match *self {
                Signal::Cosmic(t) => t,
                Signal::Pbar(t) => t,
                Signal::Afterpulse(t) => t,
            },
    {
        match self {
            Signal::Cosmic(t) => *t,
            Signal::Pbar(t) => *t,
            Signal::Afterpulse(t) => *t,
        }
    }
}

} // verus!
