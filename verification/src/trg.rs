//! The admission cascade behind the memory lookup unit: drift veto,
//! scaledown and dead time.

use crate::gen::Positive;
use crate::mlu::TrgSignal;
use vstd::prelude::*;

verus! {

/// What the admission cascade decides about a trigger candidate.
#[derive(Clone, Copy, Debug, PartialEq, Eq, Structural)]
pub enum Verdict {
    /// Suppressed by the drift veto.
    DriftVeto,
    /// Cleared the drift veto, suppressed by the scaledown.
    Scaledown,
    /// Cleared the drift veto and the scaledown, suppressed by the dead time.
    DeadTime,
    /// Sent out as a trigger.
    Accepted,
}

/// The settings of the admission cascade.
pub struct TrgConfig {
    /// How long after a candidate that cleared the drift veto further
    /// candidates are vetoed.
    pub drift_veto: int,
    /// How many candidates are suppressed for each one that passes the
    /// scaledown.
    pub scaledown: nat,
    /// How long after a trigger output further candidates are suppressed.
    pub dead_time: int,
}

/// What the admission cascade remembers between two candidates.
pub struct TrgState {
    /// Candidates up to this time are vetoed.
    pub veto_until: Option<int>,
    /// Candidates up to this time find the detector busy.
    pub busy_until: Option<int>,
    /// Candidates suppressed by the scaledown since the last one that passed.
    pub counter: nat,
}

/// The state of a cascade that has not seen any candidate.
pub open spec fn trg_fresh() -> TrgState {
    TrgState { veto_until: None, busy_until: None, counter: 0 }
}

/// Whether a candidate at `time` is no later than the watermark.
pub open spec fn held_back(watermark: Option<int>, time: int) -> bool {
    watermark matches Some(until) && time <= until
}

/// The verdict on a candidate at `time`. The stages are tried in order and
/// the first one that suppresses the candidate decides.
pub open spec fn trg_verdict(config: TrgConfig, state: TrgState, time: int) -> Verdict {
    if held_back(state.veto_until, time) {
        Verdict::DriftVeto
    } else if state.counter != config.scaledown {
        Verdict::Scaledown
    } else if held_back(state.busy_until, time) {
        Verdict::DeadTime
    } else {
        Verdict::Accepted
    }
}

/// The state of the cascade after a candidate at `time`. Every candidate
/// that clears the drift veto moves the veto watermark, whatever becomes of
/// it afterwards; only a trigger output moves the dead-time watermark.
pub open spec fn trg_next(config: TrgConfig, state: TrgState, time: int) -> TrgState {
    match trg_verdict(config, state, time) {
        Verdict::DriftVeto => state,
        Verdict::Scaledown => TrgState {
            veto_until: Some(time + config.drift_veto),
            busy_until: state.busy_until,
            counter: state.counter + 1,
        },
        Verdict::DeadTime => TrgState {
            veto_until: Some(time + config.drift_veto),
            busy_until: state.busy_until,
            counter: 0,
        },
        Verdict::Accepted => TrgState {
            veto_until: Some(time + config.drift_veto),
            busy_until: Some(time + config.dead_time),
            counter: 0,
        },
    }
}

/// The state of the cascade after the candidates at `times`, in this order.
pub open spec fn trg_after(config: TrgConfig, state: TrgState, times: Seq<int>) -> TrgState
    decreases times.len(),
{
    if times.len() == 0 {
        state
    } else {
        trg_next(config, trg_after(config, state, times.drop_last()), times.last())
    }
}

/// The verdict on candidate `k` of `times`.
pub open spec fn trg_verdict_at(config: TrgConfig, state: TrgState, times: Seq<int>, k: int) -> Verdict {
    trg_verdict(config, trg_after(config, state, times.take(k)), times[k])
}

/// How many of the first `k` candidates of `times` cleared the drift veto.
pub open spec fn trg_cleared(config: TrgConfig, state: TrgState, times: Seq<int>, k: int) -> nat
    decreases k,
{
    if k <= 0 {
        0
    } else if trg_verdict_at(config, state, times, k - 1) == Verdict::DriftVeto {
        trg_cleared(config, state, times, k - 1)
    } else {
        trg_cleared(config, state, times, k - 1) + 1
    }
}

impl TrgConfig {
    /// The two windows are positive durations.
    pub open spec fn wf(self) -> bool {
        self.drift_veto > 0 && self.dead_time > 0
    }
}

impl TrgState {
    /// The scaledown counter never passes the scaledown factor.
    pub open spec fn wf(self, config: TrgConfig) -> bool {
        self.counter <= config.scaledown
    }
}

/// Whether `later` holds back every candidate that `earlier` holds back.
pub open spec fn no_earlier(earlier: Option<int>, later: Option<int>) -> bool {
    earlier matches Some(e) ==> later matches Some(l) && e <= l
}

proof fn lemma_take_step(times: Seq<int>, k: int)
    requires
        0 <= k < times.len(),
    ensures
        times.take(k + 1).drop_last() == times.take(k),
        times.take(k + 1).last() == times[k],
{
    assert(times.take(k + 1).drop_last() =~= times.take(k));
}

/// The residue of `n + 1` from that of `n`.
proof fn lemma_mod_succ(n: int, m: int)
    requires
        n >= 0,
        m > 0,
    ensures
        (n + 1) % m == if n % m + 1 == m {
            0
        } else {
            n % m + 1
        },
        0 <= n % m < m,
{
    assert((n + 1) % m == if n % m + 1 == m {
        0
    } else {
        n % m + 1
    } && 0 <= n % m < m) by (nonlinear_arith)
        requires
            n >= 0,
            m > 0,
    ;
}

proof fn lemma_counter_is_residue(config: TrgConfig, state: TrgState, times: Seq<int>, k: int)
    requires
        state.wf(config),
        0 <= k <= times.len(),
    ensures
        trg_after(config, state, times.take(k)).counter == (state.counter + trg_cleared(
            config,
            state,
            times,
            k,
        )) % (config.scaledown + 1),
    decreases k,
{
    let m = config.scaledown + 1;
    if k == 0 {
        assert(times.take(0) =~= Seq::<int>::empty());
        assert(state.counter % m == state.counter) by (nonlinear_arith)
            requires
                0 <= state.counter < m,
        ;
    } else {
        lemma_counter_is_residue(config, state, times, k - 1);
        lemma_take_step(times, k - 1);
        let n = state.counter + trg_cleared(config, state, times, k - 1);
        lemma_mod_succ(n as int, m as int);
    }
}

/// Scaledown cadence: of the candidates that clear the drift veto, one in
/// every `scaledown + 1` passes the scaledown, and it is the last of its
/// group. Candidate `k` is suppressed exactly when the number of candidates
/// that cleared the veto before it, counted from the state of the counter at
/// the start, is not `scaledown` modulo `scaledown + 1`.
pub proof fn lemma_scaledown_cadence(config: TrgConfig, state: TrgState, times: Seq<int>, k: int)
    requires
        state.wf(config),
        0 <= k < times.len(),
        trg_verdict_at(config, state, times, k) != Verdict::DriftVeto,
    ensures
        trg_verdict_at(config, state, times, k) == Verdict::Scaledown <==> (state.counter
            + trg_cleared(config, state, times, k)) % (config.scaledown + 1) != config.scaledown,
{
    lemma_counter_is_residue(config, state, times, k);
}

proof fn lemma_watermarks_rise(config: TrgConfig, state: TrgState, times: Seq<int>, a: int, b: int)
    requires
        config.wf(),
        0 <= a <= b <= times.len(),
    ensures
        no_earlier(
            trg_after(config, state, times.take(a)).veto_until,
            trg_after(config, state, times.take(b)).veto_until,
        ),
        no_earlier(
            trg_after(config, state, times.take(a)).busy_until,
            trg_after(config, state, times.take(b)).busy_until,
        ),
    decreases b - a,
{
    if a < b {
        lemma_watermarks_rise(config, state, times, a, b - 1);
        lemma_take_step(times, b - 1);
    }
}

/// Dead-time gating: once a candidate has gone out as a trigger, no later
/// candidate within `dead_time` of it goes out.
pub proof fn lemma_dead_time_gating(
    config: TrgConfig,
    state: TrgState,
    times: Seq<int>,
    i: int,
    j: int,
)
    requires
        config.wf(),
        0 <= i < j < times.len(),
        trg_verdict_at(config, state, times, i) == Verdict::Accepted,
        times[j] <= times[i] + config.dead_time,
    ensures
        trg_verdict_at(config, state, times, j) != Verdict::Accepted,
        trg_verdict_at(config, state, times, j) != Verdict::DriftVeto && trg_verdict_at(
            config,
            state,
            times,
            j,
        ) != Verdict::Scaledown ==> trg_verdict_at(config, state, times, j) == Verdict::DeadTime,
{
    lemma_take_step(times, i);
    lemma_watermarks_rise(config, state, times, i + 1, j);
}

/// Drift veto: a candidate within `drift_veto` of an earlier candidate that
/// cleared the veto is vetoed, whether or not the earlier one went out.
pub proof fn lemma_drift_veto_gating(
    config: TrgConfig,
    state: TrgState,
    times: Seq<int>,
    i: int,
    j: int,
)
    requires
        config.wf(),
        0 <= i < j < times.len(),
        trg_verdict_at(config, state, times, i) != Verdict::DriftVeto,
        times[j] <= times[i] + config.drift_veto,
    ensures
        trg_verdict_at(config, state, times, j) == Verdict::DriftVeto,
{
    lemma_take_step(times, i);
    lemma_watermarks_rise(config, state, times, i + 1, j);
}

/// The admission cascade.
#[derive(Clone, Copy, Debug)]
pub struct TrgBox {
    drift_veto: Positive,
    scaledown: u32,
    dead_time: Positive,
    veto_until: Option<i128>,
    busy_until: Option<i128>,
    counter: u32,
}

impl TrgBox {
    #[verifier::type_invariant]
    spec fn counter_in_range(self) -> bool {
        self.counter <= self.scaledown
    }

    /// The settings of the cascade.
    pub closed spec fn config(&self) -> TrgConfig {
        TrgConfig {
            drift_veto: self.drift_veto@,
            scaledown: self.scaledown as nat,
            dead_time: self.dead_time@,
        }
    }

    /// What the cascade remembers.
    pub closed spec fn state(&self) -> TrgState {
        TrgState {
            veto_until: match self.veto_until {
                Some(t) => Some(t as int),
                None => None,
            },
            busy_until: match self.busy_until {
                Some(t) => Some(t as int),
                None => None,
            },
            counter: self.counter as nat,
        }
    }

    /// A cascade that has not seen any candidate.
    pub fn new(drift_veto: Positive, scaledown: u32, dead_time: Positive) -> (trg: TrgBox)
        ensures
            trg.config() == (TrgConfig {
                drift_veto: drift_veto@,
                scaledown: scaledown as nat,
                dead_time: dead_time@,
            }),
            trg.state() == trg_fresh(),
    {
        TrgBox { drift_veto, scaledown, dead_time, veto_until: None, busy_until: None, counter: 0 }
    }

    /// Runs a candidate through drift veto, scaledown and dead time.
    pub fn process(&mut self, signal: &TrgSignal) -> (verdict: Verdict)
        ensures
            verdict == trg_verdict(old(self).config(), old(self).state(), signal.time as int),
            final(self).state() == trg_next(old(self).config(), old(self).state(), signal.time as int),
            final(self).config() == old(self).config(),
    {
        proof {
            use_type_invariant(&*self);
        }
        let time = signal.time as i128;
        if let Some(veto_until) = self.veto_until {
            if time <= veto_until {
                return Verdict::DriftVeto;
            }
        }
        self.veto_until = Some(time + self.drift_veto.inner() as i128);

        if self.counter != self.scaledown {
            self.counter += 1;
            return Verdict::Scaledown;
        }
        self.counter = 0;

        if let Some(busy_until) = self.busy_until {
            if time <= busy_until {
                return Verdict::DeadTime;
            }
        }
        self.busy_until = Some(time + self.dead_time.inner() as i128);
        Verdict::Accepted
    }
}

} // verus!
