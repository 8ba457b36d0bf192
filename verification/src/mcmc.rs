//! Shared MCMC configuration, counters and step outcomes.
use vstd::prelude::*;

verus! {

/// Shared MCMC configuration for microcanonical chains.
///
/// Controls burn-in length, thinning interval, proposals per sweep, and RNG
/// seeding. `proposals_per_sweep == None` means the chain picks its own
/// sweep length.
#[derive(Clone, Debug)]
pub struct McmcConfig {
    /// Number of sweeps during burn-in.
    pub burn_in_sweeps: usize,
    /// Number of sweeps between successive samples (thinning).
    pub sweeps_per_sample: usize,
    /// Optional override for proposals per sweep.  `None` means auto.
    pub proposals_per_sweep: Option<usize>,
    /// Seed for deterministic RNG initialization.
    pub seed: u64,
}

impl McmcConfig {
    /// Configuration with the given burn-in, thinning and seed, and automatic
    /// sweep length.
    pub fn new(burn_in_sweeps: usize, sweeps_per_sample: usize, seed: u64) -> (c: Self)
        ensures
            c.burn_in_sweeps == burn_in_sweeps,
            c.sweeps_per_sample == sweeps_per_sample,
            c.proposals_per_sweep.is_none(),
            c.seed == seed,
    {
        McmcConfig { burn_in_sweeps, sweeps_per_sample, proposals_per_sweep: None, seed }
    }
}

impl Default for McmcConfig {
    /// 50 burn-in sweeps, 10 thinning sweeps, automatic sweep length, seed 0.
    fn default() -> (c: Self)
        ensures
            c.burn_in_sweeps == 50,
            c.sweeps_per_sample == 10,
            c.proposals_per_sweep.is_none(),
            c.seed == 0,
    {
        McmcConfig { burn_in_sweeps: 50, sweeps_per_sample: 10, proposals_per_sweep: None, seed: 0 }
    }
}

/// Counters collected during MCMC execution.
#[derive(Clone, Debug)]
pub struct McmcCounters {
    /// Total number of proposal attempts.
    pub proposals: u64,
    /// Number of accepted proposals.
    pub accepted: u64,
    /// Number of held proposals (invalid moves that preserve the state).
    pub held: u64,
    /// Number of Metropolis-rejected proposals.
    pub metropolis_rejected: u64,
}

impl McmcCounters {
    /// All four counters are zero.
    pub open spec fn is_zero(self) -> bool {
        &&& self.proposals == 0
        &&& self.accepted == 0
        &&& self.held == 0
        &&& self.metropolis_rejected == 0
    }

    /// Create a new zeroed counter set.
    pub fn new() -> (c: Self)
        ensures
            c.is_zero(),
    {
        McmcCounters { proposals: 0, accepted: 0, held: 0, metropolis_rejected: 0 }
    }

    /// Reset all counters to zero.
    pub fn reset(&mut self)
        ensures
            final(self).is_zero(),
    {
        self.proposals = 0;
        self.accepted = 0;
        self.held = 0;
        self.metropolis_rejected = 0;
    }
}

impl Default for McmcCounters {
    /// Zeroed counters.
    fn default() -> (c: Self)
        ensures
            c.is_zero(),
    {
        McmcCounters::new()
    }
}

/// The outcome of a single MCMC proposal step.
#[derive(Clone, Copy, Debug, PartialEq, Eq, Structural)]
pub enum McmcOutcome {
    /// The proposal was accepted and the state was updated.
    Accepted,
    /// The proposal was invalid; the state is retained (switch-and-hold).
    Held,
    /// The proposal was valid but rejected by the Metropolis criterion.
    Rejected,
}

} // verus!
