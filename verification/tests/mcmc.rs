use menobis_core::mcmc::{McmcConfig, McmcCounters, McmcOutcome};
use menobis_core::output::{assemble_network, SampledNetwork};

#[test]
fn config_and_counter_construction() {
    let c = McmcConfig::new(3, 4, 5);
    assert_eq!((c.burn_in_sweeps, c.sweeps_per_sample, c.seed), (3, 4, 5));
    assert!(c.proposals_per_sweep.is_none());
    let d = McmcConfig::default();
    assert_eq!((d.burn_in_sweeps, d.sweeps_per_sample, d.seed), (50, 10, 0));
    let mut k = McmcCounters::new();
    k.proposals = 7;
    k.accepted = 3;
    k.held = 2;
    k.metropolis_rejected = 2;
    k.reset();
    assert_eq!((k.proposals, k.accepted, k.held, k.metropolis_rejected), (0, 0, 0, 0));
    assert_eq!(McmcCounters::default().proposals, 0);
    assert_ne!(McmcOutcome::Accepted, McmcOutcome::Held);
}

#[test]
fn assemble_pairs_up_to_shorter_input() {
    let net = assemble_network(&[(0, 1), (2, 3), (4, 5)], &[7, 8]);
    assert_eq!(net.sources, vec![0, 2]);
    assert_eq!(net.targets, vec![1, 3]);
    assert_eq!(net.occ_nums, vec![7, 8]);
    let empty = SampledNetwork::default();
    assert!(empty.sources.is_empty() && empty.targets.is_empty() && empty.occ_nums.is_empty());
}
