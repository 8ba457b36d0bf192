//! Microcanonical and constraint machinery for maximum-entropy network
//! null models: pair masks, fixed-pair residualization, validation,
//! directed fixed-degree support sampling, fixed-total occupation chains
//! and fixed-(E,T) pair indexing.
use vstd::prelude::*;

pub mod degree_state;
pub mod distribution;
pub mod fixed_et;
pub mod fixed_et_rejection;
pub mod fixed_kt;
pub mod fixed_kt_core;
pub mod fixed_pairs;
pub mod fixed_strength;
pub mod fitting;
pub mod fixed_total;
pub mod mask;
pub mod me_direct;
pub mod mcmc;
pub mod model;
pub mod output;
pub mod rng;
pub mod seqs;
pub mod support;
pub mod text;
pub mod uniform_edges;
pub mod validation;

verus! {

/// Occupation number of an ordered node pair (number of events on it).
pub type OccNum = u64;

} // verus!
