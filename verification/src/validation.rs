//! Common validation shared by every ensemble backend.
//!
//! These checks run once before dispatch. Backends keep only
//! algorithm-specific checks (graphical realization, occupation capacity).
use vstd::prelude::*;

use crate::seqs::{seq_sum, sum_u64};
use crate::text::decimal;
use crate::OccNum;
use vstd::string::StringExecFns;

verus! {

/// Balanced-strength feasibility: total out must equal total in.
///
/// Fails exactly when the two sequences differ in length or in total.
pub fn validate_balanced_strengths(strength_out: &[u64], strength_in: &[u64]) -> (r: Result<
    (),
    String,
>)
    requires
        strength_out@.len() == strength_in@.len() ==> seq_sum(strength_out@) <= u64::MAX,
        strength_out@.len() == strength_in@.len() ==> seq_sum(strength_in@) <= u64::MAX,
    ensures
        r.is_ok() <==> (strength_out@.len() == strength_in@.len() && seq_sum(strength_out@)
            == seq_sum(strength_in@)),
{
    if strength_out.len() != strength_in.len() {
        return Err("strength_out and strength_in must have the same length".to_owned());
    }
    let out = sum_u64(strength_out);
    let in_sum = sum_u64(strength_in);
    if out != in_sum {
        let mut m = String::from_str("unbalanced strengths: total out ");
        m.append(decimal(out).as_str());
        m.append(" != total in ");
        m.append(decimal(in_sum).as_str());
        return Err(m);
    }
    Ok(())
}

/// Balanced-degree feasibility: total out-degree must equal total in-degree.
///
/// Fails exactly when the two sequences differ in length or in total.
pub fn validate_balanced_degrees(degree_out: &[u64], degree_in: &[u64]) -> (r: Result<(), String>)
    requires
        degree_out@.len() == degree_in@.len() ==> seq_sum(degree_out@) <= u64::MAX,
        degree_out@.len() == degree_in@.len() ==> seq_sum(degree_in@) <= u64::MAX,
    ensures
        r.is_ok() <==> (degree_out@.len() == degree_in@.len() && seq_sum(degree_out@) == seq_sum(
            degree_in@,
        )),
{
    if degree_out.len() != degree_in.len() {
        return Err("degree_out and degree_in must have the same length".to_owned());
    }
    let out = sum_u64(degree_out);
    let in_sum = sum_u64(degree_in);
    if out != in_sum {
        let mut m = String::from_str("unbalanced degrees: total out ");
        m.append(decimal(out).as_str());
        m.append(" != total in ");
        m.append(decimal(in_sum).as_str());
        return Err(m);
    }
    Ok(())
}

/// Every node whose strength and degree are both given has strength >= degree.
///
/// Nodes are compared position by position over the common prefix of each
/// strength/degree pair of sequences.
pub open spec fn strength_covers_degree(strength: Seq<u64>, degree: Seq<u64>) -> bool {
    forall|i: int| 0 <= i < strength.len() && i < degree.len() ==> strength[i] >= degree[i]
}

/// Elementary strength-degree feasibility: every node strength >= degree.
pub fn validate_strength_degree_bounds(
    strength_out: &[u64],
    strength_in: &[u64],
    degree_out: &[u64],
    degree_in: &[u64],
) -> (r: Result<(), String>)
    ensures
        r.is_ok() <==> (strength_covers_degree(strength_out@, degree_out@)
            && strength_covers_degree(strength_in@, degree_in@)),
{
    let mut i: usize = 0;
    while i < strength_out.len() && i < degree_out.len()
        invariant
            forall|k: int| 0 <= k < i ==> strength_out@[k] >= degree_out@[k],
            i <= strength_out.len(),
            i <= degree_out.len(),
        decreases strength_out.len() - i,
    {
        if strength_out[i] < degree_out[i] {
            let mut m = String::from_str("out strength ");
            m.append(decimal(strength_out[i]).as_str());
            m.append(" < out degree ");
            m.append(decimal(degree_out[i]).as_str());
            m.append(" at node ");
            m.append(decimal(i as u64).as_str());
            return Err(m);
        }
        i = i + 1;
    }
    let mut j: usize = 0;
    while j < strength_in.len() && j < degree_in.len()
        invariant
            forall|k: int| 0 <= k < j ==> strength_in@[k] >= degree_in@[k],
            j <= strength_in.len(),
            j <= degree_in.len(),
            strength_covers_degree(strength_out@, degree_out@),
        decreases strength_in.len() - j,
    {
        if strength_in[j] < degree_in[j] {
            let mut m = String::from_str("in strength ");
            m.append(decimal(strength_in[j]).as_str());
            m.append(" < in degree ");
            m.append(decimal(degree_in[j]).as_str());
            m.append(" at node ");
            m.append(decimal(j as u64).as_str());
            return Err(m);
        }
        j = j + 1;
    }
    Ok(())
}

/// Event/edge consistency: total events >= total edges.
pub fn validate_events_at_least_edges(total_events: u64, total_edges: u64) -> (r: Result<
    (),
    String,
>)
    ensures
        r.is_ok() <==> total_events >= total_edges,
{
    if total_events < total_edges {
        let mut m = String::from_str("total events ");
        m.append(decimal(total_events).as_str());
        m.append(" < total edges ");
        m.append(decimal(total_edges).as_str());
        return Err(m);
    }
    Ok(())
}

/// B family capacity: fixed occupation numbers must not exceed layer count M.
pub fn validate_b_occupation_capacity(layers: u32, occ_nums: &[OccNum]) -> (r: Result<(), String>)
    ensures
        r.is_ok() <==> forall|i: int| 0 <= i < occ_nums@.len() ==> occ_nums@[i] <= layers,
{
    let mut i: usize = 0;
    while i < occ_nums.len()
        invariant
            i <= occ_nums.len(),
            forall|k: int| 0 <= k < i ==> occ_nums@[k] <= layers,
        decreases occ_nums.len() - i,
    {
        if occ_nums[i] > layers as u64 {
            let mut m = String::from_str("fixed occupation ");
            m.append(decimal(occ_nums[i]).as_str());
            m.append(" exceeds binomial layer capacity ");
            m.append(decimal(layers as u64).as_str());
            return Err(m);
        }
        i = i + 1;
    }
    Ok(())
}

/// Layer count sanity: M >= 1.
pub fn validate_layers(layers: u32) -> (r: Result<(), String>)
    ensures
        r.is_ok() <==> layers >= 1,
{
    if layers < 1 {
        return Err("layers must be at least 1".to_owned());
    }
    Ok(())
}

} // verus!
