//! Sampled networks: parallel arrays of occupied pairs and occupations.
use vstd::prelude::*;

use crate::OccNum;

verus! {

/// A sampled network: occupied ordered pairs with their occupation numbers.
#[derive(Clone, Debug)]
pub struct SampledNetwork {
    pub sources: Vec<u64>,
    pub targets: Vec<u64>,
    pub occ_nums: Vec<OccNum>,
}

impl Default for SampledNetwork {
    /// The empty network.
    fn default() -> (net: Self)
        ensures
            net.sources@.len() == 0,
            net.targets@.len() == 0,
            net.occ_nums@.len() == 0,
    {
        SampledNetwork { sources: Vec::new(), targets: Vec::new(), occ_nums: Vec::new() }
    }
}

/// The ordered pairs of a network, position by position.
pub open spec fn support_of(net: SampledNetwork) -> Seq<(u64, u64)> {
    Seq::new(net.sources@.len(), |k: int| (net.sources@[k], net.targets@[k]))
}

/// Pair a support with occupations, position by position, up to the
/// shorter of the two.
pub fn assemble_network(edges: &[(u64, u64)], occupations: &[OccNum]) -> (net: SampledNetwork)
    ensures
        net.sources@.len() == if edges@.len() <= occupations@.len() {
            edges@.len()
        } else {
            occupations@.len()
        },
        net.targets@.len() == net.sources@.len(),
        net.occ_nums@.len() == net.sources@.len(),
        forall|k: int| 0 <= k < net.sources@.len() ==> #[trigger] net.sources@[k] == edges@[k].0,
        forall|k: int| 0 <= k < net.targets@.len() ==> #[trigger] net.targets@[k] == edges@[k].1,
        forall|k: int| 0 <= k < net.occ_nums@.len() ==> #[trigger] net.occ_nums@[k] == occupations@[k],
        edges@.len() == occupations@.len() ==> support_of(net) == edges@ && net.occ_nums@
            == occupations@,
{
    let len = if edges.len() <= occupations.len() {
        edges.len()
    } else {
        occupations.len()
    };
    let mut sources: Vec<u64> = Vec::new();
    let mut targets: Vec<u64> = Vec::new();
    let mut occ_nums: Vec<OccNum> = Vec::new();
    let mut k: usize = 0;
    while k < len
        invariant
            k <= len,
            len <= edges@.len(),
            len <= occupations@.len(),
            sources@.len() == k,
            targets@.len() == k,
            occ_nums@.len() == k,
            forall|q: int| 0 <= q < k ==> #[trigger] sources@[q] == edges@[q].0,
            forall|q: int| 0 <= q < k ==> #[trigger] targets@[q] == edges@[q].1,
            forall|q: int| 0 <= q < k ==> #[trigger] occ_nums@[q] == occupations@[q],
        decreases len - k,
    {
        sources.push(edges[k].0);
        targets.push(edges[k].1);
        occ_nums.push(occupations[k]);
        k = k + 1;
    }
    let net = SampledNetwork { sources, targets, occ_nums };
    proof {
        if edges@.len() == occupations@.len() {
            assert(support_of(net) =~= edges@);
            assert(net.occ_nums@ =~= occupations@);
        }
    }
    net
}

} // verus!
