//! The three occupation families of the microcanonical samplers.
//!
//! ME (multi-edge) and W (weighted, `M` layers) carry unbounded occupation
//! numbers; B (binary layers) caps each pair at its `M` layers.
use vstd::prelude::*;

use crate::OccNum;

verus! {

/// Occupation family: ME, B with `layers` binary layers, or W with `layers`
/// weighted layers.
#[derive(Clone, Copy, Debug, PartialEq, Eq, Structural)]
pub enum OccupationFamily {
    /// Multi-edge: `d(t) = 1/t!`.
    ME,
    /// Binary layers: `d(t) = C(M, t)` for `0 <= t <= M`.
    B { layers: u32 },
    /// Weighted layers: `d(t) = C(M + t - 1, t)`.
    W { layers: u32 },
}

impl OccupationFamily {
    /// Largest occupation a single pair may carry (`M` for B, none otherwise).
    pub open spec fn spec_max_occupation(self) -> Option<OccNum> {
        match self {
            OccupationFamily::B { layers } => Some(layers as OccNum),
            _ => None,
        }
    }

    /// Largest occupation a single pair may carry: `Some(M)` for B.
    pub fn max_occupation(self) -> (m: Option<OccNum>)
        ensures
            m == self.spec_max_occupation(),
    {
        match self {
            OccupationFamily::B { layers } => Some(layers as OccNum),
            _ => None,
        }
    }

    /// Whether `occ_num` is an admissible occupation for this family: B
    /// rejects occupations above its layer count.
    pub fn validate_occnum(self, occ_num: OccNum) -> (ok: bool)
        ensures
            ok == (match self.spec_max_occupation() {
                Some(m) => occ_num <= m,
                None => true,
            }),
    {
        match self {
            OccupationFamily::B { layers } => occ_num <= layers as OccNum,
            _ => true,
        }
    }
}

} // verus!
