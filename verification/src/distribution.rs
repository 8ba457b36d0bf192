//! Occupation families: which pair-level occupation law a model uses.
//!
//! Only the integer-valued part of the taxonomy lives here: family kinds,
//! layer counts, occupation supports and capacity checks.
use vstd::prelude::*;

use crate::OccNum;

verus! {

/// Model-family kind (base measures of the occupation laws).
#[derive(Clone, Copy, Debug, PartialEq, Eq, Structural)]
pub enum ModelFamilyKind {
    /// MultiEdge: `d_ME(t) = 1/t!`.
    MultiEdge,
    /// Weighted: `d_W,M(t) = C(M+t-1, t)`.
    Weighted,
    /// BinaryLayers: `d_B,M(t) = C(M, t)` for `0 <= t <= M`.
    BinaryLayers,
}

/// Occupation-number support of a family.
#[derive(Clone, Copy, Debug, PartialEq, Eq, Structural)]
pub enum OccupationSupport {
    /// `t in [0, oo)` (ME and W).
    Unbounded,
    /// `t in [0, M]` (B with M layers).
    Bounded(u32),
}

/// Occupation distribution family for the null models.
#[derive(Clone, Copy, Debug, PartialEq, Eq, Structural)]
pub enum OccupationFamily {
    /// Poisson(lambda) occupations (ME).
    Poisson,
    /// Geometric occupations (W with one layer).
    Geometric,
    /// Binomial(M, .) occupations (B with M layers).
    Binomial(u32),
    /// Negative binomial(M, .) occupations (W with M layers).
    NegativeBinomial(u32),
}

impl OccupationFamily {
    /// Family kind (base-measure ontology).
    pub fn model_family(self) -> (k: ModelFamilyKind)
        ensures
            k == (match self {
                OccupationFamily::Poisson => ModelFamilyKind::MultiEdge,
                OccupationFamily::Geometric => ModelFamilyKind::Weighted,
                OccupationFamily::NegativeBinomial(_) => ModelFamilyKind::Weighted,
                OccupationFamily::Binomial(_) => ModelFamilyKind::BinaryLayers,
            }),
    {
        match self {
            OccupationFamily::Poisson => ModelFamilyKind::MultiEdge,
            OccupationFamily::Geometric | OccupationFamily::NegativeBinomial(_) => {
                ModelFamilyKind::Weighted
            },
            OccupationFamily::Binomial(_) => ModelFamilyKind::BinaryLayers,
        }
    }

    /// Layer count `M` for B/W; `None` for ME and the one-layer geometric W.
    pub fn layers(self) -> (m: Option<u32>)
        ensures
            m == (match self {
                OccupationFamily::Poisson => None,
                OccupationFamily::Geometric => None,
                OccupationFamily::Binomial(m) => Some(m),
                OccupationFamily::NegativeBinomial(m) => Some(m),
            }),
    {
        match self {
            OccupationFamily::Poisson | OccupationFamily::Geometric => None,
            OccupationFamily::Binomial(m) | OccupationFamily::NegativeBinomial(m) => Some(m),
        }
    }

    /// Occupation-number support of the family.
    pub fn occupation_support(self) -> (s: OccupationSupport)
        ensures
            s == (match self {
                OccupationFamily::Binomial(m) => OccupationSupport::Bounded(m),
                _ => OccupationSupport::Unbounded,
            }),
    {
        match self {
            OccupationFamily::Poisson | OccupationFamily::Geometric
            | OccupationFamily::NegativeBinomial(_) => OccupationSupport::Unbounded,
            OccupationFamily::Binomial(m) => OccupationSupport::Bounded(m),
        }
    }

    /// Largest occupation a single pair may carry, if the family bounds it.
    pub open spec fn spec_max_occupation(self) -> Option<OccNum> {
        match self {
            OccupationFamily::Binomial(m) => Some(m as OccNum),
            _ => None,
        }
    }

    /// Whether `occ_num` is a valid occupation number for this family.
    ///
    /// B rejects occupation numbers above its layer capacity `M`.
    pub fn validate_occnum(self, occ_num: OccNum) -> (ok: bool)
        ensures
            ok == (match self {
                OccupationFamily::Binomial(m) => occ_num <= m,
                _ => true,
            }),
    {
        match self {
            OccupationFamily::Binomial(m) => occ_num <= m as u64,
            _ => true,
        }
    }

    /// Largest occupation a single pair may carry (`Some(M)` for B).
    pub fn max_occupation(self) -> (m: Option<OccNum>)
        ensures
            m == self.spec_max_occupation(),
    {
        match self {
            OccupationFamily::Binomial(m) => Some(m as u64),
            _ => None,
        }
    }
}

} // verus!
