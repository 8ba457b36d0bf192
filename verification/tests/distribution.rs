use menobis_core::distribution::{ModelFamilyKind, OccupationFamily, OccupationSupport};
use menobis_core::model::family::OccupationFamily as Family;

#[test]
fn family_kind_mapping() {
    assert_eq!(OccupationFamily::Poisson.model_family(), ModelFamilyKind::MultiEdge);
    assert_eq!(OccupationFamily::Geometric.model_family(), ModelFamilyKind::Weighted);
    assert_eq!(OccupationFamily::NegativeBinomial(3).model_family(), ModelFamilyKind::Weighted);
    assert_eq!(OccupationFamily::Binomial(5).model_family(), ModelFamilyKind::BinaryLayers);
}

#[test]
fn layer_extraction() {
    assert_eq!(OccupationFamily::Poisson.layers(), None);
    assert_eq!(OccupationFamily::Geometric.layers(), None);
    assert_eq!(OccupationFamily::Binomial(7).layers(), Some(7));
    assert_eq!(OccupationFamily::NegativeBinomial(4).layers(), Some(4));
}

#[test]
fn bounded_and_unbounded_support() {
    assert_eq!(OccupationFamily::Poisson.occupation_support(), OccupationSupport::Unbounded);
    assert_eq!(
        OccupationFamily::NegativeBinomial(9).occupation_support(),
        OccupationSupport::Unbounded
    );
    assert_eq!(OccupationFamily::Binomial(6).occupation_support(), OccupationSupport::Bounded(6));
}

#[test]
fn b_capacity_rejection() {
    let b = OccupationFamily::Binomial(3);
    assert!(b.validate_occnum(0));
    assert!(b.validate_occnum(3));
    assert!(!b.validate_occnum(4));
    assert!(OccupationFamily::Poisson.validate_occnum(u64::MAX));
}

#[test]
fn max_occupation_only_for_binomial() {
    assert_eq!(OccupationFamily::Binomial(4).max_occupation(), Some(4));
    assert_eq!(OccupationFamily::Geometric.max_occupation(), None);
    assert_eq!(OccupationFamily::NegativeBinomial(4).max_occupation(), None);
    assert_eq!(OccupationFamily::Geometric.occupation_support(), OccupationSupport::Unbounded);
}

#[test]
fn microcanonical_family_caps() {
    assert_eq!(Family::ME.max_occupation(), None);
    assert_eq!(Family::W { layers: 3 }.max_occupation(), None);
    assert_eq!(Family::B { layers: 3 }.max_occupation(), Some(3));
    assert!(Family::B { layers: 3 }.validate_occnum(3));
    assert!(!Family::B { layers: 3 }.validate_occnum(4));
    assert!(Family::W { layers: 1 }.validate_occnum(1_000_000));
    assert!(Family::ME.validate_occnum(u64::MAX));
}
