use menobis_core::degree_state::DegreeSupportState;
use menobis_core::fitting::EdgesEventsFitError;
use menobis_core::fixed_et::FixedETError;
use menobis_core::fixed_kt::FixedKTError;
use menobis_core::fixed_strength::FixedStrengthError;
use menobis_core::fixed_total::FixedTotalError;

#[test]
fn error_messages_name_the_failure() {
    assert_eq!(
        FixedKTError::InvalidResidual("bad".to_owned()).to_string(),
        "invalid residual problem: bad"
    );
    assert_eq!(FixedKTError::TooFewEdges.to_string(), "need at least 2 edges for a switch");
    assert_eq!(
        FixedKTError::InitializationFailed("x".to_owned()).to_string(),
        "support initialization failed: x"
    );
    assert_eq!(
        FixedKTError::OccupationError("y".to_owned()).to_string(),
        "occupation allocation failed: y"
    );
    assert_eq!(FixedKTError::ConfigError("z".to_owned()).to_string(), "configuration error: z");
    assert_eq!(
        FixedTotalError::InvalidResidual("t".to_owned()).to_string(),
        "invalid residual fixed-total problem: t"
    );
    assert_eq!(FixedETError::InvalidResidual("e".to_owned()).to_string(), "invalid residual problem: e");
}

#[test]
fn strength_error_messages_format_totals() {
    assert_eq!(
        FixedStrengthError::TooLargeForDirect(10000001).to_string(),
        "total stubs 10000001 exceeds maximum for direct backend"
    );
    assert_eq!(FixedStrengthError::TooLargeForDirect(0).to_string(), "total stubs 0 exceeds maximum for direct backend");
    assert_eq!(FixedStrengthError::McmcError("m".to_owned()).to_string(), "MCMC error: m");
    assert_eq!(
        FixedStrengthError::DirectNotApplicable("d".to_owned()).to_string(),
        "direct stub-matching not applicable: d"
    );
    assert_eq!(FixedStrengthError::ArithmeticOverflow("o".to_owned()).to_string(), "arithmetic overflow: o");
    assert_eq!(
        FixedStrengthError::InitializationFailed("i".to_owned()).to_string(),
        "initialization failed: i"
    );
    assert_eq!(FixedStrengthError::InvalidResidual("r".to_owned()).to_string(), "invalid residual problem: r");
}

#[test]
fn fit_error_messages() {
    assert_eq!(EdgesEventsFitError::ZeroEdges.to_string(), "total edges must be positive");
    assert_eq!(
        EdgesEventsFitError::EventsBelowEdges.to_string(),
        "total events must be at least total edges"
    );
    assert_eq!(
        EdgesEventsFitError::EdgesAbovePairs.to_string(),
        "total edges cannot exceed the number of candidate pairs"
    );
    assert_eq!(
        EdgesEventsFitError::MeanOutOfSupport.to_string(),
        "T/E conditional mean is outside the family occupation support"
    );
}

#[test]
fn support_state_description() {
    let state = DegreeSupportState::new(12, vec![(0, 1), (3, 2)], false);
    assert_eq!(state.to_string(), "DegreeSupportState(n=12, E=2)");
}
