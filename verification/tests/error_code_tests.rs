use std::collections::HashSet;

use rapid_textrank::error_code::ErrorCode;

#[test]
fn test_as_str_all_variants() {
    assert_eq!(ErrorCode::MissingStage.as_str(), "missing_stage");
    assert_eq!(ErrorCode::InvalidCombo.as_str(), "invalid_combo");
    assert_eq!(ErrorCode::ModuleUnavailable.as_str(), "module_unavailable");
    assert_eq!(ErrorCode::LimitExceeded.as_str(), "limit_exceeded");
    assert_eq!(ErrorCode::UnknownField.as_str(), "unknown_field");
    assert_eq!(ErrorCode::InvalidValue.as_str(), "invalid_value");
    assert_eq!(
        ErrorCode::IncompatibleModules.as_str(),
        "incompatible_modules"
    );
    assert_eq!(ErrorCode::ValidationFailed.as_str(), "validation_failed");
    assert_eq!(ErrorCode::StageFailed.as_str(), "stage_failed");
    assert_eq!(ErrorCode::ConvergenceFailed.as_str(), "convergence_failed");
}

#[test]
fn test_copy_semantics() {
    let a = ErrorCode::StageFailed;
    let b = a; // Copy, not move
    assert_eq!(a, b); // `a` is still usable
}

#[test]
fn test_hash_in_collections() {
    let mut set = HashSet::new();
    set.insert(ErrorCode::MissingStage);
    set.insert(ErrorCode::MissingStage); // duplicate
    set.insert(ErrorCode::StageFailed);
    assert_eq!(set.len(), 2);
}
