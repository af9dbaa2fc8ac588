//! Stable error codes for programmatic error handling.
//!
//! [`ErrorCode`] is the primary contract for identifying pipeline errors.
//! Codes have a canonical `snake_case` string form and are backward
//! compatible: new codes may be added, but existing codes never change
//! meaning.

use vstd::prelude::*;

verus! {

/// Stable, public error code identifying a category of pipeline error.
///
/// Match on this enum to handle errors programmatically. Because the enum is
/// `#[non_exhaustive]`, always include a wildcard arm to remain
/// forward-compatible with codes added in future versions.
#[derive(Clone, Copy, Debug, PartialEq, Eq, Hash, Structural)]
#[non_exhaustive]
pub enum ErrorCode {
    /// A required pipeline stage is missing from the spec.
    MissingStage,
    /// Two or more configuration options conflict with each other.
    InvalidCombo,
    /// A referenced module or component is not available.
    ModuleUnavailable,
    /// A numeric value exceeds its allowed range.
    LimitExceeded,
    /// The spec contains a field name that is not recognized.
    UnknownField,
    /// A field value is invalid for its expected type or context.
    InvalidValue,
    /// Two or more selected modules cannot be used together.
    IncompatibleModules,
    /// General validation failure that does not fit a more specific code.
    ValidationFailed,
    /// A pipeline stage failed during execution.
    StageFailed,
    /// PageRank iteration did not converge within the allowed iterations.
    ConvergenceFailed,
}

impl ErrorCode {
    /// The canonical `snake_case` form of a code, as a sequence of characters.
    pub open spec fn spec_as_str(self) -> Seq<char> {
        match self {
            Self::MissingStage => "missing_stage"@,
            Self::InvalidCombo => "invalid_combo"@,
            Self::ModuleUnavailable => "module_unavailable"@,
            Self::LimitExceeded => "limit_exceeded"@,
            Self::UnknownField => "unknown_field"@,
            Self::InvalidValue => "invalid_value"@,
            Self::IncompatibleModules => "incompatible_modules"@,
            Self::ValidationFailed => "validation_failed"@,
            Self::StageFailed => "stage_failed"@,
            Self::ConvergenceFailed => "convergence_failed"@,
        }
    }

    /// Returns the canonical `snake_case` string form of this code.
    ///
    /// This is suitable for logging, JSON error responses, and error
    /// matching on the consumer side.
    pub fn as_str(&self) -> (r: &'static str)
        ensures
            r@ == self.spec_as_str(),
    {
        match self {
            Self::MissingStage => "missing_stage",
            Self::InvalidCombo => "invalid_combo",
            Self::ModuleUnavailable => "module_unavailable",
            Self::LimitExceeded => "limit_exceeded",
            Self::UnknownField => "unknown_field",
            Self::InvalidValue => "invalid_value",
            Self::IncompatibleModules => "incompatible_modules",
            Self::ValidationFailed => "validation_failed",
            Self::StageFailed => "stage_failed",
            Self::ConvergenceFailed => "convergence_failed",
        }
    }
}

} // verus!
