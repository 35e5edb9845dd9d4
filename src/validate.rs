use vstd::prelude::*;

verus! {

/// Failure of an outside validator.
#[derive(Debug, Clone, PartialEq, Eq)]
pub enum ValidateError {
    /// The value is not a valid `kind`, for `reason`.
    NotValid { kind: String, reason: String },
}

/// Validation of a raw value into a checked one, reporting a [`ValidateError`].
pub trait Validator<T, U> {
    /// Validate a value.
    fn validate(self, val: T) -> Result<U, ValidateError>;
}

} // verus!
