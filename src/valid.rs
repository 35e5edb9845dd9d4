use vstd::prelude::*;

use crate::err::XcosmError;

verus! {

/// Validation of a raw value into a checked one, by an outside validator.
pub trait Validator<T, U, E = XcosmError> {
    /// Validate a value.
    fn validate(self, val: T) -> Result<U, E>;
}

} // verus!
