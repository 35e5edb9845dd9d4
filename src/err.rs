use vstd::prelude::*;
use vstd::std_specs::convert::IntoSpec;

verus! {

/// Errors raised by the library.
#[derive(Debug, Clone, PartialEq, Eq)]
pub enum XcosmError {
    /// Coins do not meet the expected amount.
    CoinsInsufficient { expect: String },
    /// Action requires exact coins.
    CoinsNotExact { expect: String },
    /// Expected no coins, but received some.
    CoinsNotAllowed {},
    /// Coin lists cannot have duplicate denominations.
    CoinsDuplicate { denom: Option<String> },
    /// Input and output coins of a transfer differ.
    CoinsMismatch {},
    /// Claims add up to more than the whole.
    FundsOverclaimed {},
    /// A distribution has no beneficiaries.
    FundsUnclaimed {},
    /// Checked addition or multiplication went out of range.
    MathOverflow {},
    /// Checked subtraction went below zero.
    MathUnderflow {},
    /// Division by zero.
    MathDivByZero {},
    /// A value failed validation.
    Invalid { kind: String, reason: String },
    /// An error reported by the host runtime, as text.
    CosmWasm { source: String },
    /// Authorization failed.
    Unauthorized {},
    /// The action is disabled.
    Disabled {},
    /// An input value could not be parsed.
    Parse {},
    /// Any other error; also an internal invariant that did not hold.
    Any { msg: String },
}

impl XcosmError {
    pub fn coins_insufficient(expected: String) -> (r: Self)
        ensures
            r == (XcosmError::CoinsInsufficient { expect: expected }),
    {
        XcosmError::CoinsInsufficient { expect: expected }
    }

    pub fn coins_not_exact(expected: String) -> (r: Self)
        ensures
            r == (XcosmError::CoinsNotExact { expect: expected }),
    {
        XcosmError::CoinsNotExact { expect: expected }
    }

    pub fn coins_not_allowed() -> (r: Self)
        ensures
            r == (XcosmError::CoinsNotAllowed {}),
    {
        XcosmError::CoinsNotAllowed {}
    }

    pub fn disabled() -> (r: Self)
        ensures
            r == (XcosmError::Disabled {}),
    {
        XcosmError::Disabled {}
    }

    pub fn parse() -> (r: Self)
        ensures
            r == (XcosmError::Parse {}),
    {
        XcosmError::Parse {}
    }

    pub fn unauthorized() -> (r: Self)
        ensures
            r == (XcosmError::Unauthorized {}),
    {
        XcosmError::Unauthorized {}
    }

    pub fn invalid(kind: String, msg: String) -> (r: Self)
        ensures
            r == (XcosmError::Invalid { kind: kind, reason: msg }),
    {
        XcosmError::Invalid { kind: kind, reason: msg }
    }

    pub fn any(err: String) -> (r: Self)
        ensures
            r == (XcosmError::Any { msg: err }),
    {
        XcosmError::Any { msg: err }
    }
}

/// Conversion of a result's error into another error type.
pub trait IntoResult<T, E>: Sized {
    /// Whether `r` is `self` with its error converted.
    spec fn converts_to(&self, r: Result<T, E>) -> bool;

    /// Convert the result's error to the target type; an `Ok` value is kept.
    fn into_result(self) -> (r: Result<T, E>)
        ensures
            self.converts_to(r),
    ;
}

impl<T, E, F: Into<E>> IntoResult<T, E> for Result<T, F> {
    open spec fn converts_to(&self, r: Result<T, E>) -> bool {
        match (*self, r) {
            (Ok(a), Ok(b)) => a == b,
            (Err(a), Err(b)) => F::obeys_into_spec() ==> b == a.into_spec(),
            _ => false,
        }
    }

    fn into_result(self) -> (r: Result<T, E>) {
        match self {
            Ok(v) => Ok(v),
            Err(e) => Err(e.into()),
        }
    }
}

/// Construction of a result from one with another error type.
pub trait FromResult<T, E>: Sized {
    /// Whether `self` is `res` with its error converted.
    spec fn converted_from(&self, res: Result<T, E>) -> bool;

    /// Build from `res`, converting its error; an `Ok` value is kept.
    fn from_result(res: Result<T, E>) -> (r: Self)
        ensures
            r.converted_from(res),
    ;
}

impl<T, E: Into<F>, F> FromResult<T, E> for Result<T, F> {
    open spec fn converted_from(&self, res: Result<T, E>) -> bool {
        match (*self, res) {
            (Ok(a), Ok(b)) => a == b,
            (Err(a), Err(b)) => E::obeys_into_spec() ==> a == b.into_spec(),
            _ => false,
        }
    }

    fn from_result(res: Result<T, E>) -> (r: Self) {
        match res {
            Ok(v) => Ok(v),
            Err(e) => Err(e.into()),
        }
    }
}

} // verus!
