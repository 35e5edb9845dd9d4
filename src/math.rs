use vstd::prelude::*;

use crate::coin::{add_overflows, added, sub_underflows, subtracted, Coin, CoinSet};
use crate::err::XcosmError;

verus! {

/// Checked addition that builds a new value.
pub trait TryPlus<T>: Sized {
    type Output;
    type Error;

    /// What `try_plus(other)` returns on `self`.
    spec fn plus_spec(&self, other: T, r: Result<Self::Output, Self::Error>) -> bool;

    fn try_plus(&self, other: T) -> (r: Result<Self::Output, Self::Error>)
        ensures
            self.plus_spec(other, r),
    ;
}

/// Checked addition in place.
pub trait TryPlusMut<T>: Sized {
    type Error;

    /// What `try_plus_mut(other)` does: `before` becomes `after`, returning `r`.
    spec fn plus_mut_spec(before: Self, other: T, after: Self, r: Result<(), Self::Error>) -> bool;

    fn try_plus_mut(&mut self, other: T) -> (r: Result<(), Self::Error>)
        ensures
            Self::plus_mut_spec(*old(self), other, *final(self), r),
    ;
}

/// Checked subtraction that builds a new value.
pub trait TryMinus<T>: Sized {
    type Output;
    type Error;

    /// What `try_minus(other)` returns on `self`.
    spec fn minus_spec(&self, other: T, r: Result<Self::Output, Self::Error>) -> bool;

    fn try_minus(&self, other: T) -> (r: Result<Self::Output, Self::Error>)
        ensures
            self.minus_spec(other, r),
    ;
}

/// Checked subtraction in place.
pub trait TryMinusMut<T>: Sized {
    type Error;

    /// What `try_minus_mut(other)` does: `before` becomes `after`, returning `r`.
    spec fn minus_mut_spec(before: Self, other: T, after: Self, r: Result<(), Self::Error>) -> bool;

    fn try_minus_mut(&mut self, other: T) -> (r: Result<(), Self::Error>)
        ensures
            Self::minus_mut_spec(*old(self), other, *final(self), r),
    ;
}

/// Adding the entries `o` to `s` gives `r`: each denomination of `s` grows by
/// what `o` holds of it, and an overflow fails.
pub open spec fn plus_result(s: CoinSet, o: Seq<(Seq<char>, u128)>, r: Result<CoinSet, XcosmError>) -> bool {
    match r {
        Ok(t) => !add_overflows(s@, o) && added(s@, o, t@),
        Err(e) => add_overflows(s@, o) && e == (XcosmError::MathOverflow {}),
    }
}

/// Taking the entries `o` from `s` gives `r`: each denomination of `s` shrinks
/// by what `o` holds of it, and an underflow fails.
pub open spec fn minus_result(s: CoinSet, o: Seq<(Seq<char>, u128)>, r: Result<CoinSet, XcosmError>) -> bool {
    match r {
        Ok(t) => !sub_underflows(s@, o) && subtracted(s@, o, t@),
        Err(e) => sub_underflows(s@, o) && e == (XcosmError::MathUnderflow {}),
    }
}

/// In place, `before` becomes `after` as `plus_result` says, and stays as it
/// was on failure.
pub open spec fn plus_mut_result(
    before: CoinSet,
    o: Seq<(Seq<char>, u128)>,
    after: CoinSet,
    r: Result<(), XcosmError>,
) -> bool {
    match r {
        Ok(_) => !add_overflows(before@, o) && added(before@, o, after@),
        Err(e) => add_overflows(before@, o) && e == (XcosmError::MathOverflow {}) && after@
            == before@,
    }
}

/// In place, `before` becomes `after` as `minus_result` says, and stays as it
/// was on failure.
pub open spec fn minus_mut_result(
    before: CoinSet,
    o: Seq<(Seq<char>, u128)>,
    after: CoinSet,
    r: Result<(), XcosmError>,
) -> bool {
    match r {
        Ok(_) => !sub_underflows(before@, o) && subtracted(before@, o, after@),
        Err(e) => sub_underflows(before@, o) && e == (XcosmError::MathUnderflow {}) && after@
            == before@,
    }
}

impl<'a> TryPlus<&'a Coin> for CoinSet {
    type Output = CoinSet;
    type Error = XcosmError;

    open spec fn plus_spec(&self, other: &'a Coin, r: Result<CoinSet, XcosmError>) -> bool {
        plus_result(*self, seq![other@], r)
    }

    fn try_plus(&self, other: &'a Coin) -> (r: Result<CoinSet, XcosmError>) {
        self.checked_plus(&CoinSet::single(other))
    }
}

impl<'a> TryPlus<&'a CoinSet> for CoinSet {
    type Output = CoinSet;
    type Error = XcosmError;

    open spec fn plus_spec(&self, other: &'a CoinSet, r: Result<CoinSet, XcosmError>) -> bool {
        plus_result(*self, other@, r)
    }

    fn try_plus(&self, other: &'a CoinSet) -> (r: Result<CoinSet, XcosmError>) {
        self.checked_plus(other)
    }
}

impl<'a> TryPlusMut<&'a Coin> for CoinSet {
    type Error = XcosmError;

    open spec fn plus_mut_spec(before: CoinSet, other: &'a Coin, after: CoinSet, r: Result<(), XcosmError>) -> bool {
        plus_mut_result(before, seq![other@], after, r)
    }

    fn try_plus_mut(&mut self, other: &'a Coin) -> (r: Result<(), XcosmError>) {
        match self.checked_plus(&CoinSet::single(other)) {
            Ok(s) => {
                *self = s;
                Ok(())
            },
            Err(e) => Err(e),
        }
    }
}

impl<'a> TryPlusMut<&'a CoinSet> for CoinSet {
    type Error = XcosmError;

    open spec fn plus_mut_spec(before: CoinSet, other: &'a CoinSet, after: CoinSet, r: Result<(), XcosmError>) -> bool {
        plus_mut_result(before, other@, after, r)
    }

    fn try_plus_mut(&mut self, other: &'a CoinSet) -> (r: Result<(), XcosmError>) {
        match self.checked_plus(other) {
            Ok(s) => {
                *self = s;
                Ok(())
            },
            Err(e) => Err(e),
        }
    }
}

impl<'a> TryMinus<&'a Coin> for CoinSet {
    type Output = CoinSet;
    type Error = XcosmError;

    open spec fn minus_spec(&self, other: &'a Coin, r: Result<CoinSet, XcosmError>) -> bool {
        minus_result(*self, seq![other@], r)
    }

    fn try_minus(&self, other: &'a Coin) -> (r: Result<CoinSet, XcosmError>) {
        self.checked_minus(&CoinSet::single(other))
    }
}

impl<'a> TryMinus<&'a CoinSet> for CoinSet {
    type Output = CoinSet;
    type Error = XcosmError;

    open spec fn minus_spec(&self, other: &'a CoinSet, r: Result<CoinSet, XcosmError>) -> bool {
        minus_result(*self, other@, r)
    }

    fn try_minus(&self, other: &'a CoinSet) -> (r: Result<CoinSet, XcosmError>) {
        self.checked_minus(other)
    }
}

impl<'a> TryMinusMut<&'a Coin> for CoinSet {
    type Error = XcosmError;

    open spec fn minus_mut_spec(before: CoinSet, other: &'a Coin, after: CoinSet, r: Result<(), XcosmError>) -> bool {
        minus_mut_result(before, seq![other@], after, r)
    }

    fn try_minus_mut(&mut self, other: &'a Coin) -> (r: Result<(), XcosmError>) {
        match self.checked_minus(&CoinSet::single(other)) {
            Ok(s) => {
                *self = s;
                Ok(())
            },
            Err(e) => Err(e),
        }
    }
}

impl<'a> TryMinusMut<&'a CoinSet> for CoinSet {
    type Error = XcosmError;

    open spec fn minus_mut_spec(before: CoinSet, other: &'a CoinSet, after: CoinSet, r: Result<(), XcosmError>) -> bool {
        minus_mut_result(before, other@, after, r)
    }

    fn try_minus_mut(&mut self, other: &'a CoinSet) -> (r: Result<(), XcosmError>) {
        match self.checked_minus(other) {
            Ok(s) => {
                *self = s;
                Ok(())
            },
            Err(e) => Err(e),
        }
    }
}

} // verus!
