//! Authorization policies and exact, overflow-checked splitting of
//! multi-denomination balances among basis-point claims.

pub mod auth;
pub mod coin;
pub mod err;
pub mod fund;
pub mod math;
pub mod valid;
pub mod validate;

pub use auth::{Authorized, Identity};
pub use coin::{Addr, Coin, CoinSet};
pub use err::{FromResult, IntoResult, XcosmError};
pub use fund::{Claim, Distribution, DistributionMsg, Payout, BPS_DENOMINATOR};
pub use math::{TryMinus, TryMinusMut, TryPlus, TryPlusMut};
pub use valid::Validator;
pub use validate::ValidateError;
