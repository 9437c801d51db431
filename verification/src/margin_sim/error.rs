use vstd::prelude::*;

use crate::margin_sim::types::{MarketId, TokenId};
use crate::tick_math::MathError;

verus! {

/// Why a margin state could not be computed.
#[derive(Debug, Clone, Copy, PartialEq, Eq, Structural)]
pub enum MarginError {
    /// A touched market has no config or no market state.
    UnknownMarket(u32),
    /// A cross account touches a market that settles in another token, which
    /// would make the netted numbers meaningless.
    TokenMismatch { market_id: MarketId, market_token: TokenId, account_token: TokenId },
    /// A value is not representable.
    Math(MathError),
}

impl From<MathError> for MarginError {
    fn from(e: MathError) -> (r: Self) {
        MarginError::Math(e)
    }
}

impl vstd::std_specs::convert::FromSpecImpl<MathError> for MarginError {
    open spec fn obeys_from_spec() -> bool {
        true
    }

    open spec fn from_spec(e: MathError) -> Self {
        MarginError::Math(e)
    }
}

} // verus!
