//! Errors returned by the bitmap and the pool's mutation path.
use vstd::prelude::*;

verus! {

/// Why a request was rejected. A rejected request changes no state.
#[derive(Clone, Copy, Debug, PartialEq, Eq, Structural)]
pub enum TickError {
    /// The tick is not a multiple of the tick spacing.
    InvalidTickSpacing,
    /// The lower tick is not below the upper one, or one lies outside the
    /// allowed tick range.
    TickRangeInvalid,
    /// A liquidity change of zero was requested.
    ZeroLiquidityRequest,
}

} // verus!
