//! Tick index and liquidity ledger of a concentrated-liquidity pool.
pub mod bitmap;
pub mod error;
pub mod ledger;
pub mod math;
pub mod pool;
pub mod word;
