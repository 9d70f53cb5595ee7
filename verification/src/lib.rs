//! Rate limiting for a multi-tenant relay: tiers, limits, store keys and the
//! token bucket behind them.

pub mod double;
pub mod hex;
pub mod laws;
pub mod promises;
pub mod rate_limit;
pub mod rate_limiter;
pub mod tenant;
