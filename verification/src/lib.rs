//! A request-rate-limiting library: a per-key counter store with lazy expiry
//! and a decision engine that admits or rejects each request against a quota.

pub mod decimal;
pub mod laws;
pub mod limiter;
pub mod stores;
