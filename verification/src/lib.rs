//! A single-shot currency-rate monitor: decode a provider's JSON rates
//! response, compare the requested rate against a configured threshold,
//! and build the alert email that is due when the rate is at or below it.
pub mod alert;
pub mod decimal;
pub mod json;
