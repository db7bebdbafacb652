//! Cached two-level geographic reference data (states and their districts)
//! for a vaccination-slot booking service, plus the pure decision logic that
//! drives its refresh pipeline: merging per-state fetch results under a
//! minimum-TTL expiry policy, serving name-to-identifier lookups, and choosing
//! between a persisted snapshot and a live refresh.

pub mod appointment;
pub mod location;
pub mod utils;
