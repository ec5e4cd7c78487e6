//! Passphrase generation library: token pools, uniform sampling,
//! configuration parsing, and human-readable crack-time formatting.

pub mod config;
pub mod pool;
pub mod report;
pub mod sample;
