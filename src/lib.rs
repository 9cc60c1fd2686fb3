//! A bounded, expiring least-recently-used cache in front of a slow key-value
//! source, the access patterns that drive it, and the runner and report that
//! measure it.

pub mod error;
pub mod cache;
pub mod cache_laws;
pub mod source;
pub mod keys;
pub mod pattern;
pub mod runner;
pub mod report;
