//! An in-process key-value cache with time-based expiration, capacity-bounded
//! eviction, and hit/miss statistics.
//!
//! The store owns its entry mapping and statistics outright; callers that need
//! shared access wrap a store in their own synchronisation primitive and keep
//! the `LockError` branch of [`cache::CacheError`] for that purpose.

pub mod cache;
pub mod config;
pub mod error;
pub mod pokemon;
