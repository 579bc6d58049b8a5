//! A lease-based allocator for numeric identifiers.
//!
//! Identifiers from a fixed range are handed out under time-limited leases.
//! A lease must be renewed ("heartbeat") before its expiry timestamp, or the
//! identifier is reclaimed and returned to the back of the available queue.

pub mod errors;
pub mod pool;
pub mod time_provider;
