//! Core of a feed-to-messenger relay: derives a stable identity for each
//! feed entry, keeps a bounded per-feed memory of delivered identities,
//! persists that memory through a crash-safe snapshot protocol, and drives
//! the per-feed delivery cycle.

pub mod config;
pub mod cycle;
pub mod dedup;
pub mod identity;
pub mod persist;
pub mod store;
pub mod strutil;
