//! A bounded key-value cache whose entries expire after a time-to-live.
//!
//! Entries and their expiry are held by `ttl_cache::TtlCache`. The library
//! keeps its own order of the stored keys, least recently read or written
//! first, and decides every eviction itself: entries that the store reports
//! expired go first, then the least recently used. Whether an entry is still
//! live depends on the clock, which stays with the store; the contracts say
//! what holds whatever the store reports, and a lookup never reports an
//! entry that the cache does not hold.
pub mod entries;
pub mod store;
pub mod default_cache;
pub mod laws;

pub use default_cache::DefaultCache;
