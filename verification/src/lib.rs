//! Cache-aside word lookup core.
//!
//! A lookup service answers "what does this word mean?" by checking a local
//! store before asking a remote dictionary provider, and persists new results
//! so the remote call happens at most once per distinct word.  This crate
//! holds the verified core: the store with its unique-key invariant, the
//! interpretation of the provider's response body, the cache-aside decision
//! logic, and the listing of cached entries.  Network and durable-storage
//! plumbing live outside the library and hand it plain values.

pub mod codec;
pub mod defs;
pub mod lookup;
pub mod store;
