//! A read-through disk cache for remotely fetched resources.
//!
//! Given a URL, the cache hands back a local file path: on first access the
//! resource is fetched and persisted, on later accesses the stored path is
//! served. The crate holds the verified core — the reversible URL-to-file-name
//! codec, the in-memory registry, the startup reconciliation that rebuilds the
//! registry from the cache directory, and the read-through decision protocol.
//! The surrounding I/O (the HTTP fetch, the file writes, the directory scan)
//! is left to the embedding application, which drives the protocol with plain
//! values.

pub mod codec;
pub mod engine;
pub mod registry;

pub use codec::DecodeError;
pub use codec::decode;
pub use codec::encode;
pub use engine::Cache;
pub use engine::CacheError;
pub use engine::extension_of;
pub use registry::Registry;
