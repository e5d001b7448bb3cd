//! Record-and-replay of HTTP exchanges. Each request is keyed by a fingerprint
//! of its method, URL and body; the response is stored in a file named by that
//! fingerprint, and an identical request later is answered from the file.
//!
//! - `digest`: hex text and request fingerprints (SHA-256).
//! - `record`: the cache record and its file format, read back exactly.
//! - `middleware`: cache file paths, the hit/miss decision, and the builder.
pub mod digest;
pub mod record;
pub mod middleware;
