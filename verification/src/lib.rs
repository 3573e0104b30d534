//! A deduplicating, content-addressed chunk store: the read side.
//!
//! Data is split into chunks identified by the digest of their plaintext.
//! Chunks are organized into recursive index trees: an index chunk's
//! plaintext is a flat list of child digests one level down, so an
//! arbitrarily large object resolves to an ordered sequence of leaf chunks.
//!
//! This crate holds the chunk-resolution and integrity engine: the
//! recursive index-tree walker, its four interchangeable read strategies
//! (plain read, GC-mark recording, tolerant verification, generation
//! promotion), and the byte-stream re-chunker that turns index content
//! back into digest records.

pub mod accessor;
pub mod codec;
pub mod digest_set;
pub mod errors;
pub mod hashing;
pub mod reading;
pub mod store;
pub mod translator;

pub use hashing::DIGEST_SIZE;
