//! Streaming, incremental builder for the BLAKE3 tree hash.
//!
//! Bytes are fed in through arbitrary-length writes; the builder keeps a
//! bounded-depth stack of subtree digests, folding per-unit leaf digests into
//! block-level nodes as data streams in. After finalize, the stack holds the
//! block list: zero or more depth-capped block nodes followed by at most one
//! tail node. A pure reduction over that list yields the root digest,
//! bit-identical to hashing the whole byte stream at once.

pub mod hashes;
pub mod model;
pub mod merkle;
pub mod laws;

pub use hashes::Digest;
pub use merkle::{HashDepth, Merkle, MerkleError, BLOCK_CHUNK, CHUNK_LEN};
