//! A content-addressed object store: immutable objects keyed by cryptographic
//! digest, a deduplicating object cache over a key-value map, and an editable
//! directory tree that marshals into the store.
//!
//! An object is a pair of blob bytes and ordered child digests. Its identity
//! is the SHA3-256 hash of its canonical encoding, which is deterministic:
//! equal objects give byte-identical encodings on any host, any run. The
//! store deduplicates objects by that address, hands out lightweight handles,
//! and offers a compare-and-set branch namespace. The tree holds a directory
//! structure in an arena, supports partial traversal when interior nodes are
//! unexpanded digests, and marshals depth-first into the store.

pub mod bytes;
pub mod canonical;
pub mod digest;
pub mod error;
pub mod object;
pub mod store;
pub mod tree;
pub mod varint;
