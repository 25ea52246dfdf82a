//! A minimal embedded key-value storage core.
//!
//! A single flat byte store holds variable-length values at byte offsets, and
//! an in-memory index maps each key to the byte range ("slot") holding its
//! value.  A free-space allocator tracks reclaimable byte ranges so that
//! deleted space is reused before the store grows.

pub mod slot;
pub mod freelist;
pub mod persist;
