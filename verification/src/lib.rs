//! Content-addressed chunked file storage.
//!
//! Files are stored as bounded-size chunks identified by a cryptographic
//! digest of their bytes, under a hierarchical path namespace.  Every file
//! keeps its full version history: updates append immutable metadata records
//! linked to the file's permanent root identity, and deletion cascades over
//! the whole chain.  A small companion module holds the pure state of the
//! filesystem watcher that mirrors local files into the store.

pub mod assoc;
pub mod chunks;
pub mod errors;
pub mod hashing;
pub mod index;
pub mod metadata;
pub mod paths;
pub mod service;
pub mod signals;
pub mod versions;
pub mod watcher;
