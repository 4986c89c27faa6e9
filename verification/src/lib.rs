//! An encrypted, file-backed secret store with a time- and usage-aware
//! access-policy engine.
//!
//! The library holds credentials under authenticated encryption derived from a
//! user passphrase and gates read access to each credential through a
//! declarative policy of validity windows, usage limits and single-use
//! semantics.  All file reading and writing stays with the caller: the store
//! consumes and produces complete container images as byte vectors.

pub mod codec;
pub mod crypto;
pub mod error;
pub mod eval;
pub mod policy;
pub mod store;
pub mod sys;
