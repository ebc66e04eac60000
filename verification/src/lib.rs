//! A small credential manager: a file-backed key/value store of labels and
//! passwords, a random password generator, and a k-anonymity breach check
//! against a public corpus of leaked password hashes.
//!
//! The library holds the logic: the store and its JSON object codec, the
//! generator, the hash-prefix breach protocol, and the aggregation of many
//! checks. File and network transport stay with the caller.

use vstd::prelude::*;

pub mod batch;
pub mod breach;
pub mod codec;
pub mod fileops;
pub mod generator;
pub mod store;
pub mod text;

verus! {

/// Why a store operation could not be carried out.
#[derive(Debug, Clone, Copy, PartialEq, Eq, Structural)]
pub enum StoreError {
    /// The backing text is not a well-formed JSON object of strings.
    MalformedContent,
}

} // verus!
