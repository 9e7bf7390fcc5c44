//! Content-derived identifiers for structured records.
//!
//! A record is modelled as a [`value::Value`] tree.  The library produces one
//! deterministic textual encoding of such a tree (canonicalization), strips
//! the top-level `"attestations"` member before encoding (the preimage), and
//! hashes the preimage's bytes into a lowercase hexadecimal identifier.
//! A small, fully verified policy-validation routine with a byte-buffer
//! interface lives alongside.

pub mod canon;
pub mod digest;
pub mod laws;
pub mod order;
pub mod policy;
pub mod roundtrip;
pub mod text;
pub mod value;
