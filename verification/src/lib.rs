//! A verified library that classifies, filters, sorts, and reformats
//! version-like strings according to Semantic Versioning 2.0.0.
//!
//! A raw token becomes a record: the token verbatim, plus its parsed
//! structured version when the token, tolerating one leading `v`, is
//! valid. Pipeline stages filter records by validity or by a version
//! requirement, sort them in a total order over mixed valid and invalid
//! tokens, and render them as plain or verbose JSON lines.

pub mod grammar;
pub mod order;
pub mod proc;
pub mod render;
pub mod req;
pub mod sort;
pub mod ver;
