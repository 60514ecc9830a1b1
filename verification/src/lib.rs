//! Decision provenance: records of what was decided, why, and with which
//! alternatives and trade-offs, rendered to and read from markdown, kept in
//! a queryable ledger and enforced before a commit.
pub mod text;
pub mod entry;
pub mod error;
pub mod markdown;
pub mod ledger;
pub mod hook;
pub mod roundtrip;
pub mod laws;
