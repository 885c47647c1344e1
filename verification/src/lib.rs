//! Verified core of a crawler that discovers public chat-community invite
//! links, verifies them, merges them into a durable catalog, and republishes
//! that catalog to a search index on a fixed cadence.
//!
//! The web-facing collaborators (search source, link resolver, invite
//! verifier, index publisher) and all I/O live outside this crate; the
//! modules here hold the pipeline's decisions and data invariants.

pub mod codec;
pub mod entry;
pub mod merge;
pub mod pipeline;
pub mod publish;
pub mod schedule;
pub mod store;
