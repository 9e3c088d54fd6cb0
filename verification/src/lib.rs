//! Audits the license metadata of a package index, platform by platform.
//!
//! For each platform the index publishes a snapshot of its package records.
//! The audit reads the records of a snapshot, keeps the latest record of each
//! package name, classifies the license field of each kept record as a valid or
//! an invalid license expression, and counts. The reports of all platforms are
//! merged into one state: the summaries of the platforms and one frequency
//! table of the license keys that were seen.

pub mod aggregate;
pub mod audit;
pub mod classify;
pub mod dedup;
pub mod extract;
pub mod frequency;
pub mod package;
pub mod record;
pub mod snapshot;
pub mod timestamp;
pub mod tree;
