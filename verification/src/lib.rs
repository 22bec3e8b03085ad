//! Inventory of binaries installed through a package-fetching tool.
//!
//! The install log is a tab-separated text file, one record per line:
//! an RFC 3339 timestamp, a repository identifier, the absolute path of
//! the installed artifact, and an optional `removed` marker. This crate
//! holds the verified core: parsing that log into records, the idempotent
//! "mark removed" rewrite, human-readable size formatting, and a selection
//! engine that keeps a filtered view and a wrap-around cursor consistent
//! with the record set.

pub mod app;
pub mod log;
pub mod text;
