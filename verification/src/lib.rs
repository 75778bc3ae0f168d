//! Finds directories whose file contents substantially overlap.
//!
//! Files are fingerprinted by size and a checksum of their leading bytes, the
//! fingerprints are indexed per directory, and every pair of directories that
//! shares a fingerprint is reported with the exact size of the overlap.

pub mod config;
pub mod fingerprint;
pub mod index;
pub mod laws;
pub mod overlap;
pub mod paths;
pub mod rank;
pub mod report;
