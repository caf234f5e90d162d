//! Local-state backend for a desktop application: an offline license-key
//! activation scheme and a content-addressed store for uploaded media.
//!
//! The stores operate on an explicit [`disk::Disk`] value, a model of the
//! application's data directory keyed by relative path; a thin unverified
//! shell mirrors those operations onto a real filesystem.

pub mod disk;
pub mod hashing;
pub mod license;
pub mod record;
pub mod store;
pub mod text;
