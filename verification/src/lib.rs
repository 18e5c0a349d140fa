//! Chronological renaming of photo files: classification of directory
//! entries, grouping of raw and preview files of one shot, ordering by capture
//! time, and the plan of renames and sidecar patches that brings a directory
//! into sequence.

pub mod text;
pub mod names;
pub mod timestamp;
pub mod media;
pub mod scan;
pub mod group;
pub mod rename;
pub mod rerun;
pub mod sidecar;
pub mod prefix;
