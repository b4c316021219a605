//! An anchored text edit engine: files are read with a per-line integrity
//! fingerprint, and batches of line-anchored or content-anchored edits are
//! validated against those fingerprints — staleness, range and overlap
//! checks — before being applied bottom-up, so an edit never silently lands
//! on a line that changed since it was last read.

pub mod anchor;
pub mod chars;
pub mod edit;
pub mod engine;
pub mod fingerprint;
pub mod flat;
pub mod fuzzy;
pub mod jsonval;
pub mod laws;
pub mod report;
pub mod strutil;
