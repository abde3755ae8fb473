//! Renames the layer files that a PCB design tool exports to the short
//! extensions that board fabrication houses expect.
//!
//! `rules` holds the fixed table of suffixes, `text` the substring search and
//! replacement it relies on, `matcher` the scan of a listing, the check that
//! the set is complete and the rename plan, and `laws` what holds of the plan
//! over whole listings.

pub mod laws;
pub mod matcher;
pub mod rules;
pub mod text;
