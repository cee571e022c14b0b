//! A local catalog of episodic video libraries.
//!
//! The crate classifies file names into episodes, keeps each show's
//! episode map sorted and free of duplicates, tracks watch progress,
//! and computes the next unwatched episode.

pub mod database;
pub mod episode;
pub mod pattern;
