//! Stable matchings between two populations, "B" and "R", that rank each other.
//!
//! The crate computes a stable matching by deferred acceptance, lists the
//! blocking pairs of a given matching, and decides Hall's marriage condition by
//! enumerating subsets. It reads preferences and pairings from comma-separated
//! text and writes pairings as text. Every function carries a contract that
//! Verus proves, but for the one that hands the text to the `csv` reader.

pub mod entry;
pub mod error;
pub mod preferences;
pub mod pairings;
pub mod stability;
pub mod matching;
pub mod matcher;
pub mod hall;
pub mod records;
pub mod loading;
pub mod render;

