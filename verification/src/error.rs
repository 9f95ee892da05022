//! The ways in which loading or computing can fail.

use vstd::prelude::*;
use crate::entry::Entry;

verus! {

/// A failure of the library, with the record or entry that caused it.
#[derive(Copy, Clone, Eq, PartialEq, Debug, Structural)]
pub enum MatchError {
    /// The record with this zero-based index could not be understood.
    MalformedRecord(usize),
    /// A rank or a partner was asked of an entry that the data does not hold.
    UnknownEntry(Entry),
    /// This proposer went through its whole list and was accepted nowhere.
    NoFeasibleMatch(Entry),
}

} // verus!
