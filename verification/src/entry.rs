//! Identifiers of the members of the two populations.

use vstd::prelude::*;

verus! {

/// One of the two populations.
#[derive(Copy, Clone, Hash, Ord, PartialOrd, Eq, PartialEq, Debug, Structural)]
pub enum Side {
    B,
    R,
}

/// A member of one population: its side and its zero-based id on that side.
#[derive(Copy, Clone, Hash, Ord, PartialOrd, Eq, PartialEq, Debug, Structural)]
pub enum Entry {
    B(u32),
    R(u32),
}

impl Side {
    /// The other population, in contracts.
    pub open spec fn spec_opposite(self) -> Side {
        match self {
            Side::B => Side::R,
            Side::R => Side::B,
        }
    }

    /// The other population.
    #[verifier::when_used_as_spec(spec_opposite)]
    pub fn opposite(self) -> (other: Side)
        ensures
            other == self.spec_opposite(),
    {
        match self {
            Side::B => Side::R,
            Side::R => Side::B,
        }
    }
}

impl Entry {
    /// The member `id` of population `side`, in contracts.
    pub open spec fn spec_new(side: Side, id: u32) -> Entry {
        match side {
            Side::B => Entry::B(id),
            Side::R => Entry::R(id),
        }
    }

    /// The member `id` of population `side`.
    #[verifier::when_used_as_spec(spec_new)]
    pub fn new(side: Side, id: u32) -> (e: Entry)
        ensures
            e == Entry::spec_new(side, id),
    {
        match side {
            Side::B => Entry::B(id),
            Side::R => Entry::R(id),
        }
    }

    /// The id of this member, in contracts.
    pub open spec fn spec_id(&self) -> u32 {
        match *self {
            Entry::B(id) => id,
            Entry::R(id) => id,
        }
    }

    /// The id of this member within its own population.
    #[verifier::when_used_as_spec(spec_id)]
    pub fn id(&self) -> (id: u32)
        ensures
            id == self.spec_id(),
    {
        match self {
            Entry::B(id) => *id,
            Entry::R(id) => *id,
        }
    }

    /// The population of this member, in contracts.
    pub open spec fn spec_side(&self) -> Side {
        match *self {
            Entry::B(_) => Side::B,
            Entry::R(_) => Side::R,
        }
    }

    /// The population this member belongs to.
    #[verifier::when_used_as_spec(spec_side)]
    pub fn side(&self) -> (side: Side)
        ensures
            side == self.spec_side(),
    {
        match self {
            Entry::B(_) => Side::B,
            Entry::R(_) => Side::R,
        }
    }
}

} // verus!
