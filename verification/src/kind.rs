//! The closed set of resource kinds a grid cell can hold.

use vstd::prelude::*;

verus! {

/// Number of resource kinds; every probability vector has this many slots.
pub const KIND_COUNT: usize = 5;

/// Ground-truth contents of one grid cell.
#[derive(Clone, Copy, PartialEq, Eq, Structural, Debug)]
pub enum ResourceKind {
    Empty,
    Food,
    Water,
    Stone,
    Specter,
}

impl ResourceKind {
    /// Slot of this kind in a probability vector.
    pub open spec fn index_spec(self) -> int {
        match self {
            ResourceKind::Empty => 0,
            ResourceKind::Food => 1,
            ResourceKind::Water => 2,
            ResourceKind::Stone => 3,
            ResourceKind::Specter => 4,
        }
    }

    pub fn index(self) -> (i: usize)
        ensures
            i == self.index_spec(),
            i < KIND_COUNT,
    {
        match self {
            ResourceKind::Empty => 0,
            ResourceKind::Food => 1,
            ResourceKind::Water => 2,
            ResourceKind::Stone => 3,
            ResourceKind::Specter => 4,
        }
    }

    /// Kind occupying slot `i`; the inverse of `index_spec` below `KIND_COUNT`.
    pub open spec fn from_index_spec(i: int) -> ResourceKind {
        if i == 0 {
            ResourceKind::Empty
        } else if i == 1 {
            ResourceKind::Food
        } else if i == 2 {
            ResourceKind::Water
        } else if i == 3 {
            ResourceKind::Stone
        } else {
            ResourceKind::Specter
        }
    }

    pub fn from_index(i: usize) -> (k: ResourceKind)
        requires
            i < KIND_COUNT,
        ensures
            k == Self::from_index_spec(i as int),
            k.index_spec() == i,
    {
        if i == 0 {
            ResourceKind::Empty
        } else if i == 1 {
            ResourceKind::Food
        } else if i == 2 {
            ResourceKind::Water
        } else if i == 3 {
            ResourceKind::Stone
        } else {
            ResourceKind::Specter
        }
    }
}

/// Indexing by a kind and mapping an index back are mutually inverse.
pub proof fn lemma_kind_index_bijective(k: ResourceKind, i: int)
    ensures
        0 <= k.index_spec() < KIND_COUNT,
        ResourceKind::from_index_spec(k.index_spec()) == k,
        0 <= i < KIND_COUNT ==> ResourceKind::from_index_spec(i).index_spec() == i,
{
}

} // verus!
