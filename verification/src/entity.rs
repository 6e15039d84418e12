//! Entities are opaque identifiers: a bare index into the component
//! storages, with no data of their own.

use vstd::prelude::*;

verus! {

/// An entity identifier; all state lives in components keyed by it.
#[derive(Clone, Copy, PartialEq, Eq, Structural, Hash, Debug)]
pub struct Entity {
    pub index: u32,
}

impl Entity {
    pub fn new(index: u32) -> (e: Entity)
        ensures
            e.index == index,
    {
        Entity { index }
    }
}

/// True when `a` and `b` are different entities.
pub(crate) fn entity_differs(a: Entity, b: Entity) -> (r: bool)
    ensures
        r == (a != b),
{
    a.index != b.index
}

} // verus!
