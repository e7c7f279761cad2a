use vstd::prelude::*;

verus! {

/// An entity: the identifier of a row of the table.
#[derive(Debug, Clone, Copy, PartialEq, Eq, PartialOrd, Ord, Hash, Structural)]
pub struct Entity(pub usize);

impl Entity {
    pub fn new(id: usize) -> (r: Entity)
        ensures
            r.0 == id,
    {
        Entity(id)
    }

    pub fn id(&self) -> (r: usize)
        ensures
            r == self.0,
    {
        self.0
    }
}

/// The component that records the parent of an entity.
#[derive(Debug, Clone, Copy, PartialEq, Eq, Structural)]
pub struct Parent {
    pub parent: Entity,
}

impl Parent {
    pub fn new(parent: Entity) -> (r: Parent)
        ensures
            r.parent == parent,
    {
        Parent { parent }
    }
}

} // verus!
