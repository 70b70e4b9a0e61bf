use vstd::prelude::*;

verus! {

/// A handle to an entity: the index of its slot in the entity registry.
#[derive(Clone, Copy, Debug, PartialEq, Eq, Hash, Structural)]
pub struct Entity {
    pub registry_index: u32,
}

impl Entity {
    pub fn new(registry_index: u32) -> (e: Entity)
        ensures
            e.registry_index == registry_index,
    {
        Entity { registry_index }
    }

    pub fn registry_index(&self) -> (r: u32)
        ensures
            r == self.registry_index,
    {
        self.registry_index
    }
}

} // verus!
