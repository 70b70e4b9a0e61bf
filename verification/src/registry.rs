//! Where every entity lives, and how many handles to it are alive.
use vstd::prelude::*;

use crate::archetypes::ArchetypeId;
use crate::entity::Entity;

verus! {

/// The archetype and row an entity is stored at.
#[derive(Clone, Copy, Debug, PartialEq, Eq, Structural)]
pub struct RegistryData {
    pub archetype_id: ArchetypeId,
    pub idx: u32,
}

/// One slot per entity index: its location and its live handle count.
pub struct EntityRegistry {
    data: Vec<RegistryData>,
    handle_counts: Vec<u32>,
}

impl EntityRegistry {
    /// The location of each entity index.
    pub closed spec fn locations(&self) -> Seq<RegistryData> {
        self.data@
    }

    /// The live handle count of each entity index.
    pub closed spec fn counts(&self) -> Seq<u32> {
        self.handle_counts@
    }

    pub fn new() -> (r: Self)
        ensures
            r.locations() == Seq::<RegistryData>::empty(),
            r.counts() == Seq::<u32>::empty(),
    {
        EntityRegistry { data: Vec::new(), handle_counts: Vec::new() }
    }

    pub fn len(&self) -> (n: usize)
        ensures
            n == self.locations().len(),
    {
        self.data.len()
    }

    /// Adds a slot for a new entity index with its location and handle count.
    pub fn push(&mut self, cell: RegistryData, count: u32)
        ensures
            final(self).locations() == old(self).locations().push(cell),
            final(self).counts() == old(self).counts().push(count),
    {
        self.data.push(cell);
        self.handle_counts.push(count);
    }

    pub fn get(&self, index: usize) -> (d: RegistryData)
        requires
            (index as int) < self.locations().len(),
        ensures
            d == self.locations()[index as int],
    {
        self.data[index]
    }

    /// Records that entity index `index` now lives at `cell`.
    pub fn set(&mut self, index: usize, cell: RegistryData)
        requires
            (index as int) < old(self).locations().len(),
        ensures
            final(self).locations() == old(self).locations().update(index as int, cell),
            final(self).counts() == old(self).counts(),
    {
        self.data.set(index, cell);
    }

    pub fn get_count(&self, index: usize) -> (c: u32)
        requires
            (index as int) < self.counts().len(),
        ensures
            c == self.counts()[index as int],
    {
        self.handle_counts[index]
    }

    /// Moves the handle count of `index` one up or one down, wrapping as an
    /// atomic counter does.
    fn adjust_count(&mut self, index: usize, up: bool)
        requires
            (index as int) < old(self).counts().len(),
        ensures
            final(self).locations() == old(self).locations(),
            final(self).counts() == old(self).counts().update(
                index as int,
                if up {
                    ((old(self).counts()[index as int] as int + 1) % 0x1_0000_0000int) as u32
                } else {
                    ((old(self).counts()[index as int] as int - 1 + 0x1_0000_0000int) % 0x1_0000_0000int) as u32
                },
            ),
    {
        let c = self.handle_counts[index];
        let next = if up {
            c.wrapping_add(1)
        } else {
            c.wrapping_sub(1)
        };
        self.handle_counts.set(index, next);
    }

    /// Makes another handle to `entity`, counting it.
    pub fn clone_handle(&mut self, entity: &Entity) -> (e: Entity)
        requires
            (entity.registry_index as int) < old(self).counts().len(),
        ensures
            e == *entity,
            final(self).locations() == old(self).locations(),
            final(self).counts() == old(self).counts().update(
                entity.registry_index as int,
                ((old(self).counts()[entity.registry_index as int] as int + 1) % 0x1_0000_0000int) as u32,
            ),
    {
        self.adjust_count(entity.registry_index as usize, true);
        Entity::new(entity.registry_index)
    }

    /// Gives up a handle to an entity.
    pub fn drop_handle(&mut self, entity: Entity)
        requires
            (entity.registry_index as int) < old(self).counts().len(),
        ensures
            final(self).locations() == old(self).locations(),
            final(self).counts() == old(self).counts().update(
                entity.registry_index as int,
                ((old(self).counts()[entity.registry_index as int] as int - 1 + 0x1_0000_0000int) % 0x1_0000_0000int) as u32,
            ),
    {
        self.adjust_count(entity.registry_index as usize, false);
    }

    /// Takes one from the handle count of `index`, as a despawn gives up the
    /// handle its command held.
    pub fn decrement_handle(&mut self, index: usize)
        requires
            (index as int) < old(self).counts().len(),
        ensures
            final(self).locations() == old(self).locations(),
            final(self).counts() == old(self).counts().update(
                index as int,
                ((old(self).counts()[index as int] as int - 1 + 0x1_0000_0000int) % 0x1_0000_0000int) as u32,
            ),
    {
        self.adjust_count(index, false);
    }
}

/// Making a handle and giving it up again leaves every count as it was.
pub proof fn lemma_clone_then_drop_restores(counts: Seq<u32>, i: int)
    requires
        0 <= i < counts.len(),
    ensures
        ({
            let up = counts.update(i, ((counts[i] as int + 1) % 0x1_0000_0000int) as u32);
            let down = up.update(i, ((up[i] as int - 1 + 0x1_0000_0000int) % 0x1_0000_0000int) as u32);
            down == counts
        }),
{
    let up = counts.update(i, ((counts[i] as int + 1) % 0x1_0000_0000int) as u32);
    let down = up.update(i, ((up[i] as int - 1 + 0x1_0000_0000int) % 0x1_0000_0000int) as u32);
    assert(down[i] == counts[i]) by {
        if counts[i] == u32::MAX {
            assert(up[i] == 0);
        } else {
            assert(up[i] == counts[i] + 1);
        }
    }
    assert(down =~= counts);
}

} // verus!
