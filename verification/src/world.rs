//! The world's bookkeeping between frames: the archetypes, the entity
//! registry, which flag slot is read this frame, and the removal buffers of
//! the components tracked by removal.
use vstd::prelude::*;

use crate::archetypes::{
    added_rows_cleared, bundle_types, set_hash, changed_row_set, changed_rows_cleared, row_pushed, row_swap_removed, Archetype,
    ArchetypeId, ArchetypeManager,
};
use crate::collections::{id_set_get_index, id_set_insert, id_set_items, id_set_len, id_set_new};
use crate::entity::Entity;
use indexmap::IndexSet;
use rustc_hash::FxBuildHasher;
use crate::events::{event_registered, events_distinct, TrackedEvents, TrackedEventsMeta};
use crate::reactivity::{
    lemma_added_marker_len, lemma_changed_marker_len, register_entry, CurrentBufferIdx, MarkerKind,
    Mut, RemovedComponentsBuffer, TrackedComponentMeta, TrackedComponents,
};
use crate::registry::{EntityRegistry, RegistryData};

verus! {

/// A removal buffer after a frame ended: last frame's removals dropped,
/// this frame's readable, nothing pending.
pub open spec fn removal_swapped(before: RemovedComponentsBuffer, after: RemovedComponentsBuffer) -> bool {
    &&& after.readable() == before.pending()
    &&& after.pending() == Seq::<Entity>::empty()
}

/// A removal buffer after the entities listed in `dead` were despawned.
pub open spec fn removal_pruned(
    before: RemovedComponentsBuffer,
    after: RemovedComponentsBuffer,
    dead: Seq<u32>,
) -> bool {
    &&& after.readable() == before.readable().filter(|e: Entity| !dead.contains(e.registry_index))
    &&& after.pending() == before.pending().filter(|e: Entity| !dead.contains(e.registry_index))
}

/// An archetype after a frame ended whose new write slot is `slot`: the same
/// rows and columns, with every flag of that slot lowered.
pub open spec fn archetype_cleared(before: Archetype, after: Archetype, slot: int) -> bool {
    &&& after.entities() == before.entities()
    &&& after.types() == before.types()
    &&& after.added_columns().len() == before.added_columns().len()
    &&& after.changed_columns().len() == before.changed_columns().len()
    &&& forall|c: int| 0 <= c < before.added_columns().len() ==> #[trigger] after.added_columns()[c].marker_id
        == before.added_columns()[c].marker_id && added_rows_cleared(
        before.added_columns()[c].rows@,
        after.added_columns()[c].rows@,
        slot,
    )
    &&& forall|c: int| 0 <= c < before.changed_columns().len() ==> #[trigger] after.changed_columns()[c].marker_id
        == before.changed_columns()[c].marker_id && changed_rows_cleared(
        before.changed_columns()[c].rows@,
        after.changed_columns()[c].rows@,
        slot,
    )
}

/// The handle count one below `c`, wrapping as an atomic counter does.
pub open spec fn count_down(c: u32) -> u32 {
    ((c as int - 1 + 0x1_0000_0000int) % 0x1_0000_0000int) as u32
}

/// The handle counts after each despawned entity gave up one handle.
pub open spec fn counts_after_despawns(counts: Seq<u32>, dead: Seq<Entity>) -> Seq<u32>
    decreases dead.len(),
{
    if dead.len() == 0 {
        counts
    } else {
        let c = counts_after_despawns(counts, dead.drop_last());
        let i = dead.last().registry_index as int;
        c.update(i, count_down(c[i]))
    }
}

/// The registry indices of a list of entities.
pub open spec fn entity_indices(dead: Seq<Entity>) -> Seq<u32> {
    dead.map_values(|e: Entity| e.registry_index)
}

/// The world after a frame ended: the flag slots traded places, every flag
/// of the new write slot was lowered, and each removal buffer moved on one
/// frame; nothing else changed.
pub open spec fn frame_ended(before: World, after: World) -> bool {
    &&& after.read_slot() == 1 - before.read_slot()
    &&& after.archetypes().index() == before.archetypes().index()
    &&& after.archetypes().archetypes().len() == before.archetypes().archetypes().len()
    &&& forall|i: int| 0 <= i < before.archetypes().archetypes().len() ==> archetype_cleared(
        #[trigger] before.archetypes().archetypes()[i],
        after.archetypes().archetypes()[i],
        before.read_slot(),
    )
    &&& after.removal_ids() == before.removal_ids()
    &&& after.removal_buffers().len() == before.removal_buffers().len()
    &&& forall|i: int| 0 <= i < before.removal_buffers().len() ==> removal_swapped(
        #[trigger] before.removal_buffers()[i],
        after.removal_buffers()[i],
    )
    &&& after.registry() == before.registry()
    &&& after.tracked_components() == before.tracked_components()
    &&& after.tracked_events() == before.tracked_events()
    &&& after.free_indices() == before.free_indices()
}

/// The two `Changed` flags of row `row` in column `c` of archetype `a`.
pub open spec fn changed_flags(w: World, a: int, c: int, row: int) -> Seq<bool> {
    w.archetypes().archetypes()[a].changed_columns()[c].rows@[row]@
}

/// The two `Added` flags of row `row` in column `c` of archetype `a`.
pub open spec fn added_flags(w: World, a: int, c: int, row: int) -> Seq<bool> {
    w.archetypes().archetypes()[a].added_columns()[c].rows@[row]@
}

/// Row `row` of `Changed` column `c` of archetype `a` exists.
pub open spec fn changed_row_exists(w: World, a: int, c: int, row: int) -> bool {
    &&& 0 <= a < w.archetypes().archetypes().len()
    &&& 0 <= c < w.archetypes().archetypes()[a].changed_columns().len()
    &&& 0 <= row < w.archetypes().archetypes()[a].changed_columns()[c].rows@.len()
}

/// Row `row` of `Added` column `c` of archetype `a` exists.
pub open spec fn added_row_exists(w: World, a: int, c: int, row: int) -> bool {
    &&& 0 <= a < w.archetypes().archetypes().len()
    &&& 0 <= c < w.archetypes().archetypes()[a].added_columns().len()
    &&& 0 <= row < w.archetypes().archetypes()[a].added_columns()[c].rows@.len()
}

/// A change flagged during a frame is hidden from that frame's queries, is
/// seen by the queries of the next frame, and by none of the frame after
/// when nothing flags it again.
pub proof fn lemma_change_visible_for_one_frame(w0: World, w1: World, w2: World, a: int, c: int, row: int)
    requires
        w0.wf(),
        frame_ended(w0, w1),
        frame_ended(w1, w2),
        changed_row_exists(w0, a, c, row),
        changed_flags(w0, a, c, row)[1 - w0.read_slot()],
    ensures
        changed_row_exists(w1, a, c, row),
        changed_row_exists(w2, a, c, row),
        changed_flags(w1, a, c, row)[w1.read_slot()],
        !changed_flags(w2, a, c, row)[w2.read_slot()],
        !changed_flags(w2, a, c, row)[1 - w2.read_slot()],
{
    let arch0 = w0.archetypes().archetypes()[a];
    let arch1 = w1.archetypes().archetypes()[a];
    let arch2 = w2.archetypes().archetypes()[a];
    assert(archetype_cleared(arch0, arch1, w0.read_slot()));
    assert(arch1.changed_columns()[c].marker_id == arch0.changed_columns()[c].marker_id);
    assert(archetype_cleared(arch1, arch2, w1.read_slot()));
    assert(arch2.changed_columns()[c].marker_id == arch1.changed_columns()[c].marker_id);
    lemma_changed_marker_len(arch0.changed_columns()[c].rows@[row]);
    assert(changed_flags(w1, a, c, row) == changed_flags(w0, a, c, row).update(w0.read_slot(), false));
    assert(changed_flags(w2, a, c, row) == changed_flags(w1, a, c, row).update(w1.read_slot(), false));
}

/// A row added during a frame is hidden from that frame's `Added` queries,
/// is seen by those of the next frame, and by none of the frame after.
pub proof fn lemma_addition_visible_for_one_frame(w0: World, w1: World, w2: World, a: int, c: int, row: int)
    requires
        w0.wf(),
        frame_ended(w0, w1),
        frame_ended(w1, w2),
        added_row_exists(w0, a, c, row),
        added_flags(w0, a, c, row)[1 - w0.read_slot()],
    ensures
        added_row_exists(w1, a, c, row),
        added_row_exists(w2, a, c, row),
        added_flags(w1, a, c, row)[w1.read_slot()],
        !added_flags(w2, a, c, row)[w2.read_slot()],
        !added_flags(w2, a, c, row)[1 - w2.read_slot()],
{
    let arch0 = w0.archetypes().archetypes()[a];
    let arch1 = w1.archetypes().archetypes()[a];
    let arch2 = w2.archetypes().archetypes()[a];
    assert(archetype_cleared(arch0, arch1, w0.read_slot()));
    assert(arch1.added_columns()[c].marker_id == arch0.added_columns()[c].marker_id);
    assert(archetype_cleared(arch1, arch2, w1.read_slot()));
    assert(arch2.added_columns()[c].marker_id == arch1.added_columns()[c].marker_id);
    lemma_added_marker_len(arch0.added_columns()[c].rows@[row]);
    assert(added_flags(w1, a, c, row) == added_flags(w0, a, c, row).update(w0.read_slot(), false));
    assert(added_flags(w2, a, c, row) == added_flags(w1, a, c, row).update(w1.read_slot(), false));
}

/// The registry knows where `e` lives, and `e` lives there.
pub open spec fn located(w: World, e: Entity) -> bool {
    let i = e.registry_index as int;
    let loc = w.registry().locations()[i];
    &&& i < w.registry().locations().len()
    &&& i < w.registry().counts().len()
    &&& (loc.archetype_id.0 as int) < w.archetypes().archetypes().len()
    &&& (loc.idx as int) < w.archetypes().archetypes()[loc.archetype_id.0 as int].entities().len()
    &&& w.archetypes().archetypes()[loc.archetype_id.0 as int].entities()[loc.idx as int] == e
}

/// Every entity stored in archetype `a` has a registry slot.
pub open spec fn archetype_registered(w: World, a: int) -> bool {
    forall|k: int|
        0 <= k < w.archetypes().archetypes()[a].entities().len() ==> (#[trigger] w.archetypes().archetypes()[a].entities()[k].registry_index as int)
            < w.registry().locations().len()
}

/// `after` is `before` once `entity` was despawned: its row left its
/// archetype, the last row moving into its place and the registry following
/// the moved entity, and its index was freed.
pub open spec fn despawned(before: World, after: World, entity: Entity) -> bool {
    let loc = before.registry().locations()[entity.registry_index as int];
    let a = loc.archetype_id.0 as int;
    let arch = before.archetypes().archetypes()[a];
    let moved = arch.entities().last();
    &&& row_swap_removed(arch, after.archetypes().archetypes()[a], loc.idx as int)
    &&& (loc.idx as int) < arch.entities().len() - 1 ==> after.registry().locations()
        == before.registry().locations().update(
            moved.registry_index as int,
            RegistryData { archetype_id: loc.archetype_id, idx: loc.idx },
        )
    &&& (loc.idx as int) == arch.entities().len() - 1 ==> after.registry().locations() == before.registry().locations()
    &&& after.archetypes().archetypes().len() == before.archetypes().archetypes().len()
    &&& forall|i: int| 0 <= i < before.archetypes().archetypes().len() && i != a
        ==> #[trigger] after.archetypes().archetypes()[i] == before.archetypes().archetypes()[i]
    &&& after.archetypes().index() == before.archetypes().index()
    &&& after.registry().counts() == before.registry().counts()
    &&& after.free_indices() == before.free_indices().push(entity.registry_index)
}

/// The registry points every entity of archetype `a` at its own row.
pub open spec fn archetype_consistent(w: World, a: int) -> bool {
    forall|k: int|
        0 <= k < w.archetypes().archetypes()[a].entities().len() ==> {
            let e = #[trigger] w.archetypes().archetypes()[a].entities()[k];
            &&& (e.registry_index as int) < w.registry().locations().len()
            &&& w.registry().locations()[e.registry_index as int]
                == (RegistryData { archetype_id: w.archetypes().archetypes()[a].id_spec(), idx: k as u32 })
        }
}

/// Despawning an entity keeps the registry pointing every entity left in
/// its archetype at its own row.
pub proof fn lemma_despawn_keeps_registry_consistent(w0: World, w1: World, entity: Entity)
    requires
        w0.wf(),
        located(w0, entity),
        archetype_consistent(w0, w0.registry().locations()[entity.registry_index as int].archetype_id.0 as int),
        w0.archetypes().archetypes()[w0.registry().locations()[entity.registry_index as int].archetype_id.0 as int].entities().len()
            <= u32::MAX,
        despawned(w0, w1, entity),
    ensures
        archetype_consistent(w1, w0.registry().locations()[entity.registry_index as int].archetype_id.0 as int),
{
    let loc = w0.registry().locations()[entity.registry_index as int];
    let a = loc.archetype_id.0 as int;
    let arch = w0.archetypes().archetypes()[a];
    let arch1 = w1.archetypes().archetypes()[a];
    let n = arch.entities().len();
    let row = loc.idx as int;
    let moved = arch.entities().last();
    assert(arch.entities()[n - 1] == moved);
    assert(w0.registry().locations()[moved.registry_index as int] == (RegistryData { archetype_id: arch.id_spec(), idx: (n - 1) as u32 }));
    assert forall|k: int| 0 <= k < arch1.entities().len() implies {
        let e = #[trigger] arch1.entities()[k];
        &&& (e.registry_index as int) < w1.registry().locations().len()
        &&& w1.registry().locations()[e.registry_index as int]
            == (RegistryData { archetype_id: arch1.id_spec(), idx: k as u32 })
    } by {
        let e = arch1.entities()[k];
        if k == row {
            assert(e == moved);
            if row < n - 1 {
                assert(w0.archetypes().archetypes()[a].id_spec().0 == a) by {
                    w0.archetypes().lemma_wf();
                }
                assert(loc.archetype_id == arch.id_spec());
            }
        } else {
            assert(e == arch.entities()[k]);
            assert(w0.registry().locations()[e.registry_index as int] == (RegistryData { archetype_id: arch.id_spec(), idx: k as u32 }));
            if row < n - 1 {
                assert(e.registry_index != moved.registry_index) by {
                    if e.registry_index == moved.registry_index {
                        assert(k as u32 == k);
                        assert((n - 1) as u32 == n - 1);
                    }
                }
            }
        }
    }
}

/// Each world in `ws` is the one before it after a frame ended, with
/// nothing flagged in between.
pub open spec fn frames_run(ws: Seq<World>) -> bool {
    forall|k: int| 0 <= k < ws.len() - 1 ==> frame_ended(#[trigger] ws[k], ws[k + 1])
}

/// A `Changed` row with neither flag raised stays so across a frame end.
proof fn lemma_changed_row_stays_clear(w0: World, w1: World, a: int, c: int, row: int)
    requires
        frame_ended(w0, w1),
        0 <= w0.read_slot() <= 1,
        changed_row_exists(w0, a, c, row),
        !changed_flags(w0, a, c, row)[0],
        !changed_flags(w0, a, c, row)[1],
    ensures
        changed_row_exists(w1, a, c, row),
        !changed_flags(w1, a, c, row)[0],
        !changed_flags(w1, a, c, row)[1],
{
    let arch0 = w0.archetypes().archetypes()[a];
    let arch1 = w1.archetypes().archetypes()[a];
    assert(archetype_cleared(arch0, arch1, w0.read_slot()));
    assert(arch1.changed_columns()[c].marker_id == arch0.changed_columns()[c].marker_id);
    lemma_changed_marker_len(arch0.changed_columns()[c].rows@[row]);
    let f0 = changed_flags(w0, a, c, row);
    let f1 = changed_flags(w1, a, c, row);
    assert(f1 == f0.update(w0.read_slot(), false));
    assert(f0.len() == 2);
    assert(!f1[0]) by {
        if w0.read_slot() != 0 {
            assert(f1[0] == f0[0]);
        }
    }
    assert(!f1[1]) by {
        if w0.read_slot() != 1 {
            assert(f1[1] == f0[1]);
        }
    }
}

/// An `Added` row with neither flag raised stays so across a frame end.
proof fn lemma_added_row_stays_clear(w0: World, w1: World, a: int, c: int, row: int)
    requires
        frame_ended(w0, w1),
        0 <= w0.read_slot() <= 1,
        added_row_exists(w0, a, c, row),
        !added_flags(w0, a, c, row)[0],
        !added_flags(w0, a, c, row)[1],
    ensures
        added_row_exists(w1, a, c, row),
        !added_flags(w1, a, c, row)[0],
        !added_flags(w1, a, c, row)[1],
{
    let arch0 = w0.archetypes().archetypes()[a];
    let arch1 = w1.archetypes().archetypes()[a];
    assert(archetype_cleared(arch0, arch1, w0.read_slot()));
    assert(arch1.added_columns()[c].marker_id == arch0.added_columns()[c].marker_id);
    lemma_added_marker_len(arch0.added_columns()[c].rows@[row]);
    let f0 = added_flags(w0, a, c, row);
    let f1 = added_flags(w1, a, c, row);
    assert(f1 == f0.update(w0.read_slot(), false));
    assert(f0.len() == 2);
    assert(!f1[0]) by {
        if w0.read_slot() != 0 {
            assert(f1[0] == f0[0]);
        }
    }
    assert(!f1[1]) by {
        if w0.read_slot() != 1 {
            assert(f1[1] == f0[1]);
        }
    }
}

/// A change flagged during the first of a run of frames, and flagged never
/// again, is seen during the second frame and in no frame after it.
pub proof fn lemma_change_unseen_in_every_later_frame(ws: Seq<World>, a: int, c: int, row: int, k: int)
    requires
        ws.len() >= 3,
        ws[0].wf(),
        frames_run(ws),
        changed_row_exists(ws[0], a, c, row),
        changed_flags(ws[0], a, c, row)[1 - ws[0].read_slot()],
        2 <= k < ws.len(),
    ensures
        changed_flags(ws[1], a, c, row)[ws[1].read_slot()],
        changed_row_exists(ws[k], a, c, row),
        !changed_flags(ws[k], a, c, row)[0],
        !changed_flags(ws[k], a, c, row)[1],
        0 <= ws[k].read_slot() <= 1,
    decreases k,
{
    assert(frame_ended(ws[0], ws[1]));
    assert(frame_ended(ws[1], ws[2]));
    lemma_change_visible_for_one_frame(ws[0], ws[1], ws[2], a, c, row);
    lemma_changed_marker_len(ws[2].archetypes().archetypes()[a].changed_columns()[c].rows@[row]);
    assert(ws[2].read_slot() == ws[0].read_slot());
    if k > 2 {
        lemma_change_unseen_in_every_later_frame(ws, a, c, row, k - 1);
        assert(frame_ended(ws[k - 1], ws[k]));
        lemma_changed_row_stays_clear(ws[k - 1], ws[k], a, c, row);
    }
}

/// A row added during the first of a run of frames is seen by `Added`
/// during the second frame and in no frame after it.
pub proof fn lemma_addition_unseen_in_every_later_frame(ws: Seq<World>, a: int, c: int, row: int, k: int)
    requires
        ws.len() >= 3,
        ws[0].wf(),
        frames_run(ws),
        added_row_exists(ws[0], a, c, row),
        added_flags(ws[0], a, c, row)[1 - ws[0].read_slot()],
        2 <= k < ws.len(),
    ensures
        added_flags(ws[1], a, c, row)[ws[1].read_slot()],
        added_row_exists(ws[k], a, c, row),
        !added_flags(ws[k], a, c, row)[0],
        !added_flags(ws[k], a, c, row)[1],
        0 <= ws[k].read_slot() <= 1,
    decreases k,
{
    assert(frame_ended(ws[0], ws[1]));
    assert(frame_ended(ws[1], ws[2]));
    lemma_addition_visible_for_one_frame(ws[0], ws[1], ws[2], a, c, row);
    lemma_added_marker_len(ws[2].archetypes().archetypes()[a].added_columns()[c].rows@[row]);
    assert(ws[2].read_slot() == ws[0].read_slot());
    if k > 2 {
        lemma_addition_unseen_in_every_later_frame(ws, a, c, row, k - 1);
        assert(frame_ended(ws[k - 1], ws[k]));
        lemma_added_row_stays_clear(ws[k - 1], ws[k], a, c, row);
    }
}

/// No event type is registered twice with the world.
pub proof fn lemma_events_registered_once(w: World)
    requires
        w.wf(),
    ensures
        events_distinct(w.tracked_events()),
{
}

/// A removal recorded during a frame is listed throughout the next frame
/// and dropped when that one ends, if nothing is recorded meanwhile.
pub proof fn lemma_removal_listed_for_one_frame(
    b0: RemovedComponentsBuffer,
    b1: RemovedComponentsBuffer,
    b2: RemovedComponentsBuffer,
    b3: RemovedComponentsBuffer,
    e: Entity,
)
    requires
        b1.pending() == b0.pending().push(e),
        b1.readable() == b0.readable(),
        removal_swapped(b1, b2),
        removal_swapped(b2, b3),
    ensures
        b2.readable().contains(e),
        b3.readable() == Seq::<Entity>::empty(),
{
    assert(b2.readable()[b0.pending().len() as int] == e);
}

/// What the world keeps between frames.
pub struct World {
    archetypes_manager: ArchetypeManager,
    registry: EntityRegistry,
    free_indices_list: Vec<u32>,
    buffer: CurrentBufferIdx,
    tracked_components: TrackedComponents,
    removal_ids: IndexSet<u64, FxBuildHasher>,
    removal_buffers: Vec<RemovedComponentsBuffer>,
    tracked_events: TrackedEvents,
}

impl World {
    pub closed spec fn archetypes(&self) -> ArchetypeManager {
        self.archetypes_manager
    }

    pub closed spec fn registry(&self) -> EntityRegistry {
        self.registry
    }

    pub closed spec fn free_indices(&self) -> Seq<u32> {
        self.free_indices_list@
    }

    /// The flag slot queries read this frame.
    pub closed spec fn read_slot(&self) -> int {
        self.buffer.read_slot()
    }

    pub closed spec fn tracked_components(&self) -> TrackedComponents {
        self.tracked_components
    }

    /// The event types whose queues move on at the end of every frame.
    pub closed spec fn tracked_events(&self) -> Seq<TrackedEventsMeta> {
        self.tracked_events@
    }

    /// The components tracked by removal, in the order they were registered.
    pub closed spec fn removal_ids(&self) -> Seq<u64> {
        id_set_items(self.removal_ids)
    }

    /// Their removal buffers, in the same order.
    pub closed spec fn removal_buffers(&self) -> Seq<RemovedComponentsBuffer> {
        self.removal_buffers@
    }

    pub closed spec fn wf(&self) -> bool {
        &&& self.archetypes_manager.wf()
        &&& 0 <= self.buffer.read_slot() <= 1
        &&& id_set_items(self.removal_ids).len() == self.removal_buffers@.len()
        &&& id_set_items(self.removal_ids).no_duplicates()
        &&& events_distinct(self.tracked_events@)
    }

    /// An empty world, reading slot 1 in its first frame.
    pub fn new() -> (w: Self)
        ensures
            w.wf(),
            w.archetypes().archetypes() == Seq::<Archetype>::empty(),
            w.archetypes().index() == Map::<u64, u32>::empty(),
            w.registry().locations().len() == 0,
            w.registry().counts().len() == 0,
            w.free_indices() == Seq::<u32>::empty(),
            w.read_slot() == 1,
            w.tracked_components()@ == Seq::<(u64, crate::reactivity::TrackedComponentMeta)>::empty(),
            w.removal_ids() == Seq::<u64>::empty(),
            w.tracked_events() == Seq::<TrackedEventsMeta>::empty(),
    {
        let w = World {
            archetypes_manager: ArchetypeManager::new(),
            registry: EntityRegistry::new(),
            free_indices_list: Vec::new(),
            buffer: CurrentBufferIdx::new(),
            tracked_components: TrackedComponents::new(),
            removal_ids: id_set_new(),
            removal_buffers: Vec::new(),
            tracked_events: TrackedEvents::new(),
        };
        assert(id_set_items(w.removal_ids).no_duplicates());
        assert(events_distinct(w.tracked_events@));
        w
    }

    pub fn current_read_idx(&self) -> (r: u8)
        requires
            self.wf(),
        ensures
            r == self.read_slot(),
    {
        self.buffer.current_read_idx()
    }

    pub fn current_write_idx(&self) -> (w: u8)
        requires
            self.wf(),
        ensures
            w == 1 - self.read_slot(),
    {
        self.buffer.current_write_idx()
    }

    /// The entity registry, for commands that spawn, move or despawn.
    pub fn registry_mut(&mut self) -> (r: &mut EntityRegistry)
        ensures
            *r == old(self).registry(),
            final(self).registry() == *final(r),
            final(self).archetypes() == old(self).archetypes(),
            final(self).read_slot() == old(self).read_slot(),
            final(self).removal_ids() == old(self).removal_ids(),
            final(self).removal_buffers() == old(self).removal_buffers(),
            final(self).tracked_components() == old(self).tracked_components(),
            final(self).free_indices() == old(self).free_indices(),
            final(self).wf() == old(self).wf(),
    {
        &mut self.registry
    }

    /// The archetypes, for commands that spawn or move entities; the world
    /// stays well formed while they do.
    pub fn archetypes_mut(&mut self) -> (r: &mut ArchetypeManager)
        ensures
            *r == old(self).archetypes(),
            final(self).archetypes() == *final(r),
            final(self).registry() == old(self).registry(),
            final(self).read_slot() == old(self).read_slot(),
            final(self).removal_ids() == old(self).removal_ids(),
            final(self).removal_buffers() == old(self).removal_buffers(),
            final(self).tracked_components() == old(self).tracked_components(),
            final(self).free_indices() == old(self).free_indices(),
            old(self).wf() && final(r).wf() ==> final(self).wf(),
    {
        &mut self.archetypes_manager
    }

    /// The components tracked by `Added` or `Changed`.
    pub fn tracked_components_ref(&self) -> (r: &TrackedComponents)
        ensures
            *r == self.tracked_components(),
    {
        &self.tracked_components
    }

    /// The archetypes.
    pub fn archetypes_ref(&self) -> (r: &ArchetypeManager)
        ensures
            *r == self.archetypes(),
    {
        &self.archetypes_manager
    }

    /// The registered event types, in registration order.
    pub fn tracked_events_ref(&self) -> (r: &TrackedEvents)
        ensures
            r@ == self.tracked_events(),
    {
        &self.tracked_events
    }

    /// Registers event type `comp_id`, whose queues are resource `event_id`;
    /// a type already registered is left as it is.
    pub fn register_event(&mut self, comp_id: u64, event_id: u64)
        requires
            old(self).wf(),
        ensures
            final(self).wf(),
            event_registered(old(self).tracked_events(), comp_id) ==> final(self).tracked_events() == old(self).tracked_events(),
            !event_registered(old(self).tracked_events(), comp_id) ==> final(self).tracked_events()
                == old(self).tracked_events().push(TrackedEventsMeta { comp_id, event_id }),
            final(self).archetypes() == old(self).archetypes(),
            final(self).registry() == old(self).registry(),
            final(self).read_slot() == old(self).read_slot(),
            final(self).tracked_components() == old(self).tracked_components(),
            final(self).removal_ids() == old(self).removal_ids(),
            final(self).removal_buffers() == old(self).removal_buffers(),
    {
        self.tracked_events.register_event(comp_id, event_id);
    }

    /// Which flag slot is read this frame.
    pub fn buffer_ref(&self) -> (r: &CurrentBufferIdx)
        ensures
            r.read_slot() == self.read_slot(),
    {
        &self.buffer
    }

    /// Tracks `component_id` by a `Changed` flag column `marker_id`.
    pub fn register_tracked_component(&mut self, component_id: u64, marker_id: u64)
        requires
            old(self).wf(),
        ensures
            final(self).wf(),
            final(self).tracked_components()@ == register_entry(
                old(self).tracked_components()@,
                TrackedComponentMeta { component_id, marker_id, kind: MarkerKind::Changed },
            ),
            final(self).archetypes() == old(self).archetypes(),
            final(self).registry() == old(self).registry(),
            final(self).read_slot() == old(self).read_slot(),
            final(self).removal_ids() == old(self).removal_ids(),
            final(self).removal_buffers() == old(self).removal_buffers(),
    {
        self.tracked_components.register_tracked_component(component_id, marker_id);
    }

    /// Tracks `component_id` by an `Added` flag column `marker_id`.
    pub fn register_added_tracked_component(&mut self, component_id: u64, marker_id: u64)
        requires
            old(self).wf(),
        ensures
            final(self).wf(),
            final(self).tracked_components()@ == register_entry(
                old(self).tracked_components()@,
                TrackedComponentMeta { component_id, marker_id, kind: MarkerKind::Added },
            ),
            final(self).archetypes() == old(self).archetypes(),
            final(self).registry() == old(self).registry(),
            final(self).read_slot() == old(self).read_slot(),
            final(self).removal_ids() == old(self).removal_ids(),
            final(self).removal_buffers() == old(self).removal_buffers(),
    {
        self.tracked_components.register_added_tracked_component(component_id, marker_id);
    }

    /// The archetype of the components `ids` with the flag columns their
    /// tracking asks for, created when it does not exist yet.
    pub fn get_or_create_archetype(&mut self, ids: &[u64]) -> (id: ArchetypeId)
        requires
            old(self).wf(),
            old(self).archetypes().archetypes().len() < u32::MAX,
        ensures
            final(self).wf(),
            ({
                let types = bundle_types(ids@, old(self).tracked_components()@);
                &&& old(self).archetypes().lookup(types) matches Some(found) ==> id.0 == found
                    && final(self).archetypes() == old(self).archetypes()
                &&& old(self).archetypes().lookup(types) is None ==> {
                    &&& id.0 == old(self).archetypes().archetypes().len()
                    &&& final(self).archetypes().archetypes() == old(self).archetypes().archetypes().push(
                        final(self).archetypes().archetypes()[id.0 as int])
                    &&& final(self).archetypes().archetypes()[id.0 as int].types() == types
                }
                &&& final(self).archetypes().lookup(types) == Some(id.0)
                &&& (id.0 as int) < final(self).archetypes().archetypes().len()
                &&& set_hash(final(self).archetypes().archetypes()[id.0 as int].types()) == set_hash(types)
            }),
            final(self).tracked_components() == old(self).tracked_components(),
            final(self).registry() == old(self).registry(),
            final(self).read_slot() == old(self).read_slot(),
            final(self).removal_ids() == old(self).removal_ids(),
            final(self).removal_buffers() == old(self).removal_buffers(),
    {
        self.archetypes_manager.get_or_create_from_ids(ids, &self.tracked_components)
    }

    /// Stores `entity` in a new row of archetype `id`; the row counts as
    /// added this frame. Returns the row.
    pub fn push_entity(&mut self, id: ArchetypeId, entity: Entity) -> (row: usize)
        requires
            old(self).wf(),
            (id.0 as int) < old(self).archetypes().archetypes().len(),
        ensures
            final(self).wf(),
            row == old(self).archetypes().archetypes()[id.0 as int].entities().len(),
            row_pushed(
                old(self).archetypes().archetypes()[id.0 as int],
                final(self).archetypes().archetypes()[id.0 as int],
                entity,
                1 - old(self).read_slot(),
            ),
            final(self).archetypes().archetypes().len() == old(self).archetypes().archetypes().len(),
            forall|i: int| 0 <= i < old(self).archetypes().archetypes().len() && i != id.0
                ==> #[trigger] final(self).archetypes().archetypes()[i] == old(self).archetypes().archetypes()[i],
            final(self).archetypes().index() == old(self).archetypes().index(),
            final(self).tracked_components() == old(self).tracked_components(),
            final(self).registry() == old(self).registry(),
            final(self).read_slot() == old(self).read_slot(),
            final(self).removal_ids() == old(self).removal_ids(),
            final(self).removal_buffers() == old(self).removal_buffers(),
    {
        self.archetypes_manager.push_entity(id, entity, &self.buffer)
    }

    /// Writes row `row` of archetype `id` through tracked mutable access:
    /// the row's flag in `Changed` column `c` is raised in the write slot.
    pub fn mark_changed(&mut self, id: ArchetypeId, c: usize, row: usize)
        requires
            old(self).wf(),
            (id.0 as int) < old(self).archetypes().archetypes().len(),
            (c as int) < old(self).archetypes().archetypes()[id.0 as int].changed_columns().len(),
            (row as int) < old(self).archetypes().archetypes()[id.0 as int].changed_columns()[c as int].rows@.len(),
        ensures
            final(self).wf(),
            changed_row_set(
                old(self).archetypes().archetypes()[id.0 as int],
                final(self).archetypes().archetypes()[id.0 as int],
                c as int,
                row as int,
                old(self).archetypes().archetypes()[id.0 as int].changed_columns()[c as int].rows@[row as int]@.update(
                    1 - old(self).read_slot(), true),
            ),
            final(self).archetypes().archetypes().len() == old(self).archetypes().archetypes().len(),
            forall|i: int| 0 <= i < old(self).archetypes().archetypes().len() && i != id.0
                ==> #[trigger] final(self).archetypes().archetypes()[i] == old(self).archetypes().archetypes()[i],
            final(self).archetypes().index() == old(self).archetypes().index(),
            final(self).tracked_components() == old(self).tracked_components(),
            final(self).registry() == old(self).registry(),
            final(self).read_slot() == old(self).read_slot(),
            final(self).removal_ids() == old(self).removal_ids(),
            final(self).removal_buffers() == old(self).removal_buffers(),
    {
        let access = Mut::new(&self.buffer, true);
        self.archetypes_manager.trigger_change(id, c, row, &access);
    }

    /// Where the removal buffer of `component_id` stands, if it is tracked.
    pub fn removal_position(&self, component_id: u64) -> (r: Option<usize>)
        ensures
            r matches Some(i) ==> (i as int) < self.removal_ids().len() && self.removal_ids()[i as int] == component_id,
            r is None ==> !self.removal_ids().contains(component_id),
    {
        let n = id_set_len(&self.removal_ids);
        let mut i: usize = 0;
        while i < n
            invariant
                n == id_set_items(self.removal_ids).len(),
                i <= n,
                forall|j: int| 0 <= j < i ==> id_set_items(self.removal_ids)[j] != component_id,
            decreases n - i,
        {
            if id_set_get_index(&self.removal_ids, i) == Some(component_id) {
                return Some(i);
            }
            i += 1;
        }
        None
    }

    /// Starts tracking removals of `component_id`, with empty buffers. A
    /// component already tracked keeps its buffer.
    pub fn register_removal_tracking(&mut self, component_id: u64)
        requires
            old(self).wf(),
        ensures
            final(self).wf(),
            old(self).removal_ids().contains(component_id) ==> final(self).removal_ids() == old(self).removal_ids()
                && final(self).removal_buffers() == old(self).removal_buffers(),
            !old(self).removal_ids().contains(component_id) ==> {
                &&& final(self).removal_ids() == old(self).removal_ids().push(component_id)
                &&& final(self).removal_buffers().drop_last() == old(self).removal_buffers()
                &&& final(self).removal_buffers().last().readable() == Seq::<Entity>::empty()
                &&& final(self).removal_buffers().last().pending() == Seq::<Entity>::empty()
            },
            final(self).archetypes() == old(self).archetypes(),
            final(self).registry() == old(self).registry(),
            final(self).read_slot() == old(self).read_slot(),
    {
        match self.removal_position(component_id) {
            Some(_) => {},
            None => {
                id_set_insert(&mut self.removal_ids, component_id);
                self.removal_buffers.push(RemovedComponentsBuffer::new());
                assert(self.removal_buffers@.drop_last() =~= old(self).removal_buffers@);
                let ghost ids = id_set_items(self.removal_ids);
                assert(ids.no_duplicates()) by {
                    assert forall|a: int, b: int| 0 <= a < b < ids.len() implies ids[a] != ids[b] by {
                        if b == ids.len() - 1 {
                            assert(id_set_items(old(self).removal_ids)[a] == ids[a]);
                        }
                    }
                }
            },
        }
    }

    /// Records that `entity` lost `component_id`; it is listed next frame.
    /// Returns whether the component is tracked by removal.
    pub fn push_removed(&mut self, component_id: u64, entity: Entity) -> (recorded: bool)
        requires
            old(self).wf(),
        ensures
            final(self).wf(),
            recorded == old(self).removal_ids().contains(component_id),
            final(self).removal_ids() == old(self).removal_ids(),
            final(self).removal_buffers().len() == old(self).removal_buffers().len(),
            forall|i: int| 0 <= i < old(self).removal_buffers().len() ==> {
                if old(self).removal_ids()[i] == component_id {
                    &&& #[trigger] final(self).removal_buffers()[i].pending() == old(self).removal_buffers()[i].pending().push(entity)
                    &&& final(self).removal_buffers()[i].readable() == old(self).removal_buffers()[i].readable()
                } else {
                    final(self).removal_buffers()[i] == old(self).removal_buffers()[i]
                }
            },
            final(self).archetypes() == old(self).archetypes(),
            final(self).registry() == old(self).registry(),
            final(self).read_slot() == old(self).read_slot(),
    {
        match self.removal_position(component_id) {
            Some(i) => {
                self.removal_buffers[i].push_to_write_queue(entity);
                assert forall|j: int| 0 <= j < old(self).removal_buffers().len() && old(self).removal_ids()[j] == component_id implies j == i by {
                    if j != i {
                        assert(old(self).removal_ids()[j] != old(self).removal_ids()[i as int]);
                    }
                }
                true
            },
            None => {
                assert forall|j: int| 0 <= j < old(self).removal_buffers().len() implies old(self).removal_ids()[j] != component_id by {
                    assert(old(self).removal_ids().contains(old(self).removal_ids()[j]));
                }
                false
            },
        }
    }

    /// The entities that lost `component_id` last frame, if it is tracked.
    pub fn removed(&self, component_id: u64) -> (r: Option<&[Entity]>)
        requires
            self.wf(),
        ensures
            !self.removal_ids().contains(component_id) ==> r is None,
            self.removal_ids().contains(component_id) ==> exists|i: int| {
                &&& 0 <= i < self.removal_ids().len()
                &&& #[trigger] self.removal_ids()[i] == component_id
                &&& r matches Some(s) && s@ == self.removal_buffers()[i].readable()
            },
    {
        match self.removal_position(component_id) {
            Some(i) => Some(self.removal_buffers[i].iter()),
            None => None,
        }
    }

    /// Whether the query's terms conflict among themselves; the components it
    /// tracks are registered with the world either way.
    pub fn parallel_query_conflicts<F: crate::filter::QueryFilter>(
        &mut self,
        terms: &[crate::query::QueryTerm],
        filter: &F,
    ) -> (r: bool)
        requires
            old(self).wf(),
        ensures
            final(self).wf(),
            r == crate::system::query_self_conflicts(crate::query::terms_reads(terms@), crate::query::terms_writes(terms@)),
            final(self).tracked_components()@ == filter.registered(crate::query::terms_registered(terms@, old(self).tracked_components()@)),
            final(self).archetypes() == old(self).archetypes(),
            final(self).registry() == old(self).registry(),
            final(self).read_slot() == old(self).read_slot(),
            final(self).removal_ids() == old(self).removal_ids(),
            final(self).removal_buffers() == old(self).removal_buffers(),
            final(self).free_indices() == old(self).free_indices(),
    {
        crate::query::parallel_query_conflicts(terms, filter, &mut self.tracked_components)
    }

    /// Declares a query parameter's accesses to its system, registering the
    /// tracking it reads with this world; refused when it conflicts with
    /// itself or with an earlier query of the system that it is not
    /// filtered apart from.
    pub fn init_query_access<F: crate::filter::QueryFilter>(
        &mut self,
        system_meta: &mut crate::system::SystemMeta,
        terms: &[crate::query::QueryTerm],
        filter: &F,
    ) -> (r: Result<(), crate::system::AccessConflict>)
        requires
            old(self).wf(),
        ensures
            final(self).wf(),
            final(self).tracked_components()@ == filter.registered(crate::query::terms_registered(terms@, old(self).tracked_components()@)),
            r == Err::<(), crate::system::AccessConflict>(crate::system::AccessConflict::IntraQuery)
                <==> crate::system::query_self_conflicts(crate::query::terms_reads(terms@), crate::query::terms_writes(terms@)),
            r == Err::<(), crate::system::AccessConflict>(crate::system::AccessConflict::SystemParams)
                <==> !crate::system::query_self_conflicts(crate::query::terms_reads(terms@), crate::query::terms_writes(terms@))
                && crate::system::query_collides(*old(system_meta), crate::query::terms_reads(terms@), crate::query::terms_writes(terms@))
                && !crate::system::query_disjoint(*old(system_meta), filter.required(), filter.excluded()),
            r != Err::<(), crate::system::AccessConflict>(crate::system::AccessConflict::ResourceBorrow),
            r is Err ==> *final(system_meta) == *old(system_meta),
            r is Ok ==> {
                &&& final(system_meta).component_reads() == crate::collections::seq_insert_all(old(system_meta).component_reads(), crate::query::terms_reads(terms@))
                &&& final(system_meta).component_writes() == crate::collections::seq_insert_all(old(system_meta).component_writes(), crate::query::terms_writes(terms@))
                &&& final(system_meta).with_filters() == crate::collections::seq_insert_all(old(system_meta).with_filters(), filter.required())
                &&& final(system_meta).without_filters() == crate::collections::seq_insert_all(old(system_meta).without_filters(), filter.excluded())
                &&& final(system_meta).resource_reads() == old(system_meta).resource_reads()
                &&& final(system_meta).resource_writes() == old(system_meta).resource_writes()
                &&& final(system_meta).name() == old(system_meta).name()
            },
            final(self).archetypes() == old(self).archetypes(),
            final(self).registry() == old(self).registry(),
            final(self).read_slot() == old(self).read_slot(),
            final(self).removal_ids() == old(self).removal_ids(),
            final(self).removal_buffers() == old(self).removal_buffers(),
            final(self).tracked_events() == old(self).tracked_events(),
    {
        crate::query::query_init_access(system_meta, terms, filter, &mut self.tracked_components)
    }

    /// Ends a frame: the flag slots trade places, every flag of the new
    /// write slot is lowered, and each removal buffer moves on one frame.
    pub fn end_of_frame_sync(&mut self)
        requires
            old(self).wf(),
        ensures
            final(self).wf(),
            frame_ended(*old(self), *final(self)),
    {
        self.buffer.advance();
        let write = self.buffer.current_write_idx();
        self.archetypes_manager.clear_markers(write);
        let ghost mid = *self;
        let mut i: usize = 0;
        while i < self.removal_buffers.len()
            invariant
                i <= self.removal_buffers@.len() == old(self).removal_buffers@.len(),
                self.removal_ids == mid.removal_ids,
                self.registry == mid.registry,
                self.archetypes_manager == mid.archetypes_manager,
                self.buffer == mid.buffer,
                self.tracked_components == mid.tracked_components,
                self.tracked_events == mid.tracked_events,
                self.free_indices_list == mid.free_indices_list,
                mid.removal_buffers == old(self).removal_buffers,
                forall|j: int| 0 <= j < i ==> removal_swapped(#[trigger] old(self).removal_buffers@[j], self.removal_buffers@[j]),
                forall|j: int| i <= j < self.removal_buffers@.len() ==> #[trigger] self.removal_buffers@[j] == old(self).removal_buffers@[j],
            decreases self.removal_buffers@.len() - i,
        {
            self.removal_buffers[i].swap_and_clear_buffer();
            i += 1;
        }
        assert forall|i: int| 0 <= i < old(self).archetypes().archetypes().len() implies archetype_cleared(
            #[trigger] old(self).archetypes().archetypes()[i],
            self.archetypes().archetypes()[i],
            old(self).read_slot(),
        ) by {
            assert(self.archetypes_manager.archetypes()[i].entities() == old(self).archetypes_manager.archetypes()[i].entities());
        }
    }

    /// Despawns `entity`: its row leaves its archetype, the last row of that
    /// archetype moving into its place and the registry following it, and
    /// its index is freed for reuse. No handle to it may be alive any more.
    pub fn despawn_entity(&mut self, entity: Entity)
        requires
            old(self).wf(),
            located(*old(self), entity),
            old(self).registry().counts()[entity.registry_index as int] == 0,
            archetype_registered(*old(self), old(self).registry().locations()[entity.registry_index as int].archetype_id.0 as int),
        ensures
            final(self).wf(),
            despawned(*old(self), *final(self), entity),
            final(self).read_slot() == old(self).read_slot(),
            final(self).tracked_components() == old(self).tracked_components(),
            final(self).removal_ids() == old(self).removal_ids(),
            final(self).removal_buffers() == old(self).removal_buffers(),
            final(self).tracked_events() == old(self).tracked_events(),
    {
        let loc = self.registry.get(entity.registry_index as usize);
        let a = loc.archetype_id;
        let row = loc.idx as usize;
        let arch = self.archetypes_manager.get(a).unwrap();
        let last = arch.entities_len() - 1;
        let moved = arch.entity_at(last);
        self.archetypes_manager.swap_remove_row(a, row);
        if row < last {
            self.registry.set(moved.registry_index as usize, RegistryData { archetype_id: a, idx: loc.idx });
        }
        self.free_indices_list.push(entity.registry_index);
    }

    /// Despawns settle: each listed entity is dropped from every removal
    /// buffer and gives up the handle its despawn held.
    pub fn apply_despawns(&mut self, despawned: &[Entity])
        requires
            old(self).wf(),
            forall|k: int| 0 <= k < despawned@.len() ==> (#[trigger] despawned@[k].registry_index as int)
                < old(self).registry().counts().len(),
        ensures
            final(self).wf(),
            final(self).registry().locations() == old(self).registry().locations(),
            final(self).registry().counts() == counts_after_despawns(old(self).registry().counts(), despawned@),
            final(self).removal_ids() == old(self).removal_ids(),
            final(self).removal_buffers().len() == old(self).removal_buffers().len(),
            forall|i: int| 0 <= i < old(self).removal_buffers().len() ==> removal_pruned(
                #[trigger] old(self).removal_buffers()[i],
                final(self).removal_buffers()[i],
                entity_indices(despawned@),
            ),
            final(self).archetypes() == old(self).archetypes(),
            final(self).read_slot() == old(self).read_slot(),
    {
        let mut dead: Vec<u32> = Vec::new();
        let mut k: usize = 0;
        while k < despawned.len()
            invariant
                k <= despawned@.len(),
                dead@ == entity_indices(despawned@.take(k as int)),
            decreases despawned@.len() - k,
        {
            dead.push(despawned[k].registry_index);
            assert(entity_indices(despawned@.take(k as int + 1)) =~= entity_indices(despawned@.take(k as int)).push(despawned@[k as int].registry_index));
            k += 1;
        }
        assert(despawned@.take(despawned@.len() as int) =~= despawned@);
        let mut i: usize = 0;
        while i < self.removal_buffers.len()
            invariant
                i <= self.removal_buffers@.len() == old(self).removal_buffers@.len(),
                dead@ == entity_indices(despawned@),
                self.removal_ids == old(self).removal_ids,
                self.tracked_events == old(self).tracked_events,
                self.registry == old(self).registry,
                self.archetypes_manager == old(self).archetypes_manager,
                self.buffer == old(self).buffer,
                forall|j: int| 0 <= j < i ==> removal_pruned(#[trigger] old(self).removal_buffers@[j], self.removal_buffers@[j], dead@),
                forall|j: int| i <= j < self.removal_buffers@.len() ==> #[trigger] self.removal_buffers@[j] == old(self).removal_buffers@[j],
            decreases self.removal_buffers@.len() - i,
        {
            self.removal_buffers[i].clear_dead_entities(dead.as_slice());
            i += 1;
        }
        let mut k: usize = 0;
        while k < despawned.len()
            invariant
                k <= despawned@.len(),
                self.removal_ids == old(self).removal_ids,
                self.tracked_events == old(self).tracked_events,
                self.removal_buffers@.len() == old(self).removal_buffers@.len(),
                forall|j: int| 0 <= j < self.removal_buffers@.len() ==> removal_pruned(#[trigger] old(self).removal_buffers@[j], self.removal_buffers@[j], dead@),
                dead@ == entity_indices(despawned@),
                self.archetypes_manager == old(self).archetypes_manager,
                self.buffer == old(self).buffer,
                self.registry.counts().len() == old(self).registry.counts().len(),
                self.registry.locations() == old(self).registry.locations(),
                self.registry.counts() == counts_after_despawns(old(self).registry.counts(), despawned@.take(k as int)),
                forall|j: int| 0 <= j < despawned@.len() ==> (#[trigger] despawned@[j].registry_index as int)
                    < old(self).registry.counts().len(),
            decreases despawned@.len() - k,
        {
            let idx = despawned[k].registry_index;
            proof {
                assert(despawned@.take(k as int + 1).drop_last() =~= despawned@.take(k as int));
                assert(despawned@[k as int].registry_index == idx);
            }
            self.registry.decrement_handle(idx as usize);
            k += 1;
        }
        assert(despawned@.take(despawned@.len() as int) =~= despawned@);
    }
}

} // verus!
