//! Change, addition and removal tracking on double-buffered flags.
//!
//! Every tracked row carries two flags. During a frame, writes go to the
//! write slot and queries read the read slot; at the end of the frame the
//! slots trade places and the new write slot is wiped. A flag raised in one
//! frame is therefore seen by queries for exactly the next frame.
use vstd::prelude::*;

use indexmap::IndexMap;
use rustc_hash::FxBuildHasher;

use crate::collections::{
    entry_keys, tracked_map_entries, tracked_map_insert, tracked_map_len, tracked_map_new,
    tracked_map_value_at,
};
use crate::entity::Entity;

verus! {

/// Which flag column a tracked component carries.
#[derive(Clone, Copy, Debug, PartialEq, Eq, Structural)]
pub enum MarkerKind {
    Added,
    Changed,
}

/// How a tracked component is tracked: its id, the id of its flag column,
/// and the kind of flag.
#[derive(Clone, Copy, Debug, PartialEq, Eq, Structural)]
pub struct TrackedComponentMeta {
    pub component_id: u64,
    pub marker_id: u64,
    pub kind: MarkerKind,
}

/// Which of the two flag slots queries read this frame; writes go to the
/// other one.
pub struct CurrentBufferIdx {
    idx: u8,
}

impl CurrentBufferIdx {
    #[verifier::type_invariant]
    spec fn inv(self) -> bool {
        self.idx <= 1
    }

    /// The slot queries read this frame.
    pub closed spec fn read_slot(&self) -> int {
        self.idx as int
    }

    /// The engine starts reading slot 1 and writing slot 0.
    pub fn new() -> (b: Self)
        ensures
            b.read_slot() == 1,
    {
        CurrentBufferIdx { idx: 1 }
    }

    pub fn current_read_idx(&self) -> (r: u8)
        ensures
            r == self.read_slot(),
            r <= 1,
    {
        proof {
            use_type_invariant(self);
        }
        self.idx
    }

    pub fn current_write_idx(&self) -> (w: u8)
        ensures
            w == 1 - self.read_slot(),
            w <= 1,
    {
        proof {
            use_type_invariant(self);
        }
        if self.idx == 0 {
            1
        } else {
            0
        }
    }

    /// Ends a frame: the slots trade places.
    pub fn advance(&mut self)
        ensures
            final(self).read_slot() == 1 - old(self).read_slot(),
            0 <= final(self).read_slot() <= 1,
    {
        proof {
            use_type_invariant(&*self);
        }
        let next_idx = if self.idx == 1 {
            0
        } else {
            1
        };
        self.idx = next_idx;
    }
}

/// The two change flags of one row of a component tracked by `Changed`.
#[derive(Clone, Copy)]
pub struct ChangedMarker {
    markers: [bool; 2],
}

impl View for ChangedMarker {
    type V = Seq<bool>;

    closed spec fn view(&self) -> Seq<bool> {
        self.markers@
    }
}

impl ChangedMarker {
    /// A row starts with neither slot raised.
    pub fn new() -> (m: Self)
        ensures
            m@ == seq![false, false],
    {
        let m = ChangedMarker { markers: [false, false] };
        assert(m@ =~= seq![false, false]);
        m
    }

    pub fn is_set(&self, slot: u8) -> (r: bool)
        requires
            slot <= 1,
        ensures
            r == self@[slot as int],
    {
        self.markers[slot as usize]
    }

    pub fn set(&mut self, slot: u8)
        requires
            slot <= 1,
        ensures
            final(self)@ == old(self)@.update(slot as int, true),
    {
        self.markers[slot as usize] = true;
    }

    pub fn clear(&mut self, slot: u8)
        requires
            slot <= 1,
        ensures
            final(self)@ == old(self)@.update(slot as int, false),
    {
        self.markers[slot as usize] = false;
    }
}

/// Every `Changed` row has exactly its two flags.
pub proof fn lemma_changed_marker_len(m: ChangedMarker)
    ensures
        m@.len() == 2,
{
}

/// The two addition flags of one row of a component tracked by `Added`.
#[derive(Clone, Copy)]
pub struct AddedMarker {
    added_marker: [bool; 2],
}

impl View for AddedMarker {
    type V = Seq<bool>;

    closed spec fn view(&self) -> Seq<bool> {
        self.added_marker@
    }
}

impl AddedMarker {
    /// The flags of a row that was just added: the write slot raised.
    pub fn new(write_slot: u8) -> (m: Self)
        requires
            write_slot <= 1,
        ensures
            m@ == seq![false, false].update(write_slot as int, true),
    {
        let mut added_marker = [false, false];
        added_marker[write_slot as usize] = true;
        let m = AddedMarker { added_marker };
        assert(m@ =~= seq![false, false].update(write_slot as int, true));
        m
    }

    pub fn is_set(&self, slot: u8) -> (r: bool)
        requires
            slot <= 1,
        ensures
            r == self@[slot as int],
    {
        self.added_marker[slot as usize]
    }

    pub fn clear(&mut self, slot: u8)
        requires
            slot <= 1,
        ensures
            final(self)@ == old(self)@.update(slot as int, false),
    {
        self.added_marker[slot as usize] = false;
    }
}

/// Every `Added` row has exactly its two flags.
pub proof fn lemma_added_marker_len(m: AddedMarker)
    ensures
        m@.len() == 2,
{
}

/// Lowers the write slot of every row of a `Changed` flag column, as the
/// engine does to each tracked column when a frame ends.
pub fn clear_changed_column(column: &mut Vec<ChangedMarker>, write_slot: u8)
    requires
        write_slot <= 1,
    ensures
        crate::archetypes::changed_rows_cleared(old(column)@, final(column)@, write_slot as int),
{
    let mut i: usize = 0;
    while i < column.len()
        invariant
            i <= column@.len() == old(column)@.len(),
            write_slot <= 1,
            forall|r: int|
                0 <= r < i ==> #[trigger] column@[r]@ == old(column)@[r]@.update(write_slot as int, false),
            forall|r: int| i <= r < column@.len() ==> #[trigger] column@[r] == old(column)@[r],
        decreases column@.len() - i,
    {
        let mut m = column[i];
        m.clear(write_slot);
        column.set(i, m);
        i += 1;
    }
}

/// Lowers the write slot of every row of an `Added` flag column.
pub fn clear_added_column(column: &mut Vec<AddedMarker>, write_slot: u8)
    requires
        write_slot <= 1,
    ensures
        crate::archetypes::added_rows_cleared(old(column)@, final(column)@, write_slot as int),
{
    let mut i: usize = 0;
    while i < column.len()
        invariant
            i <= column@.len() == old(column)@.len(),
            write_slot <= 1,
            forall|r: int|
                0 <= r < i ==> #[trigger] column@[r]@ == old(column)@[r]@.update(write_slot as int, false),
            forall|r: int| i <= r < column@.len() ==> #[trigger] column@[r] == old(column)@[r],
        decreases column@.len() - i,
    {
        let mut m = column[i];
        m.clear(write_slot);
        column.set(i, m);
        i += 1;
    }
}

/// Appends the flags of a newly placed row: a `Changed` row starts lowered,
/// an `Added` row starts with its write slot raised.
pub fn push_default_changed_marker(column: &mut Vec<ChangedMarker>)
    ensures
        final(column)@.len() == old(column)@.len() + 1,
        final(column)@.drop_last() == old(column)@,
        final(column)@.last()@ == seq![false, false],
{
    column.push(ChangedMarker::new());
    assert(column@.drop_last() =~= old(column)@);
}

/// Appends the flags of a newly added row, its write slot raised.
pub fn push_default_added_marker(column: &mut Vec<AddedMarker>, buffer: &CurrentBufferIdx)
    ensures
        final(column)@.len() == old(column)@.len() + 1,
        final(column)@.drop_last() == old(column)@,
        final(column)@.last()@ == seq![false, false].update(1 - buffer.read_slot(), true),
{
    let w = buffer.current_write_idx();
    column.push(AddedMarker::new(w));
    assert(column@.drop_last() =~= old(column)@);
}

/// Mutable access to a component, which raises its change flag when the
/// value is written through it.
pub struct Mut {
    current_write_idx: u8,
    should_modify: bool,
}

impl Mut {
    /// The write slot this access raises.
    pub closed spec fn write_slot(&self) -> int {
        self.current_write_idx as int
    }

    /// Whether the component is tracked by `Changed`.
    pub closed spec fn is_tracked(&self) -> bool {
        self.should_modify
    }

    /// Access during the frame described by `buffer`; `is_tracked` says whether
    /// the component has a change flag column.
    pub fn new(buffer: &CurrentBufferIdx, is_tracked: bool) -> (m: Self)
        ensures
            m.write_slot() == 1 - buffer.read_slot(),
            m.is_tracked() == is_tracked,
    {
        Mut { current_write_idx: buffer.current_write_idx(), should_modify: is_tracked }
    }

    /// Raises the row's change flag in the write slot, if the component is
    /// tracked; otherwise leaves the flags alone.
    pub fn trigger_change_detection(&self, marker: &mut ChangedMarker)
        requires
            0 <= self.write_slot() <= 1,
        ensures
            final(marker)@ == if self.is_tracked() {
                old(marker)@.update(self.write_slot(), true)
            } else {
                old(marker)@
            },
    {
        if self.should_modify {
            marker.set(self.current_write_idx);
        }
    }
}

/// Whether one entity's component was added during the previous frame.
pub struct AddedTracker {
    added: bool,
}

impl AddedTracker {
    /// Reads the row's flags in the slot the current frame reads.
    pub fn new(marker: &AddedMarker, buffer: &CurrentBufferIdx) -> (t: Self)
        ensures
            t.is_added_spec() == marker@[buffer.read_slot()],
    {
        AddedTracker { added: marker.is_set(buffer.current_read_idx()) }
    }

    pub closed spec fn is_added_spec(&self) -> bool {
        self.added
    }

    pub fn is_added(&self) -> (r: bool)
        ensures
            r == self.is_added_spec(),
    {
        self.added
    }
}

/// Whether one entity's component was changed during the previous frame.
pub struct ChangedTracker {
    changed: bool,
}

impl ChangedTracker {
    /// Reads the row's flags in the slot the current frame reads.
    pub fn new(marker: &ChangedMarker, buffer: &CurrentBufferIdx) -> (t: Self)
        ensures
            t.is_changed_spec() == marker@[buffer.read_slot()],
    {
        ChangedTracker { changed: marker.is_set(buffer.current_read_idx()) }
    }

    pub closed spec fn is_changed_spec(&self) -> bool {
        self.changed
    }

    pub fn is_changed(&self) -> (r: bool)
        ensures
            r == self.is_changed_spec(),
    {
        self.changed
    }
}

/// What a row's flags look like after a frame ends that was reading slot
/// `read`: the slot that becomes the write slot is lowered.
pub open spec fn flags_after_frame(flags: Seq<bool>, read: int) -> Seq<bool> {
    flags.update(read, false)
}

/// A row flagged during a frame is not seen by that frame's queries, is
/// seen by every query of the next frame, and is no longer seen in the frame
/// after, when nothing flags it again.
pub proof fn lemma_flag_visible_for_one_frame(flags: Seq<bool>, read: int)
    requires
        flags.len() == 2,
        read == 0 || read == 1,
    ensures
        ({
            let write = 1 - read;
            let flagged = flags.update(write, true);
            let next = flags_after_frame(flagged, read);
            let after = flags_after_frame(next, write);
            &&& flagged[read] == flags[read]
            &&& next[write]
            &&& !after[read]
            &&& !after[write]
        }),
{
}

/// A row not flagged during a frame is not seen in the next frame, however
/// it was flagged before.
pub proof fn lemma_unflagged_row_unseen_next_frame(flags: Seq<bool>, read: int)
    requires
        flags.len() == 2,
        read == 0 || read == 1,
        !flags[1 - read],
    ensures
        !flags_after_frame(flags, read)[1 - read],
{
}

/// The flag columns of the components tracked by `Added` or `Changed`,
/// keyed by flag column id in the order they were first registered, so one
/// component can be tracked by both kinds at once.
pub struct TrackedComponents {
    map: IndexMap<u64, TrackedComponentMeta, FxBuildHasher>,
}

impl View for TrackedComponents {
    type V = Seq<(u64, TrackedComponentMeta)>;

    closed spec fn view(&self) -> Seq<(u64, TrackedComponentMeta)> {
        tracked_map_entries(self.map)
    }
}

/// The entries after registering `meta` under its flag column id: an entry
/// for the same flag column is replaced in place, otherwise one is appended.
pub open spec fn register_entry(
    entries: Seq<(u64, TrackedComponentMeta)>,
    meta: TrackedComponentMeta,
) -> Seq<(u64, TrackedComponentMeta)> {
    if entry_keys(entries).contains(meta.marker_id) {
        entries.update(entry_keys(entries).index_of(meta.marker_id), (meta.marker_id, meta))
    } else {
        entries.push((meta.marker_id, meta))
    }
}

/// Registering a meta leaves it in the registry.
pub proof fn lemma_register_entry_holds(entries: Seq<(u64, TrackedComponentMeta)>, meta: TrackedComponentMeta)
    ensures
        register_entry(entries, meta).contains((meta.marker_id, meta)),
{
    let r = register_entry(entries, meta);
    if entry_keys(entries).contains(meta.marker_id) {
        let i = entry_keys(entries).index_of(meta.marker_id);
        assert(r[i] == (meta.marker_id, meta));
    } else {
        assert(r[entries.len() as int] == (meta.marker_id, meta));
    }
}

/// Registering one flag column leaves the entries of every other flag
/// column in place.
pub proof fn lemma_register_entry_keeps_others(
    entries: Seq<(u64, TrackedComponentMeta)>,
    meta: TrackedComponentMeta,
    e: (u64, TrackedComponentMeta),
)
    requires
        entries.contains(e),
        e.0 != meta.marker_id,
    ensures
        register_entry(entries, meta).contains(e),
{
    let k = choose|k: int| 0 <= k < entries.len() && entries[k] == e;
    let r = register_entry(entries, meta);
    if entry_keys(entries).contains(meta.marker_id) {
        let i = entry_keys(entries).index_of(meta.marker_id);
        assert(entry_keys(entries)[i] == meta.marker_id);
        assert(entry_keys(entries)[k] == e.0);
        assert(i != k);
        assert(r[k] == e);
    } else {
        assert(r[k] == e);
    }
}

/// A component tracked by `Added` and then by `Changed`, through two flag
/// columns, keeps both trackings.
pub proof fn lemma_added_and_changed_coexist(
    entries: Seq<(u64, TrackedComponentMeta)>,
    component_id: u64,
    added_marker: u64,
    changed_marker: u64,
)
    requires
        added_marker != changed_marker,
    ensures
        ({
            let added = TrackedComponentMeta { component_id, marker_id: added_marker, kind: MarkerKind::Added };
            let changed = TrackedComponentMeta { component_id, marker_id: changed_marker, kind: MarkerKind::Changed };
            let after = register_entry(register_entry(entries, added), changed);
            &&& after.contains((added_marker, added))
            &&& after.contains((changed_marker, changed))
        }),
{
    let added = TrackedComponentMeta { component_id, marker_id: added_marker, kind: MarkerKind::Added };
    let changed = TrackedComponentMeta { component_id, marker_id: changed_marker, kind: MarkerKind::Changed };
    lemma_register_entry_holds(entries, added);
    lemma_register_entry_keeps_others(register_entry(entries, added), changed, (added_marker, added));
    lemma_register_entry_holds(register_entry(entries, added), changed);
}

impl TrackedComponents {
    pub fn new() -> (t: Self)
        ensures
            t@ == Seq::<(u64, TrackedComponentMeta)>::empty(),
    {
        TrackedComponents { map: tracked_map_new() }
    }

    pub fn len(&self) -> (n: usize)
        ensures
            n == self@.len(),
    {
        tracked_map_len(&self.map)
    }

    /// The tracking registered `i`-th.
    pub fn get_index(&self, i: usize) -> (m: Option<TrackedComponentMeta>)
        ensures
            (i as int) < self@.len() ==> m == Some(self@[i as int].1),
            (i as int) >= self@.len() ==> m is None,
    {
        tracked_map_value_at(&self.map, i)
    }

    /// Tracks `component_id` by a `Changed` flag column `marker_id`.
    pub fn register_tracked_component(&mut self, component_id: u64, marker_id: u64)
        ensures
            final(self)@ == register_entry(
                old(self)@,
                TrackedComponentMeta { component_id, marker_id, kind: MarkerKind::Changed },
            ),
    {
        let meta = TrackedComponentMeta { component_id, marker_id, kind: MarkerKind::Changed };
        tracked_map_insert(&mut self.map, marker_id, meta);
    }

    /// Tracks `component_id` by an `Added` flag column `marker_id`.
    pub fn register_added_tracked_component(&mut self, component_id: u64, marker_id: u64)
        ensures
            final(self)@ == register_entry(
                old(self)@,
                TrackedComponentMeta { component_id, marker_id, kind: MarkerKind::Added },
            ),
    {
        let meta = TrackedComponentMeta { component_id, marker_id, kind: MarkerKind::Added };
        tracked_map_insert(&mut self.map, marker_id, meta);
    }
}

/// Entities that lost a tracked component, double-buffered like the flags:
/// removals recorded during a frame are listed during the next one.
pub struct RemovedComponentsBuffer {
    read_queue: Vec<Entity>,
    write_queue: Vec<Entity>,
}

impl RemovedComponentsBuffer {
    /// The removals the current frame lists.
    pub closed spec fn readable(&self) -> Seq<Entity> {
        self.read_queue@
    }

    /// The removals recorded during the current frame.
    pub closed spec fn pending(&self) -> Seq<Entity> {
        self.write_queue@
    }

    pub fn new() -> (b: Self)
        ensures
            b.readable() == Seq::<Entity>::empty(),
            b.pending() == Seq::<Entity>::empty(),
    {
        RemovedComponentsBuffer { read_queue: Vec::new(), write_queue: Vec::new() }
    }

    /// Records that `entity` lost the component.
    pub fn push_to_write_queue(&mut self, entity: Entity)
        ensures
            final(self).pending() == old(self).pending().push(entity),
            final(self).readable() == old(self).readable(),
    {
        self.write_queue.push(entity);
    }

    /// The removals recorded during the previous frame.
    pub fn iter(&self) -> (s: &[Entity])
        ensures
            s@ == self.readable(),
    {
        self.read_queue.as_slice()
    }

    /// Ends a frame: last frame's removals are dropped and this frame's
    /// become readable.
    pub fn swap_and_clear_buffer(&mut self)
        ensures
            final(self).readable() == old(self).pending(),
            final(self).pending() == Seq::<Entity>::empty(),
    {
        self.read_queue.clear();
        std::mem::swap(&mut self.read_queue, &mut self.write_queue);
    }

    /// Forgets despawned entities, so no one is told of a removal on a
    /// handle that no longer names a live entity.
    pub fn clear_dead_entities(&mut self, despawned: &[u32])
        ensures
            final(self).readable() == old(self).readable().filter(
                |e: Entity| !despawned@.contains(e.registry_index),
            ),
            final(self).pending() == old(self).pending().filter(
                |e: Entity| !despawned@.contains(e.registry_index),
            ),
    {
        let r = retain_alive(&self.read_queue, despawned);
        let w = retain_alive(&self.write_queue, despawned);
        self.read_queue = r;
        self.write_queue = w;
    }
}

/// Whether `idx` is listed in `despawned`.
fn index_listed(despawned: &[u32], idx: u32) -> (r: bool)
    ensures
        r == despawned@.contains(idx),
{
    let mut i: usize = 0;
    while i < despawned.len()
        invariant
            i <= despawned@.len(),
            forall|j: int| 0 <= j < i ==> despawned@[j] != idx,
        decreases despawned@.len() - i,
    {
        if despawned[i] == idx {
            assert(despawned@[i as int] == idx);
            return true;
        }
        i += 1;
    }
    false
}

/// The entities of `queue` whose index is not listed in `despawned`, in order.
fn retain_alive(queue: &Vec<Entity>, despawned: &[u32]) -> (kept: Vec<Entity>)
    ensures
        kept@ == queue@.filter(|e: Entity| !despawned@.contains(e.registry_index)),
{
    let ghost keep = |e: Entity| !despawned@.contains(e.registry_index);
    let mut kept: Vec<Entity> = Vec::new();
    let mut i: usize = 0;
    while i < queue.len()
        invariant
            i <= queue@.len(),
            keep == (|e: Entity| !despawned@.contains(e.registry_index)),
            kept@ == queue@.take(i as int).filter(keep),
        decreases queue@.len() - i,
    {
        let e = queue[i];
        proof {
            assert(queue@.take(i as int + 1).drop_last() =~= queue@.take(i as int));
            reveal(Seq::filter);
        }
        if !index_listed(despawned, e.registry_index) {
            kept.push(e);
        }
        i += 1;
    }
    assert(queue@.take(queue@.len() as int) =~= queue@);
    kept
}

} // verus!
