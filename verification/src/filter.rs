//! Query filters: which archetypes, and which rows of them, a query visits.
use vstd::prelude::*;

use crate::archetypes::{AddedColumn, Archetype, ChangedColumn};
use crate::reactivity::{register_entry, CurrentBufferIdx, MarkerKind, TrackedComponentMeta, TrackedComponents};
use crate::system::AccessVec;

verus! {

/// Column `c` is the first `Added` flag column with id `marker_id`.
pub open spec fn first_added_column(cols: Seq<AddedColumn>, marker_id: u64, c: int) -> bool {
    &&& 0 <= c < cols.len()
    &&& cols[c].marker_id == marker_id
    &&& forall|k: int| 0 <= k < c ==> #[trigger] cols[k].marker_id != marker_id
}

/// Column `c` is the first `Changed` flag column with id `marker_id`.
pub open spec fn first_changed_column(cols: Seq<ChangedColumn>, marker_id: u64, c: int) -> bool {
    &&& 0 <= c < cols.len()
    &&& cols[c].marker_id == marker_id
    &&& forall|k: int| 0 <= k < c ==> #[trigger] cols[k].marker_id != marker_id
}

/// The archetype has an `Added` flag column `marker_id`.
pub open spec fn has_added_column(arch: Archetype, marker_id: u64) -> bool {
    exists|c: int| first_added_column(arch.added_columns(), marker_id, c)
}

/// The archetype has a `Changed` flag column `marker_id`.
pub open spec fn has_changed_column(arch: Archetype, marker_id: u64) -> bool {
    exists|c: int| first_changed_column(arch.changed_columns(), marker_id, c)
}

/// The `Added` flag of row `row` in slot `slot`.
pub open spec fn added_flag(arch: Archetype, marker_id: u64, slot: int, row: int) -> bool {
    let c = choose|c: int| first_added_column(arch.added_columns(), marker_id, c);
    arch.added_columns()[c].rows@[row]@[slot]
}

/// The `Changed` flag of row `row` in slot `slot`.
pub open spec fn changed_flag(arch: Archetype, marker_id: u64, slot: int, row: int) -> bool {
    let c = choose|c: int| first_changed_column(arch.changed_columns(), marker_id, c);
    arch.changed_columns()[c].rows@[row]@[slot]
}

/// Reads the `Added` flag of a row, which the filter may only ask of an
/// archetype holding the flag column.
fn read_added_flag(arch: &Archetype, marker_id: u64, buffer: &CurrentBufferIdx, row: usize) -> (r: bool)
    requires
        arch.rows_aligned(),
        has_added_column(*arch, marker_id),
        (row as int) < arch.entities().len(),
    ensures
        r == added_flag(*arch, marker_id, buffer.read_slot(), row as int),
{
    let c = arch.find_added_column(marker_id);
    match c {
        Some(c) => {
            proof {
                let w = choose|w: int| first_added_column(arch.added_columns(), marker_id, w);
                assert(first_added_column(arch.added_columns(), marker_id, c as int));
                assert(w == c) by {
                    if w < c {
                        assert(arch.added_columns()[w].marker_id != marker_id);
                    } else if w > c {
                        assert(arch.added_columns()[c as int].marker_id != marker_id);
                    }
                }
                assert(arch.added_columns()[c as int].rows@.len() == arch.entities().len());
            }
            let m = arch.added_marker(c, row);
            m.is_set(buffer.current_read_idx())
        },
        None => {
            proof {
                let w = choose|w: int| first_added_column(arch.added_columns(), marker_id, w);
                assert(arch.added_columns()[w].marker_id != marker_id);
            }
            false
        },
    }
}

/// Reads the `Changed` flag of a row.
fn read_changed_flag(arch: &Archetype, marker_id: u64, buffer: &CurrentBufferIdx, row: usize) -> (r: bool)
    requires
        arch.rows_aligned(),
        has_changed_column(*arch, marker_id),
        (row as int) < arch.entities().len(),
    ensures
        r == changed_flag(*arch, marker_id, buffer.read_slot(), row as int),
{
    let c = arch.find_changed_column(marker_id);
    match c {
        Some(c) => {
            proof {
                let w = choose|w: int| first_changed_column(arch.changed_columns(), marker_id, w);
                assert(first_changed_column(arch.changed_columns(), marker_id, c as int));
                assert(w == c) by {
                    if w < c {
                        assert(arch.changed_columns()[w].marker_id != marker_id);
                    } else if w > c {
                        assert(arch.changed_columns()[c as int].marker_id != marker_id);
                    }
                }
                assert(arch.changed_columns()[c as int].rows@.len() == arch.entities().len());
            }
            let m = arch.changed_marker(c, row);
            m.is_set(buffer.current_read_idx())
        },
        None => {
            proof {
                let w = choose|w: int| first_changed_column(arch.changed_columns(), marker_id, w);
                assert(arch.changed_columns()[w].marker_id != marker_id);
            }
            false
        },
    }
}

/// A condition a query puts on the archetypes it visits and on their rows.
pub trait QueryFilter {
    /// Whether an archetype with these component ids can hold matches.
    spec fn archetype_ok(&self, types: Seq<u64>) -> bool;

    /// Whether the archetype carries the flag columns the row test reads.
    spec fn flags_ready(&self, arch: Archetype) -> bool;

    /// Whether row `row` passes, queries reading flag slot `slot`.
    spec fn row_ok(&self, arch: Archetype, slot: int, row: int) -> bool;

    /// The component ids an entity must have for the filter to pass.
    spec fn required(&self) -> Seq<u64>;

    /// The component ids an entity must lack for the filter to pass.
    spec fn excluded(&self) -> Seq<u64>;

    /// The tracking registry after the filter registers what it reads.
    spec fn registered(&self, entries: Seq<(u64, TrackedComponentMeta)>) -> Seq<(u64, TrackedComponentMeta)>;

    fn matches(&self, archetype: &Archetype) -> (r: bool)
        ensures
            r == self.archetype_ok(archetype.types()),
    ;

    fn matches_row(&self, archetype: &Archetype, buffer: &CurrentBufferIdx, row: usize) -> (r: bool)
        requires
            archetype.rows_aligned(),
            self.archetype_ok(archetype.types()),
            self.flags_ready(*archetype),
            (row as int) < archetype.entities().len(),
        ensures
            r == self.row_ok(*archetype, buffer.read_slot(), row as int),
    ;

    /// Adds the filter's required and excluded ids to `withs` and `withouts`,
    /// and registers the tracking it reads.
    fn collect_filter(&self, withs: &mut AccessVec<u64>, withouts: &mut AccessVec<u64>, registry: &mut TrackedComponents)
        ensures
            final(withs)@ == old(withs)@ + self.required(),
            final(withouts)@ == old(withouts)@ + self.excluded(),
            final(registry)@ == self.registered(old(registry)@),
    ;
}

/// Passes entities that have the component.
#[derive(Debug, Clone, Copy)]
pub struct With {
    pub component: u64,
}

/// Passes entities that lack the component.
#[derive(Debug, Clone, Copy)]
pub struct Without {
    pub component: u64,
}

/// Passes what the inner filter does not.
pub struct Not<F> {
    pub inner: F,
}

/// Passes what any of the inner filters passes.
pub struct Or<T> {
    pub inner: T,
}

/// Passes everything.
#[derive(Debug, Clone, Copy)]
pub struct EmptyQueryFilter;

/// Passes rows whose component was added during the previous frame.
#[derive(Debug, Clone, Copy)]
pub struct Added {
    pub component: u64,
    pub marker: u64,
}

/// Passes rows whose component was changed during the previous frame.
#[derive(Debug, Clone, Copy)]
pub struct Changed {
    pub component: u64,
    pub marker: u64,
}

impl QueryFilter for With {
    open spec fn archetype_ok(&self, types: Seq<u64>) -> bool {
        types.contains(self.component)
    }

    open spec fn flags_ready(&self, arch: Archetype) -> bool {
        true
    }

    open spec fn row_ok(&self, arch: Archetype, slot: int, row: int) -> bool {
        arch.types().contains(self.component)
    }

    open spec fn required(&self) -> Seq<u64> {
        seq![self.component]
    }

    open spec fn excluded(&self) -> Seq<u64> {
        Seq::empty()
    }

    open spec fn registered(&self, entries: Seq<(u64, TrackedComponentMeta)>) -> Seq<(u64, TrackedComponentMeta)> {
        entries
    }

    fn matches(&self, archetype: &Archetype) -> (r: bool) {
        archetype.has_column(self.component)
    }

    fn matches_row(&self, archetype: &Archetype, buffer: &CurrentBufferIdx, row: usize) -> (r: bool) {
        archetype.has_column(self.component)
    }

    fn collect_filter(&self, withs: &mut AccessVec<u64>, withouts: &mut AccessVec<u64>, registry: &mut TrackedComponents) {
        withs.push(self.component);
        assert(withouts@ =~= old(withouts)@ + Seq::<u64>::empty());
        assert(withs@ =~= old(withs)@ + seq![self.component]);
    }
}

impl QueryFilter for Without {
    open spec fn archetype_ok(&self, types: Seq<u64>) -> bool {
        !types.contains(self.component)
    }

    open spec fn flags_ready(&self, arch: Archetype) -> bool {
        true
    }

    open spec fn row_ok(&self, arch: Archetype, slot: int, row: int) -> bool {
        !arch.types().contains(self.component)
    }

    open spec fn required(&self) -> Seq<u64> {
        Seq::empty()
    }

    open spec fn excluded(&self) -> Seq<u64> {
        seq![self.component]
    }

    open spec fn registered(&self, entries: Seq<(u64, TrackedComponentMeta)>) -> Seq<(u64, TrackedComponentMeta)> {
        entries
    }

    fn matches(&self, archetype: &Archetype) -> (r: bool) {
        !archetype.has_column(self.component)
    }

    fn matches_row(&self, archetype: &Archetype, buffer: &CurrentBufferIdx, row: usize) -> (r: bool) {
        !archetype.has_column(self.component)
    }

    fn collect_filter(&self, withs: &mut AccessVec<u64>, withouts: &mut AccessVec<u64>, registry: &mut TrackedComponents) {
        withouts.push(self.component);
        assert(withs@ =~= old(withs)@ + Seq::<u64>::empty());
        assert(withouts@ =~= old(withouts)@ + seq![self.component]);
    }
}

impl QueryFilter for EmptyQueryFilter {
    open spec fn archetype_ok(&self, types: Seq<u64>) -> bool {
        true
    }

    open spec fn flags_ready(&self, arch: Archetype) -> bool {
        true
    }

    open spec fn row_ok(&self, arch: Archetype, slot: int, row: int) -> bool {
        true
    }

    open spec fn required(&self) -> Seq<u64> {
        Seq::empty()
    }

    open spec fn excluded(&self) -> Seq<u64> {
        Seq::empty()
    }

    open spec fn registered(&self, entries: Seq<(u64, TrackedComponentMeta)>) -> Seq<(u64, TrackedComponentMeta)> {
        entries
    }

    fn matches(&self, archetype: &Archetype) -> (r: bool) {
        true
    }

    fn matches_row(&self, archetype: &Archetype, buffer: &CurrentBufferIdx, row: usize) -> (r: bool) {
        true
    }

    fn collect_filter(&self, withs: &mut AccessVec<u64>, withouts: &mut AccessVec<u64>, registry: &mut TrackedComponents) {
        assert(withs@ =~= old(withs)@ + Seq::<u64>::empty());
        assert(withouts@ =~= old(withouts)@ + Seq::<u64>::empty());
    }
}

impl QueryFilter for Added {
    open spec fn archetype_ok(&self, types: Seq<u64>) -> bool {
        types.contains(self.component)
    }

    open spec fn flags_ready(&self, arch: Archetype) -> bool {
        has_added_column(arch, self.marker)
    }

    open spec fn row_ok(&self, arch: Archetype, slot: int, row: int) -> bool {
        added_flag(arch, self.marker, slot, row)
    }

    open spec fn required(&self) -> Seq<u64> {
        seq![self.marker]
    }

    open spec fn excluded(&self) -> Seq<u64> {
        Seq::empty()
    }

    open spec fn registered(&self, entries: Seq<(u64, TrackedComponentMeta)>) -> Seq<(u64, TrackedComponentMeta)> {
        register_entry(entries, TrackedComponentMeta { component_id: self.component, marker_id: self.marker, kind: MarkerKind::Added })
    }

    fn matches(&self, archetype: &Archetype) -> (r: bool) {
        archetype.has_column(self.component)
    }

    fn matches_row(&self, archetype: &Archetype, buffer: &CurrentBufferIdx, row: usize) -> (r: bool) {
        read_added_flag(archetype, self.marker, buffer, row)
    }

    fn collect_filter(&self, withs: &mut AccessVec<u64>, withouts: &mut AccessVec<u64>, registry: &mut TrackedComponents) {
        withs.push(self.marker);
        registry.register_added_tracked_component(self.component, self.marker);
        assert(withouts@ =~= old(withouts)@ + Seq::<u64>::empty());
        assert(withs@ =~= old(withs)@ + seq![self.marker]);
    }
}

impl QueryFilter for Changed {
    open spec fn archetype_ok(&self, types: Seq<u64>) -> bool {
        types.contains(self.component)
    }

    open spec fn flags_ready(&self, arch: Archetype) -> bool {
        has_changed_column(arch, self.marker)
    }

    open spec fn row_ok(&self, arch: Archetype, slot: int, row: int) -> bool {
        changed_flag(arch, self.marker, slot, row)
    }

    open spec fn required(&self) -> Seq<u64> {
        seq![self.marker]
    }

    open spec fn excluded(&self) -> Seq<u64> {
        Seq::empty()
    }

    open spec fn registered(&self, entries: Seq<(u64, TrackedComponentMeta)>) -> Seq<(u64, TrackedComponentMeta)> {
        register_entry(entries, TrackedComponentMeta { component_id: self.component, marker_id: self.marker, kind: MarkerKind::Changed })
    }

    fn matches(&self, archetype: &Archetype) -> (r: bool) {
        archetype.has_column(self.component)
    }

    fn matches_row(&self, archetype: &Archetype, buffer: &CurrentBufferIdx, row: usize) -> (r: bool) {
        read_changed_flag(archetype, self.marker, buffer, row)
    }

    fn collect_filter(&self, withs: &mut AccessVec<u64>, withouts: &mut AccessVec<u64>, registry: &mut TrackedComponents) {
        withs.push(self.marker);
        registry.register_tracked_component(self.component, self.marker);
        assert(withouts@ =~= old(withouts)@ + Seq::<u64>::empty());
        assert(withs@ =~= old(withs)@ + seq![self.marker]);
    }
}

impl<F: QueryFilter> QueryFilter for Not<F> {
    open spec fn archetype_ok(&self, types: Seq<u64>) -> bool {
        true
    }

    open spec fn flags_ready(&self, arch: Archetype) -> bool {
        self.inner.archetype_ok(arch.types()) ==> self.inner.flags_ready(arch)
    }

    open spec fn row_ok(&self, arch: Archetype, slot: int, row: int) -> bool {
        self.inner.archetype_ok(arch.types()) ==> !self.inner.row_ok(arch, slot, row)
    }

    open spec fn required(&self) -> Seq<u64> {
        self.inner.excluded()
    }

    open spec fn excluded(&self) -> Seq<u64> {
        self.inner.required()
    }

    open spec fn registered(&self, entries: Seq<(u64, TrackedComponentMeta)>) -> Seq<(u64, TrackedComponentMeta)> {
        self.inner.registered(entries)
    }

    fn matches(&self, archetype: &Archetype) -> (r: bool) {
        true
    }

    fn matches_row(&self, archetype: &Archetype, buffer: &CurrentBufferIdx, row: usize) -> (r: bool) {
        if self.inner.matches(archetype) {
            !self.inner.matches_row(archetype, buffer, row)
        } else {
            true
        }
    }

    fn collect_filter(&self, withs: &mut AccessVec<u64>, withouts: &mut AccessVec<u64>, registry: &mut TrackedComponents) {
        self.inner.collect_filter(withouts, withs, registry);
    }
}

impl<A: QueryFilter, B: QueryFilter> QueryFilter for Or<(A, B)> {
    open spec fn archetype_ok(&self, types: Seq<u64>) -> bool {
        true
    }

    open spec fn flags_ready(&self, arch: Archetype) -> bool {
        &&& self.inner.0.archetype_ok(arch.types()) ==> self.inner.0.flags_ready(arch)
        &&& self.inner.1.archetype_ok(arch.types()) ==> self.inner.1.flags_ready(arch)
    }

    open spec fn row_ok(&self, arch: Archetype, slot: int, row: int) -> bool {
        ||| self.inner.0.archetype_ok(arch.types()) && self.inner.0.row_ok(arch, slot, row)
        ||| self.inner.1.archetype_ok(arch.types()) && self.inner.1.row_ok(arch, slot, row)
    }

    open spec fn required(&self) -> Seq<u64> {
        self.inner.0.required() + self.inner.1.required()
    }

    open spec fn excluded(&self) -> Seq<u64> {
        self.inner.0.excluded() + self.inner.1.excluded()
    }

    open spec fn registered(&self, entries: Seq<(u64, TrackedComponentMeta)>) -> Seq<(u64, TrackedComponentMeta)> {
        self.inner.1.registered(self.inner.0.registered(entries))
    }

    fn matches(&self, archetype: &Archetype) -> (r: bool) {
        true
    }

    fn matches_row(&self, archetype: &Archetype, buffer: &CurrentBufferIdx, row: usize) -> (r: bool) {
        let a = if self.inner.0.matches(archetype) {
            self.inner.0.matches_row(archetype, buffer, row)
        } else {
            false
        };
        let b = if self.inner.1.matches(archetype) {
            self.inner.1.matches_row(archetype, buffer, row)
        } else {
            false
        };
        a || b
    }

    fn collect_filter(&self, withs: &mut AccessVec<u64>, withouts: &mut AccessVec<u64>, registry: &mut TrackedComponents) {
        self.inner.0.collect_filter(withs, withouts, registry);
        self.inner.1.collect_filter(withs, withouts, registry);
        assert(withs@ =~= old(withs)@ + (self.inner.0.required() + self.inner.1.required()));
        assert(withouts@ =~= old(withouts)@ + (self.inner.0.excluded() + self.inner.1.excluded()));
    }
}

impl<A: QueryFilter, B: QueryFilter> QueryFilter for (A, B) {
    open spec fn archetype_ok(&self, types: Seq<u64>) -> bool {
        self.0.archetype_ok(types) && self.1.archetype_ok(types)
    }

    open spec fn flags_ready(&self, arch: Archetype) -> bool {
        self.0.flags_ready(arch) && self.1.flags_ready(arch)
    }

    open spec fn row_ok(&self, arch: Archetype, slot: int, row: int) -> bool {
        self.0.row_ok(arch, slot, row) && self.1.row_ok(arch, slot, row)
    }

    open spec fn required(&self) -> Seq<u64> {
        self.0.required() + self.1.required()
    }

    open spec fn excluded(&self) -> Seq<u64> {
        self.0.excluded() + self.1.excluded()
    }

    open spec fn registered(&self, entries: Seq<(u64, TrackedComponentMeta)>) -> Seq<(u64, TrackedComponentMeta)> {
        self.1.registered(self.0.registered(entries))
    }

    fn matches(&self, archetype: &Archetype) -> (r: bool) {
        self.0.matches(archetype) && self.1.matches(archetype)
    }

    fn matches_row(&self, archetype: &Archetype, buffer: &CurrentBufferIdx, row: usize) -> (r: bool) {
        self.0.matches_row(archetype, buffer, row) && self.1.matches_row(archetype, buffer, row)
    }

    fn collect_filter(&self, withs: &mut AccessVec<u64>, withouts: &mut AccessVec<u64>, registry: &mut TrackedComponents) {
        self.0.collect_filter(withs, withouts, registry);
        self.1.collect_filter(withs, withouts, registry);
        assert(withs@ =~= old(withs)@ + (self.0.required() + self.1.required()));
        assert(withouts@ =~= old(withouts)@ + (self.0.excluded() + self.1.excluded()));
    }
}

impl<A: QueryFilter, B: QueryFilter, C: QueryFilter> QueryFilter for (A, B, C) {
    open spec fn archetype_ok(&self, types: Seq<u64>) -> bool {
        self.0.archetype_ok(types) && self.1.archetype_ok(types) && self.2.archetype_ok(types)
    }

    open spec fn flags_ready(&self, arch: Archetype) -> bool {
        self.0.flags_ready(arch) && self.1.flags_ready(arch) && self.2.flags_ready(arch)
    }

    open spec fn row_ok(&self, arch: Archetype, slot: int, row: int) -> bool {
        self.0.row_ok(arch, slot, row) && self.1.row_ok(arch, slot, row) && self.2.row_ok(arch, slot, row)
    }

    open spec fn required(&self) -> Seq<u64> {
        self.0.required() + self.1.required() + self.2.required()
    }

    open spec fn excluded(&self) -> Seq<u64> {
        self.0.excluded() + self.1.excluded() + self.2.excluded()
    }

    open spec fn registered(&self, entries: Seq<(u64, TrackedComponentMeta)>) -> Seq<(u64, TrackedComponentMeta)> {
        self.2.registered(self.1.registered(self.0.registered(entries)))
    }

    fn matches(&self, archetype: &Archetype) -> (r: bool) {
        self.0.matches(archetype) && self.1.matches(archetype) && self.2.matches(archetype)
    }

    fn matches_row(&self, archetype: &Archetype, buffer: &CurrentBufferIdx, row: usize) -> (r: bool) {
        self.0.matches_row(archetype, buffer, row) && self.1.matches_row(archetype, buffer, row)
            && self.2.matches_row(archetype, buffer, row)
    }

    fn collect_filter(&self, withs: &mut AccessVec<u64>, withouts: &mut AccessVec<u64>, registry: &mut TrackedComponents) {
        self.0.collect_filter(withs, withouts, registry);
        self.1.collect_filter(withs, withouts, registry);
        self.2.collect_filter(withs, withouts, registry);
        assert(withs@ =~= old(withs)@ + (self.0.required() + self.1.required() + self.2.required()));
        assert(withouts@ =~= old(withouts)@ + (self.0.excluded() + self.1.excluded() + self.2.excluded()));
    }
}

} // verus!
