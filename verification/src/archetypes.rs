//! Archetypes: the distinct sets of components entities carry, found again
//! by an order-independent hash of the set.
use vstd::prelude::*;

use indexmap::IndexSet;
use rustc_hash::{FxBuildHasher, FxHashMap};

use crate::collections::{
    fx_hash_one, fx_hash_u64, fx_map_get, fx_map_insert, fx_map_new, id_set_clone, id_set_contains,
    id_set_get_index, id_set_insert, id_set_items, id_set_len, id_set_new, id_set_swap_remove,
    seq_insert, seq_insert_all, seq_swap_remove,
};
use crate::entity::Entity;
use crate::reactivity::{
    AddedMarker, ChangedMarker, CurrentBufferIdx, MarkerKind, Mut, TrackedComponentMeta,
    TrackedComponents, clear_added_column, clear_changed_column, push_default_added_marker,
    push_default_changed_marker,
};
use crate::system::lemma_insert_all_no_duplicates;

verus! {

/// Identifies an archetype; archetypes are numbered densely from 0.
#[derive(Clone, Copy, PartialEq, Debug, Eq, Hash, Structural)]
pub struct ArchetypeId(pub u32);

impl ArchetypeId {
    pub fn new(id: u32) -> (a: ArchetypeId)
        ensures
            a.0 == id,
    {
        ArchetypeId(id)
    }

    pub fn id(&self) -> (r: u32)
        ensures
            r == self.0,
    {
        self.0
    }
}

/// The sum, as integers, of the Fx hashes of the items.
pub open spec fn hash_sum(items: Seq<u64>) -> int
    decreases items.len(),
{
    if items.len() == 0 {
        0
    } else {
        hash_sum(items.drop_last()) + fx_hash_u64(items.last()) as int
    }
}

/// The archetype key of a set of component ids: the wrapping sum of their
/// Fx hashes, the same whatever the order the ids come in.
pub open spec fn set_hash(items: Seq<u64>) -> u64 {
    (hash_sum(items) % 0x1_0000_0000_0000_0000int) as u64
}

proof fn lemma_hash_sum_remove(s: Seq<u64>, k: int)
    requires
        0 <= k < s.len(),
    ensures
        hash_sum(s) == hash_sum(s.remove(k)) + fx_hash_u64(s[k]) as int,
    decreases s.len(),
{
    if k < s.len() - 1 {
        lemma_hash_sum_remove(s.drop_last(), k);
        assert(s.remove(k).drop_last() =~= s.drop_last().remove(k));
        assert(s.remove(k).last() == s.last());
    } else {
        assert(s.remove(k) =~= s.drop_last());
    }
}

/// Sequences holding the same ids, each once, have the same hash sum.
proof fn lemma_hash_sum_permutation(a: Seq<u64>, b: Seq<u64>)
    requires
        a.no_duplicates(),
        b.no_duplicates(),
        a.to_set() == b.to_set(),
    ensures
        hash_sum(a) == hash_sum(b),
    decreases b.len(),
{
    if b.len() == 0 {
        if a.len() > 0 {
            assert(a.to_set().contains(a[0]));
        }
    } else {
        let x = b.last();
        assert(b.to_set().contains(x));
        assert(a.contains(x));
        let k = choose|k: int| 0 <= k < a.len() && a[k] == x;
        let a2 = a.remove(k);
        let b2 = b.drop_last();
        assert(a2.no_duplicates()) by {
            assert forall|i: int, j: int| 0 <= i < a2.len() && 0 <= j < a2.len() && i != j implies a2[i]
                != a2[j] by {
                let ii = if i < k { i } else { i + 1 };
                let jj = if j < k { j } else { j + 1 };
                assert(a2[i] == a[ii]);
                assert(a2[j] == a[jj]);
            }
        }
        assert(a2.to_set() =~= b2.to_set()) by {
            assert forall|y: u64| a2.to_set().contains(y) <==> b2.to_set().contains(y) by {
                if a2.contains(y) {
                    let i = choose|i: int| 0 <= i < a2.len() && a2[i] == y;
                    let ii = if i < k { i } else { i + 1 };
                    assert(a[ii] == y);
                    assert(a.to_set().contains(y));
                    assert(b.contains(y));
                    let j = choose|j: int| 0 <= j < b.len() && b[j] == y;
                    assert(y != x) by {
                        assert(ii != k);
                    }
                    assert(j != b.len() - 1);
                    assert(b2[j] == y);
                }
                if b2.contains(y) {
                    let j = choose|j: int| 0 <= j < b2.len() && b2[j] == y;
                    assert(b[j] == y);
                    assert(y != x) by {
                        assert(j != b.len() - 1);
                    }
                    assert(b.to_set().contains(y));
                    assert(a.contains(y));
                    let i = choose|i: int| 0 <= i < a.len() && a[i] == y;
                    assert(i != k);
                    let i2 = if i < k { i } else { i - 1 };
                    assert(a2[i2] == y);
                }
            }
        }
        lemma_hash_sum_permutation(a2, b2);
        lemma_hash_sum_remove(a, k);
    }
}

/// Reordering a component set leaves its archetype key unchanged.
pub proof fn lemma_set_hash_order_independent(a: Seq<u64>, b: Seq<u64>)
    requires
        a.no_duplicates(),
        b.no_duplicates(),
        a.to_set() == b.to_set(),
    ensures
        set_hash(a) == set_hash(b),
{
    lemma_hash_sum_permutation(a, b);
}

/// The wrapping sum of the Fx hashes of `types`.
pub fn calculate_hash(types: &IndexSet<u64, FxBuildHasher>) -> (h: u64)
    ensures
        h == set_hash(id_set_items(*types)),
{
    let n = id_set_len(types);
    let mut combined_hash: u64 = 0;
    let mut i: usize = 0;
    while i < n
        invariant
            i <= n == id_set_items(*types).len(),
            combined_hash == set_hash(id_set_items(*types).take(i as int)),
        decreases n - i,
    {
        let item = id_set_get_index(types, i);
        match item {
            Some(type_id) => {
                let h = fx_hash_one(type_id);
                proof {
                    let s = id_set_items(*types);
                    assert(s.take(i as int + 1).drop_last() =~= s.take(i as int));
                    assert(s.take(i as int + 1).last() == type_id);
                    assert((combined_hash as int + h as int) % 0x1_0000_0000_0000_0000int == (hash_sum(
                        s.take(i as int),
                    ) + h as int) % 0x1_0000_0000_0000_0000int) by {
                        vstd::arithmetic::div_mod::lemma_add_mod_noop(
                            hash_sum(s.take(i as int)),
                            h as int,
                            0x1_0000_0000_0000_0000int,
                        );
                        vstd::arithmetic::div_mod::lemma_mod_twice(
                            h as int,
                            0x1_0000_0000_0000_0000int,
                        );
                        vstd::arithmetic::div_mod::lemma_small_mod(
                            h as nat,
                            0x1_0000_0000_0000_0000nat,
                        );
                        vstd::arithmetic::div_mod::lemma_small_mod(
                            combined_hash as nat,
                            0x1_0000_0000_0000_0000nat,
                        );
                        vstd::arithmetic::div_mod::lemma_add_mod_noop(
                            combined_hash as int,
                            h as int,
                            0x1_0000_0000_0000_0000int,
                        );
                    }
                }
                combined_hash = combined_hash.wrapping_add(h);
            },
            None => {},
        }
        i += 1;
    }
    assert(id_set_items(*types).take(n as int) =~= id_set_items(*types));
    combined_hash
}

/// `items` after bringing the flag columns in line with the tracked
/// components, one tracked component at a time in registration order: a
/// present component gets its flag column, an absent one loses it.
pub open spec fn sync_markers(items: Seq<u64>, registry: Seq<(u64, TrackedComponentMeta)>) -> Seq<u64>
    decreases registry.len(),
{
    if registry.len() == 0 {
        items
    } else {
        let s = sync_markers(items, registry.drop_last());
        let meta = registry.last().1;
        if s.contains(meta.component_id) {
            seq_insert(s, meta.marker_id)
        } else if s.contains(meta.marker_id) {
            seq_swap_remove(s, meta.marker_id)
        } else {
            s
        }
    }
}

proof fn lemma_swap_remove_set(s: Seq<u64>, v: u64)
    requires
        s.no_duplicates(),
        s.contains(v),
    ensures
        seq_swap_remove(s, v).no_duplicates(),
        seq_swap_remove(s, v).to_set() == s.to_set().remove(v),
{
    let i = s.index_of(v);
    let r = seq_swap_remove(s, v);
    assert(s[i] == v);
    assert forall|a: int| 0 <= a < r.len() implies #[trigger] r[a] == (if a == i { s.last() } else { s[a] }) by {}
    assert(r.no_duplicates()) by {
        assert forall|a: int, b: int| 0 <= a < r.len() && 0 <= b < r.len() && a != b implies r[a] != r[b] by {
            let aa = if a == i { s.len() - 1 } else { a };
            let bb = if b == i { s.len() - 1 } else { b };
            assert(r[a] == s[aa]);
            assert(r[b] == s[bb]);
        }
    }
    assert(r.to_set() =~= s.to_set().remove(v)) by {
        assert forall|y: u64| r.to_set().contains(y) <==> s.to_set().remove(v).contains(y) by {
            if r.contains(y) {
                let a = choose|a: int| 0 <= a < r.len() && r[a] == y;
                let aa = if a == i { s.len() - 1 } else { a };
                assert(s[aa] == y);
                assert(aa != i);
            }
            if s.contains(y) && y != v {
                let a = choose|a: int| 0 <= a < s.len() && s[a] == y;
                assert(a != i);
                if a == s.len() - 1 {
                    assert(r[i] == y);
                } else {
                    assert(r[a] == y);
                }
            }
        }
    }
}

proof fn lemma_insert_set(s: Seq<u64>, v: u64)
    requires
        s.no_duplicates(),
    ensures
        seq_insert(s, v).no_duplicates(),
        seq_insert(s, v).to_set() == s.to_set().insert(v),
{
    if !s.contains(v) {
        let p = s.push(v);
        assert(p.no_duplicates()) by {
            assert forall|a: int, b: int| 0 <= a < p.len() && 0 <= b < p.len() && a != b implies p[a] != p[b] by {
                if a < s.len() && b < s.len() {
                    assert(s[a] != s[b]);
                } else if a < s.len() {
                    assert(s[a] != v);
                } else if b < s.len() {
                    assert(s[b] != v);
                }
            }
        }
        assert(p.to_set() =~= s.to_set().insert(v)) by {
            assert forall|y: u64| p.contains(y) <==> s.contains(y) || y == v by {
                if p.contains(y) {
                    let a = choose|a: int| 0 <= a < p.len() && p[a] == y;
                    if a < s.len() {
                        assert(s[a] == y);
                    }
                }
                if s.contains(y) {
                    let a = choose|a: int| 0 <= a < s.len() && s[a] == y;
                    assert(p[a] == y);
                }
                assert(p[s.len() as int] == v);
            }
        }
    } else {
        assert(s.to_set() =~= s.to_set().insert(v));
    }
}

/// Flag syncing depends only on which ids are present, not their order.
pub proof fn lemma_sync_markers_set(a: Seq<u64>, b: Seq<u64>, registry: Seq<(u64, TrackedComponentMeta)>)
    requires
        a.no_duplicates(),
        b.no_duplicates(),
        a.to_set() == b.to_set(),
    ensures
        sync_markers(a, registry).no_duplicates(),
        sync_markers(b, registry).no_duplicates(),
        sync_markers(a, registry).to_set() == sync_markers(b, registry).to_set(),
    decreases registry.len(),
{
    if registry.len() > 0 {
        lemma_sync_markers_set(a, b, registry.drop_last());
        let sa = sync_markers(a, registry.drop_last());
        let sb = sync_markers(b, registry.drop_last());
        let meta = registry.last().1;
        assert(sa.contains(meta.component_id) == sb.contains(meta.component_id)) by {
            assert(sa.to_set().contains(meta.component_id) == sb.to_set().contains(meta.component_id));
        }
        assert(sa.contains(meta.marker_id) == sb.contains(meta.marker_id)) by {
            assert(sa.to_set().contains(meta.marker_id) == sb.to_set().contains(meta.marker_id));
        }
        if sa.contains(meta.component_id) {
            lemma_insert_set(sa, meta.marker_id);
            lemma_insert_set(sb, meta.marker_id);
        } else if sa.contains(meta.marker_id) {
            lemma_swap_remove_set(sa, meta.marker_id);
            lemma_swap_remove_set(sb, meta.marker_id);
        }
    }
}

/// Brings the flag columns of `types` in line with the tracked components.
pub fn sync_tracking_markers(types: &mut IndexSet<u64, FxBuildHasher>, registry: &TrackedComponents)
    requires
        id_set_items(*old(types)).no_duplicates(),
    ensures
        id_set_items(*final(types)) == sync_markers(id_set_items(*old(types)), registry@),
        id_set_items(*final(types)).no_duplicates(),
{
    let n = registry.len();
    let mut i: usize = 0;
    while i < n
        invariant
            i <= n == registry@.len(),
            id_set_items(*types) == sync_markers(id_set_items(*old(types)), registry@.take(i as int)),
            id_set_items(*types).no_duplicates(),
        decreases n - i,
    {
        let meta_opt = registry.get_index(i);
        proof {
            assert(registry@.take(i as int + 1).drop_last() =~= registry@.take(i as int));
        }
        match meta_opt {
            Some(meta) => {
                proof {
                    assert(registry@.take(i as int + 1).last().1 == meta);
                }
                if id_set_contains(types, meta.component_id) {
                    proof {
                        lemma_insert_set(id_set_items(*types), meta.marker_id);
                    }
                    id_set_insert(types, meta.marker_id);
                } else {
                    let ghost before = id_set_items(*types);
                    let removed = id_set_swap_remove(types, meta.marker_id);
                    proof {
                        if removed {
                            lemma_swap_remove_set(before, meta.marker_id);
                        }
                    }
                }
            },
            None => {},
        }
        i += 1;
    }
    assert(registry@.take(n as int) =~= registry@);
}

/// The `Added` flags of one tracked component across an archetype's rows.
pub struct AddedColumn {
    pub marker_id: u64,
    pub rows: Vec<AddedMarker>,
}

/// The `Changed` flags of one tracked component across an archetype's rows.
pub struct ChangedColumn {
    pub marker_id: u64,
    pub rows: Vec<ChangedMarker>,
}

/// `after` is `before` with slot `slot` of every row lowered.
pub open spec fn added_rows_cleared(before: Seq<AddedMarker>, after: Seq<AddedMarker>, slot: int) -> bool {
    &&& after.len() == before.len()
    &&& forall|r: int| 0 <= r < before.len() ==> #[trigger] after[r]@ == before[r]@.update(slot, false)
}

/// `after` is `before` with slot `slot` of every row lowered.
pub open spec fn changed_rows_cleared(before: Seq<ChangedMarker>, after: Seq<ChangedMarker>, slot: int) -> bool {
    &&& after.len() == before.len()
    &&& forall|r: int| 0 <= r < before.len() ==> #[trigger] after[r]@ == before[r]@.update(slot, false)
}

/// `after` is `before` with one more row, for `entity`: each `Added` flag
/// column gains a row raised in `write_slot`, each `Changed` column a row
/// with neither slot raised.
pub open spec fn row_pushed(before: Archetype, after: Archetype, entity: Entity, write_slot: int) -> bool {
    &&& after.types() == before.types()
    &&& after.entities() == before.entities().push(entity)
    &&& after.added_columns().len() == before.added_columns().len()
    &&& after.changed_columns().len() == before.changed_columns().len()
    &&& forall|c: int| 0 <= c < before.added_columns().len() ==> {
        &&& #[trigger] after.added_columns()[c].marker_id == before.added_columns()[c].marker_id
        &&& after.added_columns()[c].rows@.drop_last() == before.added_columns()[c].rows@
        &&& after.added_columns()[c].rows@.len() == before.added_columns()[c].rows@.len() + 1
        &&& after.added_columns()[c].rows@.last()@ == seq![false, false].update(write_slot, true)
    }
    &&& forall|c: int| 0 <= c < before.changed_columns().len() ==> {
        &&& #[trigger] after.changed_columns()[c].marker_id == before.changed_columns()[c].marker_id
        &&& after.changed_columns()[c].rows@.drop_last() == before.changed_columns()[c].rows@
        &&& after.changed_columns()[c].rows@.len() == before.changed_columns()[c].rows@.len() + 1
        &&& after.changed_columns()[c].rows@.last()@ == seq![false, false]
    }
}

/// `after` is `before` with the flags of row `row` of `Changed` column `c`
/// replaced by `flags`.
pub open spec fn changed_row_set(before: Archetype, after: Archetype, c: int, row: int, flags: Seq<bool>) -> bool {
    &&& after.id_spec() == before.id_spec()
    &&& after.types() == before.types()
    &&& after.entities() == before.entities()
    &&& after.added_columns() == before.added_columns()
    &&& after.changed_columns().len() == before.changed_columns().len()
    &&& forall|k: int| 0 <= k < before.changed_columns().len() && k != c ==> #[trigger] after.changed_columns()[k] == before.changed_columns()[k]
    &&& after.changed_columns()[c].marker_id == before.changed_columns()[c].marker_id
    &&& after.changed_columns()[c].rows@.len() == before.changed_columns()[c].rows@.len()
    &&& forall|r: int| 0 <= r < before.changed_columns()[c].rows@.len() && r != row ==> #[trigger] after.changed_columns()[c].rows@[r] == before.changed_columns()[c].rows@[r]
    &&& after.changed_columns()[c].rows@[row]@ == flags
}

/// `after` is `before` without row `row`, the last row moved into its place
/// in the entities and in every flag column.
pub open spec fn row_swap_removed(before: Archetype, after: Archetype, row: int) -> bool {
    &&& after.id_spec() == before.id_spec()
    &&& after.types() == before.types()
    &&& after.entities() == before.entities().update(row, before.entities().last()).drop_last()
    &&& after.added_columns().len() == before.added_columns().len()
    &&& after.changed_columns().len() == before.changed_columns().len()
    &&& forall|c: int| 0 <= c < before.added_columns().len() ==> {
        &&& #[trigger] after.added_columns()[c].marker_id == before.added_columns()[c].marker_id
        &&& after.added_columns()[c].rows@ == before.added_columns()[c].rows@.update(row, before.added_columns()[c].rows@.last()).drop_last()
    }
    &&& forall|c: int| 0 <= c < before.changed_columns().len() ==> {
        &&& #[trigger] after.changed_columns()[c].marker_id == before.changed_columns()[c].marker_id
        &&& after.changed_columns()[c].rows@ == before.changed_columns()[c].rows@.update(row, before.changed_columns()[c].rows@.last()).drop_last()
    }
}

/// One archetype: its component set and the entities stored in it, with
/// the flag columns of its tracked components.
pub struct Archetype {
    id: ArchetypeId,
    types: IndexSet<u64, FxBuildHasher>,
    entities: Vec<Entity>,
    added_columns: Vec<AddedColumn>,
    changed_columns: Vec<ChangedColumn>,
}

impl Archetype {
    pub closed spec fn id_spec(&self) -> ArchetypeId {
        self.id
    }

    /// The component ids of this archetype, flag columns included.
    pub closed spec fn types(&self) -> Seq<u64> {
        id_set_items(self.types)
    }

    /// The entities stored here, one per row.
    pub closed spec fn entities(&self) -> Seq<Entity> {
        self.entities@
    }

    /// The `Added` flag columns.
    pub closed spec fn added_columns(&self) -> Seq<AddedColumn> {
        self.added_columns@
    }

    /// The `Changed` flag columns.
    pub closed spec fn changed_columns(&self) -> Seq<ChangedColumn> {
        self.changed_columns@
    }

    /// Every flag column has one row per entity.
    pub open spec fn rows_aligned(&self) -> bool {
        &&& forall|c: int|
            0 <= c < self.added_columns().len() ==> #[trigger] self.added_columns()[c].rows@.len()
                == self.entities().len()
        &&& forall|c: int|
            0 <= c < self.changed_columns().len() ==> #[trigger] self.changed_columns()[c].rows@.len()
                == self.entities().len()
    }

    pub fn id(&self) -> (r: u32)
        ensures
            r == self.id_spec().0,
    {
        self.id.0
    }

    pub fn entities_len(&self) -> (n: usize)
        ensures
            n == self.entities().len(),
    {
        self.entities.len()
    }

    pub fn entity_at(&self, row: usize) -> (e: Entity)
        requires
            (row as int) < self.entities().len(),
        ensures
            e == self.entities()[row as int],
    {
        self.entities[row]
    }

    /// Whether the archetype has component (or flag column) `id`.
    pub fn has_column(&self, id: u64) -> (r: bool)
        ensures
            r == self.types().contains(id),
    {
        id_set_contains(&self.types, id)
    }

    /// Position of the `Added` flag column `marker_id`, if the archetype has one.
    pub fn find_added_column(&self, marker_id: u64) -> (r: Option<usize>)
        ensures
            r matches Some(c) ==> (c as int) < self.added_columns().len()
                && self.added_columns()[c as int].marker_id == marker_id
                && forall|k: int| 0 <= k < c ==> #[trigger] self.added_columns()[k].marker_id != marker_id,
            r is None ==> forall|c: int|
                0 <= c < self.added_columns().len() ==> #[trigger] self.added_columns()[c].marker_id != marker_id,
    {
        let mut c: usize = 0;
        while c < self.added_columns.len()
            invariant
                c <= self.added_columns@.len(),
                forall|k: int| 0 <= k < c ==> #[trigger] self.added_columns@[k].marker_id != marker_id,
            decreases self.added_columns@.len() - c,
        {
            if self.added_columns[c].marker_id == marker_id {
                return Some(c);
            }
            c += 1;
        }
        None
    }

    /// Position of the `Changed` flag column `marker_id`, if the archetype has one.
    pub fn find_changed_column(&self, marker_id: u64) -> (r: Option<usize>)
        ensures
            r matches Some(c) ==> (c as int) < self.changed_columns().len()
                && self.changed_columns()[c as int].marker_id == marker_id
                && forall|k: int| 0 <= k < c ==> #[trigger] self.changed_columns()[k].marker_id != marker_id,
            r is None ==> forall|c: int|
                0 <= c < self.changed_columns().len() ==> #[trigger] self.changed_columns()[c].marker_id != marker_id,
    {
        let mut c: usize = 0;
        while c < self.changed_columns.len()
            invariant
                c <= self.changed_columns@.len(),
                forall|k: int| 0 <= k < c ==> #[trigger] self.changed_columns@[k].marker_id != marker_id,
            decreases self.changed_columns@.len() - c,
        {
            if self.changed_columns[c].marker_id == marker_id {
                return Some(c);
            }
            c += 1;
        }
        None
    }

    /// Row `row` of `Added` flag column `c`.
    pub fn added_marker(&self, c: usize, row: usize) -> (m: AddedMarker)
        requires
            (c as int) < self.added_columns().len(),
            (row as int) < self.added_columns()[c as int].rows@.len(),
        ensures
            m == self.added_columns()[c as int].rows@[row as int],
    {
        self.added_columns[c].rows[row]
    }

    /// Row `row` of `Changed` flag column `c`.
    pub fn changed_marker(&self, c: usize, row: usize) -> (m: ChangedMarker)
        requires
            (c as int) < self.changed_columns().len(),
            (row as int) < self.changed_columns()[c as int].rows@.len(),
        ensures
            m == self.changed_columns()[c as int].rows@[row as int],
    {
        self.changed_columns[c].rows[row]
    }

    /// Writes row `row` of the component whose `Changed` column is `c`
    /// through `access`, which raises the row's flag in the write slot.
    pub fn trigger_change(&mut self, c: usize, row: usize, access: &Mut)
        requires
            (c as int) < old(self).changed_columns().len(),
            (row as int) < old(self).changed_columns()[c as int].rows@.len(),
            0 <= access.write_slot() <= 1,
        ensures
            changed_row_set(*old(self), *final(self), c as int, row as int,
                if access.is_tracked() {
                    old(self).changed_columns()[c as int].rows@[row as int]@.update(access.write_slot(), true)
                } else {
                    old(self).changed_columns()[c as int].rows@[row as int]@
                }),
            old(self).rows_aligned() ==> final(self).rows_aligned(),
    {
        let mut marker = self.changed_columns[c].rows[row];
        access.trigger_change_detection(&mut marker);
        self.changed_columns[c].rows.set(row, marker);
        proof {
            if old(self).rows_aligned() {
                assert forall|k: int| 0 <= k < self.changed_columns().len() implies #[trigger] self.changed_columns()[k].rows@.len()
                    == self.entities().len() by {
                    assert(old(self).changed_columns()[k].rows@.len() == old(self).entities().len());
                }
            }
        }
    }

    /// Lowers the write slot of every flag of every row, as a frame ends.
    pub fn clear_markers(&mut self, write_slot: u8)
        requires
            write_slot <= 1,
        ensures
            final(self).id_spec() == old(self).id_spec(),
            final(self).types() == old(self).types(),
            final(self).entities() == old(self).entities(),
            final(self).added_columns().len() == old(self).added_columns().len(),
            final(self).changed_columns().len() == old(self).changed_columns().len(),
            forall|c: int|
                0 <= c < old(self).added_columns().len() ==> #[trigger] final(self).added_columns()[c].marker_id
                    == old(self).added_columns()[c].marker_id && added_rows_cleared(
                    old(self).added_columns()[c].rows@,
                    final(self).added_columns()[c].rows@,
                    write_slot as int,
                ),
            forall|c: int|
                0 <= c < old(self).changed_columns().len() ==> #[trigger] final(self).changed_columns()[c].marker_id
                    == old(self).changed_columns()[c].marker_id && changed_rows_cleared(
                    old(self).changed_columns()[c].rows@,
                    final(self).changed_columns()[c].rows@,
                    write_slot as int,
                ),
    {
        let mut c: usize = 0;
        while c < self.added_columns.len()
            invariant
                write_slot <= 1,
                c <= self.added_columns@.len() == old(self).added_columns@.len(),
                self.id == old(self).id,
                self.types == old(self).types,
                self.entities == old(self).entities,
                self.changed_columns == old(self).changed_columns,
                forall|k: int|
                    c <= k < self.added_columns@.len() ==> #[trigger] self.added_columns@[k] == old(self).added_columns@[k],
                forall|k: int|
                    0 <= k < c ==> #[trigger] self.added_columns@[k].marker_id == old(self).added_columns@[k].marker_id
                        && added_rows_cleared(old(self).added_columns@[k].rows@, self.added_columns@[k].rows@, write_slot as int),
            decreases self.added_columns@.len() - c,
        {
            let ghost prev = self.added_columns@;
            clear_added_column(&mut self.added_columns[c].rows, write_slot);
            proof {
                assert(self.added_columns@.len() == prev.len());
                assert(self.added_columns@[c as int].marker_id == prev[c as int].marker_id);
                assert forall|k: int| 0 <= k < prev.len() && k != c implies #[trigger] self.added_columns@[k] == prev[k] by {}
            }
            c += 1;
        }
        let ghost added_done = self.added_columns;
        let mut c: usize = 0;
        while c < self.changed_columns.len()
            invariant
                write_slot <= 1,
                c <= self.changed_columns@.len() == old(self).changed_columns@.len(),
                self.id == old(self).id,
                self.types == old(self).types,
                self.entities == old(self).entities,
                self.added_columns@.len() == old(self).added_columns@.len(),
                self.added_columns == added_done,
                forall|k: int|
                    0 <= k < self.added_columns@.len() ==> #[trigger] self.added_columns@[k].marker_id == old(self).added_columns@[k].marker_id
                        && added_rows_cleared(old(self).added_columns@[k].rows@, self.added_columns@[k].rows@, write_slot as int),
                forall|k: int|
                    c <= k < self.changed_columns@.len() ==> #[trigger] self.changed_columns@[k] == old(self).changed_columns@[k],
                forall|k: int|
                    0 <= k < c ==> #[trigger] self.changed_columns@[k].marker_id == old(self).changed_columns@[k].marker_id
                        && changed_rows_cleared(old(self).changed_columns@[k].rows@, self.changed_columns@[k].rows@, write_slot as int),
            decreases self.changed_columns@.len() - c,
        {
            let ghost prev = self.changed_columns@;
            clear_changed_column(&mut self.changed_columns[c].rows, write_slot);
            proof {
                assert(self.changed_columns@.len() == prev.len());
                assert(self.changed_columns@[c as int].marker_id == prev[c as int].marker_id);
                assert forall|k: int| 0 <= k < prev.len() && k != c implies #[trigger] self.changed_columns@[k] == prev[k] by {}
            }
            c += 1;
        }
    }
}


/// The flag column ids of kind `kind` that `types` has, in the order the
/// tracked components were registered.
pub open spec fn marker_columns_of(types: Seq<u64>, entries: Seq<(u64, TrackedComponentMeta)>, kind: MarkerKind) -> Seq<u64>
    decreases entries.len(),
{
    if entries.len() == 0 {
        Seq::empty()
    } else {
        let front = marker_columns_of(types, entries.drop_last(), kind);
        let meta = entries.last().1;
        if meta.kind == kind && types.contains(meta.marker_id) {
            front.push(meta.marker_id)
        } else {
            front
        }
    }
}

impl Archetype {
    /// An empty archetype `id` for the component set `types`, with an empty
    /// flag column for each tracked component whose flag column id is in
    /// `types`.
    pub fn new(id: ArchetypeId, types: IndexSet<u64, FxBuildHasher>, registry: &TrackedComponents) -> (a: Archetype)
        ensures
            a.id_spec() == id,
            a.types() == id_set_items(types),
            a.entities() == Seq::<Entity>::empty(),
            a.added_columns().map_values(|c: AddedColumn| c.marker_id) == marker_columns_of(id_set_items(types), registry@, MarkerKind::Added),
            a.changed_columns().map_values(|c: ChangedColumn| c.marker_id) == marker_columns_of(id_set_items(types), registry@, MarkerKind::Changed),
            a.rows_aligned(),
    {
        let mut added_columns: Vec<AddedColumn> = Vec::new();
        let mut changed_columns: Vec<ChangedColumn> = Vec::new();
        let n = registry.len();
        let mut i: usize = 0;
        while i < n
            invariant
                i <= n == registry@.len(),
                added_columns@.map_values(|c: AddedColumn| c.marker_id) == marker_columns_of(id_set_items(types), registry@.take(i as int), MarkerKind::Added),
                changed_columns@.map_values(|c: ChangedColumn| c.marker_id) == marker_columns_of(id_set_items(types), registry@.take(i as int), MarkerKind::Changed),
                forall|c: int| 0 <= c < added_columns@.len() ==> #[trigger] added_columns@[c].rows@.len() == 0,
                forall|c: int| 0 <= c < changed_columns@.len() ==> #[trigger] changed_columns@[c].rows@.len() == 0,
            decreases n - i,
        {
            proof {
                assert(registry@.take(i as int + 1).drop_last() =~= registry@.take(i as int));
            }
            match registry.get_index(i) {
                Some(meta) => {
                    proof {
                        assert(registry@.take(i as int + 1).last().1 == meta);
                    }
                    if id_set_contains(&types, meta.marker_id) {
                        match meta.kind {
                            MarkerKind::Added => {
                                let ghost before = added_columns@;
                                added_columns.push(AddedColumn { marker_id: meta.marker_id, rows: Vec::new() });
                                assert(added_columns@.map_values(|c: AddedColumn| c.marker_id) =~= before.map_values(|c: AddedColumn| c.marker_id).push(meta.marker_id));
                            },
                            MarkerKind::Changed => {
                                let ghost before = changed_columns@;
                                changed_columns.push(ChangedColumn { marker_id: meta.marker_id, rows: Vec::new() });
                                assert(changed_columns@.map_values(|c: ChangedColumn| c.marker_id) =~= before.map_values(|c: ChangedColumn| c.marker_id).push(meta.marker_id));
                            },
                        }
                    }
                },
                None => {},
            }
            i += 1;
        }
        assert(registry@.take(n as int) =~= registry@);
        Archetype { id, types, entities: Vec::new(), added_columns, changed_columns }
    }

    /// Appends a row for `entity`: an `Added` flag raised in the write slot
    /// and a `Changed` flag lowered in each flag column.
    pub fn push_row(&mut self, entity: Entity, buffer: &CurrentBufferIdx)
        requires
            old(self).rows_aligned(),
        ensures
            row_pushed(*old(self), *final(self), entity, 1 - buffer.read_slot()),
            final(self).id_spec() == old(self).id_spec(),
            final(self).types() == old(self).types(),
            final(self).entities() == old(self).entities().push(entity),
            final(self).rows_aligned(),
            final(self).added_columns().len() == old(self).added_columns().len(),
            final(self).changed_columns().len() == old(self).changed_columns().len(),
            forall|c: int| 0 <= c < old(self).added_columns().len() ==> {
                &&& #[trigger] final(self).added_columns()[c].marker_id == old(self).added_columns()[c].marker_id
                &&& final(self).added_columns()[c].rows@.drop_last() == old(self).added_columns()[c].rows@
                &&& final(self).added_columns()[c].rows@.last()@ == seq![false, false].update(1 - buffer.read_slot(), true)
            },
            forall|c: int| 0 <= c < old(self).changed_columns().len() ==> {
                &&& #[trigger] final(self).changed_columns()[c].marker_id == old(self).changed_columns()[c].marker_id
                &&& final(self).changed_columns()[c].rows@.drop_last() == old(self).changed_columns()[c].rows@
                &&& final(self).changed_columns()[c].rows@.last()@ == seq![false, false]
            },
    {
        self.entities.push(entity);
        let mut c: usize = 0;
        while c < self.added_columns.len()
            invariant
                c <= self.added_columns@.len() == old(self).added_columns@.len(),
                self.id == old(self).id,
                self.types == old(self).types,
                self.entities@ == old(self).entities@.push(entity),
                self.changed_columns == old(self).changed_columns,
                forall|k: int| c <= k < self.added_columns@.len() ==> #[trigger] self.added_columns@[k] == old(self).added_columns@[k],
                forall|k: int| 0 <= k < c ==> {
                    &&& #[trigger] self.added_columns@[k].marker_id == old(self).added_columns@[k].marker_id
                    &&& self.added_columns@[k].rows@.drop_last() == old(self).added_columns@[k].rows@
                    &&& self.added_columns@[k].rows@.len() == old(self).added_columns@[k].rows@.len() + 1
                    &&& self.added_columns@[k].rows@.last()@ == seq![false, false].update(1 - buffer.read_slot(), true)
                },
            decreases self.added_columns@.len() - c,
        {
            let ghost prev = self.added_columns@;
            push_default_added_marker(&mut self.added_columns[c].rows, buffer);
            proof {
                assert forall|k: int| 0 <= k < prev.len() && k != c implies #[trigger] self.added_columns@[k] == prev[k] by {}
            }
            c += 1;
        }
        let ghost added_done = self.added_columns;
        let mut c: usize = 0;
        while c < self.changed_columns.len()
            invariant
                c <= self.changed_columns@.len() == old(self).changed_columns@.len(),
                self.id == old(self).id,
                self.types == old(self).types,
                self.entities@ == old(self).entities@.push(entity),
                self.added_columns == added_done,
                added_done@.len() == old(self).added_columns@.len(),
                forall|k: int| 0 <= k < added_done@.len() ==> {
                    &&& #[trigger] added_done@[k].marker_id == old(self).added_columns@[k].marker_id
                    &&& added_done@[k].rows@.drop_last() == old(self).added_columns@[k].rows@
                    &&& added_done@[k].rows@.len() == old(self).added_columns@[k].rows@.len() + 1
                    &&& added_done@[k].rows@.last()@ == seq![false, false].update(1 - buffer.read_slot(), true)
                },
                forall|k: int| c <= k < self.changed_columns@.len() ==> #[trigger] self.changed_columns@[k] == old(self).changed_columns@[k],
                forall|k: int| 0 <= k < c ==> {
                    &&& #[trigger] self.changed_columns@[k].marker_id == old(self).changed_columns@[k].marker_id
                    &&& self.changed_columns@[k].rows@.drop_last() == old(self).changed_columns@[k].rows@
                    &&& self.changed_columns@[k].rows@.len() == old(self).changed_columns@[k].rows@.len() + 1
                    &&& self.changed_columns@[k].rows@.last()@ == seq![false, false]
                },
            decreases self.changed_columns@.len() - c,
        {
            let ghost prev = self.changed_columns@;
            push_default_changed_marker(&mut self.changed_columns[c].rows);
            proof {
                assert forall|k: int| 0 <= k < prev.len() && k != c implies #[trigger] self.changed_columns@[k] == prev[k] by {}
            }
            c += 1;
        }
        proof {
            assert forall|k: int| 0 <= k < self.added_columns().len() implies #[trigger] self.added_columns()[k].rows@.len() == self.entities().len() by {
                assert(old(self).added_columns()[k].rows@.len() == old(self).entities().len());
                assert(self.added_columns@[k].marker_id == old(self).added_columns@[k].marker_id);
            }
            assert forall|k: int| 0 <= k < self.changed_columns().len() implies #[trigger] self.changed_columns()[k].rows@.len() == self.entities().len() by {
                assert(old(self).changed_columns()[k].rows@.len() == old(self).entities().len());
                assert(self.changed_columns@[k].marker_id == old(self).changed_columns@[k].marker_id);
            }
        }
    }

    /// Removes row `row`, moving the last row into its place; returns the
    /// entity that was stored there.
    pub fn swap_remove_row(&mut self, row: usize) -> (e: Entity)
        requires
            old(self).rows_aligned(),
            (row as int) < old(self).entities().len(),
        ensures
            e == old(self).entities()[row as int],
            final(self).id_spec() == old(self).id_spec(),
            final(self).types() == old(self).types(),
            final(self).entities() == old(self).entities().update(row as int, old(self).entities().last()).drop_last(),
            final(self).rows_aligned(),
            final(self).added_columns().len() == old(self).added_columns().len(),
            final(self).changed_columns().len() == old(self).changed_columns().len(),
            forall|c: int| 0 <= c < old(self).added_columns().len() ==> {
                &&& #[trigger] final(self).added_columns()[c].marker_id == old(self).added_columns()[c].marker_id
                &&& final(self).added_columns()[c].rows@ == old(self).added_columns()[c].rows@.update(row as int, old(self).added_columns()[c].rows@.last()).drop_last()
            },
            forall|c: int| 0 <= c < old(self).changed_columns().len() ==> {
                &&& #[trigger] final(self).changed_columns()[c].marker_id == old(self).changed_columns()[c].marker_id
                &&& final(self).changed_columns()[c].rows@ == old(self).changed_columns()[c].rows@.update(row as int, old(self).changed_columns()[c].rows@.last()).drop_last()
            },
    {
        let e = self.entities.swap_remove(row);
        let mut c: usize = 0;
        while c < self.added_columns.len()
            invariant
                c <= self.added_columns@.len() == old(self).added_columns@.len(),
                (row as int) < old(self).entities@.len(),
                old(self).rows_aligned(),
                self.id == old(self).id,
                self.types == old(self).types,
                self.entities@ == old(self).entities@.update(row as int, old(self).entities@.last()).drop_last(),
                self.changed_columns == old(self).changed_columns,
                forall|k: int| c <= k < self.added_columns@.len() ==> #[trigger] self.added_columns@[k] == old(self).added_columns@[k],
                forall|k: int| 0 <= k < c ==> {
                    &&& #[trigger] self.added_columns@[k].marker_id == old(self).added_columns@[k].marker_id
                    &&& self.added_columns@[k].rows@ == old(self).added_columns@[k].rows@.update(row as int, old(self).added_columns@[k].rows@.last()).drop_last()
                },
            decreases self.added_columns@.len() - c,
        {
            let ghost prev = self.added_columns@;
            assert(old(self).added_columns()[c as int].rows@.len() == old(self).entities().len());
            self.added_columns[c].rows.swap_remove(row);
            proof {
                assert forall|k: int| 0 <= k < prev.len() && k != c implies #[trigger] self.added_columns@[k] == prev[k] by {}
            }
            c += 1;
        }
        let ghost added_done = self.added_columns;
        let mut c: usize = 0;
        while c < self.changed_columns.len()
            invariant
                c <= self.changed_columns@.len() == old(self).changed_columns@.len(),
                (row as int) < old(self).entities@.len(),
                old(self).rows_aligned(),
                self.id == old(self).id,
                self.types == old(self).types,
                self.entities@ == old(self).entities@.update(row as int, old(self).entities@.last()).drop_last(),
                self.added_columns == added_done,
                added_done@.len() == old(self).added_columns@.len(),
                forall|k: int| 0 <= k < added_done@.len() ==> {
                    &&& #[trigger] added_done@[k].marker_id == old(self).added_columns@[k].marker_id
                    &&& added_done@[k].rows@ == old(self).added_columns@[k].rows@.update(row as int, old(self).added_columns@[k].rows@.last()).drop_last()
                },
                forall|k: int| c <= k < self.changed_columns@.len() ==> #[trigger] self.changed_columns@[k] == old(self).changed_columns@[k],
                forall|k: int| 0 <= k < c ==> {
                    &&& #[trigger] self.changed_columns@[k].marker_id == old(self).changed_columns@[k].marker_id
                    &&& self.changed_columns@[k].rows@ == old(self).changed_columns@[k].rows@.update(row as int, old(self).changed_columns@[k].rows@.last()).drop_last()
                },
            decreases self.changed_columns@.len() - c,
        {
            let ghost prev = self.changed_columns@;
            assert(old(self).changed_columns()[c as int].rows@.len() == old(self).entities().len());
            self.changed_columns[c].rows.swap_remove(row);
            proof {
                assert forall|k: int| 0 <= k < prev.len() && k != c implies #[trigger] self.changed_columns@[k] == prev[k] by {}
            }
            c += 1;
        }
        proof {
            assert forall|k: int| 0 <= k < self.added_columns().len() implies #[trigger] self.added_columns()[k].rows@.len() == self.entities().len() by {
                assert(old(self).added_columns()[k].rows@.len() == old(self).entities().len());
                assert(self.added_columns@[k].marker_id == old(self).added_columns@[k].marker_id);
            }
            assert forall|k: int| 0 <= k < self.changed_columns().len() implies #[trigger] self.changed_columns()[k].rows@.len() == self.entities().len() by {
                assert(old(self).changed_columns()[k].rows@.len() == old(self).entities().len());
                assert(self.changed_columns@[k].marker_id == old(self).changed_columns@[k].marker_id);
            }
        }
        e
    }
}


/// `s` with each item of `t` removed in turn, the last item moving into a
/// removed one's place.
pub open spec fn seq_remove_all(s: Seq<u64>, t: Seq<u64>) -> Seq<u64>
    decreases t.len(),
{
    if t.len() == 0 {
        s
    } else {
        let front = seq_remove_all(s, t.drop_last());
        if front.contains(t.last()) {
            seq_swap_remove(front, t.last())
        } else {
            front
        }
    }
}

/// Removing the items of `t` in turn from `s`, which repeats no item, leaves
/// exactly the items of `s` that are not in `t`, none repeated.
pub proof fn lemma_remove_all_contents(s: Seq<u64>, t: Seq<u64>)
    requires
        s.no_duplicates(),
    ensures
        seq_remove_all(s, t).no_duplicates(),
        forall|x: u64| #[trigger] seq_remove_all(s, t).contains(x) <==> s.contains(x) && !t.contains(x),
    decreases t.len(),
{
    if t.len() > 0 {
        lemma_remove_all_contents(s, t.drop_last());
        let front = seq_remove_all(s, t.drop_last());
        let v = t.last();
        if front.contains(v) {
            lemma_swap_remove_set(front, v);
        }
        assert forall|x: u64| #[trigger] seq_remove_all(s, t).contains(x) <==> s.contains(x) && !t.contains(x) by {
            if front.contains(v) {
                assert(seq_swap_remove(front, v).to_set().contains(x) == front.to_set().remove(v).contains(x));
            }
            if t.drop_last().contains(x) {
                let k = choose|k: int| 0 <= k < t.drop_last().len() && t.drop_last()[k] == x;
                assert(t[k] == x);
            }
            if t.contains(x) && x != v {
                let k = choose|k: int| 0 <= k < t.len() && t[k] == x;
                assert(t.drop_last()[k] == x);
            }
            assert(t[t.len() - 1] == v);
        }
    }
}

/// The component set an entity with exactly the components `ids` lives in,
/// flag columns included.
pub open spec fn bundle_types(ids: Seq<u64>, registry: Seq<(u64, TrackedComponentMeta)>) -> Seq<u64> {
    sync_markers(seq_insert_all(Seq::empty(), ids), registry)
}

/// All archetypes, numbered densely, and the index that finds an archetype
/// by the hash of its component set.
pub struct ArchetypeManager {
    index: FxHashMap<u64, u32>,
    archetypes: Vec<Archetype>,
    next_id: u32,
}

impl ArchetypeManager {
    /// The index from component-set hash to archetype id.
    pub closed spec fn index(&self) -> Map<u64, u32> {
        self.index@
    }

    pub closed spec fn archetypes(&self) -> Seq<Archetype> {
        self.archetypes@
    }

    pub closed spec fn wf(&self) -> bool {
        &&& self.next_id as int == self.archetypes@.len()
        &&& forall|i: int| 0 <= i < self.archetypes@.len() ==> (#[trigger] self.archetypes@[i]).id_spec().0 == i
        &&& forall|i: int| 0 <= i < self.archetypes@.len() ==> (#[trigger] self.archetypes@[i]).types().no_duplicates()
        &&& forall|i: int| 0 <= i < self.archetypes@.len() ==> (#[trigger] self.archetypes@[i]).rows_aligned()
        &&& forall|h: u64| #[trigger] self.index@.contains_key(h) ==> (self.index@[h] as int) < self.archetypes@.len()
            && set_hash(self.archetypes@[self.index@[h] as int].types()) == h
    }

    /// The archetype the index gives for component set `types`, if any.
    pub open spec fn lookup(&self, types: Seq<u64>) -> Option<u32> {
        if self.index().contains_key(set_hash(types)) {
            Some(self.index()[set_hash(types)])
        } else {
            None
        }
    }

    pub fn new() -> (m: Self)
        ensures
            m.wf(),
            m.archetypes() == Seq::<Archetype>::empty(),
            m.index() == Map::<u64, u32>::empty(),
    {
        let index = fx_map_new();
        assert(index@ =~= Map::<u64, u32>::empty());
        ArchetypeManager { index, archetypes: Vec::new(), next_id: 0 }
    }

    pub fn len(&self) -> (n: usize)
        ensures
            n == self.archetypes().len(),
    {
        self.archetypes.len()
    }

    /// What a well-formed manager guarantees of each archetype.
    pub proof fn lemma_wf(&self)
        requires
            self.wf(),
        ensures
            self.archetypes().len() <= u32::MAX,
            forall|i: int| #![trigger self.archetypes()[i]] 0 <= i < self.archetypes().len() ==> {
                &&& self.archetypes()[i].id_spec().0 == i
                &&& self.archetypes()[i].types().no_duplicates()
                &&& self.archetypes()[i].rows_aligned()
            },
    {
    }

    /// The archetype with id `id`, if there is one.
    pub fn get(&self, id: ArchetypeId) -> (a: Option<&Archetype>)
        ensures
            (id.0 as int) < self.archetypes().len() ==> a == Some(&self.archetypes()[id.0 as int]),
            (id.0 as int) >= self.archetypes().len() ==> a is None,
    {
        if (id.0 as usize) < self.archetypes.len() {
            Some(&self.archetypes[id.0 as usize])
        } else {
            None
        }
    }

    /// Finds the archetype for component set `types` by its hash, or
    /// creates it with the next id.
    pub fn get_or_create_from_set(&mut self, types: IndexSet<u64, FxBuildHasher>, registry: &TrackedComponents) -> (id: ArchetypeId)
        requires
            old(self).wf(),
            old(self).archetypes().len() < u32::MAX,
            id_set_items(types).no_duplicates(),
        ensures
            final(self).wf(),
            old(self).lookup(id_set_items(types)) matches Some(found) ==> id.0 == found && *final(self) == *old(self),
            (id.0 as int) < final(self).archetypes().len(),
            set_hash(final(self).archetypes()[id.0 as int].types()) == set_hash(id_set_items(types)),
            old(self).lookup(id_set_items(types)) is None ==> {
                &&& id.0 == old(self).archetypes().len()
                &&& final(self).archetypes() == old(self).archetypes().push(final(self).archetypes()[id.0 as int])
                &&& final(self).archetypes()[id.0 as int].types() == id_set_items(types)
                &&& final(self).archetypes()[id.0 as int].entities() == Seq::<Entity>::empty()
                &&& final(self).index() == old(self).index().insert(set_hash(id_set_items(types)), id.0)
            },
            final(self).lookup(id_set_items(types)) == Some(id.0),
    {
        let order_independent_hash = calculate_hash(&types);
        match fx_map_get(&self.index, order_independent_hash) {
            Some(id) => {
                return ArchetypeId(id);
            },
            None => {},
        }
        let new_id = ArchetypeId::new(self.next_id);
        self.next_id = self.next_id + 1;
        let ghost t = id_set_items(types);
        let new_arch = Archetype::new(new_id, types, registry);
        fx_map_insert(&mut self.index, order_independent_hash, new_id.0);
        self.archetypes.push(new_arch);
        proof {
            assert(self.archetypes@[new_id.0 as int] == new_arch);
            assert forall|i: int| 0 <= i < self.archetypes@.len() implies (#[trigger] self.archetypes@[i]).id_spec().0 == i by {
                if i < old(self).archetypes@.len() {
                    assert(self.archetypes@[i] == old(self).archetypes@[i]);
                }
            }
            assert forall|i: int| 0 <= i < self.archetypes@.len() implies (#[trigger] self.archetypes@[i]).types().no_duplicates() by {
                if i < old(self).archetypes@.len() {
                    assert(self.archetypes@[i] == old(self).archetypes@[i]);
                }
            }
            assert forall|i: int| 0 <= i < self.archetypes@.len() implies (#[trigger] self.archetypes@[i]).rows_aligned() by {
                if i < old(self).archetypes@.len() {
                    assert(self.archetypes@[i] == old(self).archetypes@[i]);
                }
            }
            assert(self.archetypes@ =~= old(self).archetypes@.push(self.archetypes@[new_id.0 as int]));
        }
        new_id
    }

    /// Finds or creates the archetype of an entity carrying exactly the
    /// components `ids` (in any order, repeats ignored), with the flag
    /// columns of those of them that are tracked.
    pub fn get_or_create_from_ids(&mut self, ids: &[u64], registry: &TrackedComponents) -> (id: ArchetypeId)
        requires
            old(self).wf(),
            old(self).archetypes().len() < u32::MAX,
        ensures
            final(self).wf(),
            old(self).lookup(bundle_types(ids@, registry@)) matches Some(found) ==> id.0 == found && *final(self) == *old(self),
            (id.0 as int) < final(self).archetypes().len(),
            set_hash(final(self).archetypes()[id.0 as int].types()) == set_hash(bundle_types(ids@, registry@)),
            old(self).lookup(bundle_types(ids@, registry@)) is None ==> {
                &&& id.0 == old(self).archetypes().len()
                &&& final(self).archetypes() == old(self).archetypes().push(final(self).archetypes()[id.0 as int])
                &&& final(self).archetypes()[id.0 as int].types() == bundle_types(ids@, registry@)
                &&& final(self).index() == old(self).index().insert(set_hash(bundle_types(ids@, registry@)), id.0)
            },
            final(self).lookup(bundle_types(ids@, registry@)) == Some(id.0),
    {
        let mut types_set = id_set_new();
        let mut i: usize = 0;
        while i < ids.len()
            invariant
                i <= ids@.len(),
                id_set_items(types_set) == seq_insert_all(Seq::empty(), ids@.take(i as int)),
            decreases ids@.len() - i,
        {
            id_set_insert(&mut types_set, ids[i]);
            proof {
                crate::system::lemma_insert_all_step(Seq::empty(), ids@, i as int);
            }
            i += 1;
        }
        assert(ids@.take(ids@.len() as int) =~= ids@);
        proof {
            lemma_insert_all_no_duplicates(Seq::empty(), ids@);
        }
        sync_tracking_markers(&mut types_set, registry);
        self.get_or_create_from_set(types_set, registry)
    }

    /// The archetype an entity of archetype `old_id` moves to when it gains
    /// the components `incoming`, if that archetype exists yet.
    pub fn find_target_id_for_addition(&self, old_id: ArchetypeId, incoming: &[u64], registry: &TrackedComponents) -> (r: Option<ArchetypeId>)
        requires
            self.wf(),
        ensures
            (old_id.0 as int) >= self.archetypes().len() ==> r is None,
            (old_id.0 as int) < self.archetypes().len() ==> r == match self.lookup(
                sync_markers(seq_insert_all(self.archetypes()[old_id.0 as int].types(), incoming@), registry@),
            ) {
                Some(found) => Some(ArchetypeId(found)),
                None => None::<ArchetypeId>,
            },
    {
        if (old_id.0 as usize) >= self.archetypes.len() {
            return None;
        }
        let old_arch = &self.archetypes[old_id.0 as usize];
        let mut target_types = id_set_clone(&old_arch.types);
        let ghost start = id_set_items(target_types);
        let mut i: usize = 0;
        while i < incoming.len()
            invariant
                i <= incoming@.len(),
                id_set_items(target_types) == seq_insert_all(start, incoming@.take(i as int)),
            decreases incoming@.len() - i,
        {
            id_set_insert(&mut target_types, incoming[i]);
            proof {
                crate::system::lemma_insert_all_step(start, incoming@, i as int);
            }
            i += 1;
        }
        assert(incoming@.take(incoming@.len() as int) =~= incoming@);
        proof {
            lemma_insert_all_no_duplicates(start, incoming@);
        }
        sync_tracking_markers(&mut target_types, registry);
        let hash = calculate_hash(&target_types);
        match fx_map_get(&self.index, hash) {
            Some(found) => Some(ArchetypeId(found)),
            None => None,
        }
    }

    /// The archetype an entity of archetype `old_id` moves to when it loses
    /// the components `removed`, if that archetype exists yet.
    pub fn find_target_id_for_subtraction(&self, old_id: ArchetypeId, removed: &[u64], registry: &TrackedComponents) -> (r: Option<ArchetypeId>)
        requires
            self.wf(),
        ensures
            (old_id.0 as int) >= self.archetypes().len() ==> r is None,
            (old_id.0 as int) < self.archetypes().len() ==> r == match self.lookup(
                sync_markers(seq_remove_all(self.archetypes()[old_id.0 as int].types(), removed@), registry@),
            ) {
                Some(found) => Some(ArchetypeId(found)),
                None => None::<ArchetypeId>,
            },
    {
        if (old_id.0 as usize) >= self.archetypes.len() {
            return None;
        }
        let old_arch = &self.archetypes[old_id.0 as usize];
        let mut target_types = id_set_clone(&old_arch.types);
        let ghost start = id_set_items(target_types);
        let mut i: usize = 0;
        while i < removed.len()
            invariant
                i <= removed@.len(),
                id_set_items(target_types) == seq_remove_all(start, removed@.take(i as int)),
                id_set_items(target_types).no_duplicates(),
            decreases removed@.len() - i,
        {
            let ghost before = id_set_items(target_types);
            let was_there = id_set_swap_remove(&mut target_types, removed[i]);
            proof {
                assert(removed@.take(i as int + 1).drop_last() =~= removed@.take(i as int));
                if was_there {
                    lemma_swap_remove_set(before, removed@[i as int]);
                }
            }
            i += 1;
        }
        assert(removed@.take(removed@.len() as int) =~= removed@);
        sync_tracking_markers(&mut target_types, registry);
        let hash = calculate_hash(&target_types);
        match fx_map_get(&self.index, hash) {
            Some(found) => Some(ArchetypeId(found)),
            None => None,
        }
    }

    /// Appends a row for `entity` to archetype `id`; returns its row.
    pub fn push_entity(&mut self, id: ArchetypeId, entity: Entity, buffer: &CurrentBufferIdx) -> (row: usize)
        requires
            old(self).wf(),
            (id.0 as int) < old(self).archetypes().len(),
        ensures
            final(self).wf(),
            final(self).index() == old(self).index(),
            final(self).archetypes().len() == old(self).archetypes().len(),
            row == old(self).archetypes()[id.0 as int].entities().len(),
            final(self).archetypes()[id.0 as int].entities() == old(self).archetypes()[id.0 as int].entities().push(entity),
            final(self).archetypes()[id.0 as int].types() == old(self).archetypes()[id.0 as int].types(),
            row_pushed(old(self).archetypes()[id.0 as int], final(self).archetypes()[id.0 as int], entity, 1 - buffer.read_slot()),
            forall|i: int| 0 <= i < old(self).archetypes().len() && i != id.0 ==> #[trigger] final(self).archetypes()[i] == old(self).archetypes()[i],
    {
        let row = self.archetypes[id.0 as usize].entities.len();
        self.archetypes[id.0 as usize].push_row(entity, buffer);
        proof {
            assert forall|i: int| 0 <= i < self.archetypes@.len() implies (#[trigger] self.archetypes@[i]).id_spec().0 == i
                && self.archetypes@[i].types().no_duplicates() && self.archetypes@[i].rows_aligned() by {
                if i != id.0 {
                    assert(self.archetypes@[i] == old(self).archetypes@[i]);
                }
            }
        }
        row
    }

    /// Writes row `row` of archetype `id` through `access`, which raises the
    /// row's flag in `Changed` column `c`.
    pub fn trigger_change(&mut self, id: ArchetypeId, c: usize, row: usize, access: &Mut)
        requires
            old(self).wf(),
            (id.0 as int) < old(self).archetypes().len(),
            (c as int) < old(self).archetypes()[id.0 as int].changed_columns().len(),
            (row as int) < old(self).archetypes()[id.0 as int].changed_columns()[c as int].rows@.len(),
            0 <= access.write_slot() <= 1,
        ensures
            final(self).wf(),
            final(self).index() == old(self).index(),
            final(self).archetypes().len() == old(self).archetypes().len(),
            changed_row_set(old(self).archetypes()[id.0 as int], final(self).archetypes()[id.0 as int], c as int, row as int,
                if access.is_tracked() {
                    old(self).archetypes()[id.0 as int].changed_columns()[c as int].rows@[row as int]@.update(access.write_slot(), true)
                } else {
                    old(self).archetypes()[id.0 as int].changed_columns()[c as int].rows@[row as int]@
                }),
            forall|i: int| 0 <= i < old(self).archetypes().len() && i != id.0 ==> #[trigger] final(self).archetypes()[i] == old(self).archetypes()[i],
    {
        self.archetypes[id.0 as usize].trigger_change(c, row, access);
        proof {
            assert forall|i: int| 0 <= i < self.archetypes@.len() implies (#[trigger] self.archetypes@[i]).id_spec().0 == i
                && self.archetypes@[i].types().no_duplicates() && self.archetypes@[i].rows_aligned() by {
                if i != id.0 {
                    assert(self.archetypes@[i] == old(self).archetypes@[i]);
                }
            }
        }
    }

    /// Removes row `row` of archetype `id`, the last row moving into its
    /// place; returns the entity that was stored there.
    pub fn swap_remove_row(&mut self, id: ArchetypeId, row: usize) -> (e: Entity)
        requires
            old(self).wf(),
            (id.0 as int) < old(self).archetypes().len(),
            (row as int) < old(self).archetypes()[id.0 as int].entities().len(),
        ensures
            final(self).wf(),
            e == old(self).archetypes()[id.0 as int].entities()[row as int],
            final(self).index() == old(self).index(),
            final(self).archetypes().len() == old(self).archetypes().len(),
            row_swap_removed(old(self).archetypes()[id.0 as int], final(self).archetypes()[id.0 as int], row as int),
            forall|i: int| 0 <= i < old(self).archetypes().len() && i != id.0 ==> #[trigger] final(self).archetypes()[i] == old(self).archetypes()[i],
    {
        let e = self.archetypes[id.0 as usize].swap_remove_row(row);
        proof {
            assert forall|i: int| 0 <= i < self.archetypes@.len() implies (#[trigger] self.archetypes@[i]).id_spec().0 == i
                && self.archetypes@[i].types().no_duplicates() && self.archetypes@[i].rows_aligned() by {
                if i != id.0 {
                    assert(self.archetypes@[i] == old(self).archetypes@[i]);
                }
            }
            assert forall|h: u64| #[trigger] self.index@.contains_key(h) implies (self.index@[h] as int) < self.archetypes@.len()
                && set_hash(self.archetypes@[self.index@[h] as int].types()) == h by {
                let k = self.index@[h] as int;
                if k != id.0 {
                    assert(self.archetypes@[k] == old(self).archetypes@[k]);
                }
            }
        }
        e
    }

    /// Lowers the write slot of every flag in every archetype, as a frame ends.
    pub fn clear_markers(&mut self, write_slot: u8)
        requires
            old(self).wf(),
            write_slot <= 1,
        ensures
            final(self).wf(),
            final(self).index() == old(self).index(),
            final(self).archetypes().len() == old(self).archetypes().len(),
            forall|i: int| 0 <= i < old(self).archetypes().len() ==> {
                &&& #[trigger] final(self).archetypes()[i].entities() == old(self).archetypes()[i].entities()
                &&& final(self).archetypes()[i].types() == old(self).archetypes()[i].types()
                &&& final(self).archetypes()[i].added_columns().len() == old(self).archetypes()[i].added_columns().len()
                &&& final(self).archetypes()[i].changed_columns().len() == old(self).archetypes()[i].changed_columns().len()
                &&& forall|c: int| 0 <= c < old(self).archetypes()[i].added_columns().len() ==> #[trigger] final(self).archetypes()[i].added_columns()[c].marker_id
                    == old(self).archetypes()[i].added_columns()[c].marker_id && added_rows_cleared(
                    old(self).archetypes()[i].added_columns()[c].rows@,
                    final(self).archetypes()[i].added_columns()[c].rows@,
                    write_slot as int,
                )
                &&& forall|c: int| 0 <= c < old(self).archetypes()[i].changed_columns().len() ==> #[trigger] final(self).archetypes()[i].changed_columns()[c].marker_id
                    == old(self).archetypes()[i].changed_columns()[c].marker_id && changed_rows_cleared(
                    old(self).archetypes()[i].changed_columns()[c].rows@,
                    final(self).archetypes()[i].changed_columns()[c].rows@,
                    write_slot as int,
                )
            },
    {
        let mut i: usize = 0;
        while i < self.archetypes.len()
            invariant
                write_slot <= 1,
                i <= self.archetypes@.len() == old(self).archetypes@.len(),
                self.index == old(self).index,
                self.next_id == old(self).next_id,
                old(self).wf(),
                forall|k: int| i <= k < self.archetypes@.len() ==> #[trigger] self.archetypes@[k] == old(self).archetypes@[k],
                forall|k: int| 0 <= k < i ==> {
                    &&& #[trigger] self.archetypes@[k].entities() == old(self).archetypes@[k].entities()
                    &&& self.archetypes@[k].id_spec() == old(self).archetypes@[k].id_spec()
                    &&& self.archetypes@[k].types() == old(self).archetypes@[k].types()
                    &&& self.archetypes@[k].added_columns().len() == old(self).archetypes@[k].added_columns().len()
                    &&& self.archetypes@[k].changed_columns().len() == old(self).archetypes@[k].changed_columns().len()
                    &&& forall|c: int| 0 <= c < old(self).archetypes@[k].added_columns().len() ==> #[trigger] self.archetypes@[k].added_columns()[c].marker_id
                        == old(self).archetypes@[k].added_columns()[c].marker_id && added_rows_cleared(
                        old(self).archetypes@[k].added_columns()[c].rows@,
                        self.archetypes@[k].added_columns()[c].rows@,
                        write_slot as int,
                    )
                    &&& forall|c: int| 0 <= c < old(self).archetypes@[k].changed_columns().len() ==> #[trigger] self.archetypes@[k].changed_columns()[c].marker_id
                        == old(self).archetypes@[k].changed_columns()[c].marker_id && changed_rows_cleared(
                        old(self).archetypes@[k].changed_columns()[c].rows@,
                        self.archetypes@[k].changed_columns()[c].rows@,
                        write_slot as int,
                    )
                },
            decreases self.archetypes@.len() - i,
        {
            let ghost prev = self.archetypes@;
            self.archetypes[i].clear_markers(write_slot);
            proof {
                assert forall|k: int| 0 <= k < prev.len() && k != i implies #[trigger] self.archetypes@[k] == prev[k] by {}
            }
            i += 1;
        }
        proof {
            assert forall|k: int| 0 <= k < self.archetypes@.len() implies (#[trigger] self.archetypes@[k]).id_spec().0 == k
                && self.archetypes@[k].types().no_duplicates() && self.archetypes@[k].rows_aligned() by {
                assert(self.archetypes@[k].entities() == old(self).archetypes@[k].entities());
                let a = self.archetypes@[k];
                let o = old(self).archetypes@[k];
                assert(o.rows_aligned());
                assert forall|c: int| 0 <= c < a.added_columns().len() implies #[trigger] a.added_columns()[c].rows@.len() == a.entities().len() by {
                    assert(a.added_columns()[c].marker_id == o.added_columns()[c].marker_id);
                    assert(o.added_columns()[c].rows@.len() == o.entities().len());
                }
                assert forall|c: int| 0 <= c < a.changed_columns().len() implies #[trigger] a.changed_columns()[c].rows@.len() == a.entities().len() by {
                    assert(a.changed_columns()[c].marker_id == o.changed_columns()[c].marker_id);
                    assert(o.changed_columns()[c].rows@.len() == o.entities().len());
                }
            }
            assert forall|h: u64| #[trigger] self.index@.contains_key(h) implies (self.index@[h] as int) < self.archetypes@.len()
                && set_hash(self.archetypes@[self.index@[h] as int].types()) == h by {
                let k = self.index@[h] as int;
                assert(self.archetypes@[k].entities() == old(self).archetypes@[k].entities());
            }
        }
    }
}

/// Entities given the same components, in whatever order and with whatever
/// repeats, are found in the same archetype.
pub proof fn lemma_same_components_same_archetype(
    m: ArchetypeManager,
    a: Seq<u64>,
    b: Seq<u64>,
    registry: Seq<(u64, TrackedComponentMeta)>,
)
    requires
        a.to_set() == b.to_set(),
    ensures
        m.lookup(bundle_types(a, registry)) == m.lookup(bundle_types(b, registry)),
{
    lemma_insert_all_no_duplicates(Seq::empty(), a);
    lemma_insert_all_no_duplicates(Seq::empty(), b);
    let sa = seq_insert_all(Seq::empty(), a);
    let sb = seq_insert_all(Seq::empty(), b);
    assert(sa.to_set() =~= sb.to_set()) by {
        assert forall|x: u64| sa.to_set().contains(x) <==> sb.to_set().contains(x) by {
            assert(!Seq::<u64>::empty().contains(x));
            assert(seq_insert_all(Seq::empty(), a).contains(x) <==> Seq::<u64>::empty().contains(x) || a.contains(x));
            assert(seq_insert_all(Seq::empty(), b).contains(x) <==> Seq::<u64>::empty().contains(x) || b.contains(x));
            assert(sa.contains(x) <==> a.contains(x));
            assert(sb.contains(x) <==> b.contains(x));
            assert(a.to_set().contains(x) == b.to_set().contains(x));
            assert(a.to_set().contains(x) == a.contains(x));
            assert(b.to_set().contains(x) == b.contains(x));
            assert(sa.to_set().contains(x) == sa.contains(x));
            assert(sb.to_set().contains(x) == sb.contains(x));
        }
    }
    lemma_sync_markers_set(sa, sb, registry);
    lemma_set_hash_order_independent(sync_markers(sa, registry), sync_markers(sb, registry));
}

/// The archetype found for an entity of archetype `source` that loses the
/// components `removed` is the one `get_or_create_from_ids` gives for any
/// list of exactly the components left: those of `source` not in `removed`.
pub proof fn lemma_subtraction_finds_remaining_bundle(
    m: ArchetypeManager,
    source: int,
    removed: Seq<u64>,
    remaining: Seq<u64>,
    registry: Seq<(u64, TrackedComponentMeta)>,
)
    requires
        m.wf(),
        0 <= source < m.archetypes().len(),
        forall|x: u64| #[trigger] remaining.contains(x) <==> m.archetypes()[source].types().contains(x) && !removed.contains(x),
    ensures
        m.lookup(sync_markers(seq_remove_all(m.archetypes()[source].types(), removed), registry)) == m.lookup(
            bundle_types(remaining, registry),
        ),
{
    m.lemma_wf();
    let left = seq_remove_all(m.archetypes()[source].types(), removed);
    let built = seq_insert_all(Seq::empty(), remaining);
    lemma_remove_all_contents(m.archetypes()[source].types(), removed);
    lemma_insert_all_no_duplicates(Seq::empty(), remaining);
    assert(left.to_set() =~= built.to_set()) by {
        assert forall|x: u64| left.to_set().contains(x) <==> built.to_set().contains(x) by {
            assert(!Seq::<u64>::empty().contains(x));
            assert(built.contains(x) <==> Seq::<u64>::empty().contains(x) || remaining.contains(x));
        }
    }
    lemma_sync_markers_set(left, built, registry);
    lemma_set_hash_order_independent(sync_markers(left, registry), sync_markers(built, registry));
}

/// The archetype found for an entity of archetype `source` that gains the
/// components `incoming` is the one `get_or_create_from_ids` gives for any
/// list of exactly the components of `source` and of `incoming`.
pub proof fn lemma_addition_finds_joined_bundle(
    m: ArchetypeManager,
    source: int,
    incoming: Seq<u64>,
    joined: Seq<u64>,
    registry: Seq<(u64, TrackedComponentMeta)>,
)
    requires
        m.wf(),
        0 <= source < m.archetypes().len(),
        forall|x: u64| #[trigger] joined.contains(x) <==> m.archetypes()[source].types().contains(x) || incoming.contains(x),
    ensures
        m.lookup(sync_markers(seq_insert_all(m.archetypes()[source].types(), incoming), registry)) == m.lookup(
            bundle_types(joined, registry),
        ),
{
    m.lemma_wf();
    let grown = seq_insert_all(m.archetypes()[source].types(), incoming);
    let built = seq_insert_all(Seq::empty(), joined);
    lemma_insert_all_no_duplicates(m.archetypes()[source].types(), incoming);
    lemma_insert_all_no_duplicates(Seq::empty(), joined);
    assert(grown.to_set() =~= built.to_set()) by {
        assert forall|x: u64| grown.to_set().contains(x) <==> built.to_set().contains(x) by {
            assert(!Seq::<u64>::empty().contains(x));
            assert(built.contains(x) <==> Seq::<u64>::empty().contains(x) || joined.contains(x));
            assert(grown.contains(x) <==> m.archetypes()[source].types().contains(x) || incoming.contains(x));
        }
    }
    lemma_sync_markers_set(grown, built, registry);
    lemma_set_hash_order_independent(sync_markers(grown, registry), sync_markers(built, registry));
}

} // verus!
