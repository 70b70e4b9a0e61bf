//! Queries: what a query asks of each entity, the archetypes and rows that
//! answer, and the accesses a query declares for its system.
use vstd::prelude::*;

use crate::archetypes::{Archetype, ArchetypeId, ArchetypeManager};
use crate::entity::Entity;
use crate::filter::{first_changed_column, has_changed_column, QueryFilter};
use crate::reactivity::{register_entry, CurrentBufferIdx, MarkerKind, Mut, TrackedComponentMeta, TrackedComponents};
use crate::registry::EntityRegistry;
use crate::system::{check_query_conflicts, init_query_access, AccessConflict, AccessVec, SystemMeta};

verus! {

/// One item a query fetches for each entity.
#[derive(Debug, Clone, Copy, PartialEq, Eq, Structural)]
pub enum QueryTerm {
    /// `&T`: the component, read.
    Read(u64),
    /// `&mut T`: the component, written, raising its `Changed` flag `marker`.
    Write { component: u64, marker: u64 },
    /// The entity itself.
    Entity,
    /// `Option<&T>`: the component if present, read.
    OptionalRead(u64),
    /// `Option<&mut T>`: the component if present, written.
    OptionalWrite { component: u64, marker: u64 },
    /// `Has<T>`: whether the entity has the component.
    Has(u64),
    /// Whether the component was added last frame, from `Added` flag `marker`.
    AddedTracker { component: u64, marker: u64 },
    /// Whether the component was changed last frame, from `Changed` flag `marker`.
    ChangedTracker { component: u64, marker: u64 },
}

/// Whether an archetype with these component ids can supply the term.
pub open spec fn term_matches(t: QueryTerm, types: Seq<u64>) -> bool {
    match t {
        QueryTerm::Read(c) => types.contains(c),
        QueryTerm::Write { component, .. } => types.contains(component),
        QueryTerm::Entity => true,
        QueryTerm::OptionalRead(_) => true,
        QueryTerm::OptionalWrite { .. } => true,
        QueryTerm::Has(c) => types.contains(c),
        QueryTerm::AddedTracker { component, .. } => types.contains(component),
        QueryTerm::ChangedTracker { marker, .. } => types.contains(marker),
    }
}

/// The ids a term reads.
pub open spec fn term_reads(t: QueryTerm) -> Seq<u64> {
    match t {
        QueryTerm::Read(c) => seq![c],
        QueryTerm::OptionalRead(c) => seq![c],
        QueryTerm::AddedTracker { marker, .. } => seq![marker],
        QueryTerm::ChangedTracker { marker, .. } => seq![marker],
        _ => Seq::empty(),
    }
}

/// The ids a term writes.
pub open spec fn term_writes(t: QueryTerm) -> Seq<u64> {
    match t {
        QueryTerm::Write { component, marker } => seq![component, marker],
        QueryTerm::OptionalWrite { component, marker } => seq![component, marker],
        _ => Seq::empty(),
    }
}

/// The tracking registry after a term registers what it reads.
pub open spec fn term_registered(t: QueryTerm, entries: Seq<(u64, TrackedComponentMeta)>) -> Seq<(u64, TrackedComponentMeta)> {
    match t {
        QueryTerm::AddedTracker { component, marker } => register_entry(
            entries,
            TrackedComponentMeta { component_id: component, marker_id: marker, kind: MarkerKind::Added },
        ),
        QueryTerm::ChangedTracker { component, marker } => register_entry(
            entries,
            TrackedComponentMeta { component_id: component, marker_id: marker, kind: MarkerKind::Changed },
        ),
        _ => entries,
    }
}

/// Whether an archetype can supply every term.
pub open spec fn terms_match(terms: Seq<QueryTerm>, types: Seq<u64>) -> bool {
    forall|i: int| 0 <= i < terms.len() ==> term_matches(#[trigger] terms[i], types)
}

/// The ids the terms read, in order.
pub open spec fn terms_reads(terms: Seq<QueryTerm>) -> Seq<u64>
    decreases terms.len(),
{
    if terms.len() == 0 {
        Seq::empty()
    } else {
        terms_reads(terms.drop_last()) + term_reads(terms.last())
    }
}

/// The ids the terms write, in order.
pub open spec fn terms_writes(terms: Seq<QueryTerm>) -> Seq<u64>
    decreases terms.len(),
{
    if terms.len() == 0 {
        Seq::empty()
    } else {
        terms_writes(terms.drop_last()) + term_writes(terms.last())
    }
}

/// The tracking registry after every term registers what it reads.
pub open spec fn terms_registered(terms: Seq<QueryTerm>, entries: Seq<(u64, TrackedComponentMeta)>) -> Seq<(u64, TrackedComponentMeta)>
    decreases terms.len(),
{
    if terms.len() == 0 {
        entries
    } else {
        term_registered(terms.last(), terms_registered(terms.drop_last(), entries))
    }
}

/// Whether an archetype can supply the term.
pub fn term_matches_archetype(t: &QueryTerm, archetype: &Archetype) -> (r: bool)
    ensures
        r == term_matches(*t, archetype.types()),
        *t matches QueryTerm::Read(c) ==> (r <==> archetype.types().contains(c)),
        *t matches QueryTerm::Write { component, .. } ==> (r <==> archetype.types().contains(component)),
        *t matches QueryTerm::Has(c) ==> (r <==> archetype.types().contains(c)),
        *t matches QueryTerm::AddedTracker { component, .. } ==> (r <==> archetype.types().contains(component)),
        *t matches QueryTerm::ChangedTracker { marker, .. } ==> (r <==> archetype.types().contains(marker)),
        (*t matches QueryTerm::Entity) || (*t matches QueryTerm::OptionalRead(_)) || (*t matches QueryTerm::OptionalWrite { .. }) ==> r,
{
    match t {
        QueryTerm::Read(c) => archetype.has_column(*c),
        QueryTerm::Write { component, .. } => archetype.has_column(*component),
        QueryTerm::Entity => true,
        QueryTerm::OptionalRead(_) => true,
        QueryTerm::OptionalWrite { .. } => true,
        QueryTerm::Has(c) => archetype.has_column(*c),
        QueryTerm::AddedTracker { component, .. } => archetype.has_column(*component),
        QueryTerm::ChangedTracker { marker, .. } => archetype.has_column(*marker),
    }
}

/// Whether an archetype can supply every term.
pub fn matches(terms: &[QueryTerm], archetype: &Archetype) -> (r: bool)
    ensures
        r == terms_match(terms@, archetype.types()),
{
    let mut i: usize = 0;
    while i < terms.len()
        invariant
            i <= terms@.len(),
            forall|j: int| 0 <= j < i ==> term_matches(#[trigger] terms@[j], archetype.types()),
        decreases terms@.len() - i,
    {
        if !term_matches_archetype(&terms[i], archetype) {
            return false;
        }
        i += 1;
    }
    true
}

/// Adds the terms' reads and writes to `reads` and `writes`, and registers
/// the tracking the terms read.
pub fn collect_access(
    terms: &[QueryTerm],
    reads: &mut AccessVec<u64>,
    writes: &mut AccessVec<u64>,
    registry: &mut TrackedComponents,
)
    ensures
        final(reads)@ == old(reads)@ + terms_reads(terms@),
        final(writes)@ == old(writes)@ + terms_writes(terms@),
        final(registry)@ == terms_registered(terms@, old(registry)@),
{
    let mut i: usize = 0;
    while i < terms.len()
        invariant
            i <= terms@.len(),
            reads@ == old(reads)@ + terms_reads(terms@.take(i as int)),
            writes@ == old(writes)@ + terms_writes(terms@.take(i as int)),
            registry@ == terms_registered(terms@.take(i as int), old(registry)@),
        decreases terms@.len() - i,
    {
        proof {
            assert(terms@.take(i as int + 1).drop_last() =~= terms@.take(i as int));
            assert(terms@.take(i as int + 1).last() == terms@[i as int]);
        }
        let ghost r0 = reads@;
        let ghost w0 = writes@;
        match terms[i] {
            QueryTerm::Read(c) => {
                reads.push(c);
            },
            QueryTerm::Write { component, marker } => {
                writes.push(component);
                writes.push(marker);
            },
            QueryTerm::Entity => {},
            QueryTerm::OptionalRead(c) => {
                reads.push(c);
            },
            QueryTerm::OptionalWrite { component, marker } => {
                writes.push(component);
                writes.push(marker);
            },
            QueryTerm::Has(_) => {},
            QueryTerm::AddedTracker { component, marker } => {
                reads.push(marker);
                registry.register_added_tracked_component(component, marker);
            },
            QueryTerm::ChangedTracker { component, marker } => {
                reads.push(marker);
                registry.register_tracked_component(component, marker);
            },
        }
        proof {
            let t = terms@[i as int];
            assert(reads@ =~= r0 + term_reads(t));
            assert(writes@ =~= w0 + term_writes(t));
            assert(old(reads)@ + terms_reads(terms@.take(i as int + 1)) =~= old(reads)@ + terms_reads(terms@.take(i as int)) + term_reads(t));
            assert(old(writes)@ + terms_writes(terms@.take(i as int + 1)) =~= old(writes)@ + terms_writes(terms@.take(i as int)) + term_writes(t));
        }
        i += 1;
    }
    assert(terms@.take(terms@.len() as int) =~= terms@);
}

/// Declares a query parameter's accesses to its system: collects what the
/// terms and filter read, write, require and exclude, registers the tracking
/// they read, and checks the accesses for conflicts.
pub fn query_init_access<F: QueryFilter>(
    system_meta: &mut SystemMeta,
    terms: &[QueryTerm],
    filter: &F,
    registry: &mut TrackedComponents,
) -> (r: Result<(), AccessConflict>)
    ensures
        final(registry)@ == filter.registered(terms_registered(terms@, old(registry)@)),
        r == Err::<(), AccessConflict>(AccessConflict::IntraQuery) <==> crate::system::query_self_conflicts(
            terms_reads(terms@),
            terms_writes(terms@),
        ),
        r == Err::<(), AccessConflict>(AccessConflict::SystemParams) <==> !crate::system::query_self_conflicts(
            terms_reads(terms@),
            terms_writes(terms@),
        ) && crate::system::query_collides(*old(system_meta), terms_reads(terms@), terms_writes(terms@))
            && !crate::system::query_disjoint(*old(system_meta), filter.required(), filter.excluded()),
        r != Err::<(), AccessConflict>(AccessConflict::ResourceBorrow),
        r is Err ==> *final(system_meta) == *old(system_meta),
        r is Ok ==> {
            &&& final(system_meta).component_reads() == crate::collections::seq_insert_all(old(system_meta).component_reads(), terms_reads(terms@))
            &&& final(system_meta).component_writes() == crate::collections::seq_insert_all(old(system_meta).component_writes(), terms_writes(terms@))
            &&& final(system_meta).with_filters() == crate::collections::seq_insert_all(old(system_meta).with_filters(), filter.required())
            &&& final(system_meta).without_filters() == crate::collections::seq_insert_all(old(system_meta).without_filters(), filter.excluded())
            &&& final(system_meta).resource_reads() == old(system_meta).resource_reads()
            &&& final(system_meta).resource_writes() == old(system_meta).resource_writes()
            &&& final(system_meta).name() == old(system_meta).name()
        },
{
    let mut local_reads = AccessVec::new();
    let mut local_writes = AccessVec::new();
    let mut local_with = AccessVec::new();
    let mut local_without = AccessVec::new();
    collect_access(terms, &mut local_reads, &mut local_writes, registry);
    filter.collect_filter(&mut local_with, &mut local_without, registry);
    assert(local_reads@ =~= terms_reads(terms@));
    assert(local_writes@ =~= terms_writes(terms@));
    assert(local_with@ =~= filter.required());
    assert(local_without@ =~= filter.excluded());
    init_query_access(system_meta, &local_reads, &local_writes, &local_with, &local_without)
}

/// What `Option<&mut T>` fetches from an archetype: nothing when the
/// archetype lacks the component; otherwise mutable access that raises the
/// row's `Changed` flag in this frame's write slot when the archetype carries
/// the flag column `marker`.
pub fn init_optional_write_fetch(arch: &Archetype, component: u64, marker: u64, buffer: &CurrentBufferIdx) -> (r: Option<Mut>)
    ensures
        r is Some <==> arch.types().contains(component),
        r matches Some(m) ==> m.write_slot() == 1 - buffer.read_slot() && m.is_tracked() == has_changed_column(*arch, marker),
{
    if !arch.has_column(component) {
        return None;
    }
    let has_flags = match arch.find_changed_column(marker) {
        Some(c) => {
            assert(first_changed_column(arch.changed_columns(), marker, c as int));
            true
        },
        None => {
            assert(!has_changed_column(*arch, marker)) by {
                if has_changed_column(*arch, marker) {
                    let c = choose|c: int| first_changed_column(arch.changed_columns(), marker, c);
                    assert(arch.changed_columns()[c].marker_id == marker);
                }
            }
            false
        },
    };
    Some(Mut::new(buffer, has_flags))
}

/// Whether a query handed out for use outside the schedules conflicts with
/// itself; it registers the tracking it reads either way.
pub fn parallel_query_conflicts<F: QueryFilter>(terms: &[QueryTerm], filter: &F, registry: &mut TrackedComponents) -> (r: bool)
    ensures
        final(registry)@ == filter.registered(terms_registered(terms@, old(registry)@)),
        r == crate::system::query_self_conflicts(terms_reads(terms@), terms_writes(terms@)),
{
    let mut local_reads = AccessVec::new();
    let mut local_writes = AccessVec::new();
    let mut local_with = AccessVec::new();
    let mut local_without = AccessVec::new();
    collect_access(terms, &mut local_reads, &mut local_writes, registry);
    filter.collect_filter(&mut local_with, &mut local_without, registry);
    assert(local_reads@ =~= terms_reads(terms@));
    assert(local_writes@ =~= terms_writes(terms@));
    check_query_conflicts(&local_reads, &local_writes)
}

/// The rows below `n` of archetype `arch` that pass the filter, in order.
pub open spec fn passing_rows<F: QueryFilter>(filter: F, arch: Archetype, slot: int, n: int) -> Seq<usize>
    decreases n,
{
    if n <= 0 {
        Seq::empty()
    } else if filter.row_ok(arch, slot, n - 1) {
        passing_rows(filter, arch, slot, n - 1).push((n - 1) as usize)
    } else {
        passing_rows(filter, arch, slot, n - 1)
    }
}

/// The archetype matches both what the query fetches and its filter.
pub open spec fn archetype_selected<F: QueryFilter>(terms: Seq<QueryTerm>, filter: F, arch: Archetype) -> bool {
    terms_match(terms, arch.types()) && filter.archetype_ok(arch.types())
}

/// A query's answer: for each archetype, whether it matches and which of its
/// rows pass the filter.
pub struct Query {
    matching: Vec<bool>,
    cached_indices: Vec<Vec<usize>>,
    entity_counts: Vec<usize>,
}

/// The number of passing rows in the archetypes before `n`.
pub open spec fn rows_before(indices: Seq<Seq<usize>>, n: int) -> nat
    decreases n,
{
    if n <= 0 {
        0
    } else {
        rows_before(indices, n - 1) + indices[n - 1].len()
    }
}

/// The number of matching archetypes before `n`.
pub open spec fn matching_before(matching: Seq<bool>, n: int) -> nat
    decreases n,
{
    if n <= 0 {
        0
    } else {
        matching_before(matching, n - 1) + if matching[n - 1] {
            1nat
        } else {
            0nat
        }
    }
}

/// The number of entities in the matching archetypes before `n`.
pub open spec fn entities_before(matching: Seq<bool>, counts: Seq<usize>, n: int) -> nat
    decreases n,
{
    if n <= 0 {
        0
    } else {
        entities_before(matching, counts, n - 1) + if matching[n - 1] {
            counts[n - 1] as nat
        } else {
            0nat
        }
    }
}

impl Query {
    /// The query's answer over these archetypes, the frame reading flag slot
    /// `slot`: each archetype that supplies the terms and passes the filter
    /// is visited, with the rows that pass the filter's row test.
    pub open spec fn answers<F: QueryFilter>(&self, archetypes: Seq<Archetype>, terms: Seq<QueryTerm>, filter: F, slot: int) -> bool {
        &&& self.matching().len() == archetypes.len()
        &&& self.indices().len() == archetypes.len()
        &&& self.entity_counts().len() == archetypes.len()
        &&& forall|i: int| #![trigger archetypes[i]] 0 <= i < archetypes.len() ==> {
            &&& self.matching()[i] == archetype_selected(terms, filter, archetypes[i])
            &&& self.indices()[i] == if self.matching()[i] {
                passing_rows(filter, archetypes[i], slot, archetypes[i].entities().len() as int)
            } else {
                Seq::<usize>::empty()
            }
            &&& self.entity_counts()[i] == archetypes[i].entities().len()
        }
    }

    /// Whether each archetype, by id, matches the query.
    pub closed spec fn matching(&self) -> Seq<bool> {
        self.matching@
    }

    /// The passing rows of each archetype, by id; empty when it does not match.
    pub closed spec fn indices(&self) -> Seq<Seq<usize>> {
        self.cached_indices@.map_values(|v: Vec<usize>| v@)
    }

    /// The number of entities in each archetype, by id.
    pub closed spec fn entity_counts(&self) -> Seq<usize> {
        self.entity_counts@
    }

    /// Runs a query over every archetype: an archetype is visited when it
    /// supplies every term and passes the filter, and then its rows are
    /// those that pass the filter's row test this frame.
    pub fn new<F: QueryFilter>(
        manager: &ArchetypeManager,
        terms: &[QueryTerm],
        filter: &F,
        buffer: &CurrentBufferIdx,
    ) -> (q: Query)
        requires
            manager.wf(),
            forall|i: int|
                0 <= i < manager.archetypes().len() && archetype_selected(terms@, *filter, #[trigger] manager.archetypes()[i])
                    ==> filter.flags_ready(manager.archetypes()[i]),
        ensures
            q.answers(manager.archetypes(), terms@, *filter, buffer.read_slot()),
    {
        let n = manager.len();
        proof {
            manager.lemma_wf();
        }
        let mut matching: Vec<bool> = Vec::new();
        let mut cached_indices: Vec<Vec<usize>> = Vec::new();
        let mut entity_counts: Vec<usize> = Vec::new();
        let mut a: usize = 0;
        while a < n
            invariant
                a <= n == manager.archetypes().len(),
                manager.wf(),
                manager.archetypes().len() <= u32::MAX,
                forall|i: int| #![trigger manager.archetypes()[i]] 0 <= i < manager.archetypes().len() ==> manager.archetypes()[i].rows_aligned(),
                forall|i: int|
                    0 <= i < manager.archetypes().len() && archetype_selected(terms@, *filter, #[trigger] manager.archetypes()[i])
                        ==> filter.flags_ready(manager.archetypes()[i]),
                matching@.len() == a,
                cached_indices@.len() == a,
                entity_counts@.len() == a,
                forall|i: int| #![trigger manager.archetypes()[i]] 0 <= i < a ==> {
                    &&& matching@[i] == archetype_selected(terms@, *filter, manager.archetypes()[i])
                    &&& cached_indices@[i]@ == if matching@[i] {
                        passing_rows(*filter, manager.archetypes()[i], buffer.read_slot(), manager.archetypes()[i].entities().len() as int)
                    } else {
                        Seq::<usize>::empty()
                    }
                    &&& entity_counts@[i] == manager.archetypes()[i].entities().len()
                },
            decreases n - a,
        {
            let arch_opt = manager.get(ArchetypeId(a as u32));
            let arch = match arch_opt {
                Some(arch) => arch,
                None => {
                    proof {
                        assert(false);
                    }
                    return Query { matching, cached_indices, entity_counts };
                },
            };
            assert(*arch == manager.archetypes()[a as int]);
            let len = arch.entities_len();
            let selected = matches(terms, arch) && filter.matches(arch);
            let mut indices: Vec<usize> = Vec::new();
            if selected {
                proof {
                    assert(arch.rows_aligned());
                }
                let mut row: usize = 0;
                while row < len
                    invariant
                        row <= len == arch.entities().len(),
                        arch.rows_aligned(),
                        filter.archetype_ok(arch.types()),
                        filter.flags_ready(*arch),
                        indices@ == passing_rows(*filter, *arch, buffer.read_slot(), row as int),
                    decreases len - row,
                {
                    if filter.matches_row(arch, buffer, row) {
                        indices.push(row);
                    }
                    row += 1;
                }
            }
            matching.push(selected);
            cached_indices.push(indices);
            entity_counts.push(len);
            a += 1;
        }
        let ghost ci = cached_indices@;
        let ghost mt = matching@;
        let ghost ec = entity_counts@;
        let q = Query { matching, cached_indices, entity_counts };
        assert forall|i: int| #![trigger manager.archetypes()[i]] 0 <= i < manager.archetypes().len() implies {
            &&& q.matching()[i] == archetype_selected(terms@, *filter, manager.archetypes()[i])
            &&& q.indices()[i] == if q.matching()[i] {
                passing_rows(*filter, manager.archetypes()[i], buffer.read_slot(), manager.archetypes()[i].entities().len() as int)
            } else {
                Seq::<usize>::empty()
            }
            &&& q.entity_counts()[i] == manager.archetypes()[i].entities().len()
        } by {
            assert(q.cached_indices@ == ci);
            assert(q.matching@ == mt);
            assert(q.entity_counts@ == ec);
            assert(q.indices()[i] == ci[i]@);
            assert(q.matching()[i] == mt[i]);
            let arch_i = manager.archetypes()[i];
            assert(ci[i]@ == if mt[i] {
                passing_rows(*filter, arch_i, buffer.read_slot(), arch_i.entities().len() as int)
            } else {
                Seq::<usize>::empty()
            });
        }
        assert(q.answers(manager.archetypes(), terms@, *filter, buffer.read_slot()));
        q
    }

    /// The one passing row of the whole query, as (archetype id, row); `None`
    /// when no row or more than one passes.
    pub fn single(&self) -> (r: Option<(u32, usize)>)
        requires
            self.matching().len() == self.indices().len(),
            self.indices().len() <= u32::MAX,
        ensures
            r is Some <==> rows_before(self.indices(), self.indices().len() as int) == 1,
            r matches Some((a, row)) ==> (a as int) < self.indices().len() && self.indices()[a as int] == seq![row],
    {
        let mut found: Option<(u32, usize)> = None;
        let mut a: usize = 0;
        while a < self.cached_indices.len()
            invariant
                a <= self.indices().len() <= u32::MAX,
                rows_before(self.indices(), a as int) <= 1,
                found is Some <==> rows_before(self.indices(), a as int) == 1,
                found matches Some((x, row)) ==> (x as int) < a && self.indices()[x as int] == seq![row],
            decreases self.indices().len() - a,
        {
            let len = self.cached_indices[a].len();
            assert(self.indices()[a as int] == self.cached_indices@[a as int]@);
            assert(rows_before(self.indices(), a as int + 1) == rows_before(self.indices(), a as int) + len);
            if len != 0 {
                if found.is_some() || len > 1 {
                    proof {
                        assert(rows_before(self.indices(), a as int + 1) > 1);
                        lemma_rows_before_monotone(self.indices(), a as int + 1, self.indices().len() as int);
                    }
                    return None;
                }
                let row = self.cached_indices[a][0];
                assert(self.indices()[a as int] =~= seq![row]);
                found = Some((a as u32, row));
            }
            a += 1;
        }
        found
    }

    /// How many archetypes the query visits.
    /// The number of archetypes the query looked at.
    pub fn archetype_count(&self) -> (n: usize)
        requires
            self.matching().len() == self.indices().len(),
        ensures
            n == self.matching().len(),
    {
        self.matching.len()
    }

    /// Whether archetype `a` matches the query.
    pub fn is_matching(&self, a: usize) -> (r: bool)
        requires
            (a as int) < self.matching().len(),
        ensures
            r == self.matching()[a as int],
    {
        self.matching[a]
    }

    /// The passing rows of archetype `a`, in order.
    pub fn rows(&self, a: usize) -> (r: &[usize])
        requires
            (a as int) < self.indices().len(),
        ensures
            r@ == self.indices()[a as int],
    {
        self.cached_indices[a].as_slice()
    }

    pub fn matching_archetype_count(&self) -> (n: usize)
        ensures
            n == matching_before(self.matching(), self.matching().len() as int),
            n == self.matching().filter(|b: bool| b).len(),
            (forall|a: int| 0 <= a < self.matching().len() ==> !self.matching()[a]) ==> n == 0,
            (forall|a: int| 0 <= a < self.matching().len() ==> self.matching()[a]) ==> n == self.matching().len(),
    {
        let mut count: usize = 0;
        let mut a: usize = 0;
        while a < self.matching.len()
            invariant
                a <= self.matching@.len(),
                count == matching_before(self.matching(), a as int),
                count <= a,
            decreases self.matching@.len() - a,
        {
            if self.matching[a] {
                count += 1;
            }
            a += 1;
        }
        proof {
            lemma_matching_before_counts(self.matching(), self.matching().len() as int);
            assert(self.matching().take(self.matching().len() as int) =~= self.matching());
        }
        count
    }

    /// The number of entities in the visited archetypes, rows that fail a
    /// row test included.
    pub fn total_entities(&self) -> (n: usize)
        requires
            self.matching().len() == self.entity_counts().len(),
            entities_before(self.matching(), self.entity_counts(), self.matching().len() as int) <= usize::MAX,
        ensures
            n == entities_before(self.matching(), self.entity_counts(), self.matching().len() as int),
    {
        let mut total: usize = 0;
        let mut a: usize = 0;
        while a < self.matching.len()
            invariant
                a <= self.matching@.len() == self.entity_counts@.len(),
                total == entities_before(self.matching(), self.entity_counts(), a as int),
                entities_before(self.matching(), self.entity_counts(), self.matching().len() as int) <= usize::MAX,
            decreases self.matching@.len() - a,
        {
            proof {
                lemma_entities_before_monotone(self.matching(), self.entity_counts(), a as int + 1, self.matching().len() as int);
            }
            if self.matching[a] {
                total = total + self.entity_counts[a];
            }
            a += 1;
        }
        total
    }

    /// Where `entity` is, as (archetype id, row), when its archetype is one
    /// the query visits; row tests such as `Changed` are not applied.
    pub fn get(&self, registry: &EntityRegistry, entity: &Entity) -> (r: Option<(u32, usize)>)
        requires
            (entity.registry_index as int) < registry.locations().len(),
            (registry.locations()[entity.registry_index as int].archetype_id.0 as int) < self.matching().len(),
        ensures
            ({
                let loc = registry.locations()[entity.registry_index as int];
                &&& self.matching()[loc.archetype_id.0 as int] ==> r == Some((loc.archetype_id.0, loc.idx as usize))
                &&& !self.matching()[loc.archetype_id.0 as int] ==> r is None
            }),
    {
        let cell = registry.get(entity.registry_index as usize);
        let arch_id = cell.archetype_id.0;
        if self.matching[arch_id as usize] {
            Some((arch_id, cell.idx as usize))
        } else {
            None
        }
    }
}

proof fn lemma_rows_before_monotone(indices: Seq<Seq<usize>>, a: int, b: int)
    requires
        0 <= a <= b,
    ensures
        rows_before(indices, a) <= rows_before(indices, b),
    decreases b - a,
{
    if a < b {
        lemma_rows_before_monotone(indices, a, b - 1);
    }
}

proof fn lemma_entities_before_monotone(matching: Seq<bool>, counts: Seq<usize>, a: int, b: int)
    requires
        0 <= a <= b,
    ensures
        entities_before(matching, counts, a) <= entities_before(matching, counts, b),
    decreases b - a,
{
    if a < b {
        lemma_entities_before_monotone(matching, counts, a, b - 1);
    }
}

/// A query visits an archetype exactly when the archetype passes the
/// filter's archetype test and holds the component of every `&T`, `&mut T`,
/// `Has<T>` and `Added<T>` term and the `Changed` flag of every `Changed<T>`
/// term; `Entity`, `Option<&T>` and `Option<&mut T>` ask nothing of it.
pub proof fn lemma_query_visits_suppliers<F: QueryFilter>(
    q: Query,
    archetypes: Seq<Archetype>,
    terms: Seq<QueryTerm>,
    filter: F,
    slot: int,
    a: int,
)
    requires
        q.answers(archetypes, terms, filter, slot),
        0 <= a < archetypes.len(),
    ensures
        q.matching()[a] <==> {
            &&& filter.archetype_ok(archetypes[a].types())
            &&& forall|i: int| #![trigger terms[i]] 0 <= i < terms.len() ==> {
                &&& (terms[i] matches QueryTerm::Read(c) ==> archetypes[a].types().contains(c))
                &&& (terms[i] matches QueryTerm::Write { component, .. } ==> archetypes[a].types().contains(component))
                &&& (terms[i] matches QueryTerm::Has(c) ==> archetypes[a].types().contains(c))
                &&& (terms[i] matches QueryTerm::AddedTracker { component, .. } ==> archetypes[a].types().contains(component))
                &&& (terms[i] matches QueryTerm::ChangedTracker { marker, .. } ==> archetypes[a].types().contains(marker))
            }
        },
{
    let types = archetypes[a].types();
    if q.matching()[a] {
        assert(terms_match(terms, types));
    }
}

/// The rows listed below `n` are exactly the rows below `n` that pass the
/// filter's row test, in increasing order.
pub proof fn lemma_passing_rows_members<F: QueryFilter>(filter: F, arch: Archetype, slot: int, n: int)
    requires
        n <= usize::MAX + 1,
    ensures
        forall|r: usize| #[trigger] passing_rows(filter, arch, slot, n).contains(r)
            <==> (r as int) < n && filter.row_ok(arch, slot, r as int),
        forall|i: int, j: int| 0 <= i < j < passing_rows(filter, arch, slot, n).len()
            ==> passing_rows(filter, arch, slot, n)[i] < passing_rows(filter, arch, slot, n)[j],
    decreases n,
{
    if n > 0 {
        lemma_passing_rows_members(filter, arch, slot, n - 1);
        let front = passing_rows(filter, arch, slot, n - 1);
        let rows = passing_rows(filter, arch, slot, n);
        assert forall|r: usize| #[trigger] rows.contains(r) <==> (r as int) < n && filter.row_ok(arch, slot, r as int) by {
            if filter.row_ok(arch, slot, n - 1) {
                assert(rows =~= front.push((n - 1) as usize));
                if rows.contains(r) && !front.contains(r) {
                    let k = choose|k: int| 0 <= k < rows.len() && rows[k] == r;
                    assert(k == front.len());
                }
                if (r as int) < n - 1 && filter.row_ok(arch, slot, r as int) {
                    assert(front.contains(r));
                    let k = choose|k: int| 0 <= k < front.len() && front[k] == r;
                    assert(rows[k] == r);
                }
                if front.contains(r) {
                    let k = choose|k: int| 0 <= k < front.len() && front[k] == r;
                    assert(rows[k] == r);
                }
                if r as int == n - 1 {
                    assert(rows[front.len() as int] == r);
                }
            } else {
                assert(rows == front);
                if rows.contains(r) {
                    assert(front.contains(r));
                }
            }
        }
        assert forall|i: int, j: int| 0 <= i < j < rows.len() implies rows[i] < rows[j] by {
            if filter.row_ok(arch, slot, n - 1) && j == front.len() {
                assert(front.contains(front[i]));
            }
        }
    }
}

/// Every row a query lists for an archetype lies in the archetype and passes
/// the filter's row test, and every such row of a visited archetype is
/// listed; nothing is listed for an archetype the query does not visit.
pub proof fn lemma_query_rows_pass_filter<F: QueryFilter>(
    q: Query,
    archetypes: Seq<Archetype>,
    terms: Seq<QueryTerm>,
    filter: F,
    slot: int,
    a: int,
)
    requires
        q.answers(archetypes, terms, filter, slot),
        0 <= a < archetypes.len(),
        archetypes[a].entities().len() <= usize::MAX,
    ensures
        forall|r: usize| #[trigger] q.indices()[a].contains(r) <==> {
            &&& q.matching()[a]
            &&& (r as int) < archetypes[a].entities().len()
            &&& filter.row_ok(archetypes[a], slot, r as int)
        },
{
    lemma_passing_rows_members(filter, archetypes[a], slot, archetypes[a].entities().len() as int);
}

/// Under a pair of filters `(A, B)` a query lists a row of a visited
/// archetype exactly when both `A` and `B` pass it, and visits an archetype
/// only when both admit it.
pub proof fn lemma_pair_filter_rows<A: QueryFilter, B: QueryFilter>(
    q: Query,
    archetypes: Seq<Archetype>,
    terms: Seq<QueryTerm>,
    fa: A,
    fb: B,
    slot: int,
    a: int,
)
    requires
        q.answers(archetypes, terms, (fa, fb), slot),
        0 <= a < archetypes.len(),
        archetypes[a].entities().len() <= usize::MAX,
    ensures
        q.matching()[a] ==> fa.archetype_ok(archetypes[a].types()) && fb.archetype_ok(archetypes[a].types()),
        forall|r: usize| #[trigger] q.indices()[a].contains(r) <==> {
            &&& q.matching()[a]
            &&& (r as int) < archetypes[a].entities().len()
            &&& fa.row_ok(archetypes[a], slot, r as int)
            &&& fb.row_ok(archetypes[a], slot, r as int)
        },
{
    lemma_query_rows_pass_filter(q, archetypes, terms, (fa, fb), slot, a);
}

/// Under three filters `(A, B, C)` a query lists a row of a visited
/// archetype exactly when all three pass it.
pub proof fn lemma_triple_filter_rows<A: QueryFilter, B: QueryFilter, C: QueryFilter>(
    q: Query,
    archetypes: Seq<Archetype>,
    terms: Seq<QueryTerm>,
    fa: A,
    fb: B,
    fc: C,
    slot: int,
    a: int,
)
    requires
        q.answers(archetypes, terms, (fa, fb, fc), slot),
        0 <= a < archetypes.len(),
        archetypes[a].entities().len() <= usize::MAX,
    ensures
        q.matching()[a] ==> fa.archetype_ok(archetypes[a].types()) && fb.archetype_ok(archetypes[a].types())
            && fc.archetype_ok(archetypes[a].types()),
        forall|r: usize| #[trigger] q.indices()[a].contains(r) <==> {
            &&& q.matching()[a]
            &&& (r as int) < archetypes[a].entities().len()
            &&& fa.row_ok(archetypes[a], slot, r as int)
            &&& fb.row_ok(archetypes[a], slot, r as int)
            &&& fc.row_ok(archetypes[a], slot, r as int)
        },
{
    lemma_query_rows_pass_filter(q, archetypes, terms, (fa, fb, fc), slot, a);
}

/// The matching count over the first `n` archetypes is the number of
/// `true` flags among them.
pub proof fn lemma_matching_before_counts(matching: Seq<bool>, n: int)
    requires
        0 <= n <= matching.len(),
    ensures
        matching_before(matching, n) == matching.take(n).filter(|b: bool| b).len(),
        (forall|a: int| 0 <= a < n ==> !matching[a]) ==> matching_before(matching, n) == 0,
        (forall|a: int| 0 <= a < n ==> matching[a]) ==> matching_before(matching, n) == n,
    decreases n,
{
    reveal(Seq::filter);
    if n > 0 {
        lemma_matching_before_counts(matching, n - 1);
        assert(matching.take(n).drop_last() =~= matching.take(n - 1));
        assert(matching.take(n).last() == matching[n - 1]);
    } else {
        assert(matching.take(n).len() == 0);
    }
}

/// Marks a query's items as mutable.
pub struct Mutable;

/// Marks a query's items as read-only.
pub struct ReadOnly;

/// A value handed to worker threads together with the query it serves.
pub struct ThreadSafe<T> {
    pub value: T,
}

} // verus!
