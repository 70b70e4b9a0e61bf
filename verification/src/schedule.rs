//! Schedule labels, schedules, and the decisions their executors make.
use vstd::prelude::*;

use rustc_hash::FxHashSet;

use crate::collections::{fx_set_insert, fx_set_new};
use crate::entity::Entity;

verus! {

/// The id carried by the `Startup` schedule.
pub const STARTUP_ID: u64 = 0;

/// The id carried by the `CleanupHandles` schedule.
pub const CLEANUP_HANDLES_ID: u64 = 1;

/// The id carried by the `First` schedule.
pub const FIRST_ID: u64 = 2;

/// The id carried by the `PreUpdate` schedule.
pub const PRE_UPDATE_ID: u64 = 3;

/// The id carried by the `Update` schedule.
pub const UPDATE_ID: u64 = 4;

/// The id carried by the `PostUpdate` schedule.
pub const POST_UPDATE_ID: u64 = 5;

/// The id carried by the `Last` schedule.
pub const LAST_ID: u64 = 6;

/// Identifies a schedule label.
#[derive(Clone, Copy, Debug, PartialEq, Eq, Hash, Structural)]
pub struct ScheduleId {
    pub id: u64,
}

/// Why a set of schedules and ordering constraints cannot be arranged.
#[derive(Debug)]
pub enum ScheduleOrderError {
    /// The same schedule was registered twice.
    DuplicateSchedule(ScheduleId),
    /// A constraint names the `Startup` root, which is ordered by nothing.
    OrderingReferencesStartup,
    /// A constraint names `CleanupHandles`, which always runs last.
    OrderingReferencesCleanupHandles,
    /// A constraint names a schedule that was never registered.
    UnregisteredSchedule(ScheduleId),
    /// The constraints form a cycle; these schedules could not be placed.
    CircularDependency(Vec<ScheduleId>),
}

/// How a schedule runs its systems.
#[derive(Clone, Copy, Debug, PartialEq, Eq, Structural)]
pub enum ExecutorKind {
    /// Each system in turn, when its run conditions hold.
    SingleThreaded,
    /// Like `SingleThreaded`, applying all commands after every system.
    Startup,
    /// Re-runs its systems while they keep despawning new entities.
    CleanupHandles,
}

/// A label that names a schedule.
pub trait IntoScheduleId {
    /// The label's schedule id.
    spec fn label_id(&self) -> u64;

    fn id(&self) -> (s: ScheduleId)
        ensures
            s.id == self.label_id(),
    ;
}

/// The executor a schedule with this id runs on unless told otherwise.
pub open spec fn spec_default_executor(id: ScheduleId) -> ExecutorKind {
    if id.id == STARTUP_ID {
        ExecutorKind::Startup
    } else if id.id == CLEANUP_HANDLES_ID {
        ExecutorKind::CleanupHandles
    } else {
        ExecutorKind::SingleThreaded
    }
}

/// The executor a schedule with this id runs on unless told otherwise.
pub fn default_executor(id: ScheduleId) -> (k: ExecutorKind)
    ensures
        k == spec_default_executor(id),
{
    if id.id == STARTUP_ID {
        ExecutorKind::Startup
    } else if id.id == CLEANUP_HANDLES_ID {
        ExecutorKind::CleanupHandles
    } else {
        ExecutorKind::SingleThreaded
    }
}

/// Runs once, before the first frame; commands are applied after each of
/// its systems.
pub struct Startup;

/// Runs first in every frame.
pub struct First;

/// Runs before `Update`.
pub struct PreUpdate;

/// The main schedule of a frame.
pub struct Update;

/// Runs after `Update`.
pub struct PostUpdate;

/// Runs last among the ordered schedules of a frame.
pub struct Last;

/// Runs at the end of every frame, after every ordered schedule: pending
/// commands are applied, its systems re-run while they despawn new entities,
/// and then the despawns are applied.
pub struct CleanupHandles;

impl IntoScheduleId for Startup {
    open spec fn label_id(&self) -> u64 {
        STARTUP_ID
    }

    fn id(&self) -> (s: ScheduleId) {
        ScheduleId { id: STARTUP_ID }
    }
}

impl IntoScheduleId for First {
    open spec fn label_id(&self) -> u64 {
        FIRST_ID
    }

    fn id(&self) -> (s: ScheduleId) {
        ScheduleId { id: FIRST_ID }
    }
}

impl IntoScheduleId for PreUpdate {
    open spec fn label_id(&self) -> u64 {
        PRE_UPDATE_ID
    }

    fn id(&self) -> (s: ScheduleId) {
        ScheduleId { id: PRE_UPDATE_ID }
    }
}

impl IntoScheduleId for Update {
    open spec fn label_id(&self) -> u64 {
        UPDATE_ID
    }

    fn id(&self) -> (s: ScheduleId) {
        ScheduleId { id: UPDATE_ID }
    }
}

impl IntoScheduleId for PostUpdate {
    open spec fn label_id(&self) -> u64 {
        POST_UPDATE_ID
    }

    fn id(&self) -> (s: ScheduleId) {
        ScheduleId { id: POST_UPDATE_ID }
    }
}

impl IntoScheduleId for Last {
    open spec fn label_id(&self) -> u64 {
        LAST_ID
    }

    fn id(&self) -> (s: ScheduleId) {
        ScheduleId { id: LAST_ID }
    }
}

impl IntoScheduleId for CleanupHandles {
    open spec fn label_id(&self) -> u64 {
        CLEANUP_HANDLES_ID
    }

    fn id(&self) -> (s: ScheduleId) {
        ScheduleId { id: CLEANUP_HANDLES_ID }
    }
}

impl IntoScheduleId for ScheduleId {
    open spec fn label_id(&self) -> u64 {
        self.id
    }

    fn id(&self) -> (s: ScheduleId) {
        *self
    }
}

/// A schedule: its id, its executor, and its systems in the order they
/// were added.
pub struct Schedule {
    id: ScheduleId,
    executor: ExecutorKind,
    systems: Vec<usize>,
}

impl Schedule {
    pub closed spec fn id_spec(&self) -> ScheduleId {
        self.id
    }

    pub closed spec fn executor_spec(&self) -> ExecutorKind {
        self.executor
    }

    /// The systems, by handle, in the order they run.
    pub closed spec fn systems(&self) -> Seq<usize> {
        self.systems@
    }

    /// An empty schedule for the label, on the label's default executor.
    pub fn new<L: IntoScheduleId>(label: &L) -> (s: Schedule)
        ensures
            s.id_spec() == (ScheduleId { id: label.label_id() }),
            s.executor_spec() == spec_default_executor(s.id_spec()),
            s.systems() == Seq::<usize>::empty(),
    {
        let id = label.id();
        Schedule { id, executor: default_executor(id), systems: Vec::new() }
    }

    pub fn id(&self) -> (r: ScheduleId)
        ensures
            r == self.id_spec(),
    {
        self.id
    }

    pub fn executor(&self) -> (k: ExecutorKind)
        ensures
            k == self.executor_spec(),
    {
        self.executor
    }

    pub fn set_executor(&mut self, executor: ExecutorKind)
        ensures
            final(self).executor_spec() == executor,
            final(self).id_spec() == old(self).id_spec(),
            final(self).systems() == old(self).systems(),
    {
        self.executor = executor;
    }

    pub fn add_system(&mut self, system: usize)
        ensures
            final(self).systems() == old(self).systems().push(system),
            final(self).id_spec() == old(self).id_spec(),
            final(self).executor_spec() == old(self).executor_spec(),
    {
        self.systems.push(system);
    }

    /// Appends systems, in order, after those already added.
    pub(crate) fn add_systems(&mut self, systems: &[usize])
        ensures
            final(self).systems() == old(self).systems() + systems@,
            final(self).id_spec() == old(self).id_spec(),
            final(self).executor_spec() == old(self).executor_spec(),
    {
        let mut i: usize = 0;
        while i < systems.len()
            invariant
                i <= systems@.len(),
                self.systems() == old(self).systems() + systems@.take(i as int),
                self.id_spec() == old(self).id_spec(),
                self.executor_spec() == old(self).executor_spec(),
            decreases systems@.len() - i,
        {
            let ghost before = self.systems();
            self.add_system(systems[i]);
            assert(old(self).systems() + systems@.take(i as int + 1) =~= before.push(systems@[i as int]));
            i += 1;
        }
        assert(systems@.take(systems@.len() as int) =~= systems@);
    }

    /// A schedule with the same id, executor and systems.
    pub fn duplicate(&self) -> (s: Schedule)
        ensures
            same_schedule(s, *self),
    {
        let systems = self.systems.clone();
        assert(systems@ =~= self.systems@);
        Schedule { id: self.id, executor: self.executor, systems }
    }

    /// The systems, by handle, in the order they run.
    pub fn system_list(&self) -> (v: &[usize])
        ensures
            v@ == self.systems(),
    {
        self.systems.as_slice()
    }
}

/// Two schedules with the same id, executor and systems.
pub open spec fn same_schedule(a: Schedule, b: Schedule) -> bool {
    &&& a.id_spec() == b.id_spec()
    &&& a.executor_spec() == b.executor_spec()
    &&& a.systems() == b.systems()
}

/// Runs each system of a schedule in turn, when its run conditions hold.
pub struct SingleThreadedExecutor;

impl SingleThreadedExecutor {
    /// A system runs when every one of its run conditions holds.
    pub fn should_run(conditions: &[bool]) -> (r: bool)
        ensures
            r == forall|i: int| 0 <= i < conditions@.len() ==> #[trigger] conditions@[i],
    {
        let mut i: usize = 0;
        while i < conditions.len()
            invariant
                i <= conditions@.len(),
                forall|j: int| 0 <= j < i ==> #[trigger] conditions@[j],
            decreases conditions@.len() - i,
        {
            if !conditions[i] {
                return false;
            }
            i += 1;
        }
        true
    }

    /// Whether pending commands are applied after each system.
    pub fn applies_commands_after_each_system(kind: ExecutorKind) -> (r: bool)
        ensures
            r == (kind == ExecutorKind::Startup),
    {
        match kind {
            ExecutorKind::Startup => true,
            _ => false,
        }
    }
}

/// What happens for one system of a schedule run.
#[derive(Clone, Copy, Debug, PartialEq, Eq, Structural)]
pub struct SystemStep {
    /// Which system, by position in the schedule.
    pub index: usize,
    /// Whether it runs: its run conditions all held.
    pub run: bool,
    /// Whether pending commands are applied after it.
    pub apply_commands: bool,
}

/// One run of a schedule's systems by a `SingleThreaded` or `Startup`
/// executor: each system in turn, once, in the order they were added.
pub struct ScheduleRun {
    kind: ExecutorKind,
    len: usize,
    next: usize,
}

impl ScheduleRun {
    pub closed spec fn kind(&self) -> ExecutorKind {
        self.kind
    }

    /// How many systems the schedule has.
    pub closed spec fn len(&self) -> nat {
        self.len as nat
    }

    /// How many systems were visited so far.
    pub closed spec fn visited(&self) -> nat {
        self.next as nat
    }

    /// A run over `len` systems, none visited yet.
    pub fn new(kind: ExecutorKind, len: usize) -> (r: Self)
        ensures
            r.kind() == kind,
            r.len() == len,
            r.visited() == 0,
    {
        ScheduleRun { kind, len, next: 0 }
    }

    /// The system whose run conditions are to be checked next, if any are
    /// left.
    pub fn next_system(&self) -> (r: Option<usize>)
        ensures
            self.visited() < self.len() ==> r == Some(self.visited() as usize),
            self.visited() >= self.len() ==> r is None,
    {
        if self.next < self.len {
            Some(self.next)
        } else {
            None
        }
    }

    /// Visits the next system, given whether its run conditions hold: it
    /// runs exactly then, and a `Startup` run applies the pending commands
    /// after every system, run or not.
    pub fn visit(&mut self, conditions_hold: bool) -> (step: SystemStep)
        requires
            old(self).visited() < old(self).len(),
        ensures
            step == (SystemStep {
                index: old(self).visited() as usize,
                run: conditions_hold,
                apply_commands: old(self).kind() == ExecutorKind::Startup,
            }),
            final(self).visited() == old(self).visited() + 1,
            final(self).len() == old(self).len(),
            final(self).kind() == old(self).kind(),
    {
        let index = self.next;
        self.next = self.next + 1;
        let apply_commands = SingleThreadedExecutor::applies_commands_after_each_system(self.kind);
        SystemStep { index, run: conditions_hold, apply_commands }
    }
}

/// What the cleanup executor does once its systems have run.
pub enum CleanupStep {
    /// New despawns appeared: put these back in the despawn queue, where the
    /// systems can see them, and run the systems again.
    RunAgain(Vec<Entity>),
    /// No new despawns: put these in the despawn queue and apply it.
    Finish(Vec<Entity>),
}

/// The state the cleanup executor keeps between rounds of its systems.
pub struct CleanupHandlesExecutor {
    despawn_buffer: Vec<Entity>,
    historical_seen: FxHashSet<u32>,
    iteration_batch: Vec<Entity>,
    duplicate_batch: Vec<Entity>,
}

/// The registry indices of a list of entities.
pub open spec fn indices_of(entities: Seq<Entity>) -> Seq<u32> {
    entities.map_values(|e: Entity| e.registry_index)
}

/// The entities of `drained`, in order, whose index is neither in `seen`
/// nor earlier in `drained`.
pub open spec fn first_sightings(seen: Set<u32>, drained: Seq<Entity>) -> Seq<Entity>
    decreases drained.len(),
{
    if drained.len() == 0 {
        Seq::empty()
    } else {
        let front = first_sightings(seen, drained.drop_last());
        let e = drained.last();
        if seen.contains(e.registry_index) || indices_of(drained.drop_last()).contains(e.registry_index) {
            front
        } else {
            front.push(e)
        }
    }
}

/// The entities of `drained`, in order, whose index was seen before.
pub open spec fn repeat_sightings(seen: Set<u32>, drained: Seq<Entity>) -> Seq<Entity>
    decreases drained.len(),
{
    if drained.len() == 0 {
        Seq::empty()
    } else {
        let front = repeat_sightings(seen, drained.drop_last());
        let e = drained.last();
        if seen.contains(e.registry_index) || indices_of(drained.drop_last()).contains(e.registry_index) {
            front.push(e)
        } else {
            front
        }
    }
}

impl CleanupHandlesExecutor {
    /// The registry indices despawned so far this run.
    pub closed spec fn seen(&self) -> Set<u32> {
        self.historical_seen@
    }

    /// The entities handed to the systems so far this run, each once.
    pub closed spec fn buffered(&self) -> Seq<Entity> {
        self.despawn_buffer@
    }

    pub closed spec fn wf(&self) -> bool {
        &&& self.iteration_batch@.len() == 0
        &&& self.duplicate_batch@.len() == 0
        &&& indices_of(self.despawn_buffer@).to_set() == self.historical_seen@
        &&& indices_of(self.despawn_buffer@).no_duplicates()
    }

    pub fn new() -> (e: Self)
        ensures
            e.wf(),
            e.seen() == Set::<u32>::empty(),
            e.buffered() == Seq::<Entity>::empty(),
    {
        let e = CleanupHandlesExecutor {
            despawn_buffer: Vec::new(),
            historical_seen: fx_set_new(),
            iteration_batch: Vec::new(),
            duplicate_batch: Vec::new(),
        };
        assert(indices_of(e.despawn_buffer@).to_set() =~= Set::<u32>::empty());
        e
    }

    /// Sorts drained despawns into first sightings, which join the next
    /// round, and repeats.
    fn sort_sightings(&mut self, drained: Vec<Entity>) -> (found_new: bool)
        requires
            old(self).iteration_batch@.len() == 0,
            old(self).duplicate_batch@.len() == 0,
        ensures
            final(self).iteration_batch@ == first_sightings(old(self).historical_seen@, drained@),
            final(self).duplicate_batch@ == repeat_sightings(old(self).historical_seen@, drained@),
            final(self).historical_seen@ == old(self).historical_seen@ + indices_of(drained@).to_set(),
            final(self).despawn_buffer == old(self).despawn_buffer,
            found_new == (first_sightings(old(self).historical_seen@, drained@).len() > 0),
    {
        let mut i: usize = 0;
        let mut found_new = false;
        while i < drained.len()
            invariant
                i <= drained@.len(),
                self.despawn_buffer == old(self).despawn_buffer,
                self.iteration_batch@ == first_sightings(old(self).historical_seen@, drained@.take(i as int)),
                self.duplicate_batch@ == repeat_sightings(old(self).historical_seen@, drained@.take(i as int)),
                self.historical_seen@ == old(self).historical_seen@ + indices_of(drained@.take(i as int)).to_set(),
                found_new == (self.iteration_batch@.len() > 0),
            decreases drained@.len() - i,
        {
            let entity = drained[i];
            let ghost pre = drained@.take(i as int);
            proof {
                assert(drained@.take(i as int + 1).drop_last() =~= pre);
                assert(drained@.take(i as int + 1).last() == entity);
                assert(indices_of(drained@.take(i as int + 1)) =~= indices_of(pre).push(entity.registry_index));
                assert(indices_of(pre).push(entity.registry_index).to_set() =~= indices_of(pre).to_set().insert(entity.registry_index)) by {
                    let p = indices_of(pre);
                    let q = p.push(entity.registry_index);
                    assert forall|x: u32| q.contains(x) <==> p.contains(x) || x == entity.registry_index by {
                        if q.contains(x) {
                            let k = choose|k: int| 0 <= k < q.len() && q[k] == x;
                            if k < p.len() {
                                assert(p[k] == x);
                            }
                        }
                        if p.contains(x) {
                            let k = choose|k: int| 0 <= k < p.len() && p[k] == x;
                            assert(q[k] == x);
                        }
                        assert(q[p.len() as int] == entity.registry_index);
                    }
                }
                assert((old(self).historical_seen@ + indices_of(pre).to_set()).contains(entity.registry_index)
                    == (old(self).historical_seen@.contains(entity.registry_index) || indices_of(pre).contains(entity.registry_index)));
            }
            let added = fx_set_insert(&mut self.historical_seen, entity.registry_index);
            if added {
                self.iteration_batch.push(entity);
                found_new = true;
            } else {
                self.duplicate_batch.push(entity);
            }
            proof {
                assert(self.historical_seen@ =~= old(self).historical_seen@ + indices_of(drained@.take(i as int + 1)).to_set());
            }
            i += 1;
        }
        assert(drained@.take(drained@.len() as int) =~= drained@);
        found_new
    }

    /// Starts a run on the despawns queued before it: every one of them is
    /// new. Returns the entities to put back in the despawn queue, where the
    /// systems will see them.
    pub fn begin(&mut self, drained: Vec<Entity>) -> (put_back: Vec<Entity>)
        requires
            old(self).wf(),
        ensures
            final(self).wf(),
            final(self).seen() == indices_of(drained@).to_set(),
            put_back@ == first_sightings(Set::empty(), drained@),
            final(self).buffered() == put_back@,
    {
        self.historical_seen = fx_set_new();
        self.iteration_batch = Vec::new();
        self.duplicate_batch = Vec::new();
        self.despawn_buffer = Vec::new();
        self.sort_sightings(drained);
        self.duplicate_batch = Vec::new();
        let put_back = self.take_batch();
        proof {
            assert(Set::<u32>::empty() + indices_of(drained@).to_set() =~= indices_of(drained@).to_set());
            lemma_first_sightings_cover(Set::empty(), drained@);
            assert(self.despawn_buffer@ =~= put_back@);
            assert(indices_of(drained@).to_set().difference(Set::<u32>::empty()) =~= indices_of(drained@).to_set());
        }
        put_back
    }

    /// Moves the round's first sightings into the buffer of despawns the
    /// systems have been shown, and returns them.
    fn take_batch(&mut self) -> (batch: Vec<Entity>)
        ensures
            batch@ == old(self).iteration_batch@,
            final(self).iteration_batch@.len() == 0,
            final(self).duplicate_batch == old(self).duplicate_batch,
            final(self).historical_seen == old(self).historical_seen,
            final(self).despawn_buffer@ == old(self).despawn_buffer@ + old(self).iteration_batch@,
    {
        let mut batch = Vec::new();
        std::mem::swap(&mut batch, &mut self.iteration_batch);
        let mut i: usize = 0;
        while i < batch.len()
            invariant
                i <= batch@.len(),
                batch@ == old(self).iteration_batch@,
                self.iteration_batch@.len() == 0,
                self.duplicate_batch == old(self).duplicate_batch,
                self.historical_seen == old(self).historical_seen,
                self.despawn_buffer@ == old(self).despawn_buffer@ + batch@.take(i as int),
            decreases batch@.len() - i,
        {
            self.despawn_buffer.push(batch[i]);
            assert(batch@.take(i as int + 1) =~= batch@.take(i as int).push(batch@[i as int]));
            i += 1;
        }
        assert(batch@.take(batch@.len() as int) =~= batch@);
        batch
    }

    /// Decides what follows a round of the cleanup systems, given the
    /// despawns queued when they finished. Entities not seen before this
    /// run make another round; otherwise the run ends with every despawn
    /// seen this run, one per registry index: the repeats name indices
    /// already among them.
    pub fn after_systems(&mut self, drained: Vec<Entity>) -> (step: CleanupStep)
        requires
            old(self).wf(),
        ensures
            final(self).wf(),
            step matches CleanupStep::RunAgain(batch) ==> {
                &&& batch@ == first_sightings(old(self).seen(), drained@)
                &&& batch@.len() > 0
                &&& final(self).seen() == old(self).seen() + indices_of(drained@).to_set()
                &&& final(self).buffered() == old(self).buffered() + batch@
            },
            step matches CleanupStep::Finish(all) ==> {
                &&& first_sightings(old(self).seen(), drained@).len() == 0
                &&& all@ == old(self).buffered()
                &&& indices_of(all@).no_duplicates()
                &&& indices_of(all@).to_set() == old(self).seen()
                &&& indices_of(drained@).to_set().subset_of(old(self).seen())
                &&& final(self).seen() == Set::<u32>::empty()
                &&& final(self).buffered() == Seq::<Entity>::empty()
            },
    {
        let ghost seen0 = self.historical_seen@;
        let found_new = self.sort_sightings(drained);
        proof {
            lemma_first_sightings_cover(seen0, drained@);
        }
        if found_new {
            self.duplicate_batch = Vec::new();
            let batch = self.take_batch();
            proof {
                let b = self.despawn_buffer@;
                assert(indices_of(b).to_set() =~= self.historical_seen@) by {
                    lemma_indices_concat(old(self).despawn_buffer@, batch@);
                }
                lemma_indices_concat_distinct(old(self).despawn_buffer@, batch@, seen0);
            }
            return CleanupStep::RunAgain(batch);
        }
        let mut all = Vec::new();
        std::mem::swap(&mut all, &mut self.despawn_buffer);
        self.duplicate_batch = Vec::new();
        self.historical_seen = fx_set_new();
        self.iteration_batch = Vec::new();
        assert(indices_of(self.despawn_buffer@).to_set() =~= Set::<u32>::empty());
        CleanupStep::Finish(all)
    }
}

/// Appending entities whose indices are distinct and unseen keeps the
/// indices distinct.
proof fn lemma_indices_concat_distinct(a: Seq<Entity>, b: Seq<Entity>, seen: Set<u32>)
    requires
        indices_of(a).no_duplicates(),
        indices_of(a).to_set() == seen,
        indices_of(b).no_duplicates(),
        indices_of(b).to_set().disjoint(seen),
    ensures
        indices_of(a + b).no_duplicates(),
{
    let ia = indices_of(a);
    let ib = indices_of(b);
    let iab = indices_of(a + b);
    assert(iab =~= ia + ib);
    assert forall|i: int, j: int| 0 <= i < iab.len() && 0 <= j < iab.len() && i != j implies iab[i] != iab[j] by {
        if i < ia.len() && j >= ia.len() {
            assert(ia.to_set().contains(ia[i]));
            assert(ib.to_set().contains(ib[j - ia.len()]));
        } else if j < ia.len() && i >= ia.len() {
            assert(ia.to_set().contains(ia[j]));
            assert(ib.to_set().contains(ib[i - ia.len()]));
        } else if i >= ia.len() && j >= ia.len() {
            assert(ib[i - ia.len()] != ib[j - ia.len()]);
        }
    }
}

/// Each round of the cleanup systems either shows them at least one despawn
/// they had not been shown this run, or queues only despawns they were
/// already shown, and then the run ends: every despawn is seen by every
/// cleanup system before it is applied.
pub proof fn lemma_cleanup_round(before: CleanupHandlesExecutor, drained: Seq<Entity>)
    requires
        before.wf(),
    ensures
        first_sightings(before.seen(), drained).len() > 0 ==> {
            &&& before.seen().subset_of(before.seen() + indices_of(drained).to_set())
            &&& before.seen() != before.seen() + indices_of(drained).to_set()
        },
        first_sightings(before.seen(), drained).len() == 0 ==> indices_of(drained).to_set().subset_of(
            indices_of(before.buffered()).to_set(),
        ),
{
    lemma_first_sightings_cover(before.seen(), drained);
    if first_sightings(before.seen(), drained).len() > 0 {
        let fs = first_sightings(before.seen(), drained);
        let x = fs[0].registry_index;
        assert(indices_of(fs)[0] == x);
        assert(indices_of(fs).to_set().contains(x));
        assert(!before.seen().contains(x));
        assert((before.seen() + indices_of(drained).to_set()).contains(x));
    }
}

proof fn lemma_indices_concat(a: Seq<Entity>, b: Seq<Entity>)
    ensures
        indices_of(a + b).to_set() == indices_of(a).to_set() + indices_of(b).to_set(),
{
    let ia = indices_of(a);
    let ib = indices_of(b);
    let iab = indices_of(a + b);
    assert(iab =~= ia + ib);
    assert forall|x: u32| iab.contains(x) <==> ia.contains(x) || ib.contains(x) by {
        if iab.contains(x) {
            let k = choose|k: int| 0 <= k < iab.len() && iab[k] == x;
            if k < ia.len() {
                assert(ia[k] == x);
            } else {
                assert(ib[k - ia.len()] == x);
            }
        }
        if ia.contains(x) {
            let k = choose|k: int| 0 <= k < ia.len() && ia[k] == x;
            assert(iab[k] == x);
        }
        if ib.contains(x) {
            let k = choose|k: int| 0 <= k < ib.len() && ib[k] == x;
            assert(iab[k + ia.len()] == x);
        }
    }
    assert(iab.to_set() =~= ia.to_set() + ib.to_set());
}

/// The first sightings are exactly the indices drained and not seen
/// before, each once.
pub proof fn lemma_first_sightings_cover(seen: Set<u32>, drained: Seq<Entity>)
    ensures
        indices_of(first_sightings(seen, drained)).to_set() == indices_of(drained).to_set().difference(seen),
        indices_of(first_sightings(seen, drained)).no_duplicates(),
        first_sightings(seen, drained).len() == 0 <==> indices_of(drained).to_set().subset_of(seen),
    decreases drained.len(),
{
    if drained.len() > 0 {
        lemma_first_sightings_cover(seen, drained.drop_last());
        let front = first_sightings(seen, drained.drop_last());
        let e = drained.last();
        let id = indices_of(drained);
        let idl = indices_of(drained.drop_last());
        assert(id =~= idl.push(e.registry_index));
        assert(id.to_set() =~= idl.to_set().insert(e.registry_index)) by {
            assert forall|x: u32| id.contains(x) <==> idl.contains(x) || x == e.registry_index by {
                if id.contains(x) {
                    let k = choose|k: int| 0 <= k < id.len() && id[k] == x;
                    if k < idl.len() {
                        assert(idl[k] == x);
                    }
                }
                if idl.contains(x) {
                    let k = choose|k: int| 0 <= k < idl.len() && idl[k] == x;
                    assert(id[k] == x);
                }
                assert(id[idl.len() as int] == e.registry_index);
            }
        }
        if !(seen.contains(e.registry_index) || idl.contains(e.registry_index)) {
            let f = indices_of(front);
            let fp = indices_of(front.push(e));
            assert(fp =~= f.push(e.registry_index));
            assert(!f.to_set().contains(e.registry_index));
            assert(fp.to_set() =~= f.to_set().insert(e.registry_index)) by {
                assert forall|x: u32| fp.contains(x) <==> f.contains(x) || x == e.registry_index by {
                    if fp.contains(x) {
                        let k = choose|k: int| 0 <= k < fp.len() && fp[k] == x;
                        if k < f.len() {
                            assert(f[k] == x);
                        }
                    }
                    if f.contains(x) {
                        let k = choose|k: int| 0 <= k < f.len() && f[k] == x;
                        assert(fp[k] == x);
                    }
                    assert(fp[f.len() as int] == e.registry_index);
                }
            }
            assert(fp.no_duplicates()) by {
                assert forall|a: int, b: int| 0 <= a < fp.len() && 0 <= b < fp.len() && a != b implies fp[a] != fp[b] by {
                    if a < f.len() && b < f.len() {
                        assert(f[a] != f[b]);
                    } else if a < f.len() {
                        assert(f.contains(f[a]));
                    } else if b < f.len() {
                        assert(f.contains(f[b]));
                    }
                }
            }
            assert(fp.to_set() =~= id.to_set().difference(seen));
        } else {
            assert(indices_of(front).to_set() =~= id.to_set().difference(seen));
        }
        assert(first_sightings(seen, drained).len() == 0 <==> id.to_set().subset_of(seen)) by {
            if first_sightings(seen, drained).len() == 0 {
                assert(indices_of(first_sightings(seen, drained)).to_set() =~= Set::<u32>::empty());
                assert forall|x: u32| id.to_set().contains(x) implies seen.contains(x) by {
                    assert(!id.to_set().difference(seen).contains(x));
                }
            } else {
                let fs = first_sightings(seen, drained);
                assert(indices_of(fs).contains(fs[0].registry_index)) by {
                    assert(indices_of(fs)[0] == fs[0].registry_index);
                }
                assert(id.to_set().difference(seen).contains(fs[0].registry_index));
            }
        }
    } else {
        assert(indices_of(drained).to_set() =~= Set::<u32>::empty());
        assert(indices_of(first_sightings(seen, drained)).to_set() =~= Set::<u32>::empty());
        assert(indices_of(drained).to_set().difference(seen) =~= Set::<u32>::empty());
    }
}

} // verus!
