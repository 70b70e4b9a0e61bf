//! The app's configuration: its schedules, the systems added to them, the
//! order the schedules run in, and the lifecycle checks around building,
//! startup and updates.
use vstd::prelude::*;

use crate::schedule::{
    CleanupHandles, First, IntoScheduleId, Last, PostUpdate, PreUpdate, Schedule, ScheduleId,
    ScheduleOrderError, Startup, Update, CLEANUP_HANDLES_ID, STARTUP_ID,
};
use crate::filter::QueryFilter;
use crate::query::{terms_reads, terms_writes, QueryTerm};
use crate::schedule_order::{is_schedule_order, order_refusal, order_schedules, pick};
use crate::system::query_self_conflicts;
use crate::events::{event_registered, TrackedEventsMeta};
use crate::world::{frame_ended, World};

verus! {

/// Why the app refused a call.
#[derive(Debug)]
pub enum AppError {
    /// A build, startup or update was requested while plugins were building.
    CalledWhileBuildingPlugins,
    /// Configuration was attempted after the app was built.
    AlreadyBuilt,
    /// The app was used before its schedules were arranged.
    SchedulesNotAdded,
    /// The app was used before its systems were placed in schedules.
    SystemsNotAdded,
    /// The app was used before it was built.
    NotBuilt,
    /// An update was requested before startup ran.
    StartupNotRun,
    /// Startup was requested a second time.
    StartupAlreadyRan,
    /// `Startup` cannot be replaced by an added schedule.
    StartupOverwritten,
    /// `CleanupHandles` cannot be replaced by an added schedule.
    CleanupHandlesOverwritten,
    /// The schedules could not be arranged.
    ScheduleOrder(ScheduleOrderError),
    /// Systems were added to a schedule that was never registered.
    MissingSchedule(ScheduleId),
    /// A parallel query conflicts with itself.
    IntraQueryConflict,
    /// The event type was initialized already.
    EventAlreadyInitialized(u64),
}

/// Where the app is in its lifecycle.
pub struct ConfigurationContext {
    building_plugins: bool,
    schedules_added: bool,
    systems_added: bool,
    built: bool,
    ran_startup: bool,
}

/// The lifecycle flags, as plain values: building plugins, schedules
/// arranged, systems placed, built, startup run.
pub struct Lifecycle {
    pub building_plugins: bool,
    pub schedules_added: bool,
    pub systems_added: bool,
    pub built: bool,
    pub ran_startup: bool,
}

/// The check that the app is fully built.
pub open spec fn built_check(c: Lifecycle) -> Result<(), AppError> {
    if !c.schedules_added {
        Err(AppError::SchedulesNotAdded)
    } else if !c.systems_added {
        Err(AppError::SystemsNotAdded)
    } else if !c.built {
        Err(AppError::NotBuilt)
    } else {
        Ok(())
    }
}

/// The check that the app can still be configured.
pub open spec fn not_ready_check(c: Lifecycle) -> Result<(), AppError> {
    if c.built || c.ran_startup {
        Err(AppError::AlreadyBuilt)
    } else {
        Ok(())
    }
}

/// The check before running startup.
pub open spec fn startup_check(c: Lifecycle) -> Result<(), AppError> {
    if c.building_plugins {
        Err(AppError::CalledWhileBuildingPlugins)
    } else if built_check(c) is Err {
        built_check(c)
    } else if c.ran_startup {
        Err(AppError::StartupAlreadyRan)
    } else {
        Ok(())
    }
}

/// The check before an update.
pub open spec fn update_check(c: Lifecycle) -> Result<(), AppError> {
    if c.building_plugins {
        Err(AppError::CalledWhileBuildingPlugins)
    } else if built_check(c) is Err {
        built_check(c)
    } else if !c.ran_startup {
        Err(AppError::StartupNotRun)
    } else {
        Ok(())
    }
}

impl ConfigurationContext {
    pub closed spec fn view_lifecycle(&self) -> Lifecycle {
        Lifecycle {
            building_plugins: self.building_plugins,
            schedules_added: self.schedules_added,
            systems_added: self.systems_added,
            built: self.built,
            ran_startup: self.ran_startup,
        }
    }

    pub fn new() -> (c: Self)
        ensures
            c.view_lifecycle() == (Lifecycle {
                building_plugins: false,
                schedules_added: false,
                systems_added: false,
                built: false,
                ran_startup: false,
            }),
    {
        ConfigurationContext {
            building_plugins: false,
            schedules_added: false,
            systems_added: false,
            built: false,
            ran_startup: false,
        }
    }

    pub fn is_building_plugins(&self) -> (r: bool)
        ensures
            r == self.view_lifecycle().building_plugins,
    {
        self.building_plugins
    }

    /// Refused unless the schedules have been arranged.
    pub fn schedules_added(&self) -> (r: Result<(), AppError>)
        ensures
            r is Ok <==> self.view_lifecycle().schedules_added,
            r is Err ==> r->Err_0 is SchedulesNotAdded,
    {
        if !self.schedules_added {
            return Err(AppError::SchedulesNotAdded);
        }
        Ok(())
    }

    /// Refused unless the systems have been placed in schedules.
    pub fn systems_added(&self) -> (r: Result<(), AppError>)
        ensures
            r is Ok <==> self.view_lifecycle().systems_added,
            r is Err ==> r->Err_0 is SystemsNotAdded,
    {
        if !self.systems_added {
            return Err(AppError::SystemsNotAdded);
        }
        Ok(())
    }

    /// Refused unless the app is fully built.
    pub fn built(&self) -> (r: Result<(), AppError>)
        ensures
            r == built_check(self.view_lifecycle()),
    {
        self.schedules_added()?;
        self.systems_added()?;
        if !self.built {
            return Err(AppError::NotBuilt);
        }
        Ok(())
    }

    /// Refused unless startup has run.
    pub fn ran_startup(&self) -> (r: Result<(), AppError>)
        ensures
            r is Ok <==> self.view_lifecycle().ran_startup,
            r is Err ==> r->Err_0 is StartupNotRun,
    {
        if !self.ran_startup {
            return Err(AppError::StartupNotRun);
        }
        Ok(())
    }

    /// Refused once the app is built or has run startup.
    pub fn not_ready(&self) -> (r: Result<(), AppError>)
        ensures
            r == not_ready_check(self.view_lifecycle()),
    {
        if self.built || self.ran_startup {
            return Err(AppError::AlreadyBuilt);
        }
        Ok(())
    }
}

/// Systems added to one schedule before the app is built.
pub struct SystemsBlock {
    pub schedule_id: ScheduleId,
    pub systems: Vec<usize>,
}

/// The app: its schedules, the systems waiting to be placed in them, the
/// ordering constraints between schedules, and its lifecycle. Systems are
/// named by handle; running them is the caller's part.
pub struct App {
    startup_schedule: Schedule,
    cleanup_schedule: Schedule,
    schedules: Vec<Schedule>,
    systems_blocks: Vec<SystemsBlock>,
    schedule_order_constraints: Vec<(ScheduleId, ScheduleId)>,
    configuration: ConfigurationContext,
    world: World,
}

/// `Startup` and `CleanupHandles`, which the app keeps apart from the
/// ordered schedules.
pub open spec fn is_reserved(id: ScheduleId) -> bool {
    id.id == STARTUP_ID || id.id == CLEANUP_HANDLES_ID
}

/// The systems of every block for schedule `id`, in block order.
pub open spec fn placed_systems(blocks: Seq<SystemsBlock>, id: ScheduleId) -> Seq<usize>
    decreases blocks.len(),
{
    if blocks.len() == 0 {
        Seq::empty()
    } else {
        placed_systems(blocks.drop_last(), id) + if blocks.last().schedule_id == id {
            blocks.last().systems@
        } else {
            Seq::<usize>::empty()
        }
    }
}

/// A block for schedule `id` has somewhere to go: `Startup`,
/// `CleanupHandles` or a registered schedule.
pub open spec fn placeable(ids: Seq<ScheduleId>, id: ScheduleId) -> bool {
    is_reserved(id) || ids.contains(id)
}

/// Every block has somewhere to go.
pub open spec fn all_placeable(ids: Seq<ScheduleId>, blocks: Seq<SystemsBlock>) -> bool {
    forall|k: int| 0 <= k < blocks.len() ==> placeable(ids, #[trigger] blocks[k].schedule_id)
}

/// Block `k` is the first with nowhere to go.
pub open spec fn first_unplaceable(ids: Seq<ScheduleId>, blocks: Seq<SystemsBlock>, k: int) -> bool {
    &&& 0 <= k < blocks.len()
    &&& !placeable(ids, blocks[k].schedule_id)
    &&& forall|j: int| 0 <= j < k ==> placeable(ids, #[trigger] blocks[j].schedule_id)
}

/// `after` is `before` with `extra` systems appended.
pub open spec fn schedule_extended(before: Schedule, after: Schedule, extra: Seq<usize>) -> bool {
    &&& after.id_spec() == before.id_spec()
    &&& after.executor_spec() == before.executor_spec()
    &&& after.systems() == before.systems() + extra
}

/// The ids of a list of schedules.
pub open spec fn schedule_ids(s: Seq<Schedule>) -> Seq<ScheduleId> {
    s.map_values(|x: Schedule| x.id_spec())
}

/// The handles of a list of systems blocks' schedules.
pub open spec fn block_ids(b: Seq<SystemsBlock>) -> Seq<ScheduleId> {
    b.map_values(|x: SystemsBlock| x.schedule_id)
}

impl App {
    pub closed spec fn lifecycle(&self) -> Lifecycle {
        self.configuration.view_lifecycle()
    }

    /// The registered schedules other than `Startup` and `CleanupHandles`,
    /// in run order once the app is built.
    pub closed spec fn schedules(&self) -> Seq<Schedule> {
        self.schedules@
    }

    pub closed spec fn startup(&self) -> Schedule {
        self.startup_schedule
    }

    pub closed spec fn cleanup(&self) -> Schedule {
        self.cleanup_schedule
    }

    /// The systems added and not yet placed, by schedule.
    pub closed spec fn blocks(&self) -> Seq<SystemsBlock> {
        self.systems_blocks@
    }

    pub closed spec fn constraints(&self) -> Seq<(ScheduleId, ScheduleId)> {
        self.schedule_order_constraints@
    }

    pub closed spec fn world_spec(&self) -> World {
        self.world
    }

    /// `Startup` and `CleanupHandles` are held apart, under their own ids,
    /// and the world is well formed.
    pub closed spec fn wf(&self) -> bool {
        &&& self.world.wf()
        &&& self.startup_schedule.id_spec().id == STARTUP_ID
        &&& self.cleanup_schedule.id_spec().id == CLEANUP_HANDLES_ID
        &&& forall|t: int| 0 <= t < self.schedules@.len() ==> !is_reserved(#[trigger] self.schedules@[t].id_spec())
    }

    /// An app with the default schedules `First`, `PreUpdate`, `Update`,
    /// `PostUpdate`, `Last`, ordered in that sequence.
    pub fn new() -> (app: Self)
        ensures
            app.wf(),
            app.world_spec().read_slot() == 1,
            app.lifecycle() == (Lifecycle {
                building_plugins: false,
                schedules_added: false,
                systems_added: false,
                built: false,
                ran_startup: false,
            }),
            schedule_ids(app.schedules()) == seq![
                ScheduleId { id: crate::schedule::FIRST_ID },
                ScheduleId { id: crate::schedule::PRE_UPDATE_ID },
                ScheduleId { id: crate::schedule::UPDATE_ID },
                ScheduleId { id: crate::schedule::POST_UPDATE_ID },
                ScheduleId { id: crate::schedule::LAST_ID },
            ],
            app.constraints() == seq![
                (ScheduleId { id: crate::schedule::FIRST_ID }, ScheduleId { id: crate::schedule::PRE_UPDATE_ID }),
                (ScheduleId { id: crate::schedule::PRE_UPDATE_ID }, ScheduleId { id: crate::schedule::UPDATE_ID }),
                (ScheduleId { id: crate::schedule::UPDATE_ID }, ScheduleId { id: crate::schedule::POST_UPDATE_ID }),
                (ScheduleId { id: crate::schedule::POST_UPDATE_ID }, ScheduleId { id: crate::schedule::LAST_ID }),
            ],
            app.blocks() == Seq::<SystemsBlock>::empty(),
            app.startup().id_spec().id == STARTUP_ID,
            app.cleanup().id_spec().id == CLEANUP_HANDLES_ID,
    {
        let mut schedules: Vec<Schedule> = Vec::new();
        schedules.push(Schedule::new(&First));
        schedules.push(Schedule::new(&PreUpdate));
        schedules.push(Schedule::new(&Update));
        schedules.push(Schedule::new(&PostUpdate));
        schedules.push(Schedule::new(&Last));
        let mut constraints: Vec<(ScheduleId, ScheduleId)> = Vec::new();
        constraints.push((First.id(), PreUpdate.id()));
        constraints.push((PreUpdate.id(), Update.id()));
        constraints.push((Update.id(), PostUpdate.id()));
        constraints.push((PostUpdate.id(), Last.id()));
        let app = App {
            startup_schedule: Schedule::new(&Startup),
            cleanup_schedule: Schedule::new(&CleanupHandles),
            schedules,
            systems_blocks: Vec::new(),
            schedule_order_constraints: constraints,
            configuration: ConfigurationContext::new(),
            world: World::new(),
        };
        assert(schedule_ids(app.schedules()) =~= seq![
            ScheduleId { id: crate::schedule::FIRST_ID },
            ScheduleId { id: crate::schedule::PRE_UPDATE_ID },
            ScheduleId { id: crate::schedule::UPDATE_ID },
            ScheduleId { id: crate::schedule::POST_UPDATE_ID },
            ScheduleId { id: crate::schedule::LAST_ID },
        ]);
        assert(app.constraints() =~= seq![
            (ScheduleId { id: crate::schedule::FIRST_ID }, ScheduleId { id: crate::schedule::PRE_UPDATE_ID }),
            (ScheduleId { id: crate::schedule::PRE_UPDATE_ID }, ScheduleId { id: crate::schedule::UPDATE_ID }),
            (ScheduleId { id: crate::schedule::UPDATE_ID }, ScheduleId { id: crate::schedule::POST_UPDATE_ID }),
            (ScheduleId { id: crate::schedule::POST_UPDATE_ID }, ScheduleId { id: crate::schedule::LAST_ID }),
        ]);
        app
    }

    /// Registers a schedule. Refused once the app is built, and for
    /// `Startup` or `CleanupHandles`, which the app keeps apart.
    pub fn add_schedule(&mut self, schedule: Schedule) -> (r: Result<(), AppError>)
        requires
            old(self).wf(),
        ensures
            final(self).wf(),
            final(self).world_spec() == old(self).world_spec(),
            final(self).startup() == old(self).startup(),
            final(self).cleanup() == old(self).cleanup(),
            not_ready_check(old(self).lifecycle()) is Err ==> r == not_ready_check(old(self).lifecycle()),
            not_ready_check(old(self).lifecycle()) is Ok ==> {
                &&& schedule.id_spec().id == STARTUP_ID ==> (r is Err && r->Err_0 is StartupOverwritten)
                &&& schedule.id_spec().id == CLEANUP_HANDLES_ID ==> (r is Err && r->Err_0 is CleanupHandlesOverwritten)
                &&& schedule.id_spec().id != STARTUP_ID && schedule.id_spec().id != CLEANUP_HANDLES_ID ==> r is Ok
            },
            r is Ok ==> final(self).schedules() == old(self).schedules().push(schedule),
            r is Err ==> final(self).schedules() == old(self).schedules(),
            final(self).lifecycle() == old(self).lifecycle(),
            final(self).blocks() == old(self).blocks(),
            final(self).constraints() == old(self).constraints(),
    {
        self.configuration.not_ready()?;
        let id = schedule.id();
        if id.id == STARTUP_ID {
            return Err(AppError::StartupOverwritten);
        } else if id.id == CLEANUP_HANDLES_ID {
            return Err(AppError::CleanupHandlesOverwritten);
        }
        self.schedules.push(schedule);
        Ok(())
    }

    /// Requires schedule `before` to run ahead of `after`. Refused once the
    /// app is built; the schedules named are checked when it is built.
    pub fn configure_schedule_order(&mut self, before: ScheduleId, after: ScheduleId) -> (r: Result<(), AppError>)
        requires
            old(self).wf(),
        ensures
            final(self).wf(),
            final(self).world_spec() == old(self).world_spec(),
            final(self).startup() == old(self).startup(),
            final(self).cleanup() == old(self).cleanup(),
            r == not_ready_check(old(self).lifecycle()),
            r is Ok ==> final(self).constraints() == old(self).constraints().push((before, after)),
            r is Err ==> final(self).constraints() == old(self).constraints(),
            final(self).schedules() == old(self).schedules(),
            final(self).lifecycle() == old(self).lifecycle(),
            final(self).blocks() == old(self).blocks(),
    {
        self.configuration.not_ready()?;
        self.schedule_order_constraints.push((before, after));
        Ok(())
    }

    /// Adds systems to a schedule; they are placed in it when the app is
    /// built. Systems for a schedule that already has a block join the end
    /// of that block. Refused once the app is built.
    pub fn add_systems(&mut self, schedule: ScheduleId, systems: Vec<usize>) -> (r: Result<(), AppError>)
        requires
            old(self).wf(),
        ensures
            final(self).wf(),
            final(self).world_spec() == old(self).world_spec(),
            final(self).startup() == old(self).startup(),
            final(self).cleanup() == old(self).cleanup(),
            r == not_ready_check(old(self).lifecycle()),
            r is Err ==> final(self).blocks() == old(self).blocks(),
            r is Ok ==> {
                &&& block_ids(old(self).blocks()).contains(schedule) ==> exists|k: int| {
                    &&& is_first_index(block_ids(old(self).blocks()), schedule, k)
                    &&& final(self).blocks().len() == old(self).blocks().len()
                    &&& block_ids(final(self).blocks()) == block_ids(old(self).blocks())
                    &&& #[trigger] final(self).blocks()[k].systems@ == old(self).blocks()[k].systems@ + systems@
                    &&& forall|j: int| 0 <= j < old(self).blocks().len() && j != k ==> #[trigger] final(self).blocks()[j] == old(self).blocks()[j]
                }
                &&& !block_ids(old(self).blocks()).contains(schedule) ==> {
                    &&& final(self).blocks().len() == old(self).blocks().len() + 1
                    &&& final(self).blocks().drop_last() == old(self).blocks()
                    &&& final(self).blocks().last().schedule_id == schedule
                    &&& final(self).blocks().last().systems@ == systems@
                }
            },
            final(self).schedules() == old(self).schedules(),
            final(self).lifecycle() == old(self).lifecycle(),
            final(self).constraints() == old(self).constraints(),
    {
        self.configuration.not_ready()?;
        let mut i: usize = 0;
        while i < self.systems_blocks.len()
            invariant
                i <= self.systems_blocks@.len(),
                *self == *old(self),
                old(self).wf(),
                not_ready_check(old(self).lifecycle()) is Ok,
                forall|j: int| 0 <= j < i ==> #[trigger] self.systems_blocks@[j].schedule_id != schedule,
            decreases self.systems_blocks@.len() - i,
        {
            if self.systems_blocks[i].schedule_id == schedule {
                proof {
                    let ids = block_ids(old(self).blocks());
                    assert(ids[i as int] == schedule);
                    assert forall|j: int| 0 <= j < i implies ids[j] != schedule by {
                        assert(ids[j] == self.systems_blocks@[j].schedule_id);
                    }
                    assert(is_first_index(ids, schedule, i as int));
                }
                let ghost added = systems@;
                let mut systems = systems;
                let ghost prev = self.systems_blocks@;
                self.systems_blocks[i].systems.append(&mut systems);
                proof {
                    assert(block_ids(self.systems_blocks@) =~= block_ids(prev));
                    assert forall|j: int| 0 <= j < prev.len() && j != i implies #[trigger] self.systems_blocks@[j] == prev[j] by {}
                    assert(self.systems_blocks@[i as int].systems@ == prev[i as int].systems@ + added);
                    assert(self.blocks()[i as int].systems@ == old(self).blocks()[i as int].systems@ + added);
                    assert(block_ids(self.blocks()) == block_ids(old(self).blocks()));
                    assert(forall|j: int| 0 <= j < old(self).blocks().len() && j != i ==> #[trigger] self.blocks()[j] == old(self).blocks()[j]);
                }
                return Ok(());
            }
            i += 1;
        }
        proof {
            assert forall|j: int| 0 <= j < block_ids(old(self).blocks()).len() implies block_ids(old(self).blocks())[j] != schedule by {
                assert(block_ids(old(self).blocks())[j] == self.systems_blocks@[j].schedule_id);
            }
        }
        self.systems_blocks.push(SystemsBlock { schedule_id: schedule, systems });
        assert(self.systems_blocks@.drop_last() =~= old(self).systems_blocks@);
        Ok(())
    }

    /// Arranges the schedules so every ordering constraint holds, refusing
    /// duplicates, bad constraints and cycles; on success the schedules are
    /// marked arranged.
    fn configure_schedules(&mut self) -> (r: Result<(), AppError>)
        requires
            old(self).wf(),
        ensures
            final(self).wf(),
            final(self).world_spec() == old(self).world_spec(),
            r is Ok <==> order_schedules_ok(schedule_ids(old(self).schedules()), old(self).constraints()),
            r is Err ==> (r matches Err(AppError::ScheduleOrder(e)) && order_refusal(
                schedule_ids(old(self).schedules()),
                old(self).constraints(),
                e,
            )),
            r is Ok ==> {
                &&& is_schedule_order(schedule_ids(old(self).schedules()), old(self).constraints(), schedule_ids(final(self).schedules()))
                &&& forall|t: int| 0 <= t < final(self).schedules().len() ==> exists|u: int| 0 <= u < old(self).schedules().len()
                    && crate::schedule::same_schedule(#[trigger] final(self).schedules()[t], old(self).schedules()[u])
                &&& final(self).lifecycle() == (Lifecycle { schedules_added: true, ..old(self).lifecycle() })
            },
            r is Err ==> final(self).schedules() == old(self).schedules() && final(self).lifecycle() == old(self).lifecycle(),
            final(self).blocks() == old(self).blocks(),
            final(self).constraints() == old(self).constraints(),
            final(self).startup() == old(self).startup(),
            final(self).cleanup() == old(self).cleanup(),
    {
        let mut ids: Vec<ScheduleId> = Vec::new();
        let mut i: usize = 0;
        while i < self.schedules.len()
            invariant
                i <= self.schedules@.len(),
                ids@ == schedule_ids(self.schedules@.take(i as int)),
            decreases self.schedules@.len() - i,
        {
            ids.push(self.schedules[i].id());
            assert(schedule_ids(self.schedules@.take(i as int + 1)) =~= schedule_ids(self.schedules@.take(i as int)).push(self.schedules@[i as int].id_spec()));
            i += 1;
        }
        assert(self.schedules@.take(self.schedules@.len() as int) =~= self.schedules@);
        let order = match order_schedules(&ids, &self.schedule_order_constraints) {
            Ok(order) => order,
            Err(e) => {
                return Err(AppError::ScheduleOrder(e));
            },
        };
        // put each schedule in its place
        let mut arranged: Vec<Schedule> = Vec::new();
        let mut k: usize = 0;
        while k < order.len()
            invariant
                k <= order@.len(),
                forall|t: int| 0 <= t < order@.len() ==> (#[trigger] order@[t] as int) < self.schedules@.len(),
                arranged@.len() == k,
                forall|t: int| 0 <= t < k ==> crate::schedule::same_schedule(#[trigger] arranged@[t], self.schedules@[order@[t] as int]),
            decreases order@.len() - k,
        {
            arranged.push(self.schedules[order[k]].duplicate());
            k += 1;
        }
        proof {
            let ids_s = schedule_ids(self.schedules@);
            assert(ids@ == ids_s);
            assert(schedule_ids(arranged@) =~= pick(ids@, order@));
            assert forall|t: int| 0 <= t < arranged@.len() implies exists|u: int| 0 <= u < self.schedules@.len() && crate::schedule::same_schedule(#[trigger] arranged@[t], self.schedules@[u]) by {
                assert(crate::schedule::same_schedule(arranged@[t], self.schedules@[order@[t] as int]));
            }
        }
        self.schedules = arranged;
        self.configuration.schedules_added = true;
        Ok(())
    }
}

impl App {
    /// The first registered schedule with id `id`.
    fn find_schedule(&self, id: ScheduleId) -> (r: Option<usize>)
        ensures
            r matches Some(t) ==> is_first_index(schedule_ids(self.schedules()), id, t as int),
            r is None ==> !schedule_ids(self.schedules()).contains(id),
    {
        let mut t: usize = 0;
        while t < self.schedules.len()
            invariant
                t <= self.schedules@.len(),
                forall|j: int| 0 <= j < t ==> #[trigger] schedule_ids(self.schedules@)[j] != id,
            decreases self.schedules@.len() - t,
        {
            if self.schedules[t].id() == id {
                assert(schedule_ids(self.schedules@)[t as int] == id);
                return Some(t);
            }
            assert(schedule_ids(self.schedules@)[t as int] == self.schedules@[t as int].id_spec());
            t += 1;
        }
        None
    }

    /// Places each block of systems in its schedule: `Startup`,
    /// `CleanupHandles`, or the first registered schedule with its id. A
    /// block for a schedule that was never registered is refused, and then
    /// nothing is placed.
    fn configure_systems(&mut self) -> (r: Result<(), AppError>)
        requires
            old(self).wf(),
        ensures
            final(self).wf(),
            final(self).world_spec() == old(self).world_spec(),
            final(self).constraints() == old(self).constraints(),
            r is Ok <==> all_placeable(schedule_ids(old(self).schedules()), old(self).blocks()),
            r is Err ==> {
                &&& exists|k: int| first_unplaceable(schedule_ids(old(self).schedules()), old(self).blocks(), k)
                    && r == Err::<(), AppError>(AppError::MissingSchedule(old(self).blocks()[k].schedule_id))
                &&& *final(self) == *old(self)
            },
            r is Ok ==> {
                &&& final(self).blocks() == Seq::<SystemsBlock>::empty()
                &&& final(self).lifecycle() == (Lifecycle { systems_added: true, ..old(self).lifecycle() })
                &&& schedule_extended(old(self).startup(), final(self).startup(),
                    placed_systems(old(self).blocks(), old(self).startup().id_spec()))
                &&& schedule_extended(old(self).cleanup(), final(self).cleanup(),
                    placed_systems(old(self).blocks(), old(self).cleanup().id_spec()))
                &&& final(self).schedules().len() == old(self).schedules().len()
                &&& forall|t: int| 0 <= t < old(self).schedules().len() ==> schedule_extended(
                    #[trigger] old(self).schedules()[t],
                    final(self).schedules()[t],
                    if is_first_index(schedule_ids(old(self).schedules()), old(self).schedules()[t].id_spec(), t) {
                        placed_systems(old(self).blocks(), old(self).schedules()[t].id_spec())
                    } else {
                        Seq::<usize>::empty()
                    },
                )
            },
    {
        let ghost ids = schedule_ids(self.schedules@);
        let mut k: usize = 0;
        while k < self.systems_blocks.len()
            invariant
                k <= self.systems_blocks@.len(),
                *self == *old(self),
                old(self).wf(),
                ids == schedule_ids(self.schedules@),
                forall|j: int| 0 <= j < k ==> placeable(ids, #[trigger] self.systems_blocks@[j].schedule_id),
            decreases self.systems_blocks@.len() - k,
        {
            let id = self.systems_blocks[k].schedule_id;
            if id.id != STARTUP_ID && id.id != CLEANUP_HANDLES_ID {
                match self.find_schedule(id) {
                    None => {
                        assert(first_unplaceable(ids, old(self).blocks(), k as int));
                        return Err(AppError::MissingSchedule(id));
                    },
                    Some(_) => {},
                }
            }
            k += 1;
        }
        let mut blocks: Vec<SystemsBlock> = Vec::new();
        std::mem::swap(&mut blocks, &mut self.systems_blocks);
        let mut k: usize = 0;
        while k < blocks.len()
            invariant
                k <= blocks@.len(),
                blocks@ == old(self).blocks(),
                old(self).wf(),
                all_placeable(ids, blocks@),
                ids == schedule_ids(old(self).schedules@),
                ids == schedule_ids(self.schedules@),
                self.systems_blocks@ == Seq::<SystemsBlock>::empty(),
                self.configuration == old(self).configuration,
                self.schedule_order_constraints == old(self).schedule_order_constraints,
                self.world == old(self).world,
                schedule_extended(old(self).startup(), self.startup_schedule,
                    placed_systems(blocks@.take(k as int), old(self).startup().id_spec())),
                schedule_extended(old(self).cleanup(), self.cleanup_schedule,
                    placed_systems(blocks@.take(k as int), old(self).cleanup().id_spec())),
                self.schedules@.len() == old(self).schedules@.len(),
                forall|t: int| 0 <= t < old(self).schedules@.len() ==> schedule_extended(
                    #[trigger] old(self).schedules@[t],
                    self.schedules@[t],
                    if is_first_index(ids, old(self).schedules@[t].id_spec(), t) {
                        placed_systems(blocks@.take(k as int), old(self).schedules@[t].id_spec())
                    } else {
                        Seq::<usize>::empty()
                    },
                ),
            decreases blocks@.len() - k,
        {
            let id = blocks[k].schedule_id;
            proof {
                lemma_placed_step(blocks@, k as int);
                assert(placeable(ids, blocks@[k as int].schedule_id));
            }
            let ghost before = self.schedules@;
            let ghost before_startup = self.startup_schedule;
            let ghost before_cleanup = self.cleanup_schedule;
            if id.id == STARTUP_ID {
                self.startup_schedule.add_systems(blocks[k].systems.as_slice());
                proof {
                    assert(self.startup_schedule.systems() =~= old(self).startup().systems()
                        + placed_systems(blocks@.take(k as int + 1), old(self).startup().id_spec()));
                    assert(self.cleanup_schedule.systems() =~= old(self).cleanup().systems()
                        + placed_systems(blocks@.take(k as int + 1), old(self).cleanup().id_spec()));
                    assert forall|t: int| 0 <= t < old(self).schedules@.len() implies schedule_extended(
                        #[trigger] old(self).schedules@[t],
                        self.schedules@[t],
                        if is_first_index(ids, old(self).schedules@[t].id_spec(), t) {
                            placed_systems(blocks@.take(k as int + 1), old(self).schedules@[t].id_spec())
                        } else {
                            Seq::<usize>::empty()
                        },
                    ) by {
                        assert(!is_reserved(old(self).schedules@[t].id_spec()));
                        assert(self.schedules@[t].systems() =~= old(self).schedules@[t].systems() + if is_first_index(ids, old(self).schedules@[t].id_spec(), t) {
                            placed_systems(blocks@.take(k as int + 1), old(self).schedules@[t].id_spec())
                        } else {
                            Seq::<usize>::empty()
                        });
                    }
                }
            } else if id.id == CLEANUP_HANDLES_ID {
                self.cleanup_schedule.add_systems(blocks[k].systems.as_slice());
                proof {
                    assert(self.startup_schedule.systems() =~= old(self).startup().systems()
                        + placed_systems(blocks@.take(k as int + 1), old(self).startup().id_spec()));
                    assert(self.cleanup_schedule.systems() =~= old(self).cleanup().systems()
                        + placed_systems(blocks@.take(k as int + 1), old(self).cleanup().id_spec()));
                    assert forall|t: int| 0 <= t < old(self).schedules@.len() implies schedule_extended(
                        #[trigger] old(self).schedules@[t],
                        self.schedules@[t],
                        if is_first_index(ids, old(self).schedules@[t].id_spec(), t) {
                            placed_systems(blocks@.take(k as int + 1), old(self).schedules@[t].id_spec())
                        } else {
                            Seq::<usize>::empty()
                        },
                    ) by {
                        assert(!is_reserved(old(self).schedules@[t].id_spec()));
                        assert(self.schedules@[t].systems() =~= old(self).schedules@[t].systems() + if is_first_index(ids, old(self).schedules@[t].id_spec(), t) {
                            placed_systems(blocks@.take(k as int + 1), old(self).schedules@[t].id_spec())
                        } else {
                            Seq::<usize>::empty()
                        });
                    }
                }
            } else {
                match self.find_schedule(id) {
                    Some(t0) => {
                        assert(is_first_index(ids, id, t0 as int));
                        self.schedules[t0].add_systems(blocks[k].systems.as_slice());
                        proof {
                            assert(self.startup_schedule.systems() =~= old(self).startup().systems()
                                + placed_systems(blocks@.take(k as int + 1), old(self).startup().id_spec()));
                            assert(self.cleanup_schedule.systems() =~= old(self).cleanup().systems()
                                + placed_systems(blocks@.take(k as int + 1), old(self).cleanup().id_spec()));
                            assert forall|t: int| 0 <= t < old(self).schedules@.len() implies schedule_extended(
                                #[trigger] old(self).schedules@[t],
                                self.schedules@[t],
                                if is_first_index(ids, old(self).schedules@[t].id_spec(), t) {
                                    placed_systems(blocks@.take(k as int + 1), old(self).schedules@[t].id_spec())
                                } else {
                                    Seq::<usize>::empty()
                                },
                            ) by {
                                assert(ids[t] == old(self).schedules@[t].id_spec());
                                if t == t0 as int {
                                    assert(self.schedules@[t].systems() =~= old(self).schedules@[t].systems()
                                        + placed_systems(blocks@.take(k as int + 1), old(self).schedules@[t].id_spec()));
                                } else {
                                    if is_first_index(ids, ids[t], t) && ids[t] == id {
                                        assert(t0 < t ==> ids[t0 as int] != id);
                                        assert(t < t0 ==> ids[t] != id);
                                    }
                                    assert(self.schedules@[t] == before[t]);
                                    assert(self.schedules@[t].systems() =~= old(self).schedules@[t].systems() + if is_first_index(ids, old(self).schedules@[t].id_spec(), t) {
                                        placed_systems(blocks@.take(k as int + 1), old(self).schedules@[t].id_spec())
                                    } else {
                                        Seq::<usize>::empty()
                                    });
                                }
                            }
                            assert forall|t: int| 0 <= t < ids.len() implies #[trigger] schedule_ids(self.schedules@)[t] == ids[t] by {
                                assert(schedule_extended(old(self).schedules@[t], self.schedules@[t], if is_first_index(ids, old(self).schedules@[t].id_spec(), t) {
                                    placed_systems(blocks@.take(k as int + 1), old(self).schedules@[t].id_spec())
                                } else {
                                    Seq::<usize>::empty()
                                }));
                            }
                            assert(schedule_ids(self.schedules@) =~= ids);
                        }
                    },
                    None => {},
                }
            }
            k += 1;
        }
        assert(blocks@.take(blocks@.len() as int) =~= blocks@);
        self.configuration.systems_added = true;
        assert forall|t: int| 0 <= t < self.schedules@.len() implies !is_reserved(#[trigger] self.schedules@[t].id_spec()) by {
            assert(ids[t] == self.schedules@[t].id_spec());
            assert(ids[t] == old(self).schedules@[t].id_spec());
        }
        Ok(())
    }
}

/// What building did to the app: the schedules were arranged so that every
/// ordering constraint holds, each block of systems was placed in its
/// schedule in the order the blocks were added, and the app is built.
pub open spec fn app_built(before: App, after: App) -> bool {
    &&& after.lifecycle() == (Lifecycle {
        schedules_added: true,
        systems_added: true,
        built: true,
        ..before.lifecycle()
    })
    &&& is_schedule_order(schedule_ids(before.schedules()), before.constraints(), schedule_ids(after.schedules()))
    &&& after.blocks() == Seq::<SystemsBlock>::empty()
    &&& schedule_extended(before.startup(), after.startup(), placed_systems(before.blocks(), before.startup().id_spec()))
    &&& schedule_extended(before.cleanup(), after.cleanup(), placed_systems(before.blocks(), before.cleanup().id_spec()))
    &&& forall|t: int| 0 <= t < after.schedules().len() ==> exists|u: int| {
        &&& 0 <= u < before.schedules().len()
        &&& schedule_extended(
            before.schedules()[u],
            #[trigger] after.schedules()[t],
            placed_systems(before.blocks(), before.schedules()[u].id_spec()),
        )
    }
}

impl App {
    /// Builds the app: arranges the schedules, then places the systems.
    /// Refused while plugins are building, once the app is built, when the
    /// schedules cannot be arranged, and when systems were added to a
    /// schedule that was never registered.
    pub fn build(&mut self) -> (r: Result<(), AppError>)
        requires
            old(self).wf(),
        ensures
            final(self).wf(),
            final(self).world_spec() == old(self).world_spec(),
            final(self).constraints() == old(self).constraints(),
            old(self).lifecycle().building_plugins ==> r == Err::<(), AppError>(AppError::CalledWhileBuildingPlugins),
            !old(self).lifecycle().building_plugins && not_ready_check(old(self).lifecycle()) is Err
                ==> r == not_ready_check(old(self).lifecycle()),
            ({
                let ids = schedule_ids(old(self).schedules());
                let cons = old(self).constraints();
                let blocks = old(self).blocks();
                !old(self).lifecycle().building_plugins && not_ready_check(old(self).lifecycle()) is Ok ==> {
                    &&& !order_schedules_ok(ids, cons) ==> (r matches Err(AppError::ScheduleOrder(e))
                        && order_refusal(ids, cons, e))
                    &&& order_schedules_ok(ids, cons) && !all_placeable(ids, blocks) ==> exists|k: int|
                        first_unplaceable(ids, blocks, k)
                        && r == Err::<(), AppError>(AppError::MissingSchedule(blocks[k].schedule_id))
                    &&& order_schedules_ok(ids, cons) && all_placeable(ids, blocks) ==> r is Ok
                }
            }),
            r is Err ==> final(self).lifecycle().built == old(self).lifecycle().built,
            r is Ok ==> app_built(*old(self), *final(self)),
    {
        if self.configuration.is_building_plugins() {
            return Err(AppError::CalledWhileBuildingPlugins);
        }
        self.configuration.not_ready()?;
        self.configure_schedules()?;
        let ghost mid = *self;
        let ghost old_ids = schedule_ids(old(self).schedules());
        let ghost mid_ids = schedule_ids(mid.schedules());
        proof {
            assert forall|x: ScheduleId| #[trigger] mid_ids.contains(x) == old_ids.contains(x) by {
                if mid_ids.contains(x) {
                    let t = choose|t: int| 0 <= t < mid_ids.len() && mid_ids[t] == x;
                    assert(mid.schedules()[t].id_spec() == x);
                    let u = choose|u: int| 0 <= u < old(self).schedules().len()
                        && crate::schedule::same_schedule(mid.schedules()[t], old(self).schedules()[u]);
                    assert(old_ids[u] == x);
                }
                if old_ids.contains(x) {
                    let i = choose|i: int| 0 <= i < old_ids.len() && old_ids[i] == x;
                    assert(mid_ids.contains(old_ids[i]));
                }
            }
            assert forall|x: ScheduleId| #[trigger] placeable(mid_ids, x) == placeable(old_ids, x) by {
                assert(mid_ids.contains(x) == old_ids.contains(x));
            }
        }
        let r = self.configure_systems();
        match r {
            Ok(()) => {},
            Err(e) => {
                proof {
                    let k = choose|k: int| first_unplaceable(mid_ids, mid.blocks(), k)
                        && r == Err::<(), AppError>(AppError::MissingSchedule(mid.blocks()[k].schedule_id));
                    assert(placeable(mid_ids, mid.blocks()[k].schedule_id) == placeable(old_ids, mid.blocks()[k].schedule_id));
                    assert forall|j: int| 0 <= j < k implies placeable(old_ids, #[trigger] mid.blocks()[j].schedule_id) by {
                        assert(placeable(mid_ids, mid.blocks()[j].schedule_id));
                    }
                    assert(first_unplaceable(old_ids, old(self).blocks(), k));
                }
                return Err(e);
            },
        }
        self.configuration.built = true;
        proof {
            assert(schedule_ids(self.schedules()) =~= mid_ids) by {
                assert forall|t: int| 0 <= t < mid_ids.len() implies #[trigger] schedule_ids(self.schedules())[t] == mid_ids[t] by {
                    assert(schedule_extended(mid.schedules()[t], self.schedules()[t],
                        if is_first_index(mid_ids, mid.schedules()[t].id_spec(), t) {
                            placed_systems(mid.blocks(), mid.schedules()[t].id_spec())
                        } else {
                            Seq::<usize>::empty()
                        }));
                }
            }
            assert(all_placeable(old_ids, old(self).blocks())) by {
                assert forall|k: int| 0 <= k < old(self).blocks().len() implies placeable(old_ids, #[trigger] old(self).blocks()[k].schedule_id) by {
                    assert(placeable(mid_ids, mid.blocks()[k].schedule_id));
                }
            }
            assert forall|t: int| 0 <= t < self.schedules().len() implies exists|u: int| {
                &&& 0 <= u < old(self).schedules().len()
                &&& schedule_extended(
                    old(self).schedules()[u],
                    #[trigger] self.schedules()[t],
                    placed_systems(old(self).blocks(), old(self).schedules()[u].id_spec()),
                )
            } by {
                assert(mid_ids[t] == mid.schedules()[t].id_spec());
                assert(is_first_index(mid_ids, mid.schedules()[t].id_spec(), t)) by {
                    assert forall|j: int| 0 <= j < t implies #[trigger] mid_ids[j] != mid.schedules()[t].id_spec() by {
                        assert(mid_ids.no_duplicates());
                    }
                }
                assert(schedule_extended(mid.schedules()[t], self.schedules()[t],
                    placed_systems(mid.blocks(), mid.schedules()[t].id_spec())));
                let u = choose|u: int| 0 <= u < old(self).schedules().len()
                    && crate::schedule::same_schedule(mid.schedules()[t], old(self).schedules()[u]);
                assert(schedule_extended(
                    old(self).schedules()[u],
                    self.schedules()[t],
                    placed_systems(old(self).blocks(), old(self).schedules()[u].id_spec()),
                ));
            }
        }
        Ok(())
    }

    /// Marks startup as run, so its systems are run once. Refused while
    /// plugins are building, before the app is built, and the second time.
    pub fn run_startup(&mut self) -> (r: Result<(), AppError>)
        requires
            old(self).wf(),
        ensures
            final(self).wf(),
            r == startup_check(old(self).lifecycle()),
            r is Ok ==> final(self).lifecycle() == (Lifecycle { ran_startup: true, ..old(self).lifecycle() }),
            r is Err ==> final(self).lifecycle() == old(self).lifecycle(),
            final(self).world_spec() == old(self).world_spec(),
            final(self).schedules() == old(self).schedules(),
            final(self).startup() == old(self).startup(),
            final(self).cleanup() == old(self).cleanup(),
            final(self).blocks() == old(self).blocks(),
            final(self).constraints() == old(self).constraints(),
    {
        if self.configuration.is_building_plugins() {
            return Err(AppError::CalledWhileBuildingPlugins);
        }
        self.configuration.built()?;
        if self.configuration.ran_startup {
            return Err(AppError::StartupAlreadyRan);
        }
        self.configuration.ran_startup = true;
        Ok(())
    }

    /// Whether a frame may run: refused while plugins are building, before
    /// the app is built, and before startup ran. The frame runs each
    /// schedule in order, then `CleanupHandles`, then `finish_update`.
    pub fn update(&self) -> (r: Result<(), AppError>)
        ensures
            r == update_check(self.lifecycle()),
    {
        if self.configuration.is_building_plugins() {
            return Err(AppError::CalledWhileBuildingPlugins);
        }
        self.configuration.built()?;
        self.configuration.ran_startup()?;
        Ok(())
    }

    /// Ends a frame that `update` allowed: the world moves on one frame.
    pub fn finish_update(&mut self) -> (r: Result<(), AppError>)
        requires
            old(self).wf(),
        ensures
            final(self).wf(),
            r == update_check(old(self).lifecycle()),
            r is Ok ==> frame_ended(old(self).world_spec(), final(self).world_spec()),
            r is Err ==> final(self).world_spec() == old(self).world_spec(),
            final(self).lifecycle() == old(self).lifecycle(),
            final(self).schedules() == old(self).schedules(),
            final(self).startup() == old(self).startup(),
            final(self).cleanup() == old(self).cleanup(),
            final(self).blocks() == old(self).blocks(),
            final(self).constraints() == old(self).constraints(),
    {
        self.update()?;
        self.world.end_of_frame_sync();
        Ok(())
    }

    /// Checks a parallel query before handing out an accessor: refused once
    /// the app is built, and when the query conflicts with itself. The
    /// components it tracks are registered either way once the first check
    /// passes.
    pub fn get_par_query_accessor<F: QueryFilter>(&mut self, terms: &[QueryTerm], filter: &F) -> (r: Result<(), AppError>)
        requires
            old(self).wf(),
        ensures
            final(self).wf(),
            not_ready_check(old(self).lifecycle()) is Err ==> r == not_ready_check(old(self).lifecycle())
                && final(self).world_spec() == old(self).world_spec(),
            not_ready_check(old(self).lifecycle()) is Ok ==> {
                &&& r is Err <==> query_self_conflicts(terms_reads(terms@), terms_writes(terms@))
                &&& r is Err ==> r == Err::<(), AppError>(AppError::IntraQueryConflict)
                &&& final(self).world_spec().tracked_components()@ == filter.registered(
                    crate::query::terms_registered(terms@, old(self).world_spec().tracked_components()@))
                &&& final(self).world_spec().archetypes() == old(self).world_spec().archetypes()
                &&& final(self).world_spec().read_slot() == old(self).world_spec().read_slot()
            },
            final(self).lifecycle() == old(self).lifecycle(),
            final(self).schedules() == old(self).schedules(),
            final(self).blocks() == old(self).blocks(),
            final(self).constraints() == old(self).constraints(),
    {
        self.configuration.not_ready()?;
        if self.world.parallel_query_conflicts(terms, filter) {
            return Err(AppError::IntraQueryConflict);
        }
        Ok(())
    }

    pub fn world(&self) -> (w: &World)
        ensures
            *w == self.world_spec(),
    {
        &self.world
    }

    /// Sets up event type `comp_id`, whose queues are resource `event_id`.
    /// Refused once the app is built, and when its queues already exist
    /// (`buffer_present`).
    pub fn init_event(&mut self, comp_id: u64, event_id: u64, buffer_present: bool) -> (r: Result<(), AppError>)
        requires
            old(self).wf(),
        ensures
            final(self).wf(),
            not_ready_check(old(self).lifecycle()) is Err ==> r == not_ready_check(old(self).lifecycle()),
            not_ready_check(old(self).lifecycle()) is Ok && buffer_present
                ==> r == Err::<(), AppError>(AppError::EventAlreadyInitialized(comp_id)),
            not_ready_check(old(self).lifecycle()) is Ok && !buffer_present ==> r is Ok,
            r is Ok ==> {
                &&& event_registered(old(self).world_spec().tracked_events(), comp_id)
                    ==> final(self).world_spec().tracked_events() == old(self).world_spec().tracked_events()
                &&& !event_registered(old(self).world_spec().tracked_events(), comp_id)
                    ==> final(self).world_spec().tracked_events() == old(self).world_spec().tracked_events().push(
                        TrackedEventsMeta { comp_id, event_id })
            },
            r is Err ==> final(self).world_spec() == old(self).world_spec(),
            final(self).world_spec().archetypes() == old(self).world_spec().archetypes(),
            final(self).world_spec().read_slot() == old(self).world_spec().read_slot(),
            final(self).lifecycle() == old(self).lifecycle(),
            final(self).schedules() == old(self).schedules(),
            final(self).blocks() == old(self).blocks(),
            final(self).constraints() == old(self).constraints(),
    {
        self.configuration.not_ready()?;
        if buffer_present {
            return Err(AppError::EventAlreadyInitialized(comp_id));
        }
        self.world.register_event(comp_id, event_id);
        Ok(())
    }

    /// The world, for systems and commands to work on; the app stays well
    /// formed while the world does.
    pub fn world_mut(&mut self) -> (w: &mut World)
        ensures
            *w == old(self).world_spec(),
            final(self).world_spec() == *final(w),
            final(self).lifecycle() == old(self).lifecycle(),
            final(self).schedules() == old(self).schedules(),
            final(self).startup() == old(self).startup(),
            final(self).cleanup() == old(self).cleanup(),
            final(self).blocks() == old(self).blocks(),
            final(self).constraints() == old(self).constraints(),
            old(self).wf() && final(w).wf() ==> final(self).wf(),
    {
        &mut self.world
    }

    /// The registered schedules other than `Startup` and `CleanupHandles`,
    /// in run order once the app is built.
    pub fn schedule_list(&self) -> (s: &[Schedule])
        ensures
            s@ == self.schedules(),
    {
        self.schedules.as_slice()
    }

    pub fn startup_schedule(&self) -> (s: &Schedule)
        ensures
            *s == self.startup(),
    {
        &self.startup_schedule
    }

    pub fn cleanup_schedule(&self) -> (s: &Schedule)
        ensures
            *s == self.cleanup(),
    {
        &self.cleanup_schedule
    }
}

/// Once built, the app refuses every further configuration.
pub proof fn lemma_built_app_refuses_configuration(before: App, after: App)
    requires
        app_built(before, after),
    ensures
        not_ready_check(after.lifecycle()) == Err::<(), AppError>(AppError::AlreadyBuilt),
{
}

/// A freshly built app may run startup, and may not run a frame before it.
pub proof fn lemma_built_app_starts_before_updating(before: App, after: App)
    requires
        app_built(before, after),
        !before.lifecycle().building_plugins,
        !before.lifecycle().ran_startup,
    ensures
        startup_check(after.lifecycle()) is Ok,
        update_check(after.lifecycle()) == Err::<(), AppError>(AppError::StartupNotRun),
{
}

/// Startup runs once: after it ran, frames may run and a second startup is
/// refused.
pub proof fn lemma_startup_runs_once(l: Lifecycle)
    requires
        startup_check(l) is Ok,
    ensures
        startup_check(Lifecycle { ran_startup: true, ..l }) == Err::<(), AppError>(AppError::StartupAlreadyRan),
        update_check(Lifecycle { ran_startup: true, ..l }) is Ok,
{
}

/// Taking one more block adds its systems to those of its schedule.
proof fn lemma_placed_step(blocks: Seq<SystemsBlock>, k: int)
    requires
        0 <= k < blocks.len(),
    ensures
        forall|id: ScheduleId| #[trigger] placed_systems(blocks.take(k + 1), id) == placed_systems(blocks.take(k), id)
            + if blocks[k].schedule_id == id { blocks[k].systems@ } else { Seq::<usize>::empty() },
{
    assert(blocks.take(k + 1).drop_last() =~= blocks.take(k));
}

/// `ids` with `d` appended unless it is already there.
pub open spec fn add_missing(ids: Seq<ScheduleId>, d: ScheduleId) -> Seq<ScheduleId> {
    if ids.contains(d) {
        ids
    } else {
        ids.push(d)
    }
}

/// `ids` with each default schedule that is missing appended, in the order
/// `First`, `PreUpdate`, `Update`, `PostUpdate`, `Last`.
pub open spec fn with_defaults(ids: Seq<ScheduleId>) -> Seq<ScheduleId> {
    add_missing(
        add_missing(
            add_missing(
                add_missing(add_missing(ids, ScheduleId { id: crate::schedule::FIRST_ID }), ScheduleId { id: crate::schedule::PRE_UPDATE_ID }),
                ScheduleId { id: crate::schedule::UPDATE_ID },
            ),
            ScheduleId { id: crate::schedule::POST_UPDATE_ID },
        ),
        ScheduleId { id: crate::schedule::LAST_ID },
    )
}

/// The order of the default schedules: each before the next.
pub open spec fn default_constraints() -> Seq<(ScheduleId, ScheduleId)> {
    seq![
        (ScheduleId { id: crate::schedule::FIRST_ID }, ScheduleId { id: crate::schedule::PRE_UPDATE_ID }),
        (ScheduleId { id: crate::schedule::PRE_UPDATE_ID }, ScheduleId { id: crate::schedule::UPDATE_ID }),
        (ScheduleId { id: crate::schedule::UPDATE_ID }, ScheduleId { id: crate::schedule::POST_UPDATE_ID }),
        (ScheduleId { id: crate::schedule::POST_UPDATE_ID }, ScheduleId { id: crate::schedule::LAST_ID }),
    ]
}

/// `after` is `before` with, for each id that `add_missing` appended,
/// a fresh schedule for it: no systems, on its default executor.
pub open spec fn defaults_appended(before: Seq<Schedule>, after: Seq<Schedule>) -> bool {
    &&& after.len() >= before.len()
    &&& after.subrange(0, before.len() as int) == before
    &&& forall|t: int| before.len() <= t < after.len() ==> {
        &&& (#[trigger] after[t]).systems() == Seq::<usize>::empty()
        &&& after[t].executor_spec() == crate::schedule::spec_default_executor(after[t].id_spec())
    }
}

impl App {
    /// Registers the schedule for `label` unless one with its id is
    /// registered already.
    fn add_if_missing<L: IntoScheduleId>(&mut self, label: &L)
        requires
            old(self).wf(),
            !is_reserved(ScheduleId { id: label.label_id() }),
        ensures
            final(self).wf(),
            schedule_ids(final(self).schedules()) == add_missing(schedule_ids(old(self).schedules()), ScheduleId { id: label.label_id() }),
            defaults_appended(old(self).schedules(), final(self).schedules()),
            final(self).lifecycle() == old(self).lifecycle(),
            final(self).blocks() == old(self).blocks(),
            final(self).constraints() == old(self).constraints(),
            final(self).startup() == old(self).startup(),
            final(self).cleanup() == old(self).cleanup(),
            final(self).world_spec() == old(self).world_spec(),
    {
        let id = label.id();
        match self.find_schedule(id) {
            Some(_) => {
                assert(self.schedules@.subrange(0, self.schedules@.len() as int) =~= self.schedules@);
            },
            None => {
                let s = Schedule::new(label);
                self.schedules.push(s);
                assert(schedule_ids(self.schedules@) =~= schedule_ids(old(self).schedules@).push(id));
                assert(self.schedules@.subrange(0, old(self).schedules@.len() as int) =~= old(self).schedules@);
            },
        }
    }

    /// Registers the default schedules and their order, as the default
    /// schedules plugin does. A default schedule already registered is kept
    /// as it is, so adding the defaults again is harmless. Refused once the
    /// app is built.
    pub fn add_default_schedules(&mut self) -> (r: Result<(), AppError>)
        requires
            old(self).wf(),
        ensures
            final(self).wf(),
            r == not_ready_check(old(self).lifecycle()),
            r is Err ==> final(self).schedules() == old(self).schedules() && final(self).constraints() == old(self).constraints(),
            r is Ok ==> {
                &&& schedule_ids(final(self).schedules()) == with_defaults(schedule_ids(old(self).schedules()))
                &&& defaults_appended(old(self).schedules(), final(self).schedules())
                &&& final(self).constraints() == old(self).constraints() + default_constraints()
            },
            final(self).lifecycle() == old(self).lifecycle(),
            final(self).blocks() == old(self).blocks(),
            final(self).startup() == old(self).startup(),
            final(self).cleanup() == old(self).cleanup(),
            final(self).world_spec() == old(self).world_spec(),
    {
        self.configuration.not_ready()?;
        let ghost s0 = self.schedules@;
        self.add_if_missing(&First);
        let ghost s1 = self.schedules@;
        self.add_if_missing(&PreUpdate);
        let ghost s2 = self.schedules@;
        self.add_if_missing(&Update);
        let ghost s3 = self.schedules@;
        self.add_if_missing(&PostUpdate);
        let ghost s4 = self.schedules@;
        self.add_if_missing(&Last);
        proof {
            lemma_defaults_appended_trans(s0, s1, s2);
            lemma_defaults_appended_trans(s0, s2, s3);
            lemma_defaults_appended_trans(s0, s3, s4);
            lemma_defaults_appended_trans(s0, s4, self.schedules@);
        }
        self.schedule_order_constraints.push((First.id(), PreUpdate.id()));
        self.schedule_order_constraints.push((PreUpdate.id(), Update.id()));
        self.schedule_order_constraints.push((Update.id(), PostUpdate.id()));
        self.schedule_order_constraints.push((PostUpdate.id(), Last.id()));
        assert(self.schedule_order_constraints@ =~= old(self).constraints() + default_constraints());
        Ok(())
    }
}

/// Adding the defaults to schedules that hold them all registers nothing.
pub proof fn lemma_defaults_added_again(ids: Seq<ScheduleId>)
    requires
        ids.contains(ScheduleId { id: crate::schedule::FIRST_ID }),
        ids.contains(ScheduleId { id: crate::schedule::PRE_UPDATE_ID }),
        ids.contains(ScheduleId { id: crate::schedule::UPDATE_ID }),
        ids.contains(ScheduleId { id: crate::schedule::POST_UPDATE_ID }),
        ids.contains(ScheduleId { id: crate::schedule::LAST_ID }),
    ensures
        with_defaults(ids) == ids,
{
}

/// Appending fresh schedules twice appends fresh schedules.
proof fn lemma_defaults_appended_trans(a: Seq<Schedule>, b: Seq<Schedule>, c: Seq<Schedule>)
    requires
        defaults_appended(a, b),
        defaults_appended(b, c),
    ensures
        defaults_appended(a, c),
{
    assert(c.subrange(0, a.len() as int) =~= b.subrange(0, a.len() as int)) by {
        assert forall|i: int| 0 <= i < a.len() implies c.subrange(0, a.len() as int)[i] == b.subrange(0, a.len() as int)[i] by {
            assert(c.subrange(0, b.len() as int)[i] == b[i]);
        }
    }
    assert forall|t: int| a.len() <= t < c.len() implies {
        &&& (#[trigger] c[t]).systems() == Seq::<usize>::empty()
        &&& c[t].executor_spec() == crate::schedule::spec_default_executor(c[t].id_spec())
    } by {
        if t < b.len() {
            assert(c.subrange(0, b.len() as int)[t] == b[t]);
        }
    }
}

/// Position `k` holds the first occurrence of `x` in `s`.
pub open spec fn is_first_index(s: Seq<ScheduleId>, x: ScheduleId, k: int) -> bool {
    &&& 0 <= k < s.len()
    &&& s[k] == x
    &&& forall|j: int| 0 <= j < k ==> #[trigger] s[j] != x
}

/// Whether the schedules and constraints can be arranged.
pub open spec fn order_schedules_ok(ids: Seq<ScheduleId>, constraints: Seq<(ScheduleId, ScheduleId)>) -> bool {
    exists|ord: Seq<ScheduleId>| is_schedule_order(ids, constraints, ord) && ids.no_duplicates()
        && crate::schedule_order::constraints_ok_upto(ids, constraints, constraints.len() as int)
}


} // verus!
