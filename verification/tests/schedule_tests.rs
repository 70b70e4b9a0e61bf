use avenix::app::{App, AppError};
use avenix::entity::Entity;
use avenix::schedule::{
    ScheduleRun, SystemStep, default_executor, CleanupHandles, CleanupHandlesExecutor, CleanupStep, ExecutorKind, First,
    IntoScheduleId, Last, PostUpdate, PreUpdate, Schedule, ScheduleId, ScheduleOrderError,
    SingleThreadedExecutor, Startup, Update, CLEANUP_HANDLES_ID, FIRST_ID, LAST_ID,
    POST_UPDATE_ID, PRE_UPDATE_ID, STARTUP_ID, UPDATE_ID,
};
use avenix::schedule_order::order_schedules;

fn sid(id: u64) -> ScheduleId {
    ScheduleId { id }
}

fn ids_of(app: &App) -> Vec<u64> {
    app.schedule_list().iter().map(|s| s.id().id).collect()
}

#[test]
fn labels_carry_their_ids() {
    assert_eq!(Startup.id(), sid(STARTUP_ID));
    assert_eq!(CleanupHandles.id(), sid(CLEANUP_HANDLES_ID));
    assert_eq!(First.id(), sid(FIRST_ID));
    assert_eq!(PreUpdate.id(), sid(PRE_UPDATE_ID));
    assert_eq!(Update.id(), sid(UPDATE_ID));
    assert_eq!(PostUpdate.id(), sid(POST_UPDATE_ID));
    assert_eq!(Last.id(), sid(LAST_ID));
    assert_eq!(sid(42).id(), sid(42));
}

#[test]
fn default_executors_follow_the_label() {
    assert_eq!(default_executor(sid(STARTUP_ID)), ExecutorKind::Startup);
    assert_eq!(default_executor(sid(CLEANUP_HANDLES_ID)), ExecutorKind::CleanupHandles);
    assert_eq!(default_executor(sid(UPDATE_ID)), ExecutorKind::SingleThreaded);
    assert_eq!(Schedule::new(&Startup).executor(), ExecutorKind::Startup);
    assert_eq!(Schedule::new(&Update).executor(), ExecutorKind::SingleThreaded);
    assert!(SingleThreadedExecutor::applies_commands_after_each_system(ExecutorKind::Startup));
    assert!(!SingleThreadedExecutor::applies_commands_after_each_system(ExecutorKind::SingleThreaded));
}

#[test]
fn a_system_runs_only_when_every_condition_holds() {
    assert!(SingleThreadedExecutor::should_run(&[]));
    assert!(SingleThreadedExecutor::should_run(&[true, true]));
    assert!(!SingleThreadedExecutor::should_run(&[true, false, true]));
}

#[test]
fn schedule_keeps_systems_in_order() {
    let mut s = Schedule::new(&Update);
    s.add_system(3);
    s.add_system(1);
    assert_eq!(s.system_list(), &[3, 1]);
    s.set_executor(ExecutorKind::Startup);
    let d = s.duplicate();
    assert_eq!(d.system_list(), &[3, 1]);
    assert_eq!(d.executor(), ExecutorKind::Startup);
    assert_eq!(d.id(), sid(UPDATE_ID));
}

#[test]
fn chain_constraints_give_the_chain() {
    let ids = vec![sid(6), sid(2), sid(4), sid(3), sid(5)];
    let cons = vec![(sid(2), sid(3)), (sid(3), sid(4)), (sid(4), sid(5)), (sid(5), sid(6))];
    let perm = order_schedules(&ids, &cons).unwrap();
    let order: Vec<u64> = perm.iter().map(|&i| ids[i].id).collect();
    assert_eq!(order, vec![2, 3, 4, 5, 6]);
}

#[test]
fn unconstrained_schedules_are_each_placed_once() {
    let ids = vec![sid(9), sid(7), sid(8)];
    let perm = order_schedules(&ids, &vec![]).unwrap();
    let mut seen: Vec<usize> = perm.clone();
    seen.sort();
    assert_eq!(seen, vec![0, 1, 2]);
}

#[test]
fn duplicate_schedule_is_refused() {
    let ids = vec![sid(2), sid(3), sid(2), sid(3)];
    match order_schedules(&ids, &vec![]) {
        Err(ScheduleOrderError::DuplicateSchedule(x)) => assert_eq!(x, sid(2)),
        other => panic!("unexpected {:?}", other),
    }
}

#[test]
fn constraint_errors_in_checking_order() {
    let ids = vec![sid(2), sid(3)];
    assert!(matches!(
        order_schedules(&ids, &vec![(sid(STARTUP_ID), sid(2))]),
        Err(ScheduleOrderError::OrderingReferencesStartup)
    ));
    assert!(matches!(
        order_schedules(&ids, &vec![(sid(2), sid(CLEANUP_HANDLES_ID))]),
        Err(ScheduleOrderError::OrderingReferencesCleanupHandles)
    ));
    match order_schedules(&ids, &vec![(sid(2), sid(3)), (sid(9), sid(3))]) {
        Err(ScheduleOrderError::UnregisteredSchedule(x)) => assert_eq!(x, sid(9)),
        other => panic!("unexpected {:?}", other),
    }
    match order_schedules(&ids, &vec![(sid(2), sid(8))]) {
        Err(ScheduleOrderError::UnregisteredSchedule(x)) => assert_eq!(x, sid(8)),
        other => panic!("unexpected {:?}", other),
    }
}

#[test]
fn cycle_is_refused_with_its_schedules() {
    let ids = vec![sid(2), sid(3), sid(4), sid(5)];
    let cons = vec![(sid(2), sid(3)), (sid(3), sid(4)), (sid(4), sid(3))];
    match order_schedules(&ids, &cons) {
        Err(ScheduleOrderError::CircularDependency(trapped)) => {
            assert!(!trapped.is_empty());
            assert!(trapped.contains(&sid(3)));
            assert!(trapped.contains(&sid(4)));
            assert!(!trapped.contains(&sid(2)));
            assert!(!trapped.contains(&sid(5)));
            assert_eq!(trapped.len(), 2);
        }
        other => panic!("unexpected {:?}", other),
    }
}

#[test]
fn schedules_after_a_cycle_are_trapped_too() {
    let ids = vec![sid(2), sid(3), sid(4), sid(5)];
    let cons = vec![(sid(3), sid(4)), (sid(4), sid(3)), (sid(4), sid(5)), (sid(2), sid(3))];
    match order_schedules(&ids, &cons) {
        Err(ScheduleOrderError::CircularDependency(trapped)) => {
            assert_eq!(trapped, vec![sid(3), sid(4), sid(5)]);
        }
        other => panic!("unexpected {:?}", other),
    }
}

#[test]
fn new_app_has_the_default_schedules() {
    let app = App::new();
    assert_eq!(ids_of(&app), vec![FIRST_ID, PRE_UPDATE_ID, UPDATE_ID, POST_UPDATE_ID, LAST_ID]);
    assert_eq!(app.startup_schedule().id(), sid(STARTUP_ID));
    assert_eq!(app.cleanup_schedule().id(), sid(CLEANUP_HANDLES_ID));
    assert_eq!(app.world().current_read_idx(), 1);
}

#[test]
fn build_orders_schedules_and_places_systems() {
    let mut app = App::new();
    app.add_schedule(Schedule::new(&sid(10))).unwrap();
    app.configure_schedule_order(sid(10), sid(FIRST_ID)).unwrap();
    app.add_systems(sid(UPDATE_ID), vec![1, 2]).unwrap();
    app.add_systems(sid(STARTUP_ID), vec![7]).unwrap();
    app.add_systems(sid(UPDATE_ID), vec![3]).unwrap();
    app.add_systems(sid(CLEANUP_HANDLES_ID), vec![9]).unwrap();
    app.add_systems(sid(10), vec![5]).unwrap();
    app.build().unwrap();
    assert_eq!(ids_of(&app), vec![10, FIRST_ID, PRE_UPDATE_ID, UPDATE_ID, POST_UPDATE_ID, LAST_ID]);
    let update = app.schedule_list().iter().find(|s| s.id() == sid(UPDATE_ID)).unwrap();
    assert_eq!(update.system_list(), &[1, 2, 3]);
    assert_eq!(app.schedule_list()[0].system_list(), &[5]);
    assert_eq!(app.startup_schedule().system_list(), &[7]);
    assert_eq!(app.cleanup_schedule().system_list(), &[9]);
}

#[test]
fn startup_and_cleanup_cannot_be_added_again() {
    let mut app = App::new();
    assert!(matches!(app.add_schedule(Schedule::new(&Startup)), Err(AppError::StartupOverwritten)));
    assert!(matches!(
        app.add_schedule(Schedule::new(&CleanupHandles)),
        Err(AppError::CleanupHandlesOverwritten)
    ));
}

#[test]
fn systems_for_an_unregistered_schedule_refuse_the_build() {
    let mut app = App::new();
    app.add_systems(sid(77), vec![1]).unwrap();
    match app.build() {
        Err(AppError::MissingSchedule(x)) => assert_eq!(x, sid(77)),
        other => panic!("unexpected {:?}", other),
    }
}

#[test]
fn a_cycle_refuses_the_build() {
    let mut app = App::new();
    app.configure_schedule_order(sid(LAST_ID), sid(FIRST_ID)).unwrap();
    assert!(matches!(
        app.build(),
        Err(AppError::ScheduleOrder(ScheduleOrderError::CircularDependency(_)))
    ));
}

#[test]
fn a_duplicate_schedule_refuses_the_build() {
    let mut app = App::new();
    app.add_schedule(Schedule::new(&Update)).unwrap();
    match app.build() {
        Err(AppError::ScheduleOrder(ScheduleOrderError::DuplicateSchedule(x))) => assert_eq!(x, sid(UPDATE_ID)),
        other => panic!("unexpected {:?}", other),
    }
}

#[test]
fn lifecycle_is_build_then_startup_then_frames() {
    let mut app = App::new();
    assert!(matches!(app.run_startup(), Err(AppError::SchedulesNotAdded)));
    assert!(matches!(app.update(), Err(AppError::SchedulesNotAdded)));
    app.build().unwrap();
    assert!(matches!(app.update(), Err(AppError::StartupNotRun)));
    assert!(matches!(app.finish_update(), Err(AppError::StartupNotRun)));
    app.run_startup().unwrap();
    assert!(matches!(app.run_startup(), Err(AppError::StartupAlreadyRan)));
    app.update().unwrap();
    app.finish_update().unwrap();
    assert_eq!(app.world().current_read_idx(), 0);
    app.update().unwrap();
    app.finish_update().unwrap();
    assert_eq!(app.world().current_read_idx(), 1);
}

#[test]
fn configuration_is_refused_once_built() {
    let mut app = App::new();
    app.build().unwrap();
    assert!(matches!(app.build(), Err(AppError::AlreadyBuilt)));
    assert!(matches!(app.add_schedule(Schedule::new(&sid(11))), Err(AppError::AlreadyBuilt)));
    assert!(matches!(app.configure_schedule_order(sid(2), sid(3)), Err(AppError::AlreadyBuilt)));
    assert!(matches!(app.add_systems(sid(UPDATE_ID), vec![1]), Err(AppError::AlreadyBuilt)));
}

fn e(i: u32) -> Entity {
    Entity::new(i)
}

#[test]
fn cleanup_reruns_while_new_despawns_appear() {
    let mut ex = CleanupHandlesExecutor::new();
    let shown = ex.begin(vec![e(1), e(2)]);
    assert_eq!(shown, vec![e(1), e(2)]);
    match ex.after_systems(vec![e(2), e(3), e(3)]) {
        CleanupStep::RunAgain(batch) => assert_eq!(batch, vec![e(3)]),
        CleanupStep::Finish(_) => panic!("a new despawn must make another round"),
    }
    match ex.after_systems(vec![e(1)]) {
        CleanupStep::Finish(all) => assert_eq!(all, vec![e(1), e(2), e(3)]),
        CleanupStep::RunAgain(_) => panic!("no new despawn: the run ends"),
    }
}

#[test]
fn cleanup_with_nothing_new_finishes_at_once() {
    let mut ex = CleanupHandlesExecutor::new();
    assert!(ex.begin(vec![]).is_empty());
    match ex.after_systems(vec![]) {
        CleanupStep::Finish(all) => assert!(all.is_empty()),
        CleanupStep::RunAgain(_) => panic!("nothing to show"),
    }
}

#[test]
fn an_event_type_is_initialized_once_and_before_build() {
    let mut app = App::new();
    assert!(app.init_event(30, 31, false).is_ok());
    assert_eq!(app.world().tracked_events_ref().len(), 1);
    assert!(matches!(app.init_event(30, 31, true), Err(AppError::EventAlreadyInitialized(30))));
    app.build().unwrap();
    assert!(matches!(app.init_event(40, 41, false), Err(AppError::AlreadyBuilt)));
}

#[test]
fn the_world_is_reachable_through_the_app() {
    let mut app = App::new();
    app.world_mut().register_removal_tracking(5);
    assert_eq!(app.world().removal_position(5), Some(0));
}

#[test]
fn adding_the_default_schedules_again_still_builds() {
    let mut app = App::new();
    app.add_default_schedules().unwrap();
    app.add_systems(sid(STARTUP_ID), vec![0]).unwrap();
    app.add_systems(sid(UPDATE_ID), vec![1]).unwrap();
    app.build().unwrap();
    assert_eq!(ids_of(&app), vec![FIRST_ID, PRE_UPDATE_ID, UPDATE_ID, POST_UPDATE_ID, LAST_ID]);
    let update = app.schedule_list().iter().find(|s| s.id() == sid(UPDATE_ID)).unwrap();
    assert_eq!(update.system_list(), &[1]);
    app.run_startup().unwrap();
    app.update().unwrap();
    assert!(matches!(app.add_default_schedules(), Err(AppError::AlreadyBuilt)));
}

#[test]
fn default_schedules_join_a_new_one() {
    let mut app = App::new();
    app.add_schedule(Schedule::new(&sid(20))).unwrap();
    app.add_default_schedules().unwrap();
    assert_eq!(ids_of(&app), vec![FIRST_ID, PRE_UPDATE_ID, UPDATE_ID, POST_UPDATE_ID, LAST_ID, 20]);
}

#[test]
fn a_schedule_run_visits_each_system_once_in_order() {
    let mut run = ScheduleRun::new(ExecutorKind::Startup, 2);
    assert_eq!(run.next_system(), Some(0));
    assert_eq!(run.visit(false), SystemStep { index: 0, run: false, apply_commands: true });
    assert_eq!(run.next_system(), Some(1));
    assert_eq!(run.visit(true), SystemStep { index: 1, run: true, apply_commands: true });
    assert_eq!(run.next_system(), None);
    let mut plain = ScheduleRun::new(ExecutorKind::SingleThreaded, 1);
    assert_eq!(plain.visit(true), SystemStep { index: 0, run: true, apply_commands: false });
    assert_eq!(plain.next_system(), None);
}
