use avenix::entity::Entity;
use avenix::events::{EventBuffer, TrackedEvents};
use avenix::filter::{Added, Changed, EmptyQueryFilter};
use avenix::query::{init_optional_write_fetch, Query, QueryTerm};
use avenix::registry::RegistryData;
use avenix::reactivity::{
    clear_added_column, clear_changed_column, AddedMarker, AddedTracker, ChangedMarker,
    ChangedTracker, CurrentBufferIdx, Mut, RemovedComponentsBuffer, TrackedComponents,
};
use avenix::world::World;

const POS: u64 = 100;
const POS_CHANGED: u64 = 101;
const VEL: u64 = 200;
const VEL_ADDED: u64 = 201;

#[test]
fn buffer_index_starts_reading_slot_one_and_alternates() {
    let mut b = CurrentBufferIdx::new();
    assert_eq!(b.current_read_idx(), 1);
    assert_eq!(b.current_write_idx(), 0);
    b.advance();
    assert_eq!(b.current_read_idx(), 0);
    assert_eq!(b.current_write_idx(), 1);
    b.advance();
    assert_eq!(b.current_read_idx(), 1);
}

#[test]
fn markers_set_and_clear_one_slot() {
    let mut m = ChangedMarker::new();
    assert!(!m.is_set(0) && !m.is_set(1));
    m.set(0);
    assert!(m.is_set(0) && !m.is_set(1));
    m.clear(0);
    assert!(!m.is_set(0));
    let mut a = AddedMarker::new(1);
    assert!(a.is_set(1) && !a.is_set(0));
    a.clear(1);
    assert!(!a.is_set(1));
}

#[test]
fn mut_raises_the_write_slot_only_when_tracked() {
    let b = CurrentBufferIdx::new();
    let mut m = ChangedMarker::new();
    Mut::new(&b, false).trigger_change_detection(&mut m);
    assert!(!m.is_set(0) && !m.is_set(1));
    Mut::new(&b, true).trigger_change_detection(&mut m);
    assert!(m.is_set(0) && !m.is_set(1));
}

#[test]
fn trackers_read_the_read_slot() {
    let mut b = CurrentBufferIdx::new();
    let added = AddedMarker::new(b.current_write_idx());
    assert!(!AddedTracker::new(&added, &b).is_added());
    let mut changed = ChangedMarker::new();
    changed.set(b.current_write_idx());
    assert!(!ChangedTracker::new(&changed, &b).is_changed());
    b.advance();
    assert!(AddedTracker::new(&added, &b).is_added());
    assert!(ChangedTracker::new(&changed, &b).is_changed());
}

#[test]
fn clearing_a_column_lowers_one_slot_of_every_row() {
    let mut col = vec![ChangedMarker::new(), ChangedMarker::new()];
    col[0].set(0);
    col[0].set(1);
    col[1].set(0);
    clear_changed_column(&mut col, 0);
    assert!(!col[0].is_set(0) && col[0].is_set(1));
    assert!(!col[1].is_set(0));
    let mut acol = vec![AddedMarker::new(0), AddedMarker::new(1)];
    clear_added_column(&mut acol, 0);
    assert!(!acol[0].is_set(0));
    assert!(acol[1].is_set(1));
}

fn changed_rows(world: &World) -> usize {
    let terms = [QueryTerm::Read(POS)];
    let filter = Changed { component: POS, marker: POS_CHANGED };
    let q = Query::new(world.archetypes_ref(), &terms, &filter, world.buffer_ref());
    (0..q.archetype_count()).map(|a| q.rows(a).len()).sum()
}

fn added_rows(world: &World) -> usize {
    let terms = [QueryTerm::Entity];
    let filter = Added { component: VEL, marker: VEL_ADDED };
    let q = Query::new(world.archetypes_ref(), &terms, &filter, world.buffer_ref());
    (0..q.archetype_count()).map(|a| q.rows(a).len()).sum()
}

#[test]
fn a_change_is_visible_for_exactly_one_frame() {
    let mut world = World::new();
    world.register_tracked_component(POS, POS_CHANGED);
    let a = world.get_or_create_archetype(&[POS]);
    let arch = world.archetypes_ref().get(a).unwrap();
    assert!(arch.has_column(POS) && arch.has_column(POS_CHANGED));
    let c = arch.find_changed_column(POS_CHANGED).unwrap();
    let row = world.push_entity(a, Entity::new(0));
    assert_eq!(row, 0);
    assert_eq!(changed_rows(&world), 0);
    // frame N: the value is written
    world.mark_changed(a, c, row);
    assert_eq!(changed_rows(&world), 0);
    world.end_of_frame_sync();
    // frame N + 1: queries see it
    assert_eq!(changed_rows(&world), 1);
    world.end_of_frame_sync();
    // frame N + 2: gone
    assert_eq!(changed_rows(&world), 0);
    world.end_of_frame_sync();
    assert_eq!(changed_rows(&world), 0);
}

#[test]
fn an_addition_is_visible_for_exactly_one_frame() {
    let mut world = World::new();
    world.register_added_tracked_component(VEL, VEL_ADDED);
    let a = world.get_or_create_archetype(&[VEL, POS]);
    world.push_entity(a, Entity::new(0));
    assert_eq!(added_rows(&world), 0);
    world.end_of_frame_sync();
    assert_eq!(added_rows(&world), 1);
    world.end_of_frame_sync();
    assert_eq!(added_rows(&world), 0);
}

#[test]
fn removals_are_listed_during_the_next_frame_only() {
    let mut world = World::new();
    assert!(world.removed(POS).is_none());
    assert!(!world.push_removed(POS, Entity::new(3)));
    world.register_removal_tracking(POS);
    world.register_removal_tracking(POS);
    assert_eq!(world.removal_position(POS), Some(0));
    assert!(world.push_removed(POS, Entity::new(3)));
    assert_eq!(world.removed(POS).unwrap(), &[] as &[Entity]);
    world.end_of_frame_sync();
    assert_eq!(world.removed(POS).unwrap(), &[Entity::new(3)]);
    world.end_of_frame_sync();
    assert_eq!(world.removed(POS).unwrap(), &[] as &[Entity]);
}

#[test]
fn removal_buffer_swaps_and_prunes() {
    let mut b = RemovedComponentsBuffer::new();
    b.push_to_write_queue(Entity::new(1));
    b.push_to_write_queue(Entity::new(2));
    assert!(b.iter().is_empty());
    b.swap_and_clear_buffer();
    assert_eq!(b.iter(), &[Entity::new(1), Entity::new(2)]);
    b.push_to_write_queue(Entity::new(2));
    b.clear_dead_entities(&[2]);
    assert_eq!(b.iter(), &[Entity::new(1)]);
    b.swap_and_clear_buffer();
    assert!(b.iter().is_empty());
}

#[test]
fn despawns_prune_removals_and_give_up_a_handle() {
    let mut world = World::new();
    world.register_removal_tracking(POS);
    let a = world.get_or_create_archetype(&[POS]);
    world.push_entity(a, Entity::new(0));
    world.push_entity(a, Entity::new(1));
    world.registry_mut().push(avenix::registry::RegistryData { archetype_id: a, idx: 0 }, 1);
    world.registry_mut().push(avenix::registry::RegistryData { archetype_id: a, idx: 1 }, 2);
    world.push_removed(POS, Entity::new(0));
    world.push_removed(POS, Entity::new(1));
    world.apply_despawns(&[Entity::new(1)]);
    world.end_of_frame_sync();
    assert_eq!(world.removed(POS).unwrap(), &[Entity::new(0)]);
    assert_eq!(world.registry_mut().get_count(0), 1);
    assert_eq!(world.registry_mut().get_count(1), 1);
}

#[test]
fn events_are_read_during_the_next_frame_only() {
    let mut buf: EventBuffer<u32> = EventBuffer::new();
    buf.send(1);
    buf.send_batch(vec![2, 3]);
    assert!(buf.read().is_empty());
    buf.clear_events();
    assert_eq!(buf.read(), &[1, 2, 3]);
    buf.clear_events();
    assert!(buf.read().is_empty());
}

#[test]
fn an_event_type_is_registered_once() {
    let mut t = TrackedEvents::new();
    t.register_event(5, 50);
    t.register_event(6, 60);
    t.register_event(5, 51);
    assert_eq!(t.len(), 2);
    assert_eq!(t.get(0).event_id, 50);
    assert_eq!(t.get(1).comp_id, 6);
}

#[test]
fn tracked_components_are_keyed_by_flag_column() {
    let mut t = TrackedComponents::new();
    t.register_tracked_component(1, 10);
    t.register_added_tracked_component(2, 20);
    t.register_tracked_component(1, 10);
    assert_eq!(t.len(), 2);
    t.register_added_tracked_component(1, 11);
    assert_eq!(t.len(), 3);
    assert_eq!(t.get_index(0).unwrap().marker_id, 10);
    assert_eq!(t.get_index(1).unwrap().marker_id, 20);
    assert_eq!(t.get_index(2).unwrap().marker_id, 11);
    assert!(t.get_index(3).is_none());
}

#[test]
fn added_and_changed_on_one_component_both_work() {
    const POS_ADDED: u64 = 102;
    let mut world = World::new();
    world.register_added_tracked_component(POS, POS_ADDED);
    world.register_tracked_component(POS, POS_CHANGED);
    let a = world.get_or_create_archetype(&[POS]);
    let arch = world.archetypes_ref().get(a).unwrap();
    assert!(arch.has_column(POS_ADDED) && arch.has_column(POS_CHANGED));
    let c = arch.find_changed_column(POS_CHANGED).unwrap();
    assert!(arch.find_added_column(POS_ADDED).is_some());
    let row = world.push_entity(a, Entity::new(0));
    world.mark_changed(a, c, row);
    world.end_of_frame_sync();
    assert_eq!(changed_rows(&world), 1);
    let q = Query::new(
        world.archetypes_ref(),
        &[QueryTerm::Entity],
        &Added { component: POS, marker: POS_ADDED },
        world.buffer_ref(),
    );
    assert_eq!(q.rows(0), &[0]);
}

#[test]
fn empty_filter_matches_every_row() {
    let mut world = World::new();
    let a = world.get_or_create_archetype(&[POS]);
    world.push_entity(a, Entity::new(0));
    world.push_entity(a, Entity::new(1));
    let q = Query::new(world.archetypes_ref(), &[QueryTerm::Read(POS)], &EmptyQueryFilter, world.buffer_ref());
    assert_eq!(q.rows(0), &[0, 1]);
    assert_eq!(q.total_entities(), 2);
}

#[test]
fn despawning_moves_the_last_row_and_frees_the_index() {
    let mut world = World::new();
    let a = world.get_or_create_archetype(&[POS]);
    for i in 0..3u32 {
        let row = world.push_entity(a, Entity::new(i));
        world.registry_mut().push(RegistryData { archetype_id: a, idx: row as u32 }, 1);
    }
    world.apply_despawns(&[Entity::new(0)]);
    assert_eq!(world.registry_mut().get_count(0), 0);
    world.despawn_entity(Entity::new(0));
    let arch = world.archetypes_ref().get(a).unwrap();
    assert_eq!(arch.entities_len(), 2);
    assert_eq!(arch.entity_at(0), Entity::new(2));
    assert_eq!(arch.entity_at(1), Entity::new(1));
    assert_eq!(world.registry_mut().get(2), RegistryData { archetype_id: a, idx: 0 });
    assert_eq!(world.registry_mut().get(1), RegistryData { archetype_id: a, idx: 1 });
}

#[test]
fn optional_write_fetch_follows_the_columns() {
    let mut world = World::new();
    world.register_tracked_component(POS, POS_CHANGED);
    let tracked_arch = world.get_or_create_archetype(&[POS]);
    let plain_arch = world.get_or_create_archetype(&[VEL]);
    let buffer = CurrentBufferIdx::new();
    let with_flags = world.archetypes_ref().get(tracked_arch).unwrap();
    let m = init_optional_write_fetch(with_flags, POS, POS_CHANGED, &buffer).unwrap();
    let mut marker = ChangedMarker::new();
    m.trigger_change_detection(&mut marker);
    assert!(marker.is_set(0));
    let without = world.archetypes_ref().get(plain_arch).unwrap();
    assert!(init_optional_write_fetch(without, POS, POS_CHANGED, &buffer).is_none());
    let m = init_optional_write_fetch(without, VEL, 999, &buffer).unwrap();
    let mut marker = ChangedMarker::new();
    m.trigger_change_detection(&mut marker);
    assert!(!marker.is_set(0) && !marker.is_set(1));
}

#[test]
fn a_world_registers_each_event_type_once() {
    let mut world = World::new();
    world.register_event(1, 10);
    world.register_event(1, 11);
    world.register_event(2, 20);
    let t = world.tracked_events_ref();
    assert_eq!(t.len(), 2);
    assert_eq!(t.get(0).event_id, 10);
}
