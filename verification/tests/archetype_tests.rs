use avenix::archetypes::{calculate_hash, sync_tracking_markers, Archetype, ArchetypeId, ArchetypeManager};
use avenix::entity::Entity;
use avenix::filter::{Not, Or, With, Without};
use avenix::query::{term_matches_archetype, Query, QueryTerm};
use avenix::reactivity::{CurrentBufferIdx, TrackedComponents};
use avenix::registry::{EntityRegistry, RegistryData};
use indexmap::IndexSet;
use rustc_hash::FxBuildHasher;

fn set(ids: &[u64]) -> IndexSet<u64, FxBuildHasher> {
    let mut s: IndexSet<u64, FxBuildHasher> = IndexSet::default();
    for &i in ids {
        s.insert(i);
    }
    s
}

#[test]
fn archetype_id_round_trips() {
    assert_eq!(ArchetypeId::new(7).id(), 7);
}

#[test]
fn component_set_hash_is_the_wrapping_sum_of_fx_hashes() {
    assert_eq!(calculate_hash(&set(&[])), 0);
    assert_eq!(calculate_hash(&set(&[1])), 12157901119326311915);
    assert_eq!(calculate_hash(&set(&[1, 2])), 18026959284202275266);
}

#[test]
fn component_set_hash_ignores_order() {
    assert_eq!(calculate_hash(&set(&[3, 1, 2])), calculate_hash(&set(&[2, 3, 1])));
}

#[test]
fn markers_follow_their_tracked_components() {
    let mut reg = TrackedComponents::new();
    reg.register_tracked_component(1, 10);
    reg.register_added_tracked_component(2, 20);
    let mut s = set(&[1, 20, 3]);
    sync_tracking_markers(&mut s, &reg);
    let items: Vec<u64> = s.iter().copied().collect();
    assert_eq!(items, vec![1, 10, 3]);
}

#[test]
fn same_components_same_archetype() {
    let reg = TrackedComponents::new();
    let mut m = ArchetypeManager::new();
    let a = m.get_or_create_from_ids(&[1, 2], &reg);
    let b = m.get_or_create_from_ids(&[2, 1, 2], &reg);
    let c = m.get_or_create_from_ids(&[1], &reg);
    assert_eq!(a, b);
    assert_eq!(a, ArchetypeId(0));
    assert_eq!(c, ArchetypeId(1));
    assert_eq!(m.len(), 2);
    assert!(m.get(ArchetypeId(2)).is_none());
}

#[test]
fn targets_for_adding_and_removing_components() {
    let reg = TrackedComponents::new();
    let mut m = ArchetypeManager::new();
    let one = m.get_or_create_from_ids(&[1], &reg);
    let one_two = m.get_or_create_from_ids(&[1, 2], &reg);
    assert_eq!(m.find_target_id_for_addition(one, &[2], &reg), Some(one_two));
    assert_eq!(m.find_target_id_for_addition(one, &[3], &reg), None);
    assert_eq!(m.find_target_id_for_subtraction(one_two, &[2], &reg), Some(one));
    assert_eq!(m.find_target_id_for_subtraction(one_two, &[1, 2], &reg), None);
    assert_eq!(m.find_target_id_for_addition(ArchetypeId(9), &[2], &reg), None);
}

#[test]
fn rows_are_pushed_and_swap_removed() {
    let mut reg = TrackedComponents::new();
    reg.register_tracked_component(1, 10);
    reg.register_added_tracked_component(2, 11);
    let buffer = CurrentBufferIdx::new();
    let mut a = Archetype::new(ArchetypeId(0), set(&[1, 10, 11]), &reg);
    assert_eq!(a.id(), 0);
    a.push_row(Entity::new(5), &buffer);
    a.push_row(Entity::new(6), &buffer);
    a.push_row(Entity::new(7), &buffer);
    assert_eq!(a.entities_len(), 3);
    let ac = a.find_added_column(11).unwrap();
    assert!(a.added_marker(ac, 2).is_set(buffer.current_write_idx()));
    let removed = a.swap_remove_row(0);
    assert_eq!(removed, Entity::new(5));
    assert_eq!(a.entities_len(), 2);
    assert_eq!(a.entity_at(0), Entity::new(7));
    assert_eq!(a.entity_at(1), Entity::new(6));
    assert!(a.find_changed_column(11).is_none());
    assert!(a.find_changed_column(10).is_some());
}

#[test]
fn query_terms_and_filters_select_archetypes() {
    let reg = TrackedComponents::new();
    let buffer = CurrentBufferIdx::new();
    let mut m = ArchetypeManager::new();
    let a = m.get_or_create_from_ids(&[1], &reg);
    let b = m.get_or_create_from_ids(&[1, 2], &reg);
    m.push_entity(a, Entity::new(0), &buffer);
    m.push_entity(b, Entity::new(1), &buffer);
    m.push_entity(b, Entity::new(2), &buffer);
    let arch_b = m.get(b).unwrap();
    assert!(term_matches_archetype(&QueryTerm::Has(2), arch_b));
    assert!(!term_matches_archetype(&QueryTerm::Read(3), arch_b));
    assert!(term_matches_archetype(&QueryTerm::OptionalRead(3), arch_b));
    assert!(avenix::query::matches(&[QueryTerm::Read(1), QueryTerm::Entity], arch_b));

    let q = Query::new(&m, &[QueryTerm::Read(1)], &Without { component: 2 }, &buffer);
    assert!(q.is_matching(0) && !q.is_matching(1));
    assert_eq!(q.matching_archetype_count(), 1);
    assert_eq!(q.total_entities(), 1);
    assert_eq!(q.single(), Some((0, 0)));

    let q = Query::new(&m, &[QueryTerm::Read(1)], &With { component: 2 }, &buffer);
    assert_eq!(q.rows(1), &[0, 1]);
    assert_eq!(q.single(), None);
    assert_eq!(q.total_entities(), 2);

    let q = Query::new(&m, &[QueryTerm::Read(1)], &Not { inner: With { component: 2 } }, &buffer);
    assert!(q.is_matching(0) && q.is_matching(1));
    assert_eq!(q.rows(0), &[0]);
    assert!(q.rows(1).is_empty());

    let q = Query::new(
        &m,
        &[QueryTerm::Entity],
        &Or { inner: (With { component: 2 }, Without { component: 1 }) },
        &buffer,
    );
    assert!(q.is_matching(0) && q.is_matching(1));
    assert!(q.rows(0).is_empty());
    assert_eq!(q.rows(1), &[0, 1]);

    let q = Query::new(&m, &[QueryTerm::Read(1)], &(With { component: 1 }, Without { component: 2 }), &buffer);
    assert_eq!(q.matching_archetype_count(), 1);

    let mut registry = EntityRegistry::new();
    registry.push(RegistryData { archetype_id: a, idx: 0 }, 1);
    registry.push(RegistryData { archetype_id: b, idx: 1 }, 1);
    let q = Query::new(&m, &[QueryTerm::Read(2)], &With { component: 1 }, &buffer);
    assert_eq!(q.get(&registry, &Entity::new(1)), Some((1, 1)));
    assert_eq!(q.get(&registry, &Entity::new(0)), None);
}

#[test]
fn handle_counts_wrap_like_atomics() {
    let mut r = EntityRegistry::new();
    r.push(RegistryData { archetype_id: ArchetypeId(0), idx: 0 }, 0);
    r.push(RegistryData { archetype_id: ArchetypeId(0), idx: 1 }, u32::MAX);
    let e = Entity::new(0);
    let e2 = r.clone_handle(&e);
    assert_eq!(e2, e);
    assert_eq!(r.get_count(0), 1);
    r.drop_handle(e2);
    assert_eq!(r.get_count(0), 0);
    r.decrement_handle(0);
    assert_eq!(r.get_count(0), u32::MAX);
    r.clone_handle(&Entity::new(1));
    assert_eq!(r.get_count(1), 0);
    r.set(1, RegistryData { archetype_id: ArchetypeId(3), idx: 4 });
    assert_eq!(r.get(1), RegistryData { archetype_id: ArchetypeId(3), idx: 4 });
    assert_eq!(r.len(), 2);
    assert_eq!(Entity::new(9).registry_index(), 9);
}
