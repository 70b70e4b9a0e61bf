use avenix::app::{App, AppError};
use avenix::filter::{Changed, EmptyQueryFilter, With, Without};
use avenix::query::{parallel_query_conflicts, query_init_access, QueryTerm};
use avenix::reactivity::TrackedComponents;
use avenix::system::{
    check_query_conflicts, init_query_access, init_resource_read_access,
    init_resource_write_access, AccessConflict, AccessHashSet, AccessVec, SystemMeta,
};

fn av(items: &[u64]) -> AccessVec<u64> {
    let mut v = AccessVec::new();
    for &i in items {
        v.push(i);
    }
    v
}

#[test]
fn access_vec_keeps_order_and_duplicates() {
    let v = av(&[3, 1, 3]);
    assert_eq!(v.as_slice(), &[3, 1, 3]);
    assert_eq!(v.iter(), &[3, 1, 3]);
    assert_eq!(v.len(), 3);
    assert!(v.contains(&1));
    assert!(!v.contains(&2));
}

#[test]
fn access_set_keeps_first_positions() {
    let mut s = AccessHashSet::new();
    assert!(s.insert(4));
    assert!(s.insert(2));
    assert!(!s.insert(4));
    s.insert_all(&[2, 9, 1]);
    assert_eq!(s.iter(), vec![4, 2, 9, 1]);
    assert_eq!(s.len(), 4);
    let mut other = AccessHashSet::new();
    other.insert(1);
    other.insert(5);
    s.append(&mut other);
    assert_eq!(s.iter(), vec![4, 2, 9, 1, 5]);
    assert!(other.iter().is_empty());
    assert!(s.contains(&5));
}

#[test]
fn a_query_that_writes_what_it_reads_conflicts() {
    assert!(check_query_conflicts(&av(&[1]), &av(&[1])));
    assert!(check_query_conflicts(&av(&[]), &av(&[2, 2])));
    assert!(!check_query_conflicts(&av(&[1]), &av(&[2, 3])));
}

#[test]
fn queries_of_one_system_must_be_disjoint_or_filtered_apart() {
    let mut meta = SystemMeta::new(String::from("movement"));
    assert_eq!(init_query_access(&mut meta, &av(&[1]), &av(&[2]), &av(&[]), &av(&[])), Ok(()));
    assert!(meta.has_component_read(&1) && meta.has_component_write(&2));
    // a second query writing component 2 collides
    assert_eq!(
        init_query_access(&mut meta, &av(&[]), &av(&[2]), &av(&[]), &av(&[])),
        Err(AccessConflict::SystemParams)
    );
    // unless filtered apart: the first has no With, so a Without on the second does not help...
    assert_eq!(
        init_query_access(&mut meta, &av(&[2]), &av(&[]), &av(&[]), &av(&[7])),
        Err(AccessConflict::SystemParams)
    );
    // ...but one that requires what the first excluded does
    let mut meta2 = SystemMeta::new(String::from("split"));
    assert_eq!(init_query_access(&mut meta2, &av(&[]), &av(&[2]), &av(&[]), &av(&[7])), Ok(()));
    assert_eq!(init_query_access(&mut meta2, &av(&[]), &av(&[2]), &av(&[7]), &av(&[])), Ok(()));
    assert!(meta2.has_with_filter(&7) && meta2.has_without_filter(&7));
    assert_eq!(
        init_query_access(&mut meta2, &av(&[5]), &av(&[5]), &av(&[]), &av(&[])),
        Err(AccessConflict::IntraQuery)
    );
    assert_eq!(meta.get_func_name(), "movement");
}

#[test]
fn resource_borrows_follow_the_borrow_rules() {
    let mut meta = SystemMeta::new(String::from("res"));
    assert_eq!(init_resource_read_access(&mut meta, 1), Ok(()));
    assert_eq!(init_resource_read_access(&mut meta, 1), Ok(()));
    assert_eq!(init_resource_write_access(&mut meta, 1), Err(AccessConflict::ResourceBorrow));
    assert_eq!(init_resource_write_access(&mut meta, 2), Ok(()));
    assert_eq!(init_resource_read_access(&mut meta, 2), Err(AccessConflict::ResourceBorrow));
    assert!(meta.has_resource_read(&1) && meta.has_resource_write(&2));
    assert!(!meta.has_resource_write(&1));
}

#[test]
fn extend_moves_every_access() {
    let mut a = SystemMeta::new(String::from("a"));
    let mut b = SystemMeta::new(String::from("b"));
    a.add_component_read(1);
    b.add_component_read(2);
    b.add_component_write(3);
    b.add_resource_read(4);
    b.add_resource_write(5);
    b.add_with_filter(6);
    b.add_without_filter(7);
    a.extend(&mut b);
    assert!(a.has_component_read(&1) && a.has_component_read(&2));
    assert!(a.has_component_write(&3) && a.has_resource_read(&4) && a.has_resource_write(&5));
    assert!(a.has_with_filter(&6) && a.has_without_filter(&7));
    assert!(!b.has_component_read(&2) && !b.has_component_write(&3));
}

#[test]
fn query_access_collects_terms_and_filters() {
    let mut meta = SystemMeta::new(String::from("q"));
    let mut reg = TrackedComponents::new();
    let terms = [
        QueryTerm::Read(1),
        QueryTerm::Write { component: 2, marker: 20 },
        QueryTerm::ChangedTracker { component: 3, marker: 30 },
    ];
    let r = query_init_access(&mut meta, &terms, &(With { component: 4 }, Without { component: 5 }), &mut reg);
    assert_eq!(r, Ok(()));
    assert!(meta.has_component_read(&1) && meta.has_component_read(&30));
    assert!(meta.has_component_write(&2) && meta.has_component_write(&20));
    assert!(meta.has_with_filter(&4) && meta.has_without_filter(&5));
    assert_eq!(reg.len(), 1);
    assert_eq!(reg.get_index(0).unwrap().marker_id, 30);
    let mut reg2 = TrackedComponents::new();
    assert!(!parallel_query_conflicts(&terms, &Changed { component: 9, marker: 90 }, &mut reg2));
    assert_eq!(reg2.len(), 2);
    assert!(parallel_query_conflicts(
        &[QueryTerm::Read(1), QueryTerm::Write { component: 1, marker: 10 }],
        &EmptyQueryFilter,
        &mut reg2
    ));
}

#[test]
fn parallel_query_accessor_checks_the_query() {
    let mut app = App::new();
    assert!(matches!(
        app.get_par_query_accessor(&[QueryTerm::Read(1), QueryTerm::Write { component: 1, marker: 2 }], &EmptyQueryFilter),
        Err(AppError::IntraQueryConflict)
    ));
    assert!(app.get_par_query_accessor(&[QueryTerm::Read(1)], &EmptyQueryFilter).is_ok());
    app.build().unwrap();
    assert!(matches!(
        app.get_par_query_accessor(&[QueryTerm::Read(1)], &EmptyQueryFilter),
        Err(AppError::AlreadyBuilt)
    ));
}

#[test]
fn a_second_query_filtered_apart_is_accepted() {
    let mut meta = SystemMeta::new(String::from("followers"));
    let mut reg = TrackedComponents::new();
    let first = [QueryTerm::Write { component: 1, marker: 10 }, QueryTerm::Read(2)];
    assert_eq!(query_init_access(&mut meta, &first, &Without { component: 3 }, &mut reg), Ok(()));
    assert_eq!(query_init_access(&mut meta, &[QueryTerm::Read(1)], &With { component: 3 }, &mut reg), Ok(()));
    assert!(meta.has_component_write(&1) && meta.has_component_read(&1));
    assert!(meta.has_with_filter(&3) && meta.has_without_filter(&3));
}
