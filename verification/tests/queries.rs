use ecs::component::{Components, TypeKey};
use ecs::entity::{Entities, EntityId};
use ecs::error::EcsError;
use ecs::filter::{FilterParams, With, Without};
use ecs::query::{Query, QueryIter, QueryParams};
use ecs::scheduler::{BorrowedTypeDescriptor, SystemDescriptor};

const HEALTH: TypeKey = TypeKey(1);
const IMMORTAL: TypeKey = TypeKey(2);
const NAME: TypeKey = TypeKey(3);

fn shared(type_id: TypeKey) -> BorrowedTypeDescriptor {
    BorrowedTypeDescriptor { exclusive: false, type_id }
}

fn exclusive(type_id: TypeKey) -> BorrowedTypeDescriptor {
    BorrowedTypeDescriptor { exclusive: true, type_id }
}

fn sample() -> (Entities, Components<u32>) {
    let mut entities = Entities::new();
    let mut components = Components::new();
    for health in [0, 1, 0, 0] {
        let id = entities.allocate();
        components.insert(HEALTH, id, health).unwrap();
    }
    components.insert(IMMORTAL, EntityId(3), 1).unwrap();
    entities.allocate();
    components.insert(NAME, EntityId(4), 7).unwrap();
    (entities, components)
}

#[test]
fn requests_are_kept_in_ascending_order_of_their_type_keys() {
    let params = QueryParams::new()
        .with(exclusive(NAME))
        .with(shared(HEALTH))
        .with(shared(IMMORTAL))
        .with(exclusive(HEALTH));
    assert_eq!(params.len(), 4);
    assert_eq!(params.get(0), shared(HEALTH));
    assert_eq!(params.get(1), exclusive(HEALTH));
    assert_eq!(params.get(2), shared(IMMORTAL));
    assert_eq!(params.get(3), exclusive(NAME));
    assert!(params.is_exclusive());
    assert!(!QueryParams::new().with(shared(NAME)).is_exclusive());
    assert!(!QueryParams::new().is_exclusive());
}

#[test]
fn descriptor_lists_the_requests() {
    let params = QueryParams::new().with(exclusive(NAME)).with(shared(HEALTH));
    let system = SystemDescriptor { id: 0, deps: vec![params.descriptor()] };
    assert_eq!(system.accesses(), vec![(1, false), (3, true)]);
}

#[test]
fn query_construction_locks_every_requested_column() {
    let (_, mut components) = sample();
    let params = QueryParams::new().with(shared(HEALTH)).with(exclusive(NAME)).with(shared(TypeKey(50)));
    let query = Query::new(&mut components, params, FilterParams::new()).unwrap();
    assert_eq!(components.get_column(HEALTH).unwrap().lock_state(), 1);
    assert_eq!(components.get_column(NAME).unwrap().lock_state(), usize::MAX);
    assert_eq!(components.get_column(IMMORTAL).unwrap().lock_state(), 0);
    let second = Query::new(
        &mut components,
        QueryParams::new().with(shared(HEALTH)),
        FilterParams::new(),
    )
    .unwrap();
    assert_eq!(components.get_column(HEALTH).unwrap().lock_state(), 2);
    second.release(&mut components);
    query.release(&mut components);
    assert_eq!(components.get_column(HEALTH).unwrap().lock_state(), 0);
    assert_eq!(components.get_column(NAME).unwrap().lock_state(), 0);
}

#[test]
fn query_construction_takes_all_locks_or_none() {
    let (_, mut components) = sample();
    let holder = Query::new(
        &mut components,
        QueryParams::new().with(shared(NAME)),
        FilterParams::new(),
    )
    .unwrap();
    let params = QueryParams::new().with(exclusive(NAME)).with(shared(HEALTH)).with(exclusive(IMMORTAL));
    let res = Query::new(&mut components, params, FilterParams::new());
    assert!(matches!(res, Err(EcsError::StorageLocked(_))));
    assert_eq!(components.get_column(HEALTH).unwrap().lock_state(), 0);
    assert_eq!(components.get_column(IMMORTAL).unwrap().lock_state(), 0);
    assert_eq!(components.get_column(NAME).unwrap().lock_state(), 1);
    holder.release(&mut components);
    assert_eq!(components.get_column(NAME).unwrap().lock_state(), 0);
}

#[test]
fn shared_and_exclusive_access_to_one_type_cannot_be_held_together() {
    let (_, mut components) = sample();
    let params = QueryParams::new().with(shared(HEALTH)).with(exclusive(HEALTH));
    assert!(matches!(
        Query::new(&mut components, params, FilterParams::new()),
        Err(EcsError::StorageLocked(_))
    ));
    assert_eq!(components.get_column(HEALTH).unwrap().lock_state(), 0);
    let twice = QueryParams::new().with(exclusive(HEALTH)).with(exclusive(HEALTH));
    assert!(Query::new(&mut components, twice, FilterParams::new()).is_err());
    assert_eq!(components.get_column(HEALTH).unwrap().lock_state(), 0);
}

#[test]
fn filters_select_by_the_components_an_entity_owns() {
    let (_, components) = sample();
    assert!(With(HEALTH).filter(&components, EntityId(0)));
    assert!(!With(IMMORTAL).filter(&components, EntityId(0)));
    assert!(Without(IMMORTAL).filter(&components, EntityId(0)));
    assert!(!Without(IMMORTAL).filter(&components, EntityId(3)));
    let filter = FilterParams::new().and_with(With(HEALTH)).and_without(Without(IMMORTAL));
    assert!(filter.filter(&components, EntityId(2)));
    assert!(!filter.filter(&components, EntityId(3)));
    assert!(!filter.filter(&components, EntityId(4)));
    assert!(FilterParams::new().filter(&components, EntityId(4)));
}

#[test]
fn query_yields_matching_live_entities_in_ascending_order() {
    let (mut entities, mut components) = sample();
    let filter = FilterParams::new().and_without(Without(IMMORTAL));
    let query = Query::new(&mut components, QueryParams::new().with(shared(HEALTH)), filter).unwrap();
    assert_eq!(
        query.iter(&entities, &components),
        vec![EntityId(0), EntityId(1), EntityId(2)]
    );
    assert!(query.matches(&components, EntityId(1)));
    assert!(!query.matches(&components, EntityId(3)));
    assert!(!query.matches(&components, EntityId(4)));
    entities.free(EntityId(1));
    assert_eq!(query.iter(&entities, &components), vec![EntityId(0), EntityId(2)]);
    query.release(&mut components);
}

#[test]
fn query_without_requests_yields_every_live_entity() {
    let (entities, mut components) = sample();
    let query = Query::new(&mut components, QueryParams::new(), FilterParams::new()).unwrap();
    assert_eq!(query.iter(&entities, &components).len(), 5);
    let only = Query::new(
        &mut components,
        QueryParams::new(),
        FilterParams::new().and_with(With(IMMORTAL)),
    )
    .unwrap();
    assert_eq!(only.iter(&entities, &components), vec![EntityId(3)]);
}

#[test]
fn query_cursor_skips_what_the_query_does_not_select() {
    let (entities, mut components) = sample();
    let filter = FilterParams::new().and_without(Without(IMMORTAL));
    let query = Query::new(&mut components, QueryParams::new().with(shared(HEALTH)), filter).unwrap();
    let mut cursor = QueryIter::new();
    assert_eq!(cursor.next(&query, &entities, &components), Some(EntityId(0)));
    assert_eq!(cursor.next(&query, &entities, &components), Some(EntityId(1)));
    assert_eq!(cursor.next(&query, &entities, &components), Some(EntityId(2)));
    assert_eq!(cursor.next(&query, &entities, &components), None);
    assert_eq!(cursor.next(&query, &entities, &components), None);
    assert_eq!(components.fetch_shared(HEALTH, EntityId(1)), Some(&1));
}

#[test]
fn query_construction_reports_the_first_lock_that_refuses() {
    let (_, mut components) = sample();
    components.lock_column(NAME, true).unwrap();
    components.lock_column(IMMORTAL, false).unwrap();
    let params = QueryParams::new().with(shared(NAME)).with(exclusive(IMMORTAL)).with(shared(HEALTH));
    assert_eq!(
        Query::new(&mut components, params, FilterParams::new()).err(),
        Some(EcsError::StorageLocked("read or write lock active, cannot acquire write lock"))
    );
    let params = QueryParams::new().with(shared(NAME)).with(shared(IMMORTAL));
    assert_eq!(
        Query::new(&mut components, params, FilterParams::new()).err(),
        Some(EcsError::StorageLocked("write lock active, cannot acquire read lock"))
    );
    assert_eq!(components.get_column(IMMORTAL).unwrap().lock_state(), 1);
    assert_eq!(components.get_column(HEALTH).unwrap().lock_state(), 0);
    assert_eq!(
        components.insert(NAME, EntityId(0), 1),
        Err(EcsError::StorageLocked("read or write lock active, cannot acquire write lock"))
    );
    assert_eq!(
        components.remove(NAME, EntityId(0)),
        Err(EcsError::StorageLocked("write lock active, cannot acquire read lock"))
    );
    assert_eq!(
        components.remove(NAME, EntityId(4)),
        Err(EcsError::StorageLocked("read or write lock active, cannot acquire write lock"))
    );
}
