use ecs::component::{Components, TypeKey, TypedStorage, TypelessStorage};
use ecs::entity::EntityId;
use ecs::error::EcsError;
use ecs::sparse::SparseSet;

const HEALTH: TypeKey = TypeKey(1);
const NAME: TypeKey = TypeKey(2);

#[test]
fn sparse_set_appends_new_ids_to_the_tail() {
    let mut set: SparseSet<&str> = SparseSet::new();
    assert_eq!(set.insert(7, "seven"), None);
    assert_eq!(set.insert(3, "three"), None);
    assert_eq!(set.insert(9, "nine"), None);
    assert_eq!(set.len(), 3);
    assert_eq!(set.slot_of(7), Some(0));
    assert_eq!(set.slot_of(3), Some(1));
    assert_eq!(set.slot_of(9), Some(2));
    assert_eq!(set.id_at(1), 3);
    assert_eq!(*set.value_at(2), "nine");
    assert_eq!(set.get(3), Some(&"three"));
    assert_eq!(set.get(4), None);
}

#[test]
fn sparse_set_replaces_in_place() {
    let mut set: SparseSet<u32> = SparseSet::new();
    set.insert(5, 50);
    set.insert(6, 60);
    assert_eq!(set.insert(5, 55), Some(50));
    assert_eq!(set.len(), 2);
    assert_eq!(set.slot_of(5), Some(0));
    assert_eq!(set.get(5), Some(&55));
    assert_eq!(set.get(6), Some(&60));
}

#[test]
fn sparse_set_swap_remove_moves_the_tail_into_the_gap() {
    let mut set: SparseSet<&str> = SparseSet::new();
    set.insert(10, "a");
    set.insert(20, "b");
    set.insert(30, "c");
    set.insert(40, "d");
    assert_eq!(set.remove(20), Some("b"));
    assert_eq!(set.len(), 3);
    assert_eq!(set.slot_of(20), None);
    assert_eq!(set.slot_of(40), Some(1));
    assert_eq!(set.id_at(1), 40);
    assert_eq!(*set.value_at(1), "d");
    assert_eq!(set.slot_of(10), Some(0));
    assert_eq!(set.slot_of(30), Some(2));
    assert_eq!(set.get(40), Some(&"d"));
}

#[test]
fn sparse_set_removing_the_tail_leaves_the_others_alone() {
    let mut set: SparseSet<u8> = SparseSet::new();
    set.insert(1, 11);
    set.insert(2, 22);
    assert_eq!(set.remove(2), Some(22));
    assert_eq!(set.len(), 1);
    assert!(!set.contains(2));
    assert_eq!(set.slot_of(1), Some(0));
    assert_eq!(set.get(1), Some(&11));
    assert_eq!(set.remove(1), Some(11));
    assert_eq!(set.len(), 0);
    assert!(!set.contains(1));
}

#[test]
fn sparse_set_remove_of_an_absent_id_changes_nothing() {
    let mut set: SparseSet<u8> = SparseSet::new();
    set.insert(1, 11);
    set.insert(2, 22);
    assert_eq!(set.remove(3), None);
    assert_eq!(set.len(), 2);
    assert_eq!(set.slot_of(1), Some(0));
    assert_eq!(set.slot_of(2), Some(1));
}

#[test]
fn sparse_set_insert_then_remove_restores_the_set() {
    let mut set: SparseSet<u8> = SparseSet::new();
    set.insert(4, 40);
    set.insert(8, 80);
    set.insert(6, 60);
    assert_eq!(set.remove(6), Some(60));
    assert_eq!(set.len(), 2);
    assert_eq!(set.slot_of(4), Some(0));
    assert_eq!(set.slot_of(8), Some(1));
    assert_eq!(set.get(4), Some(&40));
    assert_eq!(set.get(8), Some(&80));
    assert_eq!(set.get(6), None);
}

#[test]
fn sparse_set_value_can_be_changed_in_its_slot() {
    let mut set: SparseSet<u32> = SparseSet::new();
    set.insert(3, 1);
    set.insert(4, 2);
    *set.value_at_mut(1) += 40;
    assert_eq!(set.get(4), Some(&42));
    assert_eq!(set.get(3), Some(&1));
}

#[test]
fn column_with_holds_one_component() {
    let column = TypedStorage::with(EntityId(3), 2.5f32);
    assert_eq!(column.len(), 1);
    assert!(column.has_entity(EntityId(3)));
    assert!(!column.has_entity(EntityId(0)));
    assert_eq!(column.fetch_shared(EntityId(3)), Some(&2.5));
    assert_eq!(column.lock_state(), 0);
    assert_eq!(column.slot_of(EntityId(3)), Some(0));
}

#[test]
fn column_insert_returns_the_component_it_replaces() {
    let mut column: TypedStorage<u32> = TypedStorage::new();
    assert_eq!(column.insert(EntityId(0), 5), Ok(None));
    assert_eq!(column.insert(EntityId(1), 6), Ok(None));
    assert_eq!(column.insert(EntityId(0), 7), Ok(Some(5)));
    assert_eq!(column.len(), 2);
    assert_eq!(column.fetch_shared(EntityId(0)), Some(&7));
    assert_eq!(column.lock_state(), 0);
}

#[test]
fn column_insert_is_rejected_while_the_lock_is_held() {
    let mut column: TypedStorage<u32> = TypedStorage::new();
    column.insert(EntityId(0), 5).unwrap();
    column.acquire(false).unwrap();
    assert!(matches!(column.insert(EntityId(1), 6), Err(EcsError::StorageLocked(_))));
    assert!(matches!(column.insert(EntityId(0), 6), Err(EcsError::StorageLocked(_))));
    assert_eq!(column.len(), 1);
    assert_eq!(column.fetch_shared(EntityId(0)), Some(&5));
    assert_eq!(column.lock_state(), 1);
    column.release(false);
    assert_eq!(column.insert(EntityId(1), 6), Ok(None));
}

#[test]
fn column_remove_says_whether_the_column_is_empty() {
    let mut column: TypedStorage<u32> = TypedStorage::new();
    column.insert(EntityId(0), 5).unwrap();
    column.insert(EntityId(1), 6).unwrap();
    assert_eq!(column.remove(EntityId(0)), Ok(false));
    assert_eq!(column.entity_at(0), EntityId(1));
    assert_eq!(column.remove(EntityId(1)), Ok(true));
    assert_eq!(column.len(), 0);
}

#[test]
fn column_remove_of_an_absent_component_is_a_no_op() {
    let mut column: TypedStorage<u32> = TypedStorage::new();
    column.insert(EntityId(0), 5).unwrap();
    assert_eq!(column.remove(EntityId(9)), Ok(false));
    assert_eq!(column.len(), 1);
    assert_eq!(column.fetch_shared(EntityId(0)), Some(&5));
    let mut empty: TypedStorage<u32> = TypedStorage::new();
    assert_eq!(empty.remove(EntityId(9)), Ok(true));
}

#[test]
fn column_remove_respects_the_lock() {
    let mut column: TypedStorage<u32> = TypedStorage::new();
    column.insert(EntityId(0), 5).unwrap();
    column.acquire(false).unwrap();
    assert!(matches!(column.remove(EntityId(0)), Err(EcsError::StorageLocked(_))));
    assert_eq!(column.remove(EntityId(9)), Ok(false));
    assert_eq!(column.lock_state(), 1);
    column.release(false);
    column.acquire(true).unwrap();
    assert!(matches!(column.remove(EntityId(0)), Err(EcsError::StorageLocked(_))));
    assert!(matches!(column.remove(EntityId(9)), Err(EcsError::StorageLocked(_))));
    assert_eq!(column.len(), 1);
    assert_eq!(column.lock_state(), usize::MAX);
}

#[test]
fn column_fetch_exclusive_writes_through() {
    let mut column: TypedStorage<u32> = TypedStorage::new();
    column.insert(EntityId(0), 5).unwrap();
    column.insert(EntityId(4), 9).unwrap();
    *column.fetch_exclusive(EntityId(4)).unwrap() = 10;
    assert!(column.fetch_exclusive(EntityId(1)).is_none());
    assert_eq!(column.fetch_shared(EntityId(4)), Some(&10));
    assert_eq!(column.fetch_shared(EntityId(0)), Some(&5));
}

#[test]
fn components_insert_creates_the_column() {
    let mut components: Components<u32> = Components::new();
    assert_eq!(components.column_count(), 0);
    assert!(!components.has_component(HEALTH, EntityId(0)));
    assert_eq!(components.insert(HEALTH, EntityId(0), 5), Ok(None));
    assert_eq!(components.insert(HEALTH, EntityId(1), 6), Ok(None));
    assert_eq!(components.insert(NAME, EntityId(1), 60), Ok(None));
    assert_eq!(components.insert(HEALTH, EntityId(0), 7), Ok(Some(5)));
    assert_eq!(components.column_count(), 2);
    assert!(components.has_component(HEALTH, EntityId(0)));
    assert!(components.has_component(NAME, EntityId(1)));
    assert!(!components.has_component(NAME, EntityId(0)));
    assert_eq!(components.fetch_shared(HEALTH, EntityId(0)), Some(&7));
    assert_eq!(components.fetch_shared(NAME, EntityId(0)), None);
    assert_eq!(components.fetch_shared(TypeKey(9), EntityId(0)), None);
    assert_eq!(components.get_column(HEALTH).unwrap().len(), 2);
}

#[test]
fn components_insert_is_rejected_by_a_locked_column_only() {
    let mut components: Components<u32> = Components::new();
    components.insert(HEALTH, EntityId(0), 5).unwrap();
    components.lock_column(HEALTH, true).unwrap();
    assert!(matches!(
        components.insert(HEALTH, EntityId(1), 6),
        Err(EcsError::StorageLocked(_))
    ));
    assert_eq!(components.insert(NAME, EntityId(1), 6), Ok(None));
    assert!(!components.has_component(HEALTH, EntityId(1)));
    components.unlock_column(HEALTH, true);
    assert_eq!(components.insert(HEALTH, EntityId(1), 6), Ok(None));
}

#[test]
fn components_remove_keeps_the_empty_column_until_pruned() {
    let mut components: Components<u32> = Components::new();
    components.insert(HEALTH, EntityId(0), 5).unwrap();
    components.insert(NAME, EntityId(0), 50).unwrap();
    assert_eq!(components.remove(HEALTH, EntityId(0)), Ok(true));
    assert_eq!(components.remove(HEALTH, EntityId(0)), Ok(true));
    assert_eq!(components.remove(TypeKey(9), EntityId(0)), Ok(false));
    assert_eq!(components.column_count(), 2);
    assert!(!components.has_component(HEALTH, EntityId(0)));
    components.prune();
    assert_eq!(components.column_count(), 1);
    assert!(components.get_column(HEALTH).is_none());
    assert!(components.has_component(NAME, EntityId(0)));
}

#[test]
fn components_despawn_removes_the_entity_everywhere() {
    let mut components: Components<u32> = Components::new();
    components.insert(HEALTH, EntityId(0), 5).unwrap();
    components.insert(HEALTH, EntityId(1), 6).unwrap();
    components.insert(NAME, EntityId(1), 60).unwrap();
    components.despawn(EntityId(1));
    assert!(!components.has_component(HEALTH, EntityId(1)));
    assert!(!components.has_component(NAME, EntityId(1)));
    assert!(components.has_component(HEALTH, EntityId(0)));
    assert_eq!(components.column_count(), 1);
    components.despawn(EntityId(1));
    assert_eq!(components.column_count(), 1);
    assert_eq!(components.fetch_shared(HEALTH, EntityId(0)), Some(&5));
}

#[test]
fn components_bundle_stops_at_the_first_locked_column() {
    let mut components: Components<u32> = Components::new();
    components.insert(NAME, EntityId(0), 1).unwrap();
    components.lock_column(NAME, false).unwrap();
    let res = components.insert_bundle(
        EntityId(5),
        vec![(HEALTH, 10), (NAME, 20), (TypeKey(3), 30)],
    );
    assert!(matches!(res, Err(EcsError::StorageLocked(_))));
    assert!(components.has_component(HEALTH, EntityId(5)));
    assert!(!components.has_component(NAME, EntityId(5)));
    assert!(!components.has_component(TypeKey(3), EntityId(5)));
    components.unlock_column(NAME, false);
    assert_eq!(
        components.insert_bundle(EntityId(6), vec![(HEALTH, 11), (NAME, 21)]),
        Ok(())
    );
    assert_eq!(components.fetch_shared(NAME, EntityId(6)), Some(&21));
    assert_eq!(components.fetch_shared(HEALTH, EntityId(6)), Some(&11));
}

#[test]
fn components_fetch_exclusive_writes_through() {
    let mut components: Components<u32> = Components::new();
    components.insert(HEALTH, EntityId(0), 5).unwrap();
    components.insert(HEALTH, EntityId(1), 6).unwrap();
    *components.fetch_exclusive(HEALTH, EntityId(1)).unwrap() = 60;
    assert!(components.fetch_exclusive(NAME, EntityId(1)).is_none());
    assert!(components.fetch_exclusive(HEALTH, EntityId(2)).is_none());
    assert_eq!(components.fetch_shared(HEALTH, EntityId(1)), Some(&60));
    assert_eq!(components.fetch_shared(HEALTH, EntityId(0)), Some(&5));
}

#[test]
fn column_index_and_reverse_index_agree_after_any_history() {
    let mut column: TypedStorage<usize> = TypedStorage::new();
    for id in [4usize, 9, 2, 7, 5, 11, 3] {
        column.insert(EntityId(id), id * 10).unwrap();
    }
    for id in [9usize, 4, 11, 100] {
        column.remove(EntityId(id)).unwrap();
    }
    column.insert(EntityId(9), 90).unwrap();
    column.insert(EntityId(2), 21).unwrap();
    assert_eq!(column.len(), 5);
    let mut live = Vec::new();
    for slot in 0..column.len() {
        let entity = column.entity_at(slot);
        assert_eq!(column.slot_of(entity), Some(slot));
        live.push(entity.0);
    }
    live.sort();
    assert_eq!(live, vec![2, 3, 5, 7, 9]);
    for id in 0..12usize {
        match column.slot_of(EntityId(id)) {
            Some(slot) => assert_eq!(column.entity_at(slot), EntityId(id)),
            None => assert!(!live.contains(&id)),
        }
    }
    assert_eq!(column.fetch_shared(EntityId(2)), Some(&21));
    assert_eq!(column.fetch_shared(EntityId(7)), Some(&70));
}

#[test]
fn column_insert_then_remove_restores_the_column() {
    let mut column: TypedStorage<u32> = TypedStorage::new();
    column.insert(EntityId(1), 10).unwrap();
    column.insert(EntityId(5), 50).unwrap();
    column.insert(EntityId(3), 30).unwrap();
    assert_eq!(column.remove(EntityId(3)), Ok(false));
    assert_eq!(column.len(), 2);
    assert_eq!(column.slot_of(EntityId(1)), Some(0));
    assert_eq!(column.slot_of(EntityId(5)), Some(1));
    assert_eq!(column.slot_of(EntityId(3)), None);
    assert_eq!(column.fetch_shared(EntityId(1)), Some(&10));
    assert_eq!(column.fetch_shared(EntityId(5)), Some(&50));
    assert_eq!(column.lock_state(), 0);
}

#[test]
fn default_stores_are_empty() {
    let column: TypedStorage<u8> = TypedStorage::default();
    assert_eq!(column.len(), 0);
    let components: Components<u8> = Components::default();
    assert_eq!(components.column_count(), 0);
    assert!(components.is_unlocked());
}

#[test]
fn is_unlocked_sees_any_held_lock() {
    let mut components: Components<u8> = Components::new();
    components.insert(HEALTH, EntityId(0), 1).unwrap();
    components.insert(NAME, EntityId(0), 2).unwrap();
    assert!(components.is_unlocked());
    components.lock_column(NAME, false).unwrap();
    assert!(!components.is_unlocked());
    components.unlock_column(NAME, false);
    assert!(components.is_unlocked());
}
