use ecs::entity::{Entities, EntityId, EntityIter};

#[test]
fn allocate_hands_out_ascending_ids() {
    let mut entities = Entities::new();
    assert_eq!(entities.allocate(), EntityId(0));
    assert_eq!(entities.allocate(), EntityId(1));
    assert_eq!(entities.allocate(), EntityId(2));
    assert!(entities.contains(EntityId(1)));
    assert!(!entities.contains(EntityId(3)));
}

#[test]
fn allocate_takes_the_lowest_freed_id_first() {
    let mut entities = Entities::new();
    for _ in 0..5 {
        entities.allocate();
    }
    entities.free(EntityId(3));
    entities.free(EntityId(1));
    assert!(!entities.contains(EntityId(1)));
    assert_eq!(entities.allocate(), EntityId(1));
    assert_eq!(entities.allocate(), EntityId(3));
    assert_eq!(entities.allocate(), EntityId(5));
}

#[test]
fn free_of_an_id_that_is_not_live_is_a_no_op() {
    let mut entities = Entities::new();
    entities.allocate();
    entities.allocate();
    entities.free(EntityId(1));
    entities.free(EntityId(1));
    entities.free(EntityId(700));
    assert_eq!(entities.iter(), vec![EntityId(0)]);
    assert_eq!(entities.allocate(), EntityId(1));
}

#[test]
fn free_many_frees_every_id_given() {
    let mut entities = Entities::new();
    for _ in 0..6 {
        entities.allocate();
    }
    entities.free_many(&vec![EntityId(0), EntityId(4), EntityId(4), EntityId(9)]);
    assert_eq!(
        entities.iter(),
        vec![EntityId(1), EntityId(2), EntityId(3), EntityId(5)]
    );
}

#[test]
fn iter_lists_the_live_ids_in_ascending_order() {
    let mut entities = Entities::new();
    assert_eq!(entities.iter(), vec![]);
    for _ in 0..4 {
        entities.allocate();
    }
    entities.free(EntityId(2));
    assert_eq!(entities.iter(), vec![EntityId(0), EntityId(1), EntityId(3)]);
}

#[test]
fn entity_iter_walks_the_live_ids() {
    let mut entities = Entities::new();
    for _ in 0..5 {
        entities.allocate();
    }
    entities.free(EntityId(0));
    entities.free(EntityId(3));
    let mut cursor = EntityIter::new();
    assert_eq!(cursor.next(&entities), Some(EntityId(1)));
    assert_eq!(cursor.next(&entities), Some(EntityId(2)));
    assert_eq!(cursor.next(&entities), Some(EntityId(4)));
    assert_eq!(cursor.next(&entities), None);
    assert_eq!(cursor.next(&entities), None);
    assert_eq!(cursor.iter_index, 3);
}

#[test]
fn a_fresh_registry_has_room() {
    let mut entities = Entities::default();
    assert!(entities.can_allocate());
    assert_eq!(entities.allocate(), EntityId(0));
    assert!(entities.can_allocate());
}
