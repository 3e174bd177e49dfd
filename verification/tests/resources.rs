use ecs::component::TypeKey;
use ecs::error::EcsError;
use ecs::resource::{Res, ResMut, Resources};
use ecs::scheduler::SystemParamDescriptor;

const COUNTER: TypeKey = TypeKey(21);
const CLOCK: TypeKey = TypeKey(22);

#[test]
fn resource_that_was_not_inserted_is_not_found() {
    let mut resources: Resources<u32> = Resources::new();
    assert_eq!(resources.get(COUNTER), Err(EcsError::NotFound));
    assert_eq!(resources.read(COUNTER), Err(EcsError::NotFound));
    assert_eq!(resources.write(COUNTER), Err(EcsError::NotFound));
    assert!(matches!(resources.get_mut(COUNTER), Err(EcsError::NotFound)));
    assert_eq!(resources.lock_state(COUNTER), None);
    resources.force_release_read(COUNTER);
    resources.force_release_write(COUNTER);
    assert_eq!(resources.lock_state(COUNTER), None);
}

#[test]
fn resource_insert_replaces_and_unlocks() {
    let mut resources: Resources<u32> = Resources::new();
    resources.insert(COUNTER, 1);
    resources.write(COUNTER).unwrap();
    assert_eq!(resources.lock_state(COUNTER), Some(usize::MAX));
    resources.insert(COUNTER, 2);
    assert_eq!(resources.get(COUNTER), Ok(&2));
    assert_eq!(resources.lock_state(COUNTER), Some(0));
}

#[test]
fn resource_locks_follow_the_read_write_discipline() {
    let mut resources: Resources<u32> = Resources::new();
    resources.insert(COUNTER, 1);
    resources.insert(CLOCK, 100);
    assert_eq!(resources.read(COUNTER), Ok(()));
    assert_eq!(resources.read(COUNTER), Ok(()));
    assert_eq!(resources.lock_state(COUNTER), Some(2));
    assert!(matches!(resources.write(COUNTER), Err(EcsError::StorageLocked(_))));
    assert_eq!(resources.write(CLOCK), Ok(()));
    assert!(matches!(resources.read(CLOCK), Err(EcsError::StorageLocked(_))));
    assert!(matches!(resources.write(CLOCK), Err(EcsError::StorageLocked(_))));
    resources.force_release_read(COUNTER);
    resources.force_release_read(COUNTER);
    resources.force_release_write(CLOCK);
    assert_eq!(resources.lock_state(COUNTER), Some(0));
    assert_eq!(resources.lock_state(CLOCK), Some(0));
    assert_eq!(resources.write(COUNTER), Ok(()));
}

#[test]
fn resource_get_mut_writes_through() {
    let mut resources: Resources<u32> = Resources::new();
    resources.insert(COUNTER, 1);
    resources.insert(CLOCK, 100);
    *resources.get_mut(COUNTER).unwrap() += 4;
    assert_eq!(resources.get(COUNTER), Ok(&5));
    assert_eq!(resources.get(CLOCK), Ok(&100));
}

#[test]
fn res_locks_on_first_use_and_unlocks_on_release() {
    let mut resources: Resources<u32> = Resources::new();
    resources.insert(COUNTER, 7);
    let mut first = Res::fetch(COUNTER);
    let mut second = Res::fetch(COUNTER);
    assert_eq!(resources.lock_state(COUNTER), Some(0));
    assert_eq!(first.deref(&mut resources), Ok(&7));
    assert_eq!(first.deref(&mut resources), Ok(&7));
    assert_eq!(resources.lock_state(COUNTER), Some(1));
    assert_eq!(second.deref(&mut resources), Ok(&7));
    assert_eq!(resources.lock_state(COUNTER), Some(2));
    first.release(&mut resources);
    first.release(&mut resources);
    assert_eq!(resources.lock_state(COUNTER), Some(1));
    second.release(&mut resources);
    assert_eq!(resources.lock_state(COUNTER), Some(0));
}

#[test]
fn res_that_was_never_used_releases_nothing() {
    let mut resources: Resources<u32> = Resources::new();
    resources.insert(COUNTER, 7);
    resources.read(COUNTER).unwrap();
    let mut unused = Res::fetch(COUNTER);
    unused.release(&mut resources);
    assert_eq!(resources.lock_state(COUNTER), Some(1));
}

#[test]
fn res_mut_excludes_every_other_handle() {
    let mut resources: Resources<u32> = Resources::new();
    resources.insert(COUNTER, 0);
    let mut writer = ResMut::fetch(COUNTER);
    let mut reader = Res::fetch(COUNTER);
    let mut other = ResMut::fetch(COUNTER);
    *writer.deref_mut(&mut resources).unwrap() += 2;
    *writer.deref_mut(&mut resources).unwrap() += 2;
    assert_eq!(writer.deref(&mut resources), Ok(&4));
    assert_eq!(resources.lock_state(COUNTER), Some(usize::MAX));
    assert!(matches!(reader.deref(&mut resources), Err(EcsError::StorageLocked(_))));
    assert!(matches!(other.deref_mut(&mut resources), Err(EcsError::StorageLocked(_))));
    other.release(&mut resources);
    reader.release(&mut resources);
    assert_eq!(resources.lock_state(COUNTER), Some(usize::MAX));
    writer.release(&mut resources);
    assert_eq!(resources.lock_state(COUNTER), Some(0));
    assert_eq!(reader.deref(&mut resources), Ok(&4));
    reader.release(&mut resources);
}

#[test]
fn handles_on_a_missing_resource_fail_with_not_found() {
    let mut resources: Resources<u32> = Resources::new();
    let mut reader = Res::fetch(CLOCK);
    let mut writer = ResMut::fetch(CLOCK);
    assert_eq!(reader.deref(&mut resources), Err(EcsError::NotFound));
    assert!(matches!(writer.deref_mut(&mut resources), Err(EcsError::NotFound)));
    assert_eq!(writer.deref(&mut resources), Err(EcsError::NotFound));
    reader.release(&mut resources);
    writer.release(&mut resources);
}

#[test]
fn handle_descriptors_name_the_resource() {
    assert!(matches!(Res::descriptor(COUNTER), SystemParamDescriptor::Res(TypeKey(21))));
    assert!(matches!(ResMut::descriptor(CLOCK), SystemParamDescriptor::ResMut(TypeKey(22))));
}
