use ecs::error::EcsError;
use ecs::util::PersistentLock;

#[test]
fn read_lock_excludes_write_lock() {
    let mut lock = PersistentLock::new();
    assert!(lock.read().is_ok());
    assert_eq!(lock.state(), 1);
    assert!(matches!(lock.write(), Err(EcsError::StorageLocked(_))));
    lock.force_release_read();
    assert_eq!(lock.state(), 0);
    assert!(lock.write().is_ok());
    assert_eq!(lock.state(), usize::MAX);
    assert!(matches!(lock.read(), Err(EcsError::StorageLocked(_))));
}

#[test]
fn lock_errors_name_the_lock_that_is_held() {
    let mut lock = PersistentLock::new();
    let guard = lock.write().unwrap();
    assert_eq!(
        lock.read().err(),
        Some(EcsError::StorageLocked("write lock active, cannot acquire read lock"))
    );
    assert_eq!(
        lock.write().err(),
        Some(EcsError::StorageLocked("read or write lock active, cannot acquire write lock"))
    );
    lock.release(guard);
    let _ = lock.read().unwrap();
    assert_eq!(
        lock.write().err(),
        Some(EcsError::StorageLocked("read or write lock active, cannot acquire write lock"))
    );
    assert_eq!(lock.state(), 1);
}

#[test]
fn a_guard_releases_the_hold_it_stands_for() {
    let mut lock = PersistentLock::new();
    let first = lock.read().unwrap();
    let second = lock.read().unwrap();
    assert_eq!(lock.state(), 2);
    lock.release(first);
    assert_eq!(lock.state(), 1);
    lock.release(second);
    assert_eq!(lock.state(), 0);
    let exclusive = lock.write().unwrap();
    assert_eq!(lock.state(), usize::MAX);
    lock.release(exclusive);
    assert_eq!(lock.state(), 0);
    lock.write().unwrap();
    lock.force_release_write();
    assert_eq!(lock.state(), 0);
}
