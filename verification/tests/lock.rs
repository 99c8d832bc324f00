use procmem::memory::lock::{LockCounter, LockError, MemoryLock, PlatformStep, UnlockError};

#[test]
fn lock_counts_recursively() {
    let mut lock = LockCounter::new();
    assert!(!lock.is_frozen());
    assert_eq!(lock.lock_step(), PlatformStep::Stop);
    assert_eq!(lock.lock(Ok(())), Ok(true));
    assert!(lock.is_frozen());
    assert_eq!(lock.lock_step(), PlatformStep::Nothing);
    assert_eq!(lock.lock(Ok(())), Ok(false));
    assert_eq!(lock.count(), 2);
    assert_eq!(lock.unlock_step(), PlatformStep::Nothing);
    assert_eq!(lock.unlock(Ok(())), Ok(false));
    assert!(lock.is_frozen());
    assert_eq!(lock.unlock_step(), PlatformStep::Resume);
    assert_eq!(lock.unlock(Ok(())), Ok(true));
    assert!(!lock.is_frozen());
    assert_eq!(lock.count(), 0);
}

#[test]
fn lock_errors() {
    let mut lock = LockCounter::new();
    assert_eq!(lock.unlock(Ok(())), Err(UnlockError::NotLocked));
    assert_eq!(lock.lock(Err(3)), Err(LockError::PlatformError(3)));
    assert_eq!(lock.count(), 0);
    assert!(!lock.is_frozen());
    assert_eq!(lock.lock(Ok(())), Ok(true));
    assert_eq!(lock.lock_exlusive(Ok(())), Err(LockError::AlreadyLocked));
    assert_eq!(lock.unlock(Err(5)), Err(UnlockError::PlatformError(5)));
    assert_eq!(lock.count(), 1);
    assert!(lock.is_frozen());
    assert_eq!(lock.unlock(Ok(())), Ok(true));
}

#[test]
fn lock_exclusive_is_the_largest_count() {
    let mut lock = LockCounter::new();
    assert_eq!(lock.lock_exlusive(Err(9)), Err(LockError::PlatformError(9)));
    assert_eq!(lock.lock_exlusive(Ok(())), Ok(()));
    assert!(lock.is_exclusive());
    assert_eq!(lock.count(), usize::MAX);
    assert!(lock.is_frozen());
    assert_eq!(lock.lock(Ok(())), Err(LockError::AlreadyLocked));
    assert_eq!(lock.count(), usize::MAX);
    assert_eq!(lock.unlock_step(), PlatformStep::Resume);
    assert_eq!(lock.unlock(Ok(())), Ok(true));
    assert_eq!(lock.count(), 0);
    assert!(!lock.is_frozen());
}

#[test]
fn lock_balanced_sequence_leaves_the_target_running() {
    let mut lock = LockCounter::new();
    let requests = [true, true, false, true, true, false, false, false, true, false];
    let mut depth = 0usize;
    for request in requests {
        if request {
            MemoryLock::lock(&mut lock).unwrap();
            depth += 1;
        } else {
            MemoryLock::unlock(&mut lock).unwrap();
            depth -= 1;
        }
        assert_eq!(lock.count(), depth);
        assert_eq!(lock.is_frozen(), depth > 0);
    }
    assert!(!lock.is_frozen());
}
