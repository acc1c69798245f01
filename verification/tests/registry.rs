use no_deadlocks::lock_manager::{
    counter_read_acquire, counter_read_release, counter_write_acquire, counter_write_release,
    LockManager, LockRepresentation, RequestType,
};

#[test]
fn write_lock_excludes_everybody() {
    let mut repr = LockRepresentation::new();
    assert!(repr.try_write_lock(1));
    assert!(repr.is_write_locked());
    assert_eq!(repr.holders_len(), 1);
    assert_eq!(repr.holder_id_at(0), 1);
    assert!(!repr.try_write_lock(2));
    assert!(!repr.try_read_lock(2));
    repr.unlock(1);
    assert!(!repr.is_write_locked());
    assert_eq!(repr.holders_len(), 0);
}

#[test]
fn readers_share_writers_wait() {
    let mut repr = LockRepresentation::new();
    assert!(repr.try_read_lock(1));
    assert!(repr.try_read_lock(2));
    assert_eq!(repr.holders_len(), 2);
    assert!(!repr.try_write_lock(3));
    repr.unlock(1);
    assert!(!repr.try_write_lock(3));
    repr.unlock(2);
    assert_eq!(repr.holders_len(), 0);
    assert!(repr.try_write_lock(3));
}

#[test]
fn subscription_is_idempotent() {
    let mut repr = LockRepresentation::new();
    repr.subscribe_write(9);
    assert_eq!(repr.requests_len(), 1);
    repr.subscribe_write(9);
    assert_eq!(repr.requests_len(), 1);
    let req = repr.request_get(9).expect("the request must be there");
    assert_eq!(req.0, RequestType::Write);
}

#[test]
fn subscription_mode_switch_replaces() {
    let mut repr = LockRepresentation::new();
    repr.subscribe_read(9);
    assert_eq!(repr.requests_len(), 1);
    assert_eq!(repr.request_get(9).unwrap().0, RequestType::Read);
    repr.subscribe_write(9);
    assert_eq!(repr.requests_len(), 1);
    assert_eq!(repr.request_get(9).unwrap().0, RequestType::Write);
    repr.subscribe_read(9);
    assert_eq!(repr.requests_len(), 1);
    assert_eq!(repr.request_get(9).unwrap().0, RequestType::Read);
}

#[test]
fn acquisition_unsubscribes() {
    let mut repr = LockRepresentation::new();
    repr.subscribe_write(4);
    repr.subscribe_read(5);
    assert_eq!(repr.requests_len(), 2);
    assert!(repr.try_write_lock(4));
    assert!(repr.request_get(4).is_none());
    assert!(repr.request_get(5).is_some());
    repr.unlock(4);
    assert!(repr.try_read_lock(5));
    assert!(repr.request_get(5).is_none());
    assert_eq!(repr.requests_len(), 0);
}

#[test]
fn lock_ids_strictly_increase_and_never_return() {
    let mut manager = LockManager::new();
    let k0 = manager.create_lock();
    let k1 = manager.create_lock();
    let k2 = manager.create_lock();
    assert_eq!(k0, 0);
    assert_eq!(k1, 1);
    assert_eq!(k2, 2);
    manager.remove_lock(k1);
    let k3 = manager.create_lock();
    assert_eq!(k3, 3);
    manager.remove_lock(k1);
    let k4 = manager.create_lock();
    assert_eq!(k4, 4);
}

#[test]
fn counter_protocol_stays_in_range() {
    assert_eq!(counter_read_acquire(0), Some(1));
    assert_eq!(counter_read_acquire(1), Some(2));
    assert_eq!(counter_read_acquire(-1), None);
    assert_eq!(counter_write_acquire(0), Some(-1));
    assert_eq!(counter_write_acquire(2), None);
    assert_eq!(counter_write_acquire(-1), None);
    assert_eq!(counter_read_release(2), 1);
    assert_eq!(counter_read_release(1), 0);
    assert_eq!(counter_write_release(), 0);
    assert_eq!(counter_read_acquire(i32::MAX), None);
}

#[test]
fn custom_analysis_timeout_round_trip() {
    let timeout = std::time::Duration::from_millis(250);
    let manager = no_deadlocks::LockManager::with_analysis_timeout(timeout);
    assert_eq!(manager.analysis_timeout(), timeout);
    let manager2 = no_deadlocks::LockManager::new();
    assert_eq!(manager2.analysis_timeout(), std::time::Duration::from_secs(1));
}

#[test]
fn with_manager_attaches_fresh_keys() {
    let mut manager = no_deadlocks::LockManager::new();
    let m = no_deadlocks::Mutex::with_manager(&mut manager, 1u8);
    let l = no_deadlocks::RwLock::with_manager(&mut manager, 2u8);
    assert_ne!(m.key(), l.key());
    let g = m.try_lock(&mut manager, 1).expect("fresh mutex is free");
    let h = l.try_write(&mut manager, 1).expect("fresh lock is free");
    drop((g, h));
}
