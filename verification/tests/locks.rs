use no_deadlocks::{LockManager, Mutex, RwLock, TryLockError};

#[test]
fn mutex_mutual_exclusion() {
    let mut manager = LockManager::new();
    let mut m = Mutex::new(&mut manager, 0u32);
    let guard = m.try_lock(&mut manager, 1).expect("free mutex must be acquirable");
    assert!(matches!(m.try_lock(&mut manager, 2), Err(TryLockError::WouldBlock)));
    assert!(matches!(m.try_lock(&mut manager, 1), Err(TryLockError::WouldBlock)));
    guard.unlock(&mut m, &mut manager, false);
    let guard2 = m.try_lock(&mut manager, 2).expect("released mutex must be acquirable");
    guard2.unlock(&mut m, &mut manager, false);
}

#[test]
fn mutex_uncontended_sequence() {
    // ten turns over the same mutex, each by another thread id, each writing
    let mut manager = LockManager::new();
    let mut m = Mutex::new(&mut manager, 0u64);
    for tid in 1..=10u64 {
        let guard = m.try_lock(&mut manager, tid).expect("uncontended acquisition must succeed");
        guard.unlock(&mut m, &mut manager, false);
    }
    assert!(!m.is_poisoned());
    let value = m.into_inner(&mut manager).expect("never poisoned");
    assert_eq!(value, 0);
}

#[test]
fn rwlock_readers_share() {
    let mut manager = LockManager::new();
    let mut l = RwLock::new(&mut manager, 5u8);
    let g1 = l.try_read(&mut manager, 1).expect("first reader");
    let g2 = l.try_read(&mut manager, 2).expect("second reader");
    assert!(matches!(l.try_write(&mut manager, 3), Err(TryLockError::WouldBlock)));
    g1.unlock(&mut l, &mut manager, false);
    assert!(matches!(l.try_write(&mut manager, 3), Err(TryLockError::WouldBlock)));
    g2.unlock(&mut l, &mut manager, false);
    let g3 = l.try_write(&mut manager, 3).expect("write after all readers left");
    assert!(matches!(l.try_read(&mut manager, 4), Err(TryLockError::WouldBlock)));
    g3.unlock(&mut l, &mut manager, false);
    let g4 = l.try_read(&mut manager, 4).expect("read after writer left");
    g4.unlock(&mut l, &mut manager, false);
}

#[test]
fn poisoning_round_trip() {
    let mut manager = LockManager::new();
    let mut m = Mutex::new(&mut manager, 7i32);
    let guard = m.try_lock(&mut manager, 1).expect("free mutex");
    // thread 1 releases while panicking
    guard.unlock(&mut m, &mut manager, true);
    assert!(m.is_poisoned());
    match m.try_lock(&mut manager, 2) {
        Err(TryLockError::Poisoned(p)) => {
            let guard2 = p.into_inner();
            guard2.unlock(&mut m, &mut manager, false);
        }
        _ => panic!("a poisoned mutex must hand the guard out wrapped"),
    }
    assert!(m.is_poisoned());
    match m.into_inner(&mut manager) {
        Err(p) => assert_eq!(p.into_inner(), 7),
        Ok(_) => panic!("the value of a poisoned mutex comes out wrapped"),
    }
}

#[test]
fn rwlock_poisoning() {
    let mut manager = LockManager::new();
    let mut l = RwLock::new(&mut manager, 0u8);
    let g = l.try_write(&mut manager, 1).expect("free lock");
    g.unlock(&mut l, &mut manager, true);
    assert!(l.is_poisoned());
    match l.try_read(&mut manager, 2) {
        Err(TryLockError::Poisoned(p)) => {
            p.into_inner().unlock(&mut l, &mut manager, false);
        }
        _ => panic!("a poisoned lock must hand the guard out wrapped"),
    }
}

#[test]
fn into_inner_removes_the_entry() {
    let mut manager = LockManager::new();
    let m = Mutex::new(&mut manager, String::from("payload"));
    let value = m.into_inner(&mut manager).expect("not poisoned");
    assert_eq!(value, "payload");
    // the key is not reused
    let m2 = Mutex::new(&mut manager, 0u8);
    let _ = m2.into_inner(&mut manager);
}

#[test]
fn get_mut_sees_the_value() {
    let mut manager = LockManager::new();
    let mut l = RwLock::new(&mut manager, 3u32);
    *l.get_mut() += 1;
    let g = l.try_read(&mut manager, 1).expect("free lock");
    g.unlock(&mut l, &mut manager, false);
    let mut m = Mutex::new(&mut manager, 10u32);
    *m.get_mut().expect("not poisoned") += 5;
    assert_eq!(*m.value(), 15);
    assert_eq!(*l.value(), 4);
    assert_eq!(m.into_inner(&mut manager).expect("not poisoned"), 15);
}
