use no_deadlocks::lock_manager::DeadlockReport;
use no_deadlocks::{AcquireStep, DependencyNode, LockManager, Mutex, RwLock};

#[test]
fn with_deadlock_two_mutexes() {
    // the classic crossed order: thread 1 holds M1 and wants M2, thread 2
    // holds M2 and wants M1
    let mut manager = LockManager::new();
    let m1 = Mutex::new(&mut manager, 0u8);
    let m2 = Mutex::new(&mut manager, 0u8);
    let _g1 = m1.try_lock(&mut manager, 1).expect("free");
    let _g2 = m2.try_lock(&mut manager, 2).expect("free");
    // thread 1 blocks on M2, crosses the timeout, subscribes, analyses:
    // thread 2 is not waiting yet, so there is no cycle
    match m2.lock_attempt(&mut manager, 1, true) {
        AcquireStep::Pending => {}
        _ => panic!("no cycle exists yet"),
    }
    // thread 2 blocks on M1 and analyses: now the cycle closes
    match m1.lock_attempt(&mut manager, 2, true) {
        AcquireStep::Deadlock(report) => match report {
            DeadlockReport::Cycle { cycle, sections } => {
                assert_eq!(cycle.len(), 4);
                assert!(cycle.contains(&DependencyNode::Thread(1)));
                assert!(cycle.contains(&DependencyNode::Thread(2)));
                assert_eq!(sections.len(), 2);
                for section in sections.iter() {
                    assert_eq!(section.blocking.len(), 1);
                    assert_eq!(section.blocked_by.len(), 1);
                }
            }
            DeadlockReport::Reentrance { .. } => panic!("this is no reentrance"),
        },
        _ => panic!("the crossed order must be reported as a deadlock"),
    }
}

#[test]
fn without_deadlock_same_order() {
    // both threads take M1 then M2: the second thread only ever waits on a
    // holder that is not waiting itself, so no analysis finds a cycle
    let mut manager = LockManager::new();
    let mut m1 = Mutex::new(&mut manager, 0u8);
    let mut m2 = Mutex::new(&mut manager, 0u8);
    let g1 = m1.try_lock(&mut manager, 1).expect("free");
    let g2 = m2.try_lock(&mut manager, 1).expect("free");
    match m1.lock_attempt(&mut manager, 2, true) {
        AcquireStep::Pending => {}
        _ => panic!("waiting on a working holder is no deadlock"),
    }
    g2.unlock(&mut m2, &mut manager, false);
    g1.unlock(&mut m1, &mut manager, false);
    let g1 = m1.lock_attempt(&mut manager, 2, true);
    match g1 {
        AcquireStep::Acquired(Ok(g)) => {
            let g2 = m2.try_lock(&mut manager, 2).expect("free again");
            g2.unlock(&mut m2, &mut manager, false);
            g.unlock(&mut m1, &mut manager, false);
        }
        _ => panic!("the released mutex must be acquirable"),
    }
}

#[test]
fn reentrance_detection_reports_two_nodes() {
    let mut manager = LockManager::new();
    let m = Mutex::new(&mut manager, 0u8);
    let _g = m.try_lock(&mut manager, 1).expect("free");
    match m.lock_attempt(&mut manager, 1, true) {
        AcquireStep::Deadlock(DeadlockReport::Reentrance { cycle, .. }) => {
            assert_eq!(cycle.len(), 2);
            assert!(cycle.contains(&DependencyNode::Thread(1)));
        }
        _ => panic!("locking a held mutex again must be reported as reentrance"),
    }
}

#[test]
fn non_participant_is_not_interrupted() {
    // threads 1 and 2 are deadlocked on M1/M2; thread 3, blocked on M1 as
    // well, is not a member of the cycle and must not be told to panic
    let mut manager = LockManager::new();
    let m1 = Mutex::new(&mut manager, 0u8);
    let m2 = Mutex::new(&mut manager, 0u8);
    let _g1 = m1.try_lock(&mut manager, 1).expect("free");
    let _g2 = m2.try_lock(&mut manager, 2).expect("free");
    match m2.lock_attempt(&mut manager, 1, true) {
        AcquireStep::Pending => {}
        _ => panic!("no cycle exists yet"),
    }
    match m1.lock_attempt(&mut manager, 3, true) {
        AcquireStep::Pending => {}
        _ => panic!("thread 3 stands in no cycle"),
    }
    // thread 2 closes the cycle and is the one that gets the report
    match m1.lock_attempt(&mut manager, 2, true) {
        AcquireStep::Deadlock(_) => {}
        _ => panic!("thread 2 is a participant and must be interrupted"),
    }
    // thread 3 still only waits
    match m1.lock_attempt(&mut manager, 3, true) {
        AcquireStep::Pending => {}
        _ => panic!("thread 3 still stands in no cycle"),
    }
}

#[test]
fn read_write_cycle_across_rwlocks() {
    // thread 1 read-holds L1 and wants to write L2; thread 2 read-holds L2
    // and wants to write L1: a four-node cycle of read holders
    let mut manager = LockManager::new();
    let l1 = RwLock::new(&mut manager, 0u8);
    let l2 = RwLock::new(&mut manager, 0u8);
    let _g1 = l1.try_read(&mut manager, 1).expect("free");
    let _g2 = l2.try_read(&mut manager, 2).expect("free");
    match l2.write_attempt(&mut manager, 1, true) {
        AcquireStep::Pending => {}
        _ => panic!("no cycle exists yet"),
    }
    match l1.write_attempt(&mut manager, 2, true) {
        AcquireStep::Deadlock(DeadlockReport::Cycle { cycle, .. }) => {
            assert_eq!(cycle.len(), 4);
        }
        _ => panic!("crossed reader-writer upgrade must be reported"),
    }
}

#[test]
fn analyse_quiet_on_healthy_registry() {
    let mut manager = LockManager::new();
    let m = Mutex::new(&mut manager, 0u8);
    let _g = m.try_lock(&mut manager, 1).expect("free");
    assert!(manager.analyse(1).is_none());
    assert!(manager.analyse(2).is_none());
}

#[test]
fn attempt_before_timeout_never_subscribes() {
    let mut manager = LockManager::new();
    let m1 = Mutex::new(&mut manager, 0u8);
    let m2 = Mutex::new(&mut manager, 0u8);
    let _g1 = m1.try_lock(&mut manager, 1).expect("free");
    let _g2 = m2.try_lock(&mut manager, 2).expect("free");
    // before the timeout the attempts neither subscribe nor analyse, so even
    // a crossed order stays quiet
    assert!(matches!(m2.lock_attempt(&mut manager, 1, false), AcquireStep::Pending));
    assert!(matches!(m1.lock_attempt(&mut manager, 2, false), AcquireStep::Pending));
    // once past the timeout, both subscribe and the second one sees the cycle
    assert!(matches!(m2.lock_attempt(&mut manager, 1, true), AcquireStep::Pending));
    assert!(matches!(m1.lock_attempt(&mut manager, 2, true), AcquireStep::Deadlock(_)));
}

#[test]
fn read_request_against_readers_is_no_edge() {
    // A pending read request on a lock that is merely read-held emits no
    // wait edge: it would be satisfied at once were no writer pending, so
    // counting it would fabricate deadlocks out of shared readers.
    let mut manager = LockManager::new();
    let mut l1 = RwLock::new(&mut manager, 0u8);
    let l2 = RwLock::new(&mut manager, 0u8);
    // thread 3 write-holds L1, thread 2 blocks for read on it and subscribes
    let g3 = l1.try_write(&mut manager, 3).expect("free");
    assert!(matches!(l1.read_attempt(&mut manager, 2, true), AcquireStep::Pending));
    // thread 3 leaves; thread 2's request stays pending in the registry
    g3.unlock(&mut l1, &mut manager, false);
    // thread 1 read-holds L1, thread 2 write-holds L2
    let _g1 = l1.try_read(&mut manager, 1).expect("readable");
    let _g2 = l2.try_write(&mut manager, 2).expect("free");
    // thread 1 now write-waits on L2. Were thread 2's read request on the
    // read-held L1 an edge, the cycle 1 -> L2 -> 2 -> L1 -> 1 would close;
    // the rule keeps the analysis quiet
    assert!(matches!(l2.write_attempt(&mut manager, 1, true), AcquireStep::Pending));
}
