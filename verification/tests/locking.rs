use bank_transfer::locking::{acquisition_order, LockId, LockSystem, OpPhase, Operation};

#[test]
fn acquisition_order_sorts_the_identifiers() {
    assert_eq!(acquisition_order(2, 7), (2, 7));
    assert_eq!(acquisition_order(7, 2), (2, 7));
    assert_eq!(acquisition_order(4, 4), (4, 4));
    assert_eq!(acquisition_order(0, u64::MAX), (0, u64::MAX));
}

#[test]
fn opposite_role_orders_deadlock() {
    // One operation transfers upper-to-lower and locks its `from` account
    // first; the other transfers lower-to-upper and does the same. Each
    // acquires its first lock, then waits forever on the other's.
    let ops = vec![
        Operation::role_order(LockId::Upper, LockId::Lower),
        Operation::role_order(LockId::Lower, LockId::Upper),
    ];
    let mut system = LockSystem::new(ops);
    assert!(!system.deadlocked());

    assert!(system.try_step(0));
    assert!(system.try_step(1));
    assert_eq!(system.ops[0].phase, OpPhase::HoldingFirst);
    assert_eq!(system.ops[1].phase, OpPhase::HoldingFirst);

    assert!(!system.try_step(0));
    assert!(!system.try_step(1));
    assert!(system.deadlocked());
    assert!(!system.check_all_released());
}

#[test]
fn role_order_completes_under_a_lucky_interleaving() {
    // The hazard is an interleaving, not a certainty: when one operation
    // finishes before the other starts, role order completes too.
    let ops = vec![
        Operation::role_order(LockId::Upper, LockId::Lower),
        Operation::role_order(LockId::Lower, LockId::Upper),
    ];
    let mut system = LockSystem::new(ops);
    assert!(system.try_step(0));
    assert!(system.try_step(0));
    assert!(system.try_step(0));
    assert_eq!(system.ops[0].phase, OpPhase::Released);
    assert!(system.try_step(1));
    assert!(system.try_step(1));
    assert!(system.try_step(1));
    assert!(system.check_all_released());
    assert!(!system.deadlocked());
}

#[test]
fn global_order_scenario_always_completes() {
    // The same two transfers, both locking lower-identifier first.
    let ops = vec![Operation::global_order(), Operation::global_order()];
    let mut system = LockSystem::new(ops);
    system.run_to_completion();
    assert!(system.check_all_released());
    assert!(!system.deadlocked());
    assert_eq!(system.ops[0].phase, OpPhase::Released);
    assert_eq!(system.ops[1].phase, OpPhase::Released);
}

#[test]
fn global_order_completes_for_many_concurrent_transfers() {
    let ops = vec![Operation::global_order(); 5];
    let mut system = LockSystem::new(ops);
    system.run_to_completion();
    assert!(system.check_all_released());
    assert!(!system.deadlocked());
}

#[test]
fn a_blocked_ordered_operation_waits_without_deadlock() {
    let ops = vec![Operation::global_order(), Operation::global_order()];
    let mut system = LockSystem::new(ops);

    assert!(system.try_step(0));
    assert!(!system.can_step(1));
    assert!(!system.try_step(1));
    assert!(!system.deadlocked());

    assert!(system.try_step(0));
    assert!(system.try_step(0));
    assert!(system.try_step(1));
    assert!(system.try_step(1));
    assert!(system.try_step(1));
    assert!(system.check_all_released());
}

#[test]
fn a_finished_operation_has_no_further_step() {
    let ops = vec![Operation::global_order()];
    let mut system = LockSystem::new(ops);
    system.run_to_completion();
    assert!(!system.can_step(0));
    assert!(!system.try_step(0));
    assert_eq!(system.ops[0].phase, OpPhase::Released);
}
