use rcore_os::syscall::sync::{
    mutex_lock_admissible, mutex_lock_granted, semaphore_down_admissible, semaphore_down_granted,
    sys_condvar_create, sys_condvar_signal, sys_condvar_wait, sys_enable_deadlock_detect,
    sys_mutex_create, sys_mutex_lock, sys_mutex_unlock, sys_semaphore_create, sys_semaphore_down,
    sys_semaphore_up, MutexKind, ProcessSync, DEADLOCK_REFUSED,
};

fn lock(p: &mut ProcessSync, tid: usize, mid: usize) -> isize {
    assert!(mutex_lock_admissible(p, tid, mid));
    let r = sys_mutex_lock(p, tid, mid);
    if r == 0 {
        mutex_lock_granted(p, tid, mid);
    }
    r
}

fn down(p: &mut ProcessSync, tid: usize, sid: usize) -> isize {
    assert!(semaphore_down_admissible(p, tid, sid));
    let r = sys_semaphore_down(p, tid, sid);
    if r == 0 {
        semaphore_down_granted(p, tid, sid);
    }
    r
}

#[test]
fn new_process_has_nothing() {
    let p = ProcessSync::new();
    assert!(p.mutex_list.is_empty());
    assert!(p.semaphore_list.is_empty());
    assert!(p.condvar_list.is_empty());
    assert!(!p.deadlock_detect);
}

#[test]
fn mutex_create_gives_increasing_ids_and_one_free_unit() {
    let mut p = ProcessSync::new();
    assert_eq!(sys_mutex_create(&mut p, false), 0);
    assert_eq!(sys_mutex_create(&mut p, true), 1);
    assert_eq!(p.mutex_list, vec![Some(MutexKind::Spin), Some(MutexKind::Blocking)]);
    assert_eq!(p.mutex_available, vec![1, 1]);
}

#[test]
fn mutex_create_reuses_a_vacant_slot() {
    let mut p = ProcessSync::new();
    sys_mutex_create(&mut p, false);
    sys_mutex_create(&mut p, false);
    p.mutex_list[0] = None;
    p.mutex_available[0] = 0;
    assert_eq!(sys_mutex_create(&mut p, true), 0);
    assert_eq!(p.mutex_list[0], Some(MutexKind::Blocking));
    assert_eq!(p.mutex_available, vec![1, 1]);
}

#[test]
fn lock_and_unlock_without_detection() {
    let mut p = ProcessSync::new();
    sys_mutex_create(&mut p, true);
    assert_eq!(lock(&mut p, 2, 0), 0);
    assert_eq!(p.mutex_available, vec![0]);
    assert_eq!(p.mutex_allocation, vec![vec![0], vec![0], vec![1]]);
    assert_eq!(p.mutex_need, vec![vec![0], vec![0], vec![0]]);
    assert_eq!(sys_mutex_unlock(&mut p, 2, 0), 0);
    assert_eq!(p.mutex_available, vec![1]);
    assert_eq!(p.mutex_allocation, vec![vec![0], vec![0], vec![0]]);
}

#[test]
fn unlock_by_a_thread_holding_nothing_only_frees() {
    let mut p = ProcessSync::new();
    sys_mutex_create(&mut p, false);
    assert_eq!(sys_mutex_unlock(&mut p, 1, 0), 0);
    assert_eq!(p.mutex_allocation, vec![vec![0], vec![0]]);
    assert_eq!(p.mutex_available, vec![2]);
}

#[test]
fn detection_refuses_a_crossed_request() {
    let mut p = ProcessSync::new();
    assert_eq!(sys_enable_deadlock_detect(&mut p, 1), 0);
    assert!(p.deadlock_detect);
    sys_mutex_create(&mut p, true);
    sys_mutex_create(&mut p, true);
    assert_eq!(lock(&mut p, 0, 0), 0);
    assert_eq!(lock(&mut p, 1, 1), 0);
    // thread 0 waits for mutex 1: thread 1 can still finish first
    assert!(mutex_lock_admissible(&p, 0, 1));
    assert_eq!(sys_mutex_lock(&mut p, 0, 1), 0);
    assert_eq!(p.mutex_need, vec![vec![0, 1], vec![0, 0]]);
    // thread 1 now asking for mutex 0 would close the cycle
    assert!(mutex_lock_admissible(&p, 1, 0));
    assert_eq!(sys_mutex_lock(&mut p, 1, 0), DEADLOCK_REFUSED);
    assert_eq!(DEADLOCK_REFUSED, -0xdead);
    // the refused request is withdrawn
    assert_eq!(p.mutex_need, vec![vec![0, 1], vec![0, 0]]);
    assert_eq!(p.mutex_available, vec![0, 0]);
    assert_eq!(p.mutex_allocation, vec![vec![1, 0], vec![0, 1]]);
}

#[test]
fn detection_switch_rejects_other_values() {
    let mut p = ProcessSync::new();
    assert_eq!(sys_enable_deadlock_detect(&mut p, 2), -1);
    assert!(!p.deadlock_detect);
    assert_eq!(sys_enable_deadlock_detect(&mut p, 1), 0);
    assert_eq!(sys_enable_deadlock_detect(&mut p, 7), -1);
    assert!(p.deadlock_detect);
    assert_eq!(sys_enable_deadlock_detect(&mut p, 0), 0);
    assert!(!p.deadlock_detect);
}

#[test]
fn granted_lock_clears_pending_request() {
    let mut p = ProcessSync::new();
    sys_enable_deadlock_detect(&mut p, 1);
    sys_mutex_create(&mut p, false);
    assert_eq!(sys_mutex_lock(&mut p, 0, 0), 0);
    assert_eq!(p.mutex_need, vec![vec![1]]);
    mutex_lock_granted(&mut p, 0, 0);
    assert_eq!(p.mutex_need, vec![vec![0]]);
    assert_eq!(p.mutex_allocation, vec![vec![1]]);
    assert_eq!(p.mutex_available, vec![0]);
}

#[test]
fn semaphore_create_mirrors_count() {
    let mut p = ProcessSync::new();
    assert_eq!(sys_semaphore_create(&mut p, 3), 0);
    assert_eq!(sys_semaphore_create(&mut p, 0), 1);
    assert_eq!(p.semaphore_list, vec![Some(3), Some(0)]);
    assert_eq!(p.sem_count, vec![3, 0]);
}

#[test]
fn semaphore_down_and_up() {
    let mut p = ProcessSync::new();
    sys_semaphore_create(&mut p, 1);
    assert_eq!(down(&mut p, 0, 0), 0);
    assert_eq!(p.sem_count, vec![0]);
    assert_eq!(p.sem_allocation, vec![vec![1]]);
    assert_eq!(sys_semaphore_up(&mut p, 0, 0), 0);
    assert_eq!(p.sem_count, vec![1]);
    assert_eq!(p.sem_allocation, vec![vec![0]]);
}

#[test]
fn semaphore_up_by_non_holder_raises_count_only() {
    let mut p = ProcessSync::new();
    sys_semaphore_create(&mut p, 0);
    assert_eq!(sys_semaphore_up(&mut p, 1, 0), 0);
    assert_eq!(p.sem_count, vec![1]);
    assert_eq!(p.sem_allocation, vec![vec![0], vec![0]]);
}

#[test]
fn detection_refuses_semaphore_cycle() {
    let mut p = ProcessSync::new();
    sys_enable_deadlock_detect(&mut p, 1);
    sys_semaphore_create(&mut p, 1);
    sys_semaphore_create(&mut p, 1);
    assert_eq!(down(&mut p, 0, 0), 0);
    assert_eq!(down(&mut p, 1, 1), 0);
    assert_eq!(sys_semaphore_down(&mut p, 0, 1), 0);
    assert_eq!(p.sem_need, vec![vec![0, 1], vec![0, 0]]);
    assert_eq!(sys_semaphore_down(&mut p, 1, 0), DEADLOCK_REFUSED);
    assert_eq!(p.sem_need, vec![vec![0, 1], vec![0, 0]]);
}

#[test]
fn negative_semaphore_count_counts_as_no_free_unit() {
    let mut p = ProcessSync::new();
    sys_enable_deadlock_detect(&mut p, 1);
    sys_semaphore_create(&mut p, 0);
    p.sem_count[0] = -2;
    // nobody holds a unit, so a thread waiting for one can never finish
    assert!(semaphore_down_admissible(&p, 0, 0));
    assert_eq!(sys_semaphore_down(&mut p, 0, 0), DEADLOCK_REFUSED);
}

#[test]
fn condvars_are_created_and_used() {
    let mut p = ProcessSync::new();
    assert_eq!(sys_condvar_create(&mut p), 0);
    assert_eq!(sys_condvar_create(&mut p), 1);
    sys_mutex_create(&mut p, true);
    assert_eq!(sys_condvar_signal(&p, 1), 0);
    assert_eq!(sys_condvar_wait(&p, 0, 0), 0);
    p.condvar_list[0] = None;
    assert_eq!(sys_condvar_create(&mut p), 0);
    assert_eq!(p.condvar_list.len(), 2);
}

#[test]
fn admissibility_rejects_missing_objects() {
    let mut p = ProcessSync::new();
    assert!(!mutex_lock_admissible(&p, 0, 0));
    assert!(!semaphore_down_admissible(&p, 0, 0));
    sys_mutex_create(&mut p, false);
    assert!(mutex_lock_admissible(&p, 0, 0));
    assert!(!mutex_lock_admissible(&p, usize::MAX, 0));
}

#[test]
fn admissibility_rejects_unchecked_banker_shape() {
    let mut p = ProcessSync::new();
    sys_enable_deadlock_detect(&mut p, 1);
    sys_semaphore_create(&mut p, 0);
    // thread 3 raised the semaphore, so it has a holdings row but no
    // pending row; a request by thread 1 could not be checked
    sys_semaphore_up(&mut p, 3, 0);
    assert!(!semaphore_down_admissible(&p, 1, 0));
    assert!(semaphore_down_admissible(&p, 3, 0));
}

fn total_units(p: &ProcessSync, mid: usize) -> i64 {
    let held: i64 = p.mutex_allocation.iter().map(|row| row.get(mid).copied().unwrap_or(0) as i64).sum();
    p.mutex_available[mid] as i64 + held
}

#[test]
fn free_plus_held_units_stay_one_per_mutex() {
    let mut p = ProcessSync::new();
    sys_enable_deadlock_detect(&mut p, 1);
    sys_mutex_create(&mut p, true);
    sys_mutex_create(&mut p, false);
    assert_eq!(total_units(&p, 0), 1);
    assert_eq!(lock(&mut p, 3, 0), 0);
    assert_eq!(total_units(&p, 0), 1);
    assert_eq!(lock(&mut p, 1, 1), 0);
    assert_eq!(total_units(&p, 1), 1);
    sys_mutex_unlock(&mut p, 3, 0);
    assert_eq!(total_units(&p, 0), 1);
    assert_eq!(p.mutex_available, vec![1, 0]);
    // holdings never go negative
    sys_mutex_unlock(&mut p, 3, 0);
    assert!(p.mutex_allocation.iter().all(|row| row.iter().all(|&x| x >= 0)));
}

#[test]
fn lock_then_unlock_restores_holdings() {
    let mut p = ProcessSync::new();
    sys_mutex_create(&mut p, true);
    assert_eq!(lock(&mut p, 0, 0), 0);
    sys_mutex_unlock(&mut p, 0, 0);
    assert_eq!(p.mutex_allocation, vec![vec![0]]);
    assert_eq!(p.mutex_available, vec![1]);
    assert_eq!(p.mutex_need, vec![vec![0]]);
}

#[test]
fn down_then_up_restores_counts() {
    let mut p = ProcessSync::new();
    sys_enable_deadlock_detect(&mut p, 1);
    sys_semaphore_create(&mut p, 2);
    assert_eq!(down(&mut p, 1, 0), 0);
    assert_eq!(sys_semaphore_up(&mut p, 1, 0), 0);
    assert_eq!(p.sem_count, vec![2]);
    assert_eq!(p.sem_allocation, vec![vec![0], vec![0]]);
    assert_eq!(p.sem_need, vec![vec![0], vec![0]]);
}

#[test]
fn negative_holding_request_accepted_when_greedy_scan_passes() {
    let mut p = ProcessSync::new();
    sys_enable_deadlock_detect(&mut p, 1);
    sys_mutex_create(&mut p, true);
    p.mutex_allocation = vec![vec![0], vec![-1]];
    p.mutex_need = vec![vec![0], vec![0]];
    assert!(mutex_lock_admissible(&p, 0, 0));
    assert_eq!(sys_mutex_lock(&mut p, 0, 0), 0);
}

#[test]
fn negative_and_zero_count_decide_alike() {
    let mut a = ProcessSync::new();
    sys_enable_deadlock_detect(&mut a, 1);
    sys_semaphore_create(&mut a, 0);
    sys_semaphore_create(&mut a, 1);
    let mut b = ProcessSync::new();
    sys_enable_deadlock_detect(&mut b, 1);
    sys_semaphore_create(&mut b, 0);
    sys_semaphore_create(&mut b, 1);
    a.sem_count[0] = -3;
    assert_eq!(sys_semaphore_down(&mut a, 0, 0), sys_semaphore_down(&mut b, 0, 0));
    assert_eq!(sys_semaphore_down(&mut a, 0, 1), sys_semaphore_down(&mut b, 0, 1));
}
