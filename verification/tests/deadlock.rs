use rcore_os::sync::deadlock::{ensure_matrix, ensure_vec, is_safe};

#[test]
fn ensure_vec_pads_with_zeros() {
    let mut v = vec![3, -1];
    ensure_vec(&mut v, 5);
    assert_eq!(v, vec![3, -1, 0, 0, 0]);
}

#[test]
fn ensure_vec_never_shrinks() {
    let mut v = vec![1, 2, 3];
    ensure_vec(&mut v, 2);
    assert_eq!(v, vec![1, 2, 3]);
    ensure_vec(&mut v, 3);
    assert_eq!(v, vec![1, 2, 3]);
}

#[test]
fn ensure_vec_twice_is_once() {
    let mut a = vec![7];
    ensure_vec(&mut a, 4);
    let once = a.clone();
    ensure_vec(&mut a, 4);
    assert_eq!(a, once);
}

#[test]
fn ensure_matrix_adds_rows_and_widens_all() {
    let mut m = vec![vec![1], vec![2, 3, 4]];
    ensure_matrix(&mut m, 3, 2);
    assert_eq!(m, vec![vec![1, 0], vec![2, 3, 4], vec![0, 0], vec![0, 0]]);
}

#[test]
fn ensure_matrix_on_empty() {
    let mut m: Vec<Vec<i32>> = Vec::new();
    ensure_matrix(&mut m, 0, 3);
    assert_eq!(m, vec![vec![0, 0, 0]]);
}

#[test]
fn ensure_matrix_keeps_existing_rows_when_tid_present() {
    let mut m = vec![vec![5, 6], vec![7]];
    ensure_matrix(&mut m, 0, 1);
    assert_eq!(m, vec![vec![5, 6], vec![7]]);
}

#[test]
fn textbook_state_is_safe() {
    let available = [3, 3, 2];
    let allocation = vec![
        vec![0, 1, 0],
        vec![2, 0, 0],
        vec![3, 0, 2],
        vec![2, 1, 1],
        vec![0, 0, 2],
    ];
    let need = vec![
        vec![7, 4, 3],
        vec![1, 2, 2],
        vec![6, 0, 0],
        vec![0, 1, 1],
        vec![4, 3, 1],
    ];
    assert!(is_safe(&available, &allocation, &need));
}

#[test]
fn textbook_state_without_free_units_is_unsafe() {
    let available = [3, 3, 2];
    let allocation = vec![
        vec![0, 1, 0],
        vec![2, 0, 0],
        vec![3, 0, 2],
        vec![2, 1, 1],
        vec![0, 0, 2],
    ];
    let need = vec![
        vec![7, 4, 3],
        vec![1, 2, 2],
        vec![6, 0, 0],
        vec![0, 1, 1],
        vec![4, 3, 1],
    ];
    // with nothing free nobody can proceed
    let scarce = [0, 0, 0];
    assert!(!is_safe(&scarce, &allocation, &need));
    assert!(is_safe(&available, &allocation, &need));
}

#[test]
fn crossed_mutex_requests_are_unsafe() {
    // each thread holds one mutex and wants the other
    let available = [0, 0];
    let allocation = vec![vec![1, 0], vec![0, 1]];
    let need = vec![vec![0, 1], vec![1, 0]];
    assert!(!is_safe(&available, &allocation, &need));
}

#[test]
fn one_waiter_behind_a_holder_is_safe() {
    let available = [0, 0];
    let allocation = vec![vec![1, 0], vec![0, 1]];
    let need = vec![vec![0, 1], vec![0, 0]];
    assert!(is_safe(&available, &allocation, &need));
}

#[test]
fn no_threads_is_safe() {
    let available = [1];
    let allocation: Vec<Vec<i32>> = Vec::new();
    let need: Vec<Vec<i32>> = Vec::new();
    assert!(is_safe(&available, &allocation, &need));
}

#[test]
fn short_rows_read_as_zero() {
    let available = [1, 0];
    let allocation = vec![vec![], vec![1]];
    let need = vec![vec![1], vec![]];
    assert!(is_safe(&available, &allocation, &need));
}

#[test]
fn extra_need_rows_are_ignored() {
    let available = [0];
    let allocation = vec![vec![0]];
    let need = vec![vec![0], vec![9]];
    assert!(is_safe(&available, &allocation, &need));
}

#[test]
fn negative_holdings_can_hide_a_safe_order() {
    // thread 1 could finish first and free two units; the greedy scan
    // finishes thread 0 first, whose negative holding leaves -1 free
    let available = [0];
    let allocation = vec![vec![-1], vec![2]];
    let need = vec![vec![0], vec![0]];
    assert!(!is_safe(&available, &allocation, &need));
}

#[test]
fn large_totals_do_not_overflow() {
    // finishing both threads frees more than an i32 can hold
    let available = [i32::MAX - 1];
    let allocation = vec![vec![i32::MAX], vec![i32::MAX]];
    let need = vec![vec![0], vec![i32::MAX]];
    assert!(is_safe(&available, &allocation, &need));
}

#[test]
fn stuck_threads_with_large_holdings() {
    let available = [i32::MAX - 1];
    let allocation = vec![vec![1], vec![1]];
    let need = vec![vec![i32::MAX], vec![i32::MAX]];
    assert!(!is_safe(&available, &allocation, &need));
}

#[test]
fn negative_holding_decided_by_greedy_scan() {
    let available = [1];
    let allocation = vec![vec![0], vec![-1]];
    let need = vec![vec![1], vec![0]];
    assert!(is_safe(&available, &allocation, &need));
}

#[test]
fn verdict_does_not_depend_on_thread_order() {
    let available = [3, 3, 2];
    let allocation = vec![vec![0, 1, 0], vec![2, 0, 0], vec![3, 0, 2], vec![2, 1, 1], vec![0, 0, 2]];
    let need = vec![vec![7, 4, 3], vec![1, 2, 2], vec![6, 0, 0], vec![0, 1, 1], vec![4, 3, 1]];
    let order = [4, 2, 0, 3, 1];
    let a2: Vec<Vec<i32>> = order.iter().map(|&i| allocation[i].clone()).collect();
    let n2: Vec<Vec<i32>> = order.iter().map(|&i| need[i].clone()).collect();
    assert_eq!(is_safe(&available, &a2, &n2), is_safe(&available, &allocation, &need));
}
