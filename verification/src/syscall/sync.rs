//! Synchronization syscalls: the bookkeeping a process keeps on its mutexes,
//! semaphores and condition variables, and the banker's check that refuses a
//! request that could deadlock.
//!
//! The blocking itself (taking a mutex, waiting on a semaphore or condition
//! variable, waking a waiter) is done by the kernel objects that the caller
//! keeps beside this state, slot for slot. Each call here states what that
//! caller does next:
//! - `sys_mutex_lock` / `sys_semaphore_down` return `-0xdead` when the request
//!   is refused; on `0` the caller blocks on the object and, once it holds
//!   it, calls `mutex_lock_granted` / `semaphore_down_granted`.
//! - `sys_mutex_unlock` / `sys_semaphore_up` record the release; the caller
//!   then releases the object.
//! - `sys_condvar_signal` / `sys_condvar_wait` check that the objects exist;
//!   the caller then signals or waits.
use vstd::prelude::*;

use crate::sync::deadlock::{
    cell, ensure_matrix, ensure_vec, greedy_safe, grown, grown_matrix, holdings_nonnegative, is_safe, row_of, rows,
    safe_state,
};

verus! {

/// Code returned to a thread whose request would leave the process unsafe.
pub const DEADLOCK_REFUSED: isize = -0xdead;

/// The two kinds of mutex a process can create.
#[derive(Clone, Copy, Debug, PartialEq, Eq)]
pub enum MutexKind {
    /// Waits by yielding the processor and trying again.
    Spin,
    /// Waits in the mutex's queue until it is handed over.
    Blocking,
}

/// The synchronization state of one process.
///
/// Slot `k` of `mutex_list`, `semaphore_list` and `condvar_list` is `None`
/// when vacant. The banker's vectors and matrices are indexed by resource id
/// (columns) and thread id (rows) and grow on demand.
pub struct ProcessSync {
    /// Mutexes by id, with their kind.
    pub mutex_list: Vec<Option<MutexKind>>,
    /// Semaphores by id, with the count each was created with.
    pub semaphore_list: Vec<Option<usize>>,
    /// Condition variables by id.
    pub condvar_list: Vec<Option<()>>,
    /// Whether requests go through the banker's check.
    pub deadlock_detect: bool,
    /// Free units of each mutex.
    pub mutex_available: Vec<i32>,
    /// `[tid][mid]`: units of a mutex that a thread holds.
    pub mutex_allocation: Vec<Vec<i32>>,
    /// `[tid][mid]`: units of a mutex that a thread waits for.
    pub mutex_need: Vec<Vec<i32>>,
    /// Count of each semaphore (negative while threads wait on it).
    pub sem_count: Vec<i32>,
    /// `[tid][sid]`: successful downs of a thread, less its ups.
    pub sem_allocation: Vec<Vec<i32>>,
    /// `[tid][sid]`: downs of a thread that are still pending.
    pub sem_need: Vec<Vec<i32>>,
}

// ---------------------------------------------------------------------------
// Model
// ---------------------------------------------------------------------------

/// `k` is the first vacant slot of `s`, or `s.len()` if none is vacant.
pub open spec fn first_vacant<T>(s: Seq<Option<T>>, k: int) -> bool {
    &&& 0 <= k <= s.len()
    &&& k < s.len() ==> s[k] is None
    &&& forall|i: int| 0 <= i < k ==> #[trigger] s[i] is Some
}

/// `s` with `v` put in slot `k`, appended when `k` is past the end.
pub open spec fn filled<T>(s: Seq<Option<T>>, k: int, v: T) -> Seq<Option<T>> {
    if k < s.len() {
        s.update(k, Some(v))
    } else {
        s.push(Some(v))
    }
}

/// Entry `[i][j]` of `m` changed by `delta`.
pub open spec fn bumped(m: Seq<Seq<i32>>, i: int, j: int, delta: int) -> Seq<Seq<i32>> {
    m.update(i, m[i].update(j, (m[i][j] + delta) as i32))
}

/// Entry `[i][j]` of `m` lowered by one when it is positive.
pub open spec fn released(m: Seq<Seq<i32>>, i: int, j: int) -> Seq<Seq<i32>> {
    if m[i][j] > 0 {
        bumped(m, i, j, -1)
    } else {
        m
    }
}

/// The free units of each semaphore: its count, or zero while threads wait.
pub open spec fn free_units(count: Seq<i32>) -> Seq<i32> {
    Seq::new(count.len(), |k: int| if count[k] > 0 { count[k] } else { 0i32 })
}

/// The kind of mutex a `blocking` flag asks for.
pub open spec fn kind_of(blocking: bool) -> MutexKind {
    if blocking {
        MutexKind::Blocking
    } else {
        MutexKind::Spin
    }
}

/// What counting a request of thread `tid` for resource `id` as pending and
/// checking it needs: the pending count can rise, and every thread that
/// holds resources has a row of pending requests once the thread's own row
/// exists.
pub open spec fn request_fits(alloc: Seq<Vec<i32>>, need: Seq<Vec<i32>>, tid: usize, id: usize) -> bool {
    &&& cell(row_of(need, tid as int), id as int) < i32::MAX
    &&& (need.len() >= alloc.len() || alloc.len() <= tid + 1)
}

impl ProcessSync {
    /// The inputs on which `sys_mutex_lock` is defined.
    pub open spec fn mutex_lock_ok(&self, tid: usize, mutex_id: usize) -> bool {
        &&& tid < usize::MAX
        &&& mutex_id < self.mutex_list@.len()
        &&& self.mutex_list@[mutex_id as int] is Some
        &&& self.deadlock_detect ==> request_fits(
            self.mutex_allocation@,
            self.mutex_need@,
            tid,
            mutex_id,
        )
    }

    /// The inputs on which `sys_semaphore_down` is defined.
    pub open spec fn semaphore_down_ok(&self, tid: usize, sem_id: usize) -> bool {
        &&& tid < usize::MAX
        &&& sem_id < self.semaphore_list@.len()
        &&& self.semaphore_list@[sem_id as int] is Some
        &&& self.deadlock_detect ==> request_fits(
            self.sem_allocation@,
            self.sem_need@,
            tid,
            sem_id,
        )
    }

    /// Nothing of the mutexes changed between `self` and `other`.
    pub open spec fn same_mutexes(&self, other: &Self) -> bool {
        &&& other.mutex_list@ == self.mutex_list@
        &&& other.mutex_available@ == self.mutex_available@
        &&& rows(other.mutex_allocation@) == rows(self.mutex_allocation@)
        &&& rows(other.mutex_need@) == rows(self.mutex_need@)
    }

    /// Nothing of the semaphores changed between `self` and `other`.
    pub open spec fn same_semaphores(&self, other: &Self) -> bool {
        &&& other.semaphore_list@ == self.semaphore_list@
        &&& other.sem_count@ == self.sem_count@
        &&& rows(other.sem_allocation@) == rows(self.sem_allocation@)
        &&& rows(other.sem_need@) == rows(self.sem_need@)
    }

    /// Nothing of the condition variables or the detection switch changed.
    pub open spec fn same_condvars_and_switch(&self, other: &Self) -> bool {
        &&& other.condvar_list@ == self.condvar_list@
        &&& other.deadlock_detect == self.deadlock_detect
    }

    /// A process with no synchronization objects and detection off.
    pub fn new() -> (p: Self)
        ensures
            p.mutex_list@.len() == 0,
            p.semaphore_list@.len() == 0,
            p.condvar_list@.len() == 0,
            !p.deadlock_detect,
            p.mutex_available@.len() == 0,
            p.mutex_allocation@.len() == 0,
            p.mutex_need@.len() == 0,
            p.sem_count@.len() == 0,
            p.sem_allocation@.len() == 0,
            p.sem_need@.len() == 0,
    {
        ProcessSync {
            mutex_list: Vec::new(),
            semaphore_list: Vec::new(),
            condvar_list: Vec::new(),
            deadlock_detect: false,
            mutex_available: Vec::new(),
            mutex_allocation: Vec::new(),
            mutex_need: Vec::new(),
            sem_count: Vec::new(),
            sem_allocation: Vec::new(),
            sem_need: Vec::new(),
        }
    }
}

// ---------------------------------------------------------------------------
// Helpers
// ---------------------------------------------------------------------------

/// Index of the first vacant slot of `list`, or its length if none is vacant.
fn first_vacant_slot<T>(list: &Vec<Option<T>>) -> (k: usize)
    ensures
        first_vacant(list@, k as int),
{
    let mut i: usize = 0;
    while i < list.len()
        invariant
            0 <= i <= list@.len(),
            forall|j: int| 0 <= j < i ==> #[trigger] list@[j] is Some,
        decreases list@.len() - i,
    {
        if list[i].is_none() {
            return i;
        }
        i = i + 1;
    }
    i
}

/// Put `v` in the first vacant slot of `list`, or append it; return the slot.
fn fill_first_vacant<T>(list: &mut Vec<Option<T>>, v: T) -> (k: usize)
    ensures
        first_vacant(old(list)@, k as int),
        final(list)@ == filled(old(list)@, k as int, v),
{
    let k = first_vacant_slot(list);
    if k < list.len() {
        list.set(k, Some(v));
        k
    } else {
        list.push(Some(v));
        k
    }
}

/// Change entry `[i][j]` of `m` by `delta`.
fn add_entry(m: &mut Vec<Vec<i32>>, i: usize, j: usize, delta: i32)
    requires
        i < old(m)@.len(),
        j < old(m)@[i as int]@.len(),
        i32::MIN <= old(m)@[i as int]@[j as int] + delta <= i32::MAX,
    ensures
        final(m)@.len() == old(m)@.len(),
        rows(final(m)@) == bumped(rows(old(m)@), i as int, j as int, delta as int),
{
    let v = m[i][j] + delta;
    m[i].set(j, v);
    assert(rows(m@) =~= bumped(rows(old(m)@), i as int, j as int, delta as int));
}

/// Each count clamped below at zero.
fn clamp_to_free(count: &Vec<i32>) -> (free: Vec<i32>)
    ensures
        free@ == free_units(count@),
{
    let mut free: Vec<i32> = Vec::new();
    let mut k: usize = 0;
    while k < count.len()
        invariant
            0 <= k <= count@.len(),
            free@ == free_units(count@).take(k as int),
        decreases count@.len() - k,
    {
        let c = count[k];
        free.push(if c > 0 { c } else { 0 });
        assert(free@ =~= free_units(count@).take(k + 1));
        k = k + 1;
    }
    assert(free_units(count@).take(count@.len() as int) =~= free_units(count@));
    free
}

/// With detection off, a lock or a down may be asked for by any thread id
/// that can be grown to, on any existing object: no banker's shape or count
/// matters then. With detection on or off, only existing objects qualify.
pub proof fn law_admissible_without_detection(p: ProcessSync, tid: usize, id: usize)
    ensures
        !p.deadlock_detect ==> (p.mutex_lock_ok(tid, id) <==> (tid < usize::MAX && id
            < p.mutex_list@.len() && p.mutex_list@[id as int] is Some)),
        !p.deadlock_detect ==> (p.semaphore_down_ok(tid, id) <==> (tid < usize::MAX && id
            < p.semaphore_list@.len() && p.semaphore_list@[id as int] is Some)),
        p.mutex_lock_ok(tid, id) ==> tid < usize::MAX && id < p.mutex_list@.len()
            && p.mutex_list@[id as int] is Some,
        p.semaphore_down_ok(tid, id) ==> tid < usize::MAX && id < p.semaphore_list@.len()
            && p.semaphore_list@[id as int] is Some,
{
}

/// Whether `request_fits` holds.
fn request_fits_check(alloc: &Vec<Vec<i32>>, need: &Vec<Vec<i32>>, tid: usize, id: usize) -> (fits: bool)
    requires
        tid < usize::MAX,
    ensures
        fits == request_fits(alloc@, need@, tid, id),
{
    let pending: i32 = if tid < need.len() && id < need[tid].len() {
        need[tid][id]
    } else {
        0
    };
    pending < i32::MAX && (need.len() >= alloc.len() || alloc.len() <= tid + 1)
}

// ---------------------------------------------------------------------------
// Mutexes
// ---------------------------------------------------------------------------

/// Create a mutex of the kind `blocking` asks for in the first vacant slot,
/// record one free unit of it, and return its id.
pub fn sys_mutex_create(p: &mut ProcessSync, blocking: bool) -> (id: isize)
    requires
        old(p).mutex_list@.len() < isize::MAX,
    ensures
        first_vacant(old(p).mutex_list@, id as int),
        final(p).mutex_list@ == filled(old(p).mutex_list@, id as int, kind_of(blocking)),
        final(p).mutex_available@ == grown(old(p).mutex_available@, (id + 1) as nat).update(
            id as int,
            1,
        ),
        rows(final(p).mutex_allocation@) == rows(old(p).mutex_allocation@),
        rows(final(p).mutex_need@) == rows(old(p).mutex_need@),
        old(p).same_semaphores(final(p)),
        old(p).same_condvars_and_switch(final(p)),
{
    let kind = if !blocking {
        MutexKind::Spin
    } else {
        MutexKind::Blocking
    };
    let id = fill_first_vacant(&mut p.mutex_list, kind);
    // record this new mutex as available for the banker's algorithm
    ensure_vec(&mut p.mutex_available, id + 1);
    p.mutex_available.set(id, 1);
    id as isize
}

/// Register thread `tid`'s request for mutex `mutex_id`.
///
/// The banker's vectors are first grown to cover every mutex and the thread.
/// With detection on, the request is counted as pending and the state is
/// checked: when unsafe, the request is withdrawn and `-0xdead` returned.
/// Otherwise `0` is returned and the request stays pending; the caller then
/// takes the mutex and calls `mutex_lock_granted`.
pub fn sys_mutex_lock(p: &mut ProcessSync, tid: usize, mutex_id: usize) -> (r: isize)
    requires
        old(p).mutex_lock_ok(tid, mutex_id),
    ensures
        final(p).mutex_list@ == old(p).mutex_list@,
        final(p).mutex_available@ == grown(old(p).mutex_available@, old(p).mutex_list@.len()),
        rows(final(p).mutex_allocation@) == grown_matrix(
            old(p).mutex_allocation@,
            tid as nat,
            old(p).mutex_list@.len(),
        ),
        r == 0 || r == DEADLOCK_REFUSED,
        !old(p).deadlock_detect ==> r == 0,
        (!old(p).deadlock_detect || r == DEADLOCK_REFUSED) ==> rows(final(p).mutex_need@)
            == grown_matrix(old(p).mutex_need@, tid as nat, old(p).mutex_list@.len()),
        old(p).deadlock_detect && r == 0 ==> rows(final(p).mutex_need@) == bumped(
            grown_matrix(old(p).mutex_need@, tid as nat, old(p).mutex_list@.len()),
            tid as int,
            mutex_id as int,
            1,
        ),
        old(p).deadlock_detect ==> (r == 0 <==> greedy_safe(
            final(p).mutex_available@,
            rows(final(p).mutex_allocation@),
            bumped(
                grown_matrix(old(p).mutex_need@, tid as nat, old(p).mutex_list@.len()),
                tid as int,
                mutex_id as int,
                1,
            ),
        )),
        old(p).deadlock_detect && r == 0 ==> safe_state(
            final(p).mutex_available@,
            rows(final(p).mutex_allocation@),
            rows(final(p).mutex_need@),
        ),
        old(p).deadlock_detect && holdings_nonnegative(
            final(p).mutex_available@,
            rows(final(p).mutex_allocation@),
        ) && safe_state(
            final(p).mutex_available@,
            rows(final(p).mutex_allocation@),
            bumped(
                grown_matrix(old(p).mutex_need@, tid as nat, old(p).mutex_list@.len()),
                tid as int,
                mutex_id as int,
                1,
            ),
        ) ==> r == 0,
        old(p).same_semaphores(final(p)),
        old(p).same_condvars_and_switch(final(p)),
{
    let mid = mutex_id;
    let n_res = p.mutex_list.len();
    ensure_vec(&mut p.mutex_available, n_res);
    ensure_matrix(&mut p.mutex_allocation, tid, n_res);
    ensure_matrix(&mut p.mutex_need, tid, n_res);
    assert(p.mutex_need@.len() == rows(p.mutex_need@).len());
    assert(p.mutex_allocation@.len() == rows(p.mutex_allocation@).len());
    assert(rows(p.mutex_need@)[tid as int] == p.mutex_need@[tid as int]@);
    if p.deadlock_detect {
        // tentatively register the request and run the banker's check
        add_entry(&mut p.mutex_need, tid, mid, 1);
        let safe = is_safe(
            p.mutex_available.as_slice(),
            p.mutex_allocation.as_slice(),
            p.mutex_need.as_slice(),
        );
        if !safe {
            let ghost g = grown_matrix(old(p).mutex_need@, tid as nat, n_res as nat);
            assert(rows(p.mutex_need@)[tid as int] == p.mutex_need@[tid as int]@);
            add_entry(&mut p.mutex_need, tid, mid, -1);
            assert(rows(p.mutex_need@)[tid as int] =~= g[tid as int]);
            assert(rows(p.mutex_need@) =~= g);
            return DEADLOCK_REFUSED;
        }
    }
    0
}

/// Whether `sys_mutex_lock` may be called on these inputs: the thread id
/// can be grown to, the mutex exists and, with detection on, the request can
/// be counted and checked.
pub fn mutex_lock_admissible(p: &ProcessSync, tid: usize, mutex_id: usize) -> (ok: bool)
    ensures
        ok == p.mutex_lock_ok(tid, mutex_id),
        !p.deadlock_detect ==> (ok <==> (tid < usize::MAX && mutex_id < p.mutex_list@.len()
            && p.mutex_list@[mutex_id as int] is Some)),
        ok ==> tid < usize::MAX && mutex_id < p.mutex_list@.len() && p.mutex_list@[mutex_id as int] is Some,
{
    proof {
        law_admissible_without_detection(*p, tid, mutex_id);
    }
    let n = p.mutex_list.len();
    if tid == usize::MAX || mutex_id >= n || p.mutex_list[mutex_id].is_none() {
        return false;
    }
    if !p.deadlock_detect {
        return true;
    }
    request_fits_check(&p.mutex_allocation, &p.mutex_need, tid, mutex_id)
}

/// Record that thread `tid` now holds mutex `mutex_id`: the pending request
/// (counted only while detection is on) becomes a held unit, and one free
/// unit fewer remains.
pub fn mutex_lock_granted(p: &mut ProcessSync, tid: usize, mutex_id: usize)
    requires
        tid < old(p).mutex_allocation@.len(),
        mutex_id < old(p).mutex_allocation@[tid as int]@.len(),
        old(p).mutex_allocation@[tid as int]@[mutex_id as int] < i32::MAX,
        mutex_id < old(p).mutex_available@.len(),
        old(p).mutex_available@[mutex_id as int] > i32::MIN,
        old(p).deadlock_detect ==> tid < old(p).mutex_need@.len(),
        old(p).deadlock_detect ==> mutex_id < old(p).mutex_need@[tid as int]@.len(),
        old(p).deadlock_detect ==> old(p).mutex_need@[tid as int]@[mutex_id as int] > i32::MIN,
    ensures
        final(p).mutex_list@ == old(p).mutex_list@,
        old(p).deadlock_detect ==> rows(final(p).mutex_need@) == bumped(
            rows(old(p).mutex_need@),
            tid as int,
            mutex_id as int,
            -1,
        ),
        !old(p).deadlock_detect ==> rows(final(p).mutex_need@) == rows(old(p).mutex_need@),
        rows(final(p).mutex_allocation@) == bumped(
            rows(old(p).mutex_allocation@),
            tid as int,
            mutex_id as int,
            1,
        ),
        final(p).mutex_available@ == old(p).mutex_available@.update(
            mutex_id as int,
            (old(p).mutex_available@[mutex_id as int] - 1) as i32,
        ),
        old(p).same_semaphores(final(p)),
        old(p).same_condvars_and_switch(final(p)),
{
    let mid = mutex_id;
    // request granted: move the unit from need to allocation
    if p.deadlock_detect {
        add_entry(&mut p.mutex_need, tid, mid, -1);
    }
    add_entry(&mut p.mutex_allocation, tid, mid, 1);
    let free = p.mutex_available[mid] - 1;
    p.mutex_available.set(mid, free);
}

/// Record that thread `tid` releases mutex `mutex_id`: the thread holds one
/// unit fewer (if it held any) and one more unit is free. Returns `0`; the
/// caller then releases the mutex itself.
pub fn sys_mutex_unlock(p: &mut ProcessSync, tid: usize, mutex_id: usize) -> (r: isize)
    requires
        tid < usize::MAX,
        mutex_id < old(p).mutex_list@.len(),
        old(p).mutex_list@[mutex_id as int] is Some,
        grown(old(p).mutex_available@, old(p).mutex_list@.len())[mutex_id as int] < i32::MAX,
    ensures
        r == 0,
        final(p).mutex_list@ == old(p).mutex_list@,
        rows(final(p).mutex_allocation@) == released(
            grown_matrix(old(p).mutex_allocation@, tid as nat, old(p).mutex_list@.len()),
            tid as int,
            mutex_id as int,
        ),
        final(p).mutex_available@ == grown(old(p).mutex_available@, old(p).mutex_list@.len()).update(
            mutex_id as int,
            (grown(old(p).mutex_available@, old(p).mutex_list@.len())[mutex_id as int] + 1) as i32,
        ),
        rows(final(p).mutex_need@) == rows(old(p).mutex_need@),
        old(p).same_semaphores(final(p)),
        old(p).same_condvars_and_switch(final(p)),
{
    let mid = mutex_id;
    let n_res = p.mutex_list.len();
    ensure_matrix(&mut p.mutex_allocation, tid, n_res);
    assert(p.mutex_allocation@.len() == rows(p.mutex_allocation@).len());
    assert(rows(p.mutex_allocation@)[tid as int] == p.mutex_allocation@[tid as int]@);
    if p.mutex_allocation[tid][mid] > 0 {
        add_entry(&mut p.mutex_allocation, tid, mid, -1);
    }
    ensure_vec(&mut p.mutex_available, n_res);
    let free = p.mutex_available[mid] + 1;
    p.mutex_available.set(mid, free);
    0
}

// ---------------------------------------------------------------------------
// Semaphores
// ---------------------------------------------------------------------------

/// Create a semaphore with `res_count` units in the first vacant slot,
/// mirror its count, and return its id.
pub fn sys_semaphore_create(p: &mut ProcessSync, res_count: usize) -> (id: isize)
    requires
        old(p).semaphore_list@.len() < isize::MAX,
    ensures
        first_vacant(old(p).semaphore_list@, id as int),
        final(p).semaphore_list@ == filled(old(p).semaphore_list@, id as int, res_count),
        final(p).sem_count@ == grown(old(p).sem_count@, (id + 1) as nat).update(
            id as int,
            res_count as i32,
        ),
        rows(final(p).sem_allocation@) == rows(old(p).sem_allocation@),
        rows(final(p).sem_need@) == rows(old(p).sem_need@),
        old(p).same_mutexes(final(p)),
        old(p).same_condvars_and_switch(final(p)),
{
    let id = fill_first_vacant(&mut p.semaphore_list, res_count);
    // mirror semaphore count for the banker's algorithm
    ensure_vec(&mut p.sem_count, id + 1);
    p.sem_count.set(id, res_count as i32);
    id as isize
}

/// Record that thread `tid` releases a unit of semaphore `sem_id`: the
/// thread holds one unit fewer (if it held any) and the count rises by one.
/// Returns `0`; the caller then raises the semaphore itself.
pub fn sys_semaphore_up(p: &mut ProcessSync, tid: usize, sem_id: usize) -> (r: isize)
    requires
        tid < usize::MAX,
        sem_id < old(p).semaphore_list@.len(),
        old(p).semaphore_list@[sem_id as int] is Some,
        grown(old(p).sem_count@, old(p).semaphore_list@.len())[sem_id as int] < i32::MAX,
    ensures
        r == 0,
        final(p).semaphore_list@ == old(p).semaphore_list@,
        rows(final(p).sem_allocation@) == released(
            grown_matrix(old(p).sem_allocation@, tid as nat, old(p).semaphore_list@.len()),
            tid as int,
            sem_id as int,
        ),
        final(p).sem_count@ == grown(old(p).sem_count@, old(p).semaphore_list@.len()).update(
            sem_id as int,
            (grown(old(p).sem_count@, old(p).semaphore_list@.len())[sem_id as int] + 1) as i32,
        ),
        rows(final(p).sem_need@) == rows(old(p).sem_need@),
        old(p).same_mutexes(final(p)),
        old(p).same_condvars_and_switch(final(p)),
{
    let sid = sem_id;
    let n_res = p.semaphore_list.len();
    ensure_matrix(&mut p.sem_allocation, tid, n_res);
    assert(p.sem_allocation@.len() == rows(p.sem_allocation@).len());
    assert(rows(p.sem_allocation@)[tid as int] == p.sem_allocation@[tid as int]@);
    if p.sem_allocation[tid][sid] > 0 {
        add_entry(&mut p.sem_allocation, tid, sid, -1);
    }
    ensure_vec(&mut p.sem_count, n_res);
    let count = p.sem_count[sid] + 1;
    p.sem_count.set(sid, count);
    0
}

/// Register thread `tid`'s request for a unit of semaphore `sem_id`.
///
/// The banker's vectors are first grown to cover every semaphore and the
/// thread. With detection on, the request is counted as pending and the
/// state is checked against the free units (counts clamped at zero): when
/// unsafe, the request is withdrawn and `-0xdead` returned. Otherwise `0` is
/// returned and the request stays pending; the caller then lowers the
/// semaphore and calls `semaphore_down_granted`.
pub fn sys_semaphore_down(p: &mut ProcessSync, tid: usize, sem_id: usize) -> (r: isize)
    requires
        old(p).semaphore_down_ok(tid, sem_id),
    ensures
        final(p).semaphore_list@ == old(p).semaphore_list@,
        final(p).sem_count@ == grown(old(p).sem_count@, old(p).semaphore_list@.len()),
        rows(final(p).sem_allocation@) == grown_matrix(
            old(p).sem_allocation@,
            tid as nat,
            old(p).semaphore_list@.len(),
        ),
        r == 0 || r == DEADLOCK_REFUSED,
        !old(p).deadlock_detect ==> r == 0,
        (!old(p).deadlock_detect || r == DEADLOCK_REFUSED) ==> rows(final(p).sem_need@)
            == grown_matrix(old(p).sem_need@, tid as nat, old(p).semaphore_list@.len()),
        old(p).deadlock_detect && r == 0 ==> rows(final(p).sem_need@) == bumped(
            grown_matrix(old(p).sem_need@, tid as nat, old(p).semaphore_list@.len()),
            tid as int,
            sem_id as int,
            1,
        ),
        old(p).deadlock_detect ==> (r == 0 <==> greedy_safe(
            free_units(final(p).sem_count@),
            rows(final(p).sem_allocation@),
            bumped(
                grown_matrix(old(p).sem_need@, tid as nat, old(p).semaphore_list@.len()),
                tid as int,
                sem_id as int,
                1,
            ),
        )),
        old(p).deadlock_detect && r == 0 ==> safe_state(
            free_units(final(p).sem_count@),
            rows(final(p).sem_allocation@),
            rows(final(p).sem_need@),
        ),
        old(p).deadlock_detect && holdings_nonnegative(
            free_units(final(p).sem_count@),
            rows(final(p).sem_allocation@),
        ) && safe_state(
            free_units(final(p).sem_count@),
            rows(final(p).sem_allocation@),
            bumped(
                grown_matrix(old(p).sem_need@, tid as nat, old(p).semaphore_list@.len()),
                tid as int,
                sem_id as int,
                1,
            ),
        ) ==> r == 0,
        old(p).same_mutexes(final(p)),
        old(p).same_condvars_and_switch(final(p)),
{
    let sid = sem_id;
    let n_res = p.semaphore_list.len();
    ensure_vec(&mut p.sem_count, n_res);
    ensure_matrix(&mut p.sem_allocation, tid, n_res);
    ensure_matrix(&mut p.sem_need, tid, n_res);
    assert(p.sem_need@.len() == rows(p.sem_need@).len());
    assert(p.sem_allocation@.len() == rows(p.sem_allocation@).len());
    assert(rows(p.sem_need@)[tid as int] == p.sem_need@[tid as int]@);
    if p.deadlock_detect {
        // tentatively register the request, then check safety based on the
        // currently-free units (sem_count clamped to non-negative)
        add_entry(&mut p.sem_need, tid, sid, 1);
        let available = clamp_to_free(&p.sem_count);
        let safe = is_safe(
            available.as_slice(),
            p.sem_allocation.as_slice(),
            p.sem_need.as_slice(),
        );
        if !safe {
            let ghost g = grown_matrix(old(p).sem_need@, tid as nat, n_res as nat);
            assert(rows(p.sem_need@)[tid as int] == p.sem_need@[tid as int]@);
            add_entry(&mut p.sem_need, tid, sid, -1);
            assert(rows(p.sem_need@)[tid as int] =~= g[tid as int]);
            assert(rows(p.sem_need@) =~= g);
            return DEADLOCK_REFUSED;
        }
    }
    0
}

/// Whether `sys_semaphore_down` may be called on these inputs: the thread
/// id can be grown to, the semaphore exists and, with detection on, the
/// request can be counted and checked.
pub fn semaphore_down_admissible(p: &ProcessSync, tid: usize, sem_id: usize) -> (ok: bool)
    ensures
        ok == p.semaphore_down_ok(tid, sem_id),
        !p.deadlock_detect ==> (ok <==> (tid < usize::MAX && sem_id < p.semaphore_list@.len()
            && p.semaphore_list@[sem_id as int] is Some)),
        ok ==> tid < usize::MAX && sem_id < p.semaphore_list@.len() && p.semaphore_list@[sem_id as int] is Some,
{
    proof {
        law_admissible_without_detection(*p, tid, sem_id);
    }
    let n = p.semaphore_list.len();
    if tid == usize::MAX || sem_id >= n || p.semaphore_list[sem_id].is_none() {
        return false;
    }
    if !p.deadlock_detect {
        return true;
    }
    request_fits_check(&p.sem_allocation, &p.sem_need, tid, sem_id)
}

/// Record that thread `tid` has taken a unit of semaphore `sem_id`: the
/// pending request (counted only while detection is on) becomes a held
/// unit, and the count drops by one.
pub fn semaphore_down_granted(p: &mut ProcessSync, tid: usize, sem_id: usize)
    requires
        tid < old(p).sem_allocation@.len(),
        sem_id < old(p).sem_allocation@[tid as int]@.len(),
        old(p).sem_allocation@[tid as int]@[sem_id as int] < i32::MAX,
        sem_id < old(p).sem_count@.len(),
        old(p).sem_count@[sem_id as int] > i32::MIN,
        old(p).deadlock_detect ==> tid < old(p).sem_need@.len(),
        old(p).deadlock_detect ==> sem_id < old(p).sem_need@[tid as int]@.len(),
        old(p).deadlock_detect ==> old(p).sem_need@[tid as int]@[sem_id as int] > i32::MIN,
    ensures
        final(p).semaphore_list@ == old(p).semaphore_list@,
        old(p).deadlock_detect ==> rows(final(p).sem_need@) == bumped(
            rows(old(p).sem_need@),
            tid as int,
            sem_id as int,
            -1,
        ),
        !old(p).deadlock_detect ==> rows(final(p).sem_need@) == rows(old(p).sem_need@),
        rows(final(p).sem_allocation@) == bumped(
            rows(old(p).sem_allocation@),
            tid as int,
            sem_id as int,
            1,
        ),
        final(p).sem_count@ == old(p).sem_count@.update(
            sem_id as int,
            (old(p).sem_count@[sem_id as int] - 1) as i32,
        ),
        old(p).same_mutexes(final(p)),
        old(p).same_condvars_and_switch(final(p)),
{
    let sid = sem_id;
    if p.deadlock_detect {
        add_entry(&mut p.sem_need, tid, sid, -1);
    }
    add_entry(&mut p.sem_allocation, tid, sid, 1);
    let count = p.sem_count[sid] - 1;
    p.sem_count.set(sid, count);
}

// ---------------------------------------------------------------------------
// Condition variables and the detection switch
// ---------------------------------------------------------------------------

/// Create a condition variable in the first vacant slot and return its id.
pub fn sys_condvar_create(p: &mut ProcessSync) -> (id: isize)
    requires
        old(p).condvar_list@.len() < isize::MAX,
    ensures
        first_vacant(old(p).condvar_list@, id as int),
        final(p).condvar_list@ == filled(old(p).condvar_list@, id as int, ()),
        final(p).deadlock_detect == old(p).deadlock_detect,
        old(p).same_mutexes(final(p)),
        old(p).same_semaphores(final(p)),
{
    let id = fill_first_vacant(&mut p.condvar_list, ());
    id as isize
}

/// Signal condition variable `condvar_id`, which must exist. Returns `0`;
/// the caller then wakes a waiter of that condition variable.
pub fn sys_condvar_signal(p: &ProcessSync, condvar_id: usize) -> (r: isize)
    requires
        condvar_id < p.condvar_list@.len(),
        p.condvar_list@[condvar_id as int] is Some,
    ensures
        r == 0,
{
    0
}

/// Wait on condition variable `condvar_id` releasing mutex `mutex_id`; both
/// must exist. Returns `0`; the caller then waits on the condition variable.
pub fn sys_condvar_wait(p: &ProcessSync, condvar_id: usize, mutex_id: usize) -> (r: isize)
    requires
        condvar_id < p.condvar_list@.len(),
        p.condvar_list@[condvar_id as int] is Some,
        mutex_id < p.mutex_list@.len(),
        p.mutex_list@[mutex_id as int] is Some,
    ensures
        r == 0,
{
    0
}

/// Turn deadlock detection on (`1`) or off (`0`); any other value is
/// refused with `-1` and changes nothing.
pub fn sys_enable_deadlock_detect(p: &mut ProcessSync, enabled: usize) -> (r: isize)
    ensures
        enabled > 1 ==> r == -1 && final(p).deadlock_detect == old(p).deadlock_detect,
        enabled <= 1 ==> r == 0 && final(p).deadlock_detect == (enabled == 1),
        final(p).condvar_list@ == old(p).condvar_list@,
        old(p).same_mutexes(final(p)),
        old(p).same_semaphores(final(p)),
{
    if enabled > 1 {
        return -1;
    }
    p.deadlock_detect = enabled == 1;
    0
}

// ---------------------------------------------------------------------------
// Laws
// ---------------------------------------------------------------------------

/// Units of resource `j` held, summed over the first `k` threads.
pub open spec fn held_total(alloc: Seq<Seq<i32>>, j: int, k: int) -> int
    decreases k,
{
    if k <= 0 {
        0
    } else {
        held_total(alloc, j, k - 1) + cell(alloc[k - 1], j)
    }
}

/// Units of resource `j` that are free or held by some thread.
pub open spec fn column_total(available: Seq<i32>, alloc: Seq<Seq<i32>>, j: int) -> int {
    available[j] + held_total(alloc, j, alloc.len() as int)
}

proof fn lemma_held_total_bumped(alloc: Seq<Seq<i32>>, t: int, j: int, delta: int, k: int)
    requires
        0 <= t < alloc.len(),
        0 <= j < alloc[t].len(),
        i32::MIN <= alloc[t][j] + delta <= i32::MAX,
        k <= alloc.len(),
    ensures
        held_total(bumped(alloc, t, j, delta), j, k) == held_total(alloc, j, k) + if t < k {
            delta
        } else {
            0
        },
    decreases k,
{
    if k > 0 {
        lemma_held_total_bumped(alloc, t, j, delta, k - 1);
    }
}

proof fn lemma_held_total_grown(m: Seq<Vec<i32>>, tid: nat, n_res: nat, j: int, k: int)
    requires
        0 <= j,
        k <= grown_matrix(m, tid, n_res).len(),
    ensures
        held_total(grown_matrix(m, tid, n_res), j, k) == held_total(
            rows(m),
            j,
            if k <= m.len() {
                k
            } else {
                m.len() as int
            },
        ),
    decreases k,
{
    if k > 0 {
        lemma_held_total_grown(m, tid, n_res, j, k - 1);
        let r = row_of(m, k - 1);
        assert(cell(grown(r, n_res), j) == cell(r, j));
        if k <= m.len() {
            assert(rows(m)[k - 1] == r);
        }
    }
}

/// Granting a request moves one unit of the resource from free to held: the
/// units free or held stay as many as before.
pub proof fn law_grant_keeps_total(available: Seq<i32>, alloc: Seq<Seq<i32>>, t: int, j: int)
    requires
        0 <= t < alloc.len(),
        0 <= j < alloc[t].len(),
        0 <= j < available.len(),
        alloc[t][j] < i32::MAX,
        available[j] > i32::MIN,
    ensures
        column_total(
            available.update(j, (available[j] - 1) as i32),
            bumped(alloc, t, j, 1),
            j,
        ) == column_total(available, alloc, j),
{
    lemma_held_total_bumped(alloc, t, j, 1, alloc.len() as int);
}

/// Releasing a unit that a thread holds returns it: the units free or held
/// stay as many as before.
pub proof fn law_release_keeps_total(available: Seq<i32>, alloc: Seq<Seq<i32>>, t: int, j: int)
    requires
        0 <= t < alloc.len(),
        0 <= j < alloc[t].len(),
        0 <= j < available.len(),
        alloc[t][j] > 0,
        available[j] < i32::MAX,
    ensures
        column_total(
            available.update(j, (available[j] + 1) as i32),
            released(alloc, t, j),
            j,
        ) == column_total(available, alloc, j),
{
    lemma_held_total_bumped(alloc, t, j, -1, alloc.len() as int);
}

/// Growing the banker's vectors to cover more threads and resources keeps
/// the units free or held of every existing resource.
pub proof fn law_growth_keeps_total(
    available: Seq<i32>,
    alloc: Seq<Vec<i32>>,
    tid: nat,
    n_res: nat,
    j: int,
)
    requires
        0 <= j < available.len(),
    ensures
        column_total(grown(available, n_res), grown_matrix(alloc, tid, n_res), j) == column_total(
            available,
            rows(alloc),
            j,
        ),
{
    let g = grown_matrix(alloc, tid, n_res);
    lemma_held_total_grown(alloc, tid, n_res, j, g.len() as int);
    assert(grown(available, n_res)[j] == available[j]);
}

/// Growing again a matrix that already has row `tid` and at least `n_res`
/// columns in every row, or a vector that already has `n_res` entries,
/// changes nothing: the growth that an unlock or an up applies after a
/// granted request.
pub proof fn law_regrowth_changes_nothing(m: Seq<Vec<i32>>, v: Seq<i32>, tid: nat, n_res: nat)
    requires
        m.len() > tid,
        forall|i: int| 0 <= i < m.len() ==> #[trigger] m[i]@.len() >= n_res,
        v.len() >= n_res,
    ensures
        grown_matrix(m, tid, n_res) == rows(m),
        grown(v, n_res) == v,
{
    assert(grown_matrix(m, tid, n_res) =~= rows(m));
}

/// Request, grant, release: thread `tid` asks for a unit of resource `id`
/// among `n_res` (counted as pending while detection is on), is granted it
/// (pending back down, held up by one, free down by one), and gives it back
/// (held down by one, free up by one). Free units, holdings and pending
/// requests end as the request found them once grown. This is
/// `sys_mutex_lock`, `mutex_lock_granted` and `sys_mutex_unlock` in turn,
/// and likewise `sys_semaphore_down`, `semaphore_down_granted` and
/// `sys_semaphore_up`; the regrowth in between changes nothing
/// (`law_regrowth_changes_nothing`).
pub proof fn law_request_grant_release(
    free: Seq<i32>,
    held: Seq<Vec<i32>>,
    pending: Seq<Vec<i32>>,
    tid: nat,
    id: int,
    n_res: nat,
    detect: bool,
)
    requires
        0 <= id < n_res,
        0 <= cell(row_of(held, tid as int), id) < i32::MAX,
        grown(free, n_res)[id] > i32::MIN,
        detect ==> cell(row_of(pending, tid as int), id) < i32::MAX,
    ensures
        detect ==> bumped(
            bumped(grown_matrix(pending, tid, n_res), tid as int, id, 1),
            tid as int,
            id,
            -1,
        ) == grown_matrix(pending, tid, n_res),
        released(bumped(grown_matrix(held, tid, n_res), tid as int, id, 1), tid as int, id)
            == grown_matrix(held, tid, n_res),
        grown(free, n_res).update(id, (grown(free, n_res)[id] - 1) as i32).update(
            id,
            (grown(free, n_res)[id] - 1 + 1) as i32,
        ) == grown(free, n_res),
{
    let h = grown_matrix(held, tid, n_res);
    let r = row_of(held, tid as int);
    if id < r.len() {
        assert(h[tid as int][id] == r[id]);
    } else {
        assert(h[tid as int][id] == 0);
    }
    assert(released(bumped(h, tid as int, id, 1), tid as int, id)[tid as int] =~= h[tid as int]);
    assert(released(bumped(h, tid as int, id, 1), tid as int, id) =~= h);
    if detect {
        let g = grown_matrix(pending, tid, n_res);
        let pr = row_of(pending, tid as int);
        if id < pr.len() {
            assert(g[tid as int][id] == pr[id]);
        } else {
            assert(g[tid as int][id] == 0);
        }
        assert(bumped(bumped(g, tid as int, id, 1), tid as int, id, -1)[tid as int] =~= g[tid as int]);
        assert(bumped(bumped(g, tid as int, id, 1), tid as int, id, -1) =~= g);
    }
    let f = grown(free, n_res);
    assert(f.update(id, (f[id] - 1) as i32).update(id, (f[id] - 1 + 1) as i32) =~= f);
}

/// A negative semaphore count is read as no free unit: setting it to zero
/// changes none of the free units that a down is checked against.
pub proof fn law_negative_count_reads_as_zero(count: Seq<i32>, j: int, n_res: nat)
    requires
        0 <= j < count.len(),
        count[j] < 0,
    ensures
        free_units(grown(count.update(j, 0), n_res)) == free_units(grown(count, n_res)),
{
    assert(free_units(grown(count.update(j, 0), n_res)) =~= free_units(grown(count, n_res)));
}

/// Every entry of `m` is nonnegative.
pub open spec fn all_nonnegative(m: Seq<Seq<i32>>) -> bool {
    forall|i: int, j: int| 0 <= i < m.len() && 0 <= j < m[i].len() ==> #[trigger] m[i][j] >= 0
}

/// Holdings with no negative entry are nonnegative against any free vector:
/// the banker's check then decides exactly whether the state is safe.
pub proof fn law_nonnegative_holdings(available: Seq<i32>, alloc: Seq<Seq<i32>>)
    requires
        all_nonnegative(alloc),
    ensures
        holdings_nonnegative(available, alloc),
{
    assert forall|i: int, j: int|
        0 <= i < alloc.len() && 0 <= j < available.len() implies #[trigger] cell(alloc[i], j) >= 0 by {
        if j < alloc[i].len() {
            assert(alloc[i][j] >= 0);
        }
    }
}

/// Growing the holdings matrix keeps its entries nonnegative.
pub proof fn law_growth_keeps_nonnegative(m: Seq<Vec<i32>>, tid: nat, n_res: nat)
    requires
        all_nonnegative(rows(m)),
    ensures
        all_nonnegative(grown_matrix(m, tid, n_res)),
{
    let g = grown_matrix(m, tid, n_res);
    assert forall|i: int, j: int| 0 <= i < g.len() && 0 <= j < g[i].len() implies #[trigger] g[i][j]
        >= 0 by {
        let r = row_of(m, i);
        if j < r.len() {
            assert(rows(m)[i] == r);
            assert(r[j] >= 0);
        }
    }
}

/// Granting a unit keeps holdings nonnegative.
pub proof fn law_grant_keeps_nonnegative(m: Seq<Seq<i32>>, t: int, j: int)
    requires
        all_nonnegative(m),
        0 <= t < m.len(),
        0 <= j < m[t].len(),
        m[t][j] < i32::MAX,
    ensures
        all_nonnegative(bumped(m, t, j, 1)),
{
    let b = bumped(m, t, j, 1);
    assert forall|i: int, k: int| 0 <= i < b.len() && 0 <= k < b[i].len() implies #[trigger] b[i][k]
        >= 0 by {
        assert(m[i][k] >= 0);
    }
}

/// Releasing a unit keeps holdings nonnegative: an entry is lowered only
/// while positive.
pub proof fn law_release_keeps_nonnegative(m: Seq<Seq<i32>>, t: int, j: int)
    requires
        all_nonnegative(m),
        0 <= t < m.len(),
        0 <= j < m[t].len(),
    ensures
        all_nonnegative(released(m, t, j)),
{
    let r = released(m, t, j);
    assert forall|i: int, k: int| 0 <= i < r.len() && 0 <= k < r[i].len() implies #[trigger] r[i][k]
        >= 0 by {
        assert(m[i][k] >= 0);
    }
}

/// A created object lands in the slot chosen: that slot holds it, every
/// other slot is unchanged, and the list grows only when no slot was vacant.
pub proof fn law_created_slot<T>(s: Seq<Option<T>>, k: int, v: T)
    requires
        first_vacant(s, k),
    ensures
        filled(s, k, v)[k] == Some(v),
        forall|i: int| 0 <= i < s.len() && i != k ==> #[trigger] filled(s, k, v)[i] == s[i],
        filled(s, k, v).len() == if k < s.len() {
            s.len()
        } else {
            s.len() + 1
        },
{
}

} // verus!
