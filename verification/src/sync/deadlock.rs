//! Banker's algorithm helpers used by mutex/semaphore deadlock detection.
use vstd::prelude::*;

verus! {

// ---------------------------------------------------------------------------
// Model
// ---------------------------------------------------------------------------

/// `v` grown to at least `n` entries, the new entries being zero.
pub open spec fn grown(v: Seq<i32>, n: nat) -> Seq<i32> {
    if v.len() < n {
        v + Seq::new((n - v.len()) as nat, |_k: int| 0i32)
    } else {
        v
    }
}

/// Row `i` of a matrix, or the empty row past its end.
pub open spec fn row_of(m: Seq<Vec<i32>>, i: int) -> Seq<i32> {
    if 0 <= i < m.len() {
        m[i]@
    } else {
        Seq::empty()
    }
}

/// The matrix `m` grown so that row `tid` exists and every row has at least
/// `n_res` columns, new entries being zero.
pub open spec fn grown_matrix(m: Seq<Vec<i32>>, tid: nat, n_res: nat) -> Seq<Seq<i32>> {
    let n = if m.len() <= tid { tid + 1 } else { m.len() };
    Seq::new(n, |i: int| grown(row_of(m, i), n_res))
}

/// The rows of a matrix, each by its view.
pub open spec fn rows(m: Seq<Vec<i32>>) -> Seq<Seq<i32>> {
    Seq::new(m.len(), |i: int| m[i]@)
}

/// Entry `j` of a row; a row reads as zero past its end.
pub open spec fn cell(row: Seq<i32>, j: int) -> int {
    if 0 <= j < row.len() {
        row[j] as int
    } else {
        0
    }
}

/// Column `j` of `alloc` summed over the threads among the first `k` that
/// `mask` marks.
pub open spec fn marked_sum(alloc: Seq<Seq<i32>>, mask: Seq<bool>, j: int, k: int) -> int
    decreases k,
{
    if k <= 0 {
        0
    } else {
        marked_sum(alloc, mask, j, k - 1) + if mask[k - 1] {
            cell(alloc[k - 1], j)
        } else {
            0
        }
    }
}

/// Number of marked entries among the first `k`.
pub open spec fn count_marked(mask: Seq<bool>, k: int) -> int
    decreases k,
{
    if k <= 0 {
        0
    } else {
        count_marked(mask, k - 1) + if mask[k - 1] {
            1int
        } else {
            0
        }
    }
}

/// The units of resource `j` free once the threads marked in `done` have
/// finished and returned what they hold.
pub open spec fn work_after(available: Seq<i32>, alloc: Seq<Seq<i32>>, done: Seq<bool>, j: int) -> int {
    available[j] + marked_sum(alloc, done, j, alloc.len() as int)
}

/// Every pending request in `need_row` fits in what is free once the threads
/// marked in `done` have finished.
pub open spec fn can_finish(
    need_row: Seq<i32>,
    available: Seq<i32>,
    alloc: Seq<Seq<i32>>,
    done: Seq<bool>,
) -> bool {
    forall|j: int|
        0 <= j < available.len() ==> #[trigger] cell(need_row, j) <= work_after(
            available,
            alloc,
            done,
            j,
        )
}

/// The threads `0..n` that occur in `s`.
pub open spec fn mask_of(s: Seq<int>, n: nat) -> Seq<bool> {
    Seq::new(n, |i: int| s.contains(i))
}

/// `ord` lists every thread, and each thread in it can finish with what the
/// threads before it hand back.
pub open spec fn is_safe_sequence(
    available: Seq<i32>,
    alloc: Seq<Seq<i32>>,
    need: Seq<Seq<i32>>,
    ord: Seq<int>,
) -> bool {
    let n = alloc.len();
    &&& ord.len() == n
    &&& forall|q: int| 0 <= q < ord.len() ==> 0 <= #[trigger] ord[q] < n
    &&& forall|i: int| 0 <= i < n ==> #[trigger] ord.contains(i)
    &&& forall|p: int|
        0 <= p < n ==> can_finish(
            need[#[trigger] ord[p]],
            available,
            alloc,
            mask_of(ord.take(p), n),
        )
}

/// The state is safe: some order lets every thread finish.
pub open spec fn safe_state(available: Seq<i32>, alloc: Seq<Seq<i32>>, need: Seq<Seq<i32>>) -> bool {
    exists|ord: Seq<int>| is_safe_sequence(available, alloc, need, ord)
}

/// One scan over threads `i..`, in order: each unfinished thread that can
/// finish with what the threads marked in `finish` return is marked. The
/// flag records whether any thread was marked.
pub open spec fn scan_from(
    available: Seq<i32>,
    alloc: Seq<Seq<i32>>,
    need: Seq<Seq<i32>>,
    finish: Seq<bool>,
    i: int,
    progressed: bool,
) -> (Seq<bool>, bool)
    decreases alloc.len() - i,
{
    if i < 0 || i >= alloc.len() {
        (finish, progressed)
    } else if !finish[i] && can_finish(need[i], available, alloc, finish) {
        scan_from(available, alloc, need, finish.update(i, true), i + 1, true)
    } else {
        scan_from(available, alloc, need, finish, i + 1, progressed)
    }
}

/// The threads marked once scans starting from `finish` are repeated until
/// one marks nothing.
pub open spec fn greedy_finish(
    available: Seq<i32>,
    alloc: Seq<Seq<i32>>,
    need: Seq<Seq<i32>>,
    finish: Seq<bool>,
) -> Seq<bool>
    decreases alloc.len() - count_marked(finish, alloc.len() as int),
    via greedy_finish_decreases
{
    let (next, progressed) = scan_from(available, alloc, need, finish, 0, false);
    if finish.len() == alloc.len() && progressed {
        greedy_finish(available, alloc, need, next)
    } else {
        next
    }
}

#[via_fn]
proof fn greedy_finish_decreases(
    available: Seq<i32>,
    alloc: Seq<Seq<i32>>,
    need: Seq<Seq<i32>>,
    finish: Seq<bool>,
) {
    let (next, progressed) = scan_from(available, alloc, need, finish, 0, false);
    if finish.len() == alloc.len() && progressed {
        lemma_scan_from(available, alloc, need, finish, 0, false);
        lemma_count_marked_bounds(next, alloc.len() as int);
    }
}

/// The greedy check finishes every thread: starting from no thread
/// finished, the repeated scans mark them all.
pub open spec fn greedy_safe(available: Seq<i32>, alloc: Seq<Seq<i32>>, need: Seq<Seq<i32>>) -> bool {
    let done = greedy_finish(available, alloc, need, Seq::new(alloc.len(), |_i: int| false));
    forall|i: int| 0 <= i < alloc.len() ==> #[trigger] done[i]
}

/// No thread holds a negative amount of any resource.
pub open spec fn holdings_nonnegative(available: Seq<i32>, alloc: Seq<Seq<i32>>) -> bool {
    forall|i: int, j: int|
        0 <= i < alloc.len() && 0 <= j < available.len() ==> #[trigger] cell(alloc[i], j) >= 0
}

// ---------------------------------------------------------------------------
// Lemmas
// ---------------------------------------------------------------------------

proof fn lemma_marked_sum_magnitude(alloc: Seq<Seq<i32>>, mask: Seq<bool>, j: int, k: int)
    requires
        0 <= k,
    ensures
        -(k * 0x8000_0000) <= marked_sum(alloc, mask, j, k) <= k * 0x8000_0000,
    decreases k,
{
    if k > 0 {
        lemma_marked_sum_magnitude(alloc, mask, j, k - 1);
    }
}

proof fn lemma_marked_sum_set(alloc: Seq<Seq<i32>>, mask: Seq<bool>, i: int, j: int, k: int)
    requires
        0 <= i < mask.len(),
        !mask[i],
        k <= mask.len(),
    ensures
        marked_sum(alloc, mask.update(i, true), j, k) == marked_sum(alloc, mask, j, k) + if i < k {
            cell(alloc[i], j)
        } else {
            0
        },
    decreases k,
{
    if k > 0 {
        lemma_marked_sum_set(alloc, mask, i, j, k - 1);
    }
}

proof fn lemma_count_marked_set(mask: Seq<bool>, i: int, k: int)
    requires
        0 <= i < mask.len(),
        !mask[i],
        k <= mask.len(),
    ensures
        count_marked(mask.update(i, true), k) == count_marked(mask, k) + if i < k {
            1int
        } else {
            0
        },
    decreases k,
{
    if k > 0 {
        lemma_count_marked_set(mask, i, k - 1);
    }
}

proof fn lemma_count_marked_bounds(mask: Seq<bool>, k: int)
    requires
        0 <= k,
    ensures
        0 <= count_marked(mask, k) <= k,
        (forall|i: int| 0 <= i < k ==> #[trigger] mask[i]) ==> count_marked(mask, k) == k,
    decreases k,
{
    if k > 0 {
        lemma_count_marked_bounds(mask, k - 1);
    }
}

proof fn lemma_scan_from(
    available: Seq<i32>,
    alloc: Seq<Seq<i32>>,
    need: Seq<Seq<i32>>,
    finish: Seq<bool>,
    i: int,
    progressed: bool,
)
    requires
        0 <= i <= alloc.len(),
        finish.len() == alloc.len(),
    ensures
        scan_from(available, alloc, need, finish, i, progressed).0.len() == finish.len(),
        count_marked(scan_from(available, alloc, need, finish, i, progressed).0, alloc.len() as int)
            >= count_marked(finish, alloc.len() as int),
        progressed ==> scan_from(available, alloc, need, finish, i, progressed).1,
        !scan_from(available, alloc, need, finish, i, progressed).1 ==> scan_from(
            available,
            alloc,
            need,
            finish,
            i,
            progressed,
        ).0 == finish,
        scan_from(available, alloc, need, finish, i, progressed).1 && !progressed ==> count_marked(
            scan_from(available, alloc, need, finish, i, progressed).0,
            alloc.len() as int,
        ) > count_marked(finish, alloc.len() as int),
    decreases alloc.len() - i,
{
    if i < alloc.len() {
        if !finish[i] && can_finish(need[i], available, alloc, finish) {
            lemma_count_marked_set(finish, i, alloc.len() as int);
            lemma_scan_from(available, alloc, need, finish.update(i, true), i + 1, true);
        } else {
            lemma_scan_from(available, alloc, need, finish, i + 1, progressed);
        }
    }
}

proof fn lemma_marked_sum_monotone(
    alloc: Seq<Seq<i32>>,
    small: Seq<bool>,
    large: Seq<bool>,
    j: int,
    k: int,
)
    requires
        k <= alloc.len(),
        k <= small.len(),
        k <= large.len(),
        forall|i: int| 0 <= i < k && #[trigger] small[i] ==> large[i],
        forall|i: int| 0 <= i < k ==> #[trigger] cell(alloc[i], j) >= 0,
    ensures
        marked_sum(alloc, small, j, k) <= marked_sum(alloc, large, j, k),
    decreases k,
{
    if k > 0 {
        lemma_marked_sum_monotone(alloc, small, large, j, k - 1);
        assert(cell(alloc[k - 1], j) >= 0);
    }
}

/// If every thread the greedy pass left unfinished cannot proceed, and a safe
/// order exists, the threads listed before position `p` being finished forces
/// all threads to be finished.
proof fn lemma_stuck_in_safe_state(
    available: Seq<i32>,
    alloc: Seq<Seq<i32>>,
    need: Seq<Seq<i32>>,
    finish: Seq<bool>,
    ord: Seq<int>,
    p: int,
)
    requires
        is_safe_sequence(available, alloc, need, ord),
        holdings_nonnegative(available, alloc),
        finish.len() == alloc.len(),
        forall|i: int|
            0 <= i < alloc.len() ==> #[trigger] finish[i] || !can_finish(
                need[i],
                available,
                alloc,
                finish,
            ),
        0 <= p <= alloc.len(),
        forall|q: int| 0 <= q < p ==> #[trigger] finish[ord[q]],
    ensures
        forall|i: int| 0 <= i < alloc.len() ==> #[trigger] finish[i],
    decreases alloc.len() - p,
{
    let n = alloc.len();
    if p == n {
        assert forall|i: int| 0 <= i < n implies #[trigger] finish[i] by {
            assert(ord.contains(i));
            let q = choose|q: int| 0 <= q < ord.len() && ord[q] == i;
            assert(finish[ord[q]]);
        }
    } else {
        let t = ord[p];
        if !finish[t] {
            let prefix = mask_of(ord.take(p), n);
            assert forall|j: int| 0 <= j < available.len() implies #[trigger] cell(need[t], j)
                <= work_after(available, alloc, finish, j) by {
                assert(can_finish(need[ord[p]], available, alloc, prefix));
                assert(cell(need[t], j) <= work_after(available, alloc, prefix, j));
                assert forall|i: int| 0 <= i < n && #[trigger] prefix[i] implies finish[i] by {
                    assert(ord.take(p).contains(i));
                    let q = choose|q: int| 0 <= q < ord.take(p).len() && ord.take(p)[q] == i;
                    assert(finish[ord[q]]);
                }
                assert forall|i: int| 0 <= i < n implies #[trigger] cell(alloc[i], j) >= 0 by {}
                lemma_marked_sum_monotone(alloc, prefix, finish, j, n as int);
            }
            assert(can_finish(need[t], available, alloc, finish));
            assert(false);
        }
        lemma_stuck_in_safe_state(available, alloc, need, finish, ord, p + 1);
    }
}

/// Growing a vector a second time to the same length changes nothing.
pub proof fn law_grown_idempotent(v: Seq<i32>, n: nat)
    ensures
        grown(grown(v, n), n) == grown(v, n),
{
}

/// A grown matrix has row `tid`, every row has at least `n_res` columns,
/// the entries that were there keep their values and the new ones are zero.
pub proof fn law_grown_matrix_shape(m: Seq<Vec<i32>>, tid: nat, n_res: nat)
    ensures
        grown_matrix(m, tid, n_res).len() > tid,
        grown_matrix(m, tid, n_res).len() >= m.len(),
        forall|i: int|
            0 <= i < grown_matrix(m, tid, n_res).len() ==> #[trigger] grown_matrix(
                m,
                tid,
                n_res,
            )[i].len() >= n_res,
        forall|i: int, j: int|
            0 <= i < grown_matrix(m, tid, n_res).len() && 0 <= j ==> #[trigger] cell(
                grown_matrix(m, tid, n_res)[i],
                j,
            ) == cell(row_of(m, i), j),
{
    let g = grown_matrix(m, tid, n_res);
    assert forall|i: int, j: int| 0 <= i < g.len() && 0 <= j implies #[trigger] cell(g[i], j) == cell(
        row_of(m, i),
        j,
    ) by {
        let r = row_of(m, i);
        if j >= r.len() && j < g[i].len() {
            assert(g[i][j] == 0);
        }
    }
}

/// `ord` lists, without repeats, exactly the threads marked in `finish`,
/// each able to finish with what the threads before it return.
pub open spec fn marked_in_order(
    available: Seq<i32>,
    alloc: Seq<Seq<i32>>,
    need: Seq<Seq<i32>>,
    finish: Seq<bool>,
    ord: Seq<int>,
) -> bool {
    let n = alloc.len();
    &&& finish.len() == n
    &&& ord.no_duplicates()
    &&& forall|q: int| 0 <= q < ord.len() ==> 0 <= #[trigger] ord[q] < n
    &&& forall|i: int| 0 <= i < n ==> (#[trigger] finish[i] <==> ord.contains(i))
    &&& ord.len() == count_marked(finish, n as int)
    &&& forall|p: int|
        0 <= p < ord.len() ==> can_finish(
            need[#[trigger] ord[p]],
            available,
            alloc,
            mask_of(ord.take(p), n),
        )
}

proof fn lemma_mark_extends_order(
    available: Seq<i32>,
    alloc: Seq<Seq<i32>>,
    need: Seq<Seq<i32>>,
    finish: Seq<bool>,
    ord: Seq<int>,
    i: int,
)
    requires
        marked_in_order(available, alloc, need, finish, ord),
        0 <= i < alloc.len(),
        !finish[i],
        can_finish(need[i], available, alloc, finish),
    ensures
        marked_in_order(available, alloc, need, finish.update(i, true), ord.push(i)),
{
    let n = alloc.len();
    let f2 = finish.update(i, true);
    let o2 = ord.push(i);
    lemma_count_marked_set(finish, i, n as int);
    assert(!ord.contains(i));
    assert(mask_of(ord, n) =~= finish);
    assert forall|x: int| 0 <= x < n implies (#[trigger] f2[x] <==> o2.contains(x)) by {
        if x == i {
            assert(o2[ord.len() as int] == x);
        } else if ord.contains(x) {
            let q = choose|q: int| 0 <= q < ord.len() && ord[q] == x;
            assert(o2[q] == x);
        } else if o2.contains(x) {
            let q = choose|q: int| 0 <= q < o2.len() && o2[q] == x;
            assert(ord[q] == x);
        }
    }
    assert forall|p: int| 0 <= p < o2.len() implies can_finish(
        need[#[trigger] o2[p]],
        available,
        alloc,
        mask_of(o2.take(p), n),
    ) by {
        if p < ord.len() {
            assert(o2.take(p) =~= ord.take(p));
        } else {
            assert(o2.take(p) =~= ord);
        }
    }
}

proof fn lemma_scan_order(
    available: Seq<i32>,
    alloc: Seq<Seq<i32>>,
    need: Seq<Seq<i32>>,
    finish: Seq<bool>,
    ord: Seq<int>,
    i: int,
    progressed: bool,
) -> (ord2: Seq<int>)
    requires
        marked_in_order(available, alloc, need, finish, ord),
        0 <= i <= alloc.len(),
    ensures
        marked_in_order(
            available,
            alloc,
            need,
            scan_from(available, alloc, need, finish, i, progressed).0,
            ord2,
        ),
    decreases alloc.len() - i,
{
    if i >= alloc.len() {
        ord
    } else if !finish[i] && can_finish(need[i], available, alloc, finish) {
        lemma_mark_extends_order(available, alloc, need, finish, ord, i);
        lemma_scan_order(available, alloc, need, finish.update(i, true), ord.push(i), i + 1, true)
    } else {
        lemma_scan_order(available, alloc, need, finish, ord, i + 1, progressed)
    }
}

proof fn lemma_scan_stuck(
    available: Seq<i32>,
    alloc: Seq<Seq<i32>>,
    need: Seq<Seq<i32>>,
    finish: Seq<bool>,
    i: int,
)
    requires
        0 <= i <= alloc.len(),
        finish.len() == alloc.len(),
        !scan_from(available, alloc, need, finish, i, false).1,
    ensures
        forall|k: int|
            i <= k < alloc.len() ==> #[trigger] finish[k] || !can_finish(
                need[k],
                available,
                alloc,
                finish,
            ),
    decreases alloc.len() - i,
{
    if i < alloc.len() {
        if !finish[i] && can_finish(need[i], available, alloc, finish) {
            lemma_scan_from(available, alloc, need, finish.update(i, true), i + 1, true);
        } else {
            lemma_scan_stuck(available, alloc, need, finish, i + 1);
        }
    }
}

proof fn lemma_greedy(
    available: Seq<i32>,
    alloc: Seq<Seq<i32>>,
    need: Seq<Seq<i32>>,
    finish: Seq<bool>,
    ord: Seq<int>,
) -> (ord2: Seq<int>)
    requires
        marked_in_order(available, alloc, need, finish, ord),
    ensures
        marked_in_order(available, alloc, need, greedy_finish(available, alloc, need, finish), ord2),
        forall|k: int|
            0 <= k < alloc.len() ==> #[trigger] greedy_finish(available, alloc, need, finish)[k]
                || !can_finish(
                need[k],
                available,
                alloc,
                greedy_finish(available, alloc, need, finish),
            ),
    decreases alloc.len() - count_marked(finish, alloc.len() as int),
{
    let (next, progressed) = scan_from(available, alloc, need, finish, 0, false);
    lemma_scan_from(available, alloc, need, finish, 0, false);
    let o = lemma_scan_order(available, alloc, need, finish, ord, 0, false);
    if progressed {
        lemma_count_marked_bounds(next, alloc.len() as int);
        lemma_greedy(available, alloc, need, next, o)
    } else {
        lemma_scan_stuck(available, alloc, need, finish, 0);
        o
    }
}

/// With no negative holding, the greedy check finishes every thread exactly
/// when some order lets every thread finish; whatever the holdings, the
/// greedy check finishing every thread means such an order exists.
pub proof fn law_greedy_decides_safety(available: Seq<i32>, alloc: Seq<Seq<i32>>, need: Seq<Seq<i32>>)
    ensures
        greedy_safe(available, alloc, need) ==> safe_state(available, alloc, need),
        holdings_nonnegative(available, alloc) && safe_state(available, alloc, need) ==> greedy_safe(
            available,
            alloc,
            need,
        ),
{
    let n = alloc.len();
    let init = Seq::new(n, |_i: int| false);
    lemma_count_unmarked(init, n as int);
    assert forall|i: int| 0 <= i < n implies (#[trigger] init[i] <==> Seq::<int>::empty().contains(
        i,
    )) by {}
    let ord = lemma_greedy(available, alloc, need, init, Seq::empty());
    let done = greedy_finish(available, alloc, need, init);
    if greedy_safe(available, alloc, need) {
        lemma_count_marked_bounds(done, n as int);
        assert forall|i: int| 0 <= i < n implies #[trigger] ord.contains(i) by {
            assert(done[i]);
        }
        assert(is_safe_sequence(available, alloc, need, ord));
    }
    if holdings_nonnegative(available, alloc) && safe_state(available, alloc, need) {
        let o = choose|o: Seq<int>| is_safe_sequence(available, alloc, need, o);
        lemma_stuck_in_safe_state(available, alloc, need, done, o, 0);
    }
}

// ---------------------------------------------------------------------------
// Executable functions
// ---------------------------------------------------------------------------

/// Grow `v` so that `v.len() >= n`, padding with zeros.
pub fn ensure_vec(v: &mut Vec<i32>, n: usize)
    ensures
        final(v)@ == grown(old(v)@, n as nat),
{
    if v.len() < n {
        v.resize(n, 0);
    }
}

/// Grow `m` so that row `tid` exists and has at least `n_res` columns.
pub fn ensure_matrix(m: &mut Vec<Vec<i32>>, tid: usize, n_res: usize)
    requires
        tid < usize::MAX,
    ensures
        rows(final(m)@) == grown_matrix(old(m)@, tid as nat, n_res as nat),
{
    let ghost old_m = m@;
    while m.len() <= tid
        invariant
            tid < usize::MAX,
            old_m.len() <= m.len(),
            m.len() <= old_m.len() || m.len() <= tid + 1,
            forall|i: int| 0 <= i < m.len() ==> #[trigger] m@[i]@ == row_of(old_m, i),
        decreases tid + 1 - m.len(),
    {
        m.push(Vec::new());
    }
    ensure_vec(&mut m[tid], n_res);
    // also extend earlier rows so that they all have the same width
    let len = m.len();
    let mut k: usize = 0;
    while k < len
        invariant
            len == m.len(),
            old_m.len() <= len,
            tid < len,
            len <= old_m.len() || len == tid + 1,
            0 <= k <= len,
            forall|i: int| 0 <= i < k ==> #[trigger] m@[i]@ == grown(row_of(old_m, i), n_res as nat),
            forall|i: int|
                k <= i < len && i != tid ==> #[trigger] m@[i]@ == row_of(old_m, i),
            k <= tid ==> m@[tid as int]@ == grown(row_of(old_m, tid as int), n_res as nat),
        decreases len - k,
    {
        ensure_vec(&mut m[k], n_res);
        proof {
            let r = row_of(old_m, k as int);
            if k as int == tid as int {
                assert(grown(grown(r, n_res as nat), n_res as nat) == grown(r, n_res as nat));
            }
        }
        k = k + 1;
    }
    assert(rows(m@) =~= grown_matrix(old_m, tid as nat, n_res as nat));
}

/// Banker's safety check: returns true if there exists an ordering of threads
/// such that each thread's pending `need` can be satisfied by the running
/// `work` vector (initially `available` plus all already-finished threads'
/// `allocation`).
pub fn is_safe(available: &[i32], allocation: &[Vec<i32>], need: &[Vec<i32>]) -> (safe: bool)
    requires
        need@.len() >= allocation@.len(),
    ensures
        safe == greedy_safe(available@, rows(allocation@), rows(need@)),
        safe ==> safe_state(available@, rows(allocation@), rows(need@)),
        holdings_nonnegative(available@, rows(allocation@)) && safe_state(
            available@,
            rows(allocation@),
            rows(need@),
        ) ==> safe,
{
    let n_thread = allocation.len();
    let n_res = available.len();
    let ghost avail = available@;
    let ghost alloc = rows(allocation@);
    let ghost needs = rows(need@);
    // running totals are kept as i128: no sum of `i32` entries over the
    // threads can overflow them
    let mut work: Vec<i128> = Vec::new();
    let mut w: usize = 0;
    while w < n_res
        invariant
            0 <= w <= n_res,
            n_res == available@.len(),
            work@.len() == w,
            forall|j: int| 0 <= j < w ==> #[trigger] work@[j] == available@[j],
        decreases n_res - w,
    {
        work.push(available[w] as i128);
        w = w + 1;
    }
    let mut finish: Vec<bool> = Vec::new();
    let mut f: usize = 0;
    while f < n_thread
        invariant
            0 <= f <= n_thread,
            finish@.len() == f,
            forall|i: int| 0 <= i < f ==> !#[trigger] finish@[i],
        decreases n_thread - f,
    {
        finish.push(false);
        f = f + 1;
    }
    let ghost init = Seq::new(n_thread as nat, |_i: int| false);
    proof {
        assert(finish@ =~= init);
        assert forall|j: int| 0 <= j < n_res implies #[trigger] work@[j] == work_after(
            avail,
            alloc,
            finish@,
            j,
        ) by {
            lemma_marked_sum_unmarked(alloc, finish@, j, n_thread as int);
        }
    }
    loop
        invariant
            n_thread == alloc.len(),
            n_res == avail.len(),
            avail == available@,
            alloc == rows(allocation@),
            needs == rows(need@),
            needs.len() >= n_thread,
            work@.len() == n_res,
            finish@.len() == n_thread,
            forall|j: int| 0 <= j < n_res ==> #[trigger] work@[j] == work_after(avail, alloc, finish@, j),
            greedy_finish(avail, alloc, needs, finish@) == greedy_finish(avail, alloc, needs, init),
        ensures
            finish@.len() == n_thread,
            finish@ == greedy_finish(avail, alloc, needs, init),
        decreases n_thread - count_marked(finish@, n_thread as int),
    {
        proof {
            lemma_count_marked_bounds(finish@, n_thread as int);
        }
        let ghost start = finish@;
        let mut progressed = false;
        let mut i: usize = 0;
        while i < n_thread
            invariant
                start.len() == n_thread,
                scan_from(avail, alloc, needs, start, 0, false) == scan_from(
                    avail,
                    alloc,
                    needs,
                    finish@,
                    i as int,
                    progressed,
                ),
                n_thread == alloc.len(),
                n_res == avail.len(),
                avail == available@,
                alloc == rows(allocation@),
                needs == rows(need@),
                needs.len() >= n_thread,
                0 <= i <= n_thread,
                work@.len() == n_res,
                finish@.len() == n_thread,
                forall|j: int|
                    0 <= j < n_res ==> #[trigger] work@[j] == work_after(avail, alloc, finish@, j),
            decreases n_thread - i,
        {
            if finish[i] {
                assert(scan_from(avail, alloc, needs, finish@, i as int, progressed) == scan_from(
                    avail,
                    alloc,
                    needs,
                    finish@,
                    i + 1,
                    progressed,
                ));
                i = i + 1;
                continue;
            }
            let can = fits_within(&need[i], &work);
            proof {
                assert(can == can_finish(needs[i as int], avail, alloc, finish@)) by {
                    if can {
                        assert forall|j2: int| 0 <= j2 < avail.len() implies #[trigger] cell(
                            needs[i as int],
                            j2,
                        ) <= work_after(avail, alloc, finish@, j2) by {
                            assert(cell(needs[i as int], j2) <= work@[j2]);
                        }
                    } else {
                        let j2 = choose|j2: int|
                            !(0 <= j2 < work@.len() ==> #[trigger] cell(needs[i as int], j2) <= work@[j2]);
                        assert(!(cell(needs[i as int], j2) <= work_after(avail, alloc, finish@, j2)));
                    }
                }
            }
            if can {
                let ghost before = finish@;
                proof {
                    assert forall|j2: int| 0 <= j2 < n_res implies #[trigger] work_after(
                        avail,
                        alloc,
                        before.update(i as int, true),
                        j2,
                    ) == work@[j2] + cell(alloc[i as int], j2) by {
                        lemma_marked_sum_set(alloc, before, i as int, j2, n_thread as int);
                    }
                    assert forall|j2: int| 0 <= j2 < n_res implies i128::MIN <= #[trigger] work@[j2]
                        + cell(alloc[i as int], j2) <= i128::MAX by {
                        lemma_marked_sum_set(alloc, before, i as int, j2, n_thread as int);
                        lemma_marked_sum_magnitude(alloc, before.update(i as int, true), j2, n_thread as int);
                    }
                }
                finish.set(i, true);
                return_holdings(&mut work, &allocation[i]);
                progressed = true;
            }
            i = i + 1;
        }
        proof {
            let (next, flag) = scan_from(avail, alloc, needs, start, 0, false);
            assert(next == finish@ && flag == progressed);
            lemma_scan_from(avail, alloc, needs, start, 0, false);
            lemma_count_marked_bounds(finish@, n_thread as int);
            if !progressed {
                assert(finish@ == start);
                assert(greedy_finish(avail, alloc, needs, start) == finish@);
            } else {
                assert(greedy_finish(avail, alloc, needs, start) == greedy_finish(
                    avail,
                    alloc,
                    needs,
                    finish@,
                ));
            }
        }
        if !progressed {
            break;
        }
    }
    let mut all = true;
    let mut k: usize = 0;
    while k < n_thread
        invariant
            0 <= k <= n_thread,
            finish@.len() == n_thread,
            all <==> forall|i: int| 0 <= i < k ==> #[trigger] finish@[i],
        decreases n_thread - k,
    {
        if !finish[k] {
            all = false;
        }
        k = k + 1;
    }
    proof {
        law_greedy_decides_safety(avail, alloc, needs);
    }
    all
}

/// Whether each entry of `row` is at most the matching entry of `work`.
fn fits_within(row: &Vec<i32>, work: &Vec<i128>) -> (fits: bool)
    ensures
        fits <==> forall|j: int| 0 <= j < work@.len() ==> #[trigger] cell(row@, j) <= work@[j],
{
    let n_res = work.len();
    let mut fits = true;
    let mut j: usize = 0;
    while j < n_res
        invariant
            0 <= j <= n_res,
            n_res == work@.len(),
            fits <==> forall|j2: int| 0 <= j2 < j ==> #[trigger] cell(row@, j2) <= work@[j2],
        decreases n_res - j,
    {
        let wanted: i32 = if j < row.len() {
            row[j]
        } else {
            0
        };
        assert(wanted == cell(row@, j as int));
        if !(wanted as i128 <= work[j]) {
            fits = false;
        }
        j = j + 1;
    }
    fits
}

/// Add what `row` holds to `work`, entry by entry.
fn return_holdings(work: &mut Vec<i128>, row: &Vec<i32>)
    requires
        forall|j: int|
            0 <= j < old(work)@.len() ==> i128::MIN <= #[trigger] old(work)@[j] + cell(row@, j)
                <= i128::MAX,
    ensures
        final(work)@.len() == old(work)@.len(),
        forall|j: int|
            0 <= j < old(work)@.len() ==> #[trigger] final(work)@[j] == old(work)@[j] + cell(row@, j),
{
    let ghost start = work@;
    let n_res = work.len();
    let mut j: usize = 0;
    while j < n_res
        invariant
            0 <= j <= n_res,
            n_res == start.len(),
            work@.len() == n_res,
            forall|j2: int|
                0 <= j2 < n_res ==> i128::MIN <= #[trigger] start[j2] + cell(row@, j2) <= i128::MAX,
            forall|j2: int| 0 <= j2 < j ==> #[trigger] work@[j2] == start[j2] + cell(row@, j2),
            forall|j2: int| j <= j2 < n_res ==> #[trigger] work@[j2] == start[j2],
        decreases n_res - j,
    {
        let held: i32 = if j < row.len() {
            row[j]
        } else {
            0
        };
        assert(start[j as int] + cell(row@, j as int) == work@[j as int] + held);
        work.set(j, work[j] + held as i128);
        j = j + 1;
    }
}

proof fn lemma_marked_sum_unmarked(alloc: Seq<Seq<i32>>, mask: Seq<bool>, j: int, k: int)
    requires
        k <= mask.len(),
        forall|i: int| 0 <= i < k ==> !#[trigger] mask[i],
    ensures
        marked_sum(alloc, mask, j, k) == 0,
    decreases k,
{
    if k > 0 {
        lemma_marked_sum_unmarked(alloc, mask, j, k - 1);
    }
}

proof fn lemma_count_unmarked(mask: Seq<bool>, k: int)
    requires
        k <= mask.len(),
        forall|i: int| 0 <= i < k ==> !#[trigger] mask[i],
    ensures
        count_marked(mask, k) == 0,
    decreases k,
{
    if k > 0 {
        lemma_count_unmarked(mask, k - 1);
    }
}

} // verus!
