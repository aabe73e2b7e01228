//! Renumbering threads: the banker's verdict does not depend on the order
//! in which threads are numbered.
use vstd::prelude::*;

use crate::sync::deadlock::{
    can_finish, cell, greedy_safe, holdings_nonnegative, is_safe_sequence, law_greedy_decides_safety,
    marked_sum, mask_of, safe_state, work_after,
};

verus! {

/// `perm` lists each of `0..n` exactly once.
pub open spec fn is_permutation(perm: Seq<int>, n: nat) -> bool {
    &&& perm.len() == n
    &&& perm.no_duplicates()
    &&& forall|k: int| 0 <= k < perm.len() ==> 0 <= #[trigger] perm[k] < n
    &&& forall|i: int| 0 <= i < n ==> #[trigger] perm.contains(i)
}

/// `s` renumbered: entry `k` of the result is entry `perm[k]` of `s`.
pub open spec fn permuted<T>(s: Seq<T>, perm: Seq<int>) -> Seq<T> {
    Seq::new(perm.len(), |k: int| s[perm[k]])
}

/// The position in `perm` that holds `i`.
pub open spec fn position_of(perm: Seq<int>, i: int) -> int {
    choose|k: int| 0 <= k < perm.len() && perm[k] == i
}

/// The sum of the entries of `s`.
pub open spec fn seq_sum(s: Seq<int>) -> int
    decreases s.len(),
{
    if s.len() == 0 {
        0
    } else {
        seq_sum(s.drop_last()) + s.last()
    }
}

/// Column `j` of `alloc` over the first `k` threads, zero where `mask` does
/// not mark the thread.
pub open spec fn marked_terms(alloc: Seq<Seq<i32>>, mask: Seq<bool>, j: int, k: nat) -> Seq<int> {
    Seq::new(k, |q: int| if mask[q] { cell(alloc[q], j) } else { 0 })
}

proof fn lemma_position_of(perm: Seq<int>, n: nat, i: int)
    requires
        is_permutation(perm, n),
        0 <= i < n,
    ensures
        0 <= position_of(perm, i) < n,
        perm[position_of(perm, i)] == i,
        forall|k: int| 0 <= k < n && perm[k] == i ==> k == position_of(perm, i),
{
    assert(perm.contains(i));
}

proof fn lemma_sum_remove(s: Seq<int>, k: int)
    requires
        0 <= k < s.len(),
    ensures
        seq_sum(s) == seq_sum(s.remove(k)) + s[k],
    decreases s.len(),
{
    s.remove_ensures(k);
    if k == s.len() - 1 {
        assert(s.remove(k) =~= s.drop_last());
    } else {
        let d = s.drop_last();
        d.remove_ensures(k);
        lemma_sum_remove(d, k);
        assert(s.remove(k).drop_last() =~= d.remove(k));
        assert(s.remove(k).last() == s.last());
    }
}

proof fn lemma_sum_permuted(v: Seq<int>, perm: Seq<int>)
    requires
        is_permutation(perm, v.len()),
    ensures
        seq_sum(permuted(v, perm)) == seq_sum(v),
    decreases v.len(),
{
    let n = v.len();
    if n > 0 {
        let w = permuted(v, perm);
        lemma_position_of(perm, n, n - 1);
        let k = position_of(perm, n - 1);
        lemma_sum_remove(w, k);
        let p2 = perm.remove(k);
        perm.remove_ensures(k);
        w.remove_ensures(k);
        let d = v.drop_last();
        assert forall|q: int| 0 <= q < p2.len() implies 0 <= #[trigger] p2[q] < (n - 1) as nat by {
            let src = if q < k { q } else { q + 1 };
            assert(p2[q] == perm[src]);
            assert(src != k);
        }
        assert forall|i: int| 0 <= i < n - 1 implies #[trigger] p2.contains(i) by {
            lemma_position_of(perm, n, i);
            let src = position_of(perm, i);
            assert(src != k);
            if src < k {
                assert(p2[src] == i);
            } else {
                assert(p2[src - 1] == i);
            }
        }
        assert(p2.no_duplicates()) by {
            assert forall|a: int, b: int| 0 <= a < p2.len() && 0 <= b < p2.len() && a != b implies p2[a]
                != p2[b] by {
                let sa = if a < k { a } else { a + 1 };
                let sb = if b < k { b } else { b + 1 };
                assert(p2[a] == perm[sa] && p2[b] == perm[sb]);
            }
        }
        lemma_sum_permuted(d, p2);
        assert(w.remove(k) =~= permuted(d, p2)) by {
            assert forall|q: int| 0 <= q < p2.len() implies #[trigger] w.remove(k)[q] == permuted(
                d,
                p2,
            )[q] by {
                let src = if q < k { q } else { q + 1 };
                assert(w.remove(k)[q] == w[src]);
                assert(p2[q] == perm[src]);
            }
        }
    }
}

proof fn lemma_marked_sum_as_terms(alloc: Seq<Seq<i32>>, mask: Seq<bool>, j: int, k: nat)
    ensures
        marked_sum(alloc, mask, j, k as int) == seq_sum(marked_terms(alloc, mask, j, k)),
    decreases k,
{
    if k > 0 {
        lemma_marked_sum_as_terms(alloc, mask, j, (k - 1) as nat);
        assert(marked_terms(alloc, mask, j, k).drop_last() =~= marked_terms(
            alloc,
            mask,
            j,
            (k - 1) as nat,
        ));
    }
}

proof fn lemma_marked_sum_permuted(alloc: Seq<Seq<i32>>, mask: Seq<bool>, j: int, perm: Seq<int>)
    requires
        is_permutation(perm, alloc.len()),
    ensures
        marked_sum(permuted(alloc, perm), permuted(mask, perm), j, alloc.len() as int) == marked_sum(
            alloc,
            mask,
            j,
            alloc.len() as int,
        ),
{
    let n = alloc.len();
    let t = marked_terms(alloc, mask, j, n);
    lemma_marked_sum_as_terms(alloc, mask, j, n);
    lemma_marked_sum_as_terms(permuted(alloc, perm), permuted(mask, perm), j, n);
    lemma_sum_permuted(t, perm);
    assert(marked_terms(permuted(alloc, perm), permuted(mask, perm), j, n) =~= permuted(t, perm));
}

proof fn lemma_safe_permuted(
    available: Seq<i32>,
    alloc: Seq<Seq<i32>>,
    need: Seq<Seq<i32>>,
    perm: Seq<int>,
)
    requires
        is_permutation(perm, alloc.len()),
        safe_state(available, alloc, need),
    ensures
        safe_state(available, permuted(alloc, perm), permuted(need, perm)),
{
    let n = alloc.len();
    let ord = choose|ord: Seq<int>| is_safe_sequence(available, alloc, need, ord);
    let ord2 = Seq::new(n, |q: int| position_of(perm, ord[q]));
    let alloc2 = permuted(alloc, perm);
    let need2 = permuted(need, perm);
    assert forall|q: int| 0 <= q < ord2.len() implies 0 <= #[trigger] ord2[q] < n by {
        lemma_position_of(perm, n, ord[q]);
    }
    assert forall|k: int| 0 <= k < n implies #[trigger] ord2.contains(k) by {
        assert(ord.contains(perm[k]));
        let q = choose|q: int| 0 <= q < ord.len() && ord[q] == perm[k];
        lemma_position_of(perm, n, perm[k]);
        assert(ord2[q] == k);
    }
    assert forall|p: int| 0 <= p < n implies can_finish(
        need2[#[trigger] ord2[p]],
        available,
        alloc2,
        mask_of(ord2.take(p), n),
    ) by {
        lemma_position_of(perm, n, ord[p]);
        assert(need2[ord2[p]] == need[ord[p]]);
        let m = mask_of(ord.take(p), n);
        let m2 = mask_of(ord2.take(p), n);
        assert(m2 =~= permuted(m, perm)) by {
            assert forall|k: int| 0 <= k < n implies #[trigger] m2[k] == m[perm[k]] by {
                if ord2.take(p).contains(k) {
                    let q = choose|q: int| 0 <= q < p && ord2.take(p)[q] == k;
                    lemma_position_of(perm, n, ord[q]);
                    assert(ord.take(p)[q] == perm[k]);
                }
                if ord.take(p).contains(perm[k]) {
                    let q = choose|q: int| 0 <= q < p && ord.take(p)[q] == perm[k];
                    lemma_position_of(perm, n, perm[k]);
                    assert(ord2.take(p)[q] == k);
                }
            }
        }
        assert(can_finish(need[ord[p]], available, alloc, m));
        assert forall|j: int| 0 <= j < available.len() implies #[trigger] cell(need2[ord2[p]], j)
            <= work_after(available, alloc2, m2, j) by {
            lemma_marked_sum_permuted(alloc, m, j, perm);
            assert(cell(need[ord[p]], j) <= work_after(available, alloc, m, j));
        }
    }
    assert(is_safe_sequence(available, alloc2, need2, ord2));
}

/// Renumbering the threads by a permutation `perm` (thread `k` of the
/// renumbered state is thread `perm[k]`) keeps a state safe or unsafe, and,
/// with no negative holding, keeps the greedy check's verdict.
pub proof fn law_safety_ignores_thread_order(
    available: Seq<i32>,
    alloc: Seq<Seq<i32>>,
    need: Seq<Seq<i32>>,
    perm: Seq<int>,
)
    requires
        is_permutation(perm, alloc.len()),
    ensures
        safe_state(available, permuted(alloc, perm), permuted(need, perm)) == safe_state(
            available,
            alloc,
            need,
        ),
        holdings_nonnegative(available, alloc) ==> greedy_safe(
            available,
            permuted(alloc, perm),
            permuted(need, perm),
        ) == greedy_safe(available, alloc, need),
{
    let n = alloc.len();
    let inv = Seq::new(n, |i: int| position_of(perm, i));
    assert forall|k: int| 0 <= k < inv.len() implies 0 <= #[trigger] inv[k] < n by {
        lemma_position_of(perm, n, k);
    }
    assert forall|i: int| 0 <= i < n implies #[trigger] inv.contains(i) by {
        lemma_position_of(perm, n, perm[i]);
        assert(inv[perm[i]] == i);
    }
    assert(inv.no_duplicates()) by {
        assert forall|a: int, b: int| 0 <= a < n && 0 <= b < n && a != b implies inv[a] != inv[b] by {
            lemma_position_of(perm, n, a);
            lemma_position_of(perm, n, b);
        }
    }
    let alloc2 = permuted(alloc, perm);
    let need2 = permuted(need, perm);
    assert(permuted(alloc2, inv) =~= alloc) by {
        assert forall|i: int| 0 <= i < n implies #[trigger] permuted(alloc2, inv)[i] == alloc[i] by {
            lemma_position_of(perm, n, i);
        }
    }
    assert(permuted(need2, inv).len() == n);
    if safe_state(available, alloc, need) {
        lemma_safe_permuted(available, alloc, need, perm);
    }
    if safe_state(available, alloc2, need2) {
        lemma_safe_permuted(available, alloc2, need2, inv);
        let back = permuted(need2, inv);
        let ord = choose|ord: Seq<int>| is_safe_sequence(available, alloc, back, ord);
        assert forall|p: int| 0 <= p < n implies can_finish(
            need[#[trigger] ord[p]],
            available,
            alloc,
            mask_of(ord.take(p), n),
        ) by {
            lemma_position_of(perm, n, ord[p]);
            assert(back[ord[p]] == need[ord[p]]);
        }
        assert(is_safe_sequence(available, alloc, need, ord));
    }
    if holdings_nonnegative(available, alloc) {
        assert(holdings_nonnegative(available, alloc2)) by {
            assert forall|i: int, j: int| 0 <= i < alloc2.len() && 0 <= j < available.len() implies #[trigger] cell(
                alloc2[i],
                j,
            ) >= 0 by {
                assert(alloc2[i] == alloc[perm[i]]);
            }
        }
        law_greedy_decides_safety(available, alloc, need);
        law_greedy_decides_safety(available, alloc2, need2);
    }
}

} // verus!
