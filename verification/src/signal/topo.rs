//! The order in which stale derived signals recompute: Kahn's algorithm that,
//! among the signals whose stale dependencies are all done, always takes the
//! one with the smallest id.

use vstd::prelude::*;
use vstd::set_lib::{lemma_int_range, lemma_len_subset, set_int_range};

verus! {

/// The signals that `x` depends on (empty when `x` has no entry).
pub open spec fn deps_of(deps: Map<u64, Set<u64>>, x: u64) -> Set<u64> {
    if deps.contains_key(x) {
        deps[x]
    } else {
        Set::empty()
    }
}

/// `x` is still to be ordered and none of its dependencies is.
pub open spec fn is_ready(deps: Map<u64, Set<u64>>, remaining: Set<u64>, x: u64) -> bool {
    &&& remaining.contains(x)
    &&& forall|d: u64| #[trigger] deps_of(deps, x).contains(d) ==> !remaining.contains(d)
}

/// `x` is the ready signal with the smallest id.
pub open spec fn is_first_ready(deps: Map<u64, Set<u64>>, remaining: Set<u64>, x: u64) -> bool {
    &&& is_ready(deps, remaining, x)
    &&& forall|y: u64| #[trigger] is_ready(deps, remaining, y) ==> x <= y
}

/// The recompute order of the signals in `remaining`: repeatedly take the
/// smallest-id signal none of whose dependencies is still waiting. Signals
/// on a dependency cycle (and those behind one) never become ready and are
/// left out.
pub open spec fn kahn_order(deps: Map<u64, Set<u64>>, remaining: Set<u64>) -> Seq<u64>
    decreases remaining.len(),
{
    if remaining.finite() && exists|x: u64| is_first_ready(deps, remaining, x) {
        let x = choose|x: u64| is_first_ready(deps, remaining, x);
        seq![x] + kahn_order(deps, remaining.remove(x))
    } else {
        Seq::empty()
    }
}

/// `s` is strictly increasing.
pub open spec fn ids_sorted(s: Seq<u64>) -> bool {
    forall|i: int, j: int| 0 <= i < j < s.len() ==> #[trigger] s[i] < #[trigger] s[j]
}

/// The candidates that are not done yet.
pub open spec fn remaining_of(cand: Seq<u64>, done: Seq<bool>) -> Set<u64> {
    Set::new(|x: u64| exists|j: int| 0 <= j < cand.len() && cand[j] == x && !done[j])
}

/// Candidate `i` depends on candidate `j`.
pub open spec fn cand_dep(deps: Map<u64, Set<u64>>, cand: Seq<u64>, i: int, j: int) -> bool {
    deps_of(deps, cand[i]).contains(cand[j])
}

/// The indices of the dependencies of candidate `i` that are not done yet.
pub open spec fn pending_deps(deps: Map<u64, Set<u64>>, cand: Seq<u64>, done: Seq<bool>, i: int) -> Set<int> {
    Set::new(|j: int| 0 <= j < cand.len() && cand_dep(deps, cand, i, j) && !done[j])
}

/// The indices among `0 .. k` of the dependencies of candidate `i`.
pub open spec fn deps_below(deps: Map<u64, Set<u64>>, cand: Seq<u64>, i: int, k: int) -> Set<int> {
    Set::new(|j: int| 0 <= j < k && cand_dep(deps, cand, i, j))
}

/// The indices of the candidates that are done.
pub open spec fn done_set(done: Seq<bool>) -> Set<int> {
    Set::new(|j: int| 0 <= j < done.len() && done[j])
}

/// Sets of indices below `n` are finite and hold at most `n` members.
pub proof fn lemma_index_set_bounded(s: Set<int>, n: int)
    requires
        n >= 0,
        forall|j: int| #[trigger] s.contains(j) ==> 0 <= j < n,
    ensures
        s.finite(),
        s.len() <= n,
{
    lemma_int_range(0, n);
    assert(s.subset_of(set_int_range(0, n)));
    lemma_len_subset(s, set_int_range(0, n));
}

/// Counting one more index: the dependencies below `k + 1`.
pub proof fn lemma_deps_below_step(deps: Map<u64, Set<u64>>, cand: Seq<u64>, i: int, k: int)
    requires
        0 <= k,
    ensures
        deps_below(deps, cand, i, k + 1) == (if cand_dep(deps, cand, i, k) {
            deps_below(deps, cand, i, k).insert(k)
        } else {
            deps_below(deps, cand, i, k)
        }),
        !deps_below(deps, cand, i, k).contains(k),
        deps_below(deps, cand, i, k).finite(),
{
    lemma_index_set_bounded(deps_below(deps, cand, i, k), k);
    if cand_dep(deps, cand, i, k) {
        assert(deps_below(deps, cand, i, k + 1) =~= deps_below(deps, cand, i, k).insert(k));
    } else {
        assert(deps_below(deps, cand, i, k + 1) =~= deps_below(deps, cand, i, k));
    }
}

/// With nothing done, the pending dependencies are all the dependencies.
pub proof fn lemma_pending_initial(deps: Map<u64, Set<u64>>, cand: Seq<u64>, done: Seq<bool>, i: int)
    requires
        done.len() == cand.len(),
        forall|j: int| 0 <= j < done.len() ==> !#[trigger] done[j],
    ensures
        pending_deps(deps, cand, done, i) == deps_below(deps, cand, i, cand.len() as int),
{
    assert(pending_deps(deps, cand, done, i) =~= deps_below(deps, cand, i, cand.len() as int));
}

/// A not-done candidate is ready exactly when it has no pending dependency.
pub proof fn lemma_ready_iff_no_pending(deps: Map<u64, Set<u64>>, cand: Seq<u64>, done: Seq<bool>, i: int)
    requires
        done.len() == cand.len(),
        0 <= i < cand.len(),
        !done[i],
    ensures
        pending_deps(deps, cand, done, i).finite(),
        is_ready(deps, remaining_of(cand, done), cand[i]) <==> pending_deps(deps, cand, done, i).len() == 0,
{
    let p = pending_deps(deps, cand, done, i);
    let r = remaining_of(cand, done);
    lemma_index_set_bounded(p, cand.len() as int);
    assert(r.contains(cand[i]));
    if p.len() == 0 {
        assert(p =~= Set::<int>::empty()) by {
            if exists|j: int| p.contains(j) {
                let j = choose|j: int| p.contains(j);
                assert(p.remove(j).len() == p.len() - 1);
            }
        }
        assert forall|d: u64| #[trigger] deps_of(deps, cand[i]).contains(d) implies !r.contains(d) by {
            if r.contains(d) {
                let j = choose|j: int| 0 <= j < cand.len() && cand[j] == d && !done[j];
                assert(p.contains(j));
            }
        }
    } else {
        let j = p.choose();
        assert(p.contains(j));
        assert(r.contains(cand[j]));
        assert(deps_of(deps, cand[i]).contains(cand[j]));
    }
}

/// Marking candidate `k` done removes it from every pending set, from the
/// remaining signals, and adds it to the done indices.
pub proof fn lemma_mark_done(deps: Map<u64, Set<u64>>, cand: Seq<u64>, done: Seq<bool>, k: int)
    requires
        done.len() == cand.len(),
        0 <= k < cand.len(),
        !done[k],
        cand.no_duplicates(),
    ensures
        forall|t: int| #[trigger] pending_deps(deps, cand, done.update(k, true), t) == pending_deps(deps, cand, done, t).remove(k),
        remaining_of(cand, done.update(k, true)) == remaining_of(cand, done).remove(cand[k]),
        done_set(done.update(k, true)) == done_set(done).insert(k),
        !done_set(done).contains(k),
{
    let d2 = done.update(k, true);
    assert forall|t: int| #[trigger] pending_deps(deps, cand, d2, t) == pending_deps(deps, cand, done, t).remove(k) by {
        assert(pending_deps(deps, cand, d2, t) =~= pending_deps(deps, cand, done, t).remove(k));
    }
    assert forall|x: u64| remaining_of(cand, d2).contains(x) <==> remaining_of(cand, done).remove(cand[k]).contains(x) by {
        if remaining_of(cand, d2).contains(x) {
            let j = choose|j: int| 0 <= j < cand.len() && cand[j] == x && !d2[j];
            assert(j != k);
            assert(!done[j]);
        }
        if remaining_of(cand, done).remove(cand[k]).contains(x) {
            let j = choose|j: int| 0 <= j < cand.len() && cand[j] == x && !done[j];
            assert(j != k);
            assert(!d2[j]);
        }
    }
    assert(remaining_of(cand, d2) =~= remaining_of(cand, done).remove(cand[k]));
    assert(done_set(d2) =~= done_set(done).insert(k));
}

/// Taking the first ready signal is one step of the order.
pub proof fn lemma_kahn_step(deps: Map<u64, Set<u64>>, remaining: Set<u64>, x: u64)
    requires
        remaining.finite(),
        is_first_ready(deps, remaining, x),
    ensures
        kahn_order(deps, remaining) == seq![x] + kahn_order(deps, remaining.remove(x)),
{
    let y = choose|y: u64| is_first_ready(deps, remaining, y);
    assert(is_first_ready(deps, remaining, y));
    assert(x <= y && y <= x);
}

/// With no ready signal left the order ends.
pub proof fn lemma_kahn_stuck(deps: Map<u64, Set<u64>>, remaining: Set<u64>)
    requires
        forall|x: u64| !#[trigger] is_ready(deps, remaining, x),
    ensures
        kahn_order(deps, remaining) == Seq::<u64>::empty(),
{
    if exists|x: u64| is_first_ready(deps, remaining, x) {
        let x = choose|x: u64| is_first_ready(deps, remaining, x);
        assert(is_ready(deps, remaining, x));
    }
}

} // verus!
