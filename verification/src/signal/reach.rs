//! Reachability along subscriber edges: which derived signals lie downstream
//! of a written signal.

use vstd::prelude::*;

verus! {

/// The signals that directly subscribe to `x` (empty when `x` has no entry).
pub open spec fn successors(subs: Map<u64, Set<u64>>, x: u64) -> Set<u64> {
    if subs.contains_key(x) {
        subs[x]
    } else {
        Set::empty()
    }
}

/// Element `i + 1` of `p` subscribes to element `i`.
pub open spec fn is_edge(subs: Map<u64, Set<u64>>, p: Seq<u64>, i: int) -> bool {
    successors(subs, p[i]).contains(p[i + 1])
}

/// `p` walks subscriber edges: each element subscribes to the one before it.
pub open spec fn is_chain(subs: Map<u64, Set<u64>>, p: Seq<u64>) -> bool {
    forall|i: int| 0 <= i < p.len() - 1 ==> #[trigger] is_edge(subs, p, i)
}

/// `b` is reachable from `a` by one or more subscriber edges.
pub open spec fn reaches(subs: Map<u64, Set<u64>>, a: u64, b: u64) -> bool {
    exists|p: Seq<u64>|
        #![trigger is_chain(subs, p)]
        p.len() >= 2 && p[0] == a && p[p.len() - 1] == b && is_chain(subs, p)
}

/// Everything reachable from `a` by one or more subscriber edges.
pub open spec fn downstream(subs: Map<u64, Set<u64>>, a: u64) -> Set<u64> {
    Set::new(|b: u64| reaches(subs, a, b))
}

/// Every signal that subscribes to some signal.
pub open spec fn all_targets(subs: Map<u64, Set<u64>>) -> Set<u64> {
    Set::new(|y: u64| exists|x: u64| subs.contains_key(x) && #[trigger] subs[x].contains(y))
}

/// Every subscriber set is finite and so is the map.
pub open spec fn finite_edges(subs: Map<u64, Set<u64>>) -> bool {
    &&& subs.dom().finite()
    &&& forall|x: u64| subs.contains_key(x) ==> (#[trigger] subs[x]).finite()
}

/// One more edge extends a reachability.
pub proof fn lemma_reach_step(subs: Map<u64, Set<u64>>, a: u64, x: u64, y: u64)
    requires
        x == a || reaches(subs, a, x),
        successors(subs, x).contains(y),
    ensures
        reaches(subs, a, y),
{
    if x == a {
        let p = seq![a, y];
        assert(is_edge(subs, p, 0));
        assert(is_chain(subs, p));
    } else {
        let p = choose|p: Seq<u64>|
            #![trigger is_chain(subs, p)]
            p.len() >= 2 && p[0] == a && p[p.len() - 1] == x && is_chain(subs, p);
        let q = p.push(y);
        assert forall|i: int| 0 <= i < q.len() - 1 implies #[trigger] is_edge(subs, q, i) by {
            if i < p.len() - 1 {
                assert(is_edge(subs, p, i));
                assert(q[i] == p[i] && q[i + 1] == p[i + 1]);
            }
        }
        assert(is_chain(subs, q));
    }
}

/// A set that holds `a` and whose members' subscribers all lie in `hit`,
/// and whose members' subscribers are themselves members, contains every
/// signal downstream of `a` in `hit`.
pub proof fn lemma_closed_covers(subs: Map<u64, Set<u64>>, a: u64, vis: Set<u64>, hit: Set<u64>, b: u64)
    requires
        vis.contains(a),
        forall|v: u64| #[trigger] vis.contains(v) ==> successors(subs, v).subset_of(vis),
        forall|v: u64| #[trigger] vis.contains(v) ==> successors(subs, v).subset_of(hit),
        reaches(subs, a, b),
    ensures
        hit.contains(b),
{
    let p = choose|p: Seq<u64>|
        #![trigger is_chain(subs, p)]
        p.len() >= 2 && p[0] == a && p[p.len() - 1] == b && is_chain(subs, p);
    lemma_chain_stays(subs, vis, p, p.len() - 2);
    assert(is_edge(subs, p, p.len() - 2));
}

/// A chain that starts in a set closed under subscriber edges stays in it.
proof fn lemma_chain_stays(subs: Map<u64, Set<u64>>, vis: Set<u64>, p: Seq<u64>, k: int)
    requires
        p.len() >= 1,
        0 <= k < p.len(),
        vis.contains(p[0]),
        is_chain(subs, p),
        forall|v: u64| #[trigger] vis.contains(v) ==> successors(subs, v).subset_of(vis),
    ensures
        vis.contains(p[k]),
    decreases k,
{
    if k > 0 {
        lemma_chain_stays(subs, vis, p, k - 1);
        assert(is_edge(subs, p, k - 1));
    }
}

/// Whatever is reachable is some signal's subscriber.
pub proof fn lemma_reach_in_targets(subs: Map<u64, Set<u64>>, a: u64, b: u64)
    requires
        reaches(subs, a, b),
    ensures
        all_targets(subs).contains(b),
{
    let p = choose|p: Seq<u64>|
        #![trigger is_chain(subs, p)]
        p.len() >= 2 && p[0] == a && p[p.len() - 1] == b && is_chain(subs, p);
    let x = p[p.len() - 2];
    assert(is_edge(subs, p, p.len() - 2));
    assert(subs.contains_key(x) && subs[x].contains(b));
}

/// Finitely many finite subscriber sets have finitely many members in all.
pub proof fn lemma_targets_finite(subs: Map<u64, Set<u64>>)
    requires
        finite_edges(subs),
    ensures
        all_targets(subs).finite(),
    decreases subs.dom().len(),
{
    if subs.dom().len() == 0 {
        assert(subs.dom() =~= Set::empty());
        assert(all_targets(subs) =~= Set::empty());
    } else {
        let k = subs.dom().choose();
        let rest = subs.remove(k);
        assert(rest.dom() =~= subs.dom().remove(k));
        assert(finite_edges(rest));
        lemma_targets_finite(rest);
        assert(all_targets(subs) =~= all_targets(rest).union(subs[k])) by {
            assert forall|y: u64| all_targets(subs).contains(y) implies all_targets(rest).union(subs[k]).contains(y) by {
                let x = choose|x: u64| subs.contains_key(x) && #[trigger] subs[x].contains(y);
                if x != k {
                    assert(rest.contains_key(x) && rest[x].contains(y));
                }
            }
            assert forall|y: u64| all_targets(rest).union(subs[k]).contains(y) implies all_targets(subs).contains(y) by {
                if !subs[k].contains(y) {
                    let x = choose|x: u64| rest.contains_key(x) && #[trigger] rest[x].contains(y);
                    assert(subs.contains_key(x) && subs[x].contains(y));
                }
            }
        }
    }
}

} // verus!
