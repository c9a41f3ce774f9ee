//! Laws of the signal graph and of signal reads and writes.

use vstd::prelude::*;

use crate::entity::EntityId;
use crate::signal::graph::{
    any_lane, dirty_after, drained_view, ids_of, lemma_reads_subscribe, reached_by_queue,
    subs_with_reads, GraphView, QueuedWrite, SignalId,
};
use crate::signal::handles::{LayoutSignal, Signal, SignalState, Sources};
use crate::signal::reach::{downstream, lemma_reach_step, reaches, successors};
use crate::signal::topo::{deps_of, is_first_ready, is_ready, kahn_order};

verus! {

// ── Recompute order ──────────────────────────────────────────────────────

/// The recompute order lists only signals that are waiting, each at most once
/// (every derived signal computes at most once per frame).
pub proof fn law_order_lists_each_waiting_signal_once(deps: Map<u64, Set<u64>>, r: Set<u64>)
    requires
        r.finite(),
    ensures
        kahn_order(deps, r).no_duplicates(),
        forall|i: int| 0 <= i < kahn_order(deps, r).len() ==> r.contains(#[trigger] kahn_order(deps, r)[i]),
    decreases r.len(),
{
    if exists|x: u64| is_first_ready(deps, r, x) {
        let x = choose|x: u64| is_first_ready(deps, r, x);
        let rest = r.remove(x);
        law_order_lists_each_waiting_signal_once(deps, rest);
        let k = kahn_order(deps, r);
        let t = kahn_order(deps, rest);
        assert(k == seq![x] + t);
        assert forall|i: int| 0 <= i < k.len() implies r.contains(#[trigger] k[i]) by {
            if i > 0 {
                assert(k[i] == t[i - 1]);
            }
        }
        assert forall|i: int, j: int| 0 <= i < k.len() && 0 <= j < k.len() && i != j implies k[i] != k[j] by {
            if i > 0 && j > 0 {
                assert(k[i] == t[i - 1] && k[j] == t[j - 1]);
            } else if i == 0 {
                assert(k[j] == t[j - 1]);
                assert(rest.contains(t[j - 1]));
            } else {
                assert(k[i] == t[i - 1]);
                assert(rest.contains(t[i - 1]));
            }
        }
    }
}

/// Dependencies recompute before their dependents: if the signal at position
/// `j` depends on the one at position `i`, then `i` comes first.
pub proof fn law_order_puts_dependencies_first(deps: Map<u64, Set<u64>>, r: Set<u64>)
    requires
        r.finite(),
    ensures
        forall|i: int, j: int|
            0 <= i < kahn_order(deps, r).len() && 0 <= j < kahn_order(deps, r).len()
                && #[trigger] deps_of(deps, kahn_order(deps, r)[j]).contains(#[trigger] kahn_order(deps, r)[i])
                ==> i < j,
    decreases r.len(),
{
    if exists|x: u64| is_first_ready(deps, r, x) {
        let x = choose|x: u64| is_first_ready(deps, r, x);
        let rest = r.remove(x);
        law_order_puts_dependencies_first(deps, rest);
        law_order_lists_each_waiting_signal_once(deps, rest);
        let k = kahn_order(deps, r);
        let t = kahn_order(deps, rest);
        assert(k == seq![x] + t);
        assert forall|i: int, j: int|
            0 <= i < k.len() && 0 <= j < k.len() && #[trigger] deps_of(deps, k[j]).contains(#[trigger] k[i])
            implies i < j by {
            if j == 0 {
                // the head depends on nothing that is still waiting
                if i == 0 {
                    assert(r.contains(x));
                } else {
                    assert(k[i] == t[i - 1]);
                    assert(rest.contains(t[i - 1]));
                }
            } else if i > 0 {
                assert(k[i] == t[i - 1] && k[j] == t[j - 1]);
                assert(deps_of(deps, t[j - 1]).contains(t[i - 1]));
            }
        }
    }
}

/// The waiting signals contain no dependency cycle: every non-empty group of
/// them has a member that depends on no other member of the group.
pub open spec fn acyclic_within(deps: Map<u64, Set<u64>>, r: Set<u64>) -> bool {
    forall|s: Set<u64>|
        #![trigger s.subset_of(r)]
        s.subset_of(r) && s.finite() && s.len() > 0 ==> exists|x: u64|
            s.contains(x) && forall|d: u64| #[trigger] deps_of(deps, x).contains(d) ==> !s.contains(d)
}

/// A finite non-empty set of ids has a smallest member.
proof fn lemma_smallest_exists(s: Set<u64>)
    requires
        s.finite(),
        s.len() > 0,
    ensures
        exists|m: u64| s.contains(m) && forall|y: u64| #[trigger] s.contains(y) ==> m <= y,
    decreases s.len(),
{
    let x = s.choose();
    assert(s.contains(x));
    let rest = s.remove(x);
    if rest.len() == 0 {
        assert forall|y: u64| #[trigger] s.contains(y) implies x <= y by {
            if y != x {
                assert(rest.contains(y));
            }
        }
    } else {
        lemma_smallest_exists(rest);
        let m = choose|m: u64| rest.contains(m) && forall|y: u64| #[trigger] rest.contains(y) ==> m <= y;
        let best = if x < m { x } else { m };
        assert forall|y: u64| #[trigger] s.contains(y) implies best <= y by {
            if y != x {
                assert(rest.contains(y));
            }
        }
        assert(s.contains(best));
    }
}

/// Without a dependency cycle every waiting signal gets its turn.
pub proof fn law_order_is_complete_without_cycles(deps: Map<u64, Set<u64>>, r: Set<u64>)
    requires
        r.finite(),
        acyclic_within(deps, r),
    ensures
        kahn_order(deps, r).to_set() == r,
        kahn_order(deps, r).len() == r.len(),
    decreases r.len(),
{
    if r.len() == 0 {
        assert(r =~= Set::<u64>::empty());
        if exists|x: u64| is_first_ready(deps, r, x) {
            let x = choose|x: u64| is_first_ready(deps, r, x);
            assert(r.contains(x));
        }
        assert(kahn_order(deps, r).to_set() =~= r);
    } else {
        assert(r.subset_of(r));
        let ready = r.filter(|x: u64| is_ready(deps, r, x));
        let w = choose|x: u64| r.contains(x) && forall|d: u64| #[trigger] deps_of(deps, x).contains(d) ==> !r.contains(d);
        assert(ready.contains(w));
        assert(ready.subset_of(r));
        vstd::set_lib::lemma_len_subset(ready, r);
        lemma_smallest_exists(ready);
        let m = choose|m: u64| ready.contains(m) && forall|y: u64| #[trigger] ready.contains(y) ==> m <= y;
        assert forall|y: u64| #[trigger] is_ready(deps, r, y) implies m <= y by {
            assert(ready.contains(y));
        }
        assert(is_first_ready(deps, r, m));
        let x = choose|x: u64| is_first_ready(deps, r, x);
        assert(x <= m && m <= x);
        let rest = r.remove(x);
        assert forall|s: Set<u64>| #![trigger s.subset_of(rest)]
            s.subset_of(rest) && s.finite() && s.len() > 0 implies exists|z: u64|
                s.contains(z) && forall|d: u64| #[trigger] deps_of(deps, z).contains(d) ==> !s.contains(d) by {
            assert(s.subset_of(r));
        }
        law_order_is_complete_without_cycles(deps, rest);
        law_order_lists_each_waiting_signal_once(deps, rest);
        let t = kahn_order(deps, rest);
        assert(kahn_order(deps, r) == seq![x] + t);
        assert(kahn_order(deps, r).to_set() =~= r) by {
            assert forall|y: u64| r.contains(y) implies kahn_order(deps, r).to_set().contains(y) by {
                if y == x {
                    assert(kahn_order(deps, r)[0] == x);
                } else {
                    assert(t.to_set().contains(y));
                    let i = choose|i: int| 0 <= i < t.len() && t[i] == y;
                    assert(kahn_order(deps, r)[i + 1] == y);
                }
            }
            assert forall|y: u64| kahn_order(deps, r).to_set().contains(y) implies r.contains(y) by {
                let i = choose|i: int| 0 <= i < kahn_order(deps, r).len() && kahn_order(deps, r)[i] == y;
                if i > 0 {
                    assert(t[i - 1] == y);
                    assert(t.to_set().contains(y));
                }
            }
        }
    }
}

/// With nothing stale there is nothing to recompute.
pub proof fn law_order_of_nothing_is_empty(deps: Map<u64, Set<u64>>)
    ensures
        kahn_order(deps, Set::empty()) == Seq::<u64>::empty(),
{
    if exists|x: u64| is_first_ready(deps, Set::empty(), x) {
        let x = choose|x: u64| is_first_ready(deps, Set::empty(), x);
        assert(Set::<u64>::empty().contains(x));
    }
}

// ── Stale propagation ────────────────────────────────────────────────────

/// Writing a signal makes its direct subscribers stale, and whatever
/// subscribes to a stale-marked signal in turn.
pub proof fn law_subscribers_are_downstream(subs: Map<u64, Set<u64>>, a: u64, x: u64, y: u64)
    requires
        x == a || downstream(subs, a).contains(x),
        successors(subs, x).contains(y),
    ensures
        downstream(subs, a).contains(y),
{
    lemma_reach_step(subs, a, x, y);
}

// ── Reads and writes ─────────────────────────────────────────────────────

/// A write is read back at once, whatever was written or queued before, and
/// the version goes up by exactly one.
pub proof fn law_write_is_read_back<T>(s: SignalState<T>, drains: nat, v: T)
    ensures
        s.after_set(drains, v).current_value(drains) == v,
        s.after_set(drains, v).current_version(drains) == s.current_version(drains) + 1,
{
}

/// The state after queueing each of `vs` in turn, all before the same drain.
pub open spec fn queue_all<T>(s: SignalState<T>, drains: nat, vs: Seq<T>) -> SignalState<T>
    decreases vs.len(),
{
    if vs.len() == 0 {
        s
    } else {
        queue_all(s, drains, vs.drop_last()).after_queue(drains, vs.last())
    }
}

/// Queued writes stay invisible until the next Sync Point drain; after it the
/// last queued value is read and the version counts every queued write.
pub proof fn law_queued_writes_apply_at_drain<T>(s: SignalState<T>, drains: nat, vs: Seq<T>)
    requires
        s.synced(drains),
        vs.len() > 0,
    ensures
        queue_all(s, drains, vs).current_value(drains) == s.current_value(drains),
        queue_all(s, drains, vs).current_version(drains) == s.current_version(drains),
        queue_all(s, drains, vs).current_value(drains + 1) == vs.last(),
        queue_all(s, drains, vs).current_version(drains + 1) == s.current_version(drains + 1) + vs.len(),
    decreases vs.len(),
{
    lemma_queue_all_pending(s, drains, vs);
    if vs.len() == 1 {
        assert(vs.drop_last() =~= Seq::<T>::empty());
        assert(queue_all(s, drains, vs.drop_last()) == s);
    } else {
        law_queued_writes_apply_at_drain(s, drains, vs.drop_last());
        lemma_queue_all_pending(s, drains, vs.drop_last());
        let p = queue_all(s, drains, vs.drop_last());
        assert(!p.pending_applied(drains));
    }
}

proof fn lemma_queue_all_pending<T>(s: SignalState<T>, drains: nat, vs: Seq<T>)
    requires
        s.synced(drains),
        vs.len() > 0,
    ensures
        queue_all(s, drains, vs).pending_epoch == drains,
        queue_all(s, drains, vs).pending.len() == (if s.pending_applied(drains) { 0 } else { s.pending.len() }) + vs.len(),
    decreases vs.len(),
{
    if vs.len() > 1 {
        lemma_queue_all_pending(s, drains, vs.drop_last());
        let p = queue_all(s, drains, vs.drop_last());
        assert(!p.pending_applied(drains));
    } else {
        assert(vs.drop_last() =~= Seq::<T>::empty());
        assert(queue_all(s, drains, vs.drop_last()) == s);
    }
}

// ── Dirty layout ─────────────────────────────────────────────────────────

/// The dirty-layout map after `n` writes of the same layout signal.
pub open spec fn rewrite_dirty(m: Map<u64, EntityId>, id: u64, e: EntityId, n: nat) -> Map<u64, EntityId>
    decreases n,
{
    if n == 0 {
        m
    } else {
        rewrite_dirty(m, id, e, (n - 1) as nat).insert(id, e)
    }
}

/// However many times a layout signal is written in one frame, it leaves one
/// dirty entry: the same map as a single write.
pub proof fn law_rewrites_leave_one_dirty_entry(m: Map<u64, EntityId>, id: u64, e: EntityId, n: nat)
    requires
        n >= 1,
    ensures
        rewrite_dirty(m, id, e, n) == m.insert(id, e),
    decreases n,
{
    if n > 1 {
        law_rewrites_leave_one_dirty_entry(m, id, e, (n - 1) as nat);
        assert(m.insert(id, e).insert(id, e) =~= m.insert(id, e));
    } else {
        assert(rewrite_dirty(m, id, e, 0) == m);
    }
}

/// After a drain, every layout signal with a queued write is dirty.
pub proof fn law_drained_layout_writes_are_dirty(dirty: Map<u64, EntityId>, q: Seq<QueuedWrite>, i: int)
    requires
        0 <= i < q.len(),
        q[i].entity is Some,
    ensures
        dirty_after(dirty, q).contains_key(q[i].id.raw()),
    decreases q.len(),
{
    if i < q.len() - 1 {
        law_drained_layout_writes_are_dirty(dirty, q.drop_last(), i);
        assert(q.drop_last()[i] == q[i]);
    }
}

// ── Dependency tracking ─────────────────────────────────────────────────

/// A derived value that read a signal goes stale when that signal is
/// written: after `d` records its reads, everything a write of the `i`-th
/// read marks stale includes `d` (and the next read of `d` recomputes it).
pub proof fn law_reader_goes_stale_on_write(subs: Map<u64, Set<u64>>, d: u64, reads: Seq<u64>, i: int)
    requires
        0 <= i < reads.len(),
    ensures
        downstream(subs_with_reads(subs, d, reads), reads[i]).contains(d),
{
    let after = subs_with_reads(subs, d, reads);
    lemma_reads_subscribe(subs, d, reads, i);
    lemma_reach_step(after, reads[i], reads[i], d);
}

// ── Identity ─────────────────────────────────────────────────────────────

/// Ids issued by two graphs of different identity never coincide, so the
/// signals of graphs made from one `GraphIds` source all have distinct ids.
pub proof fn law_ids_differ_across_graphs(g1: GraphView, g2: GraphView, a: SignalId, b: SignalId)
    requires
        g1.graph != g2.graph,
        g1.issued(a),
        g2.issued(b),
    ensures
        a != b,
{
}

// ── The Sync Point drain ─────────────────────────────────────────────────

/// The graph after each of `q`, in order, is written with `set`: a write
/// marks what lies downstream of its signal stale, and a layout write also
/// records its entity as dirty.
pub open spec fn after_sets(g: GraphView, q: Seq<QueuedWrite>) -> GraphView
    decreases q.len(),
{
    if q.len() == 0 {
        g
    } else {
        let p = after_sets(g, q.drop_last());
        let w = q.last();
        GraphView {
            stale: p.stale.union(downstream(p.subscribers, w.id.raw())),
            dirty_layout: match w.entity {
                Some(e) => p.dirty_layout.insert(w.id.raw(), e),
                None => p.dirty_layout,
            },
            ..p
        }
    }
}

/// Writing in order leaves every other part of the graph as it was.
proof fn lemma_after_sets_frame(g: GraphView, q: Seq<QueuedWrite>)
    ensures
        after_sets(g, q) == (GraphView {
            stale: after_sets(g, q).stale,
            dirty_layout: after_sets(g, q).dirty_layout,
            ..g
        }),
        after_sets(g, q).dirty_layout == dirty_after(g.dirty_layout, q),
        after_sets(g, q).stale == g.stale.union(reached_by_queue(g.subscribers, q, any_lane())),
    decreases q.len(),
{
    if q.len() > 0 {
        let p = q.drop_last();
        lemma_after_sets_frame(g, p);
        let subs = g.subscribers;
        let before = reached_by_queue(subs, p, any_lane());
        let after = reached_by_queue(subs, q, any_lane());
        let w = q.last();
        assert forall|x: u64| after.contains(x) <==> before.contains(x) || reaches(subs, w.id.raw(), x) by {
            if after.contains(x) {
                let j = choose|j: int| 0 <= j < q.len() && (any_lane())(q[j]) && #[trigger] reaches(subs, q[j].id.raw(), x);
                if j < q.len() - 1 {
                    assert(p[j] == q[j]);
                }
            }
            if before.contains(x) {
                let j = choose|j: int| 0 <= j < p.len() && (any_lane())(p[j]) && #[trigger] reaches(subs, p[j].id.raw(), x);
                assert(p[j] == q[j]);
            }
            if reaches(subs, w.id.raw(), x) {
                assert(q[q.len() - 1] == w);
            }
        }
        assert(after_sets(g, q).stale =~= g.stale.union(after));
    }
}

/// A Sync Point drain applies the queued writes as if each were `set`, in
/// the order they were queued: the graph's stale flags and dirty entities
/// after `drain_queues` are those after the queued writes, written in order,
/// on the graph with its queue emptied; only the drain count differs.
/// (`law_queued_writes_apply_as_sets` gives the same of each signal's value
/// and version.)
pub proof fn law_drain_applies_queued_writes_in_order(g: GraphView)
    ensures
        drained_view(g) == (GraphView {
            drains: (g.drains + 1) as u64,
            ..after_sets(GraphView { queue: Seq::empty(), ..g }, g.queue)
        }),
{
    lemma_after_sets_frame(GraphView { queue: Seq::empty(), ..g }, g.queue);
}

/// The state after writing each of `vs` in turn with `set`.
pub open spec fn set_all<T>(s: SignalState<T>, drains: nat, vs: Seq<T>) -> SignalState<T>
    decreases vs.len(),
{
    if vs.len() == 0 {
        s
    } else {
        set_all(s, drains, vs.drop_last()).after_set(drains, vs.last())
    }
}

proof fn lemma_set_all<T>(s: SignalState<T>, drains: nat, vs: Seq<T>)
    requires
        vs.len() > 0,
    ensures
        set_all(s, drains, vs).current_value(drains) == vs.last(),
        set_all(s, drains, vs).current_version(drains) == s.current_version(drains) + vs.len(),
        !set_all(s, drains, vs).pending_applied(drains),
    decreases vs.len(),
{
    if vs.len() > 1 {
        lemma_set_all(s, drains, vs.drop_last());
    } else {
        assert(vs.drop_last() =~= Seq::<T>::empty());
        assert(set_all(s, drains, vs.drop_last()) == s);
    }
}

/// Writes queued since the last drain read, after the next drain, exactly
/// as if they had been `set` in order instead: same value, same version.
pub proof fn law_queued_writes_apply_as_sets<T>(s: SignalState<T>, drains: nat, vs: Seq<T>)
    requires
        s.pending.len() > 0 ==> s.pending_epoch < drains,
        vs.len() > 0,
    ensures
        queue_all(s, drains, vs).current_value(drains + 1) == set_all(s, drains, vs).current_value(drains),
        queue_all(s, drains, vs).current_version(drains + 1) == set_all(s, drains, vs).current_version(drains),
{
    law_queued_writes_apply_at_drain(s, drains, vs);
    lemma_set_all(s, drains, vs);
}

// ── Dirty entities ───────────────────────────────────────────────────────

/// Every layout signal is written with the one entity it belongs to.
pub open spec fn entity_per_signal(q: Seq<QueuedWrite>) -> bool {
    forall|i: int, j: int|
        0 <= i < q.len() && 0 <= j < q.len() && #[trigger] q[i].id.raw() == #[trigger] q[j].id.raw()
            && q[i].entity is Some && q[j].entity is Some ==> q[i].entity == q[j].entity
}

/// The entities of the layout writes among `q`.
pub open spec fn written_entities(q: Seq<QueuedWrite>) -> Set<EntityId> {
    Set::new(|e: EntityId| exists|i: int| 0 <= i < q.len() && #[trigger] q[i].entity == Some(e))
}

/// Starting from an empty dirty set (right after a take), the dirty entities
/// after any layout writes, immediate or drained, are exactly the entities
/// written: `take_layout_dirty` then hands out each of them once.
pub proof fn law_taken_entities_are_those_written(dirty: Map<u64, EntityId>, q: Seq<QueuedWrite>)
    requires
        dirty == Map::<u64, EntityId>::empty(),
        entity_per_signal(q),
    ensures
        dirty_after(dirty, q).values() == written_entities(q),
        dirty_after(dirty, q).dom() == Set::new(|k: u64| exists|i: int| 0 <= i < q.len() && q[i].entity is Some && #[trigger] q[i].id.raw() == k),
    decreases q.len(),
{
    if q.len() == 0 {
        assert(dirty_after(dirty, q).values() =~= written_entities(q));
        assert(dirty_after(dirty, q).dom() =~= Set::new(|k: u64| exists|i: int| 0 <= i < q.len() && q[i].entity is Some && #[trigger] q[i].id.raw() == k));
    } else {
        let p = q.drop_last();
        assert forall|i: int, j: int|
            0 <= i < p.len() && 0 <= j < p.len() && #[trigger] p[i].id.raw() == #[trigger] p[j].id.raw()
                && p[i].entity is Some && p[j].entity is Some implies p[i].entity == p[j].entity by {
            assert(p[i] == q[i] && p[j] == q[j]);
        }
        law_taken_entities_are_those_written(dirty, p);
        let m = dirty_after(dirty, p);
        let w = q.last();
        let keys = Set::new(|k: u64| exists|i: int| 0 <= i < q.len() && q[i].entity is Some && #[trigger] q[i].id.raw() == k);
        let pkeys = Set::new(|k: u64| exists|i: int| 0 <= i < p.len() && p[i].entity is Some && #[trigger] p[i].id.raw() == k);
        assert forall|k: u64| pkeys.contains(k) implies keys.contains(k) by {
            let i = choose|i: int| 0 <= i < p.len() && p[i].entity is Some && #[trigger] p[i].id.raw() == k;
            assert(p[i] == q[i]);
        }
        assert forall|k: u64| keys.contains(k) implies pkeys.contains(k) || (w.entity is Some && w.id.raw() == k) by {
            let i = choose|i: int| 0 <= i < q.len() && q[i].entity is Some && #[trigger] q[i].id.raw() == k;
            if i < q.len() - 1 {
                assert(p[i] == q[i]);
            }
        }
        // every dirty entry maps a written signal to that signal's entity
        assert forall|k: u64| #[trigger] m.contains_key(k) implies exists|i: int| 0 <= i < p.len() && p[i].id.raw() == k && p[i].entity == Some(m[k]) by {
            lemma_dirty_entry_written(dirty, p, k);
        }
        match w.entity {
            Some(e) => {
                assert(w.id.raw() == q[q.len() - 1].id.raw());
                assert(dirty_after(dirty, q).dom() =~= keys);
                assert forall|x: EntityId| dirty_after(dirty, q).values().contains(x) <==> written_entities(q).contains(x) by {
                    let m2 = m.insert(w.id.raw(), e);
                    if m2.values().contains(x) {
                        let k = choose|k: u64| #[trigger] m2.contains_key(k) && m2[k] == x;
                        if k == w.id.raw() {
                            assert(q[q.len() - 1].entity == Some(x));
                        } else {
                            assert(m.values().contains(x));
                            let i = choose|i: int| 0 <= i < p.len() && #[trigger] p[i].entity == Some(x);
                            assert(p[i] == q[i]);
                        }
                    }
                    if written_entities(q).contains(x) {
                        let i = choose|i: int| 0 <= i < q.len() && #[trigger] q[i].entity == Some(x);
                        if i == q.len() - 1 {
                            assert(m2.contains_key(w.id.raw()) && m2[w.id.raw()] == x);
                        } else {
                            assert(p[i] == q[i]);
                            assert(written_entities(p).contains(x));
                            assert(m.values().contains(x));
                            let k = choose|k: u64| #[trigger] m.contains_key(k) && m[k] == x;
                            if k == w.id.raw() {
                                let j = choose|j: int| 0 <= j < p.len() && p[j].id.raw() == k && p[j].entity == Some(m[k]);
                                assert(p[j] == q[j]);
                                assert(q[j].id.raw() == q[q.len() - 1].id.raw());
                                assert(m2[k] == x);
                            } else {
                                assert(m2.contains_key(k) && m2[k] == x);
                            }
                        }
                    }
                }
                assert(dirty_after(dirty, q).values() =~= written_entities(q));
            },
            None => {
                assert(dirty_after(dirty, q).dom() =~= keys);
                assert forall|x: EntityId| written_entities(q).contains(x) <==> written_entities(p).contains(x) by {
                    if written_entities(q).contains(x) {
                        let i = choose|i: int| 0 <= i < q.len() && #[trigger] q[i].entity == Some(x);
                        assert(i != q.len() - 1);
                        assert(p[i] == q[i]);
                    }
                    if written_entities(p).contains(x) {
                        let i = choose|i: int| 0 <= i < p.len() && #[trigger] p[i].entity == Some(x);
                        assert(p[i] == q[i]);
                    }
                }
                assert(written_entities(q) =~= written_entities(p));
            },
        }
    }
}

/// Each dirty entry records a layout write of that signal with that entity.
proof fn lemma_dirty_entry_written(dirty: Map<u64, EntityId>, q: Seq<QueuedWrite>, k: u64)
    requires
        dirty == Map::<u64, EntityId>::empty(),
        dirty_after(dirty, q).contains_key(k),
    ensures
        exists|i: int| 0 <= i < q.len() && q[i].id.raw() == k && q[i].entity == Some(dirty_after(dirty, q)[k]),
    decreases q.len(),
{
    let p = q.drop_last();
    let w = q.last();
    if w.entity is Some && w.id.raw() == k {
        assert(q[q.len() - 1] == w);
    } else {
        lemma_dirty_entry_written(dirty, p, k);
        let i = choose|i: int| 0 <= i < p.len() && p[i].id.raw() == k && p[i].entity == Some(dirty_after(dirty, p)[k]);
        assert(p[i] == q[i]);
    }
}

/// The dirty count is zero exactly when a take would hand out nothing, and
/// writing a layout signal that is already dirty leaves the count as it is.
pub proof fn law_dirty_count_zero_iff_nothing_to_take(
    dirty: Map<u64, EntityId>,
    taken: Seq<EntityId>,
    id: u64,
    e: EntityId,
)
    requires
        taken.to_set() == dirty.values(),
    ensures
        dirty.values().len() == 0 <==> taken.len() == 0,
        dirty.contains_key(id) && dirty[id] == e ==> dirty.insert(id, e).values().len() == dirty.values().len(),
{
    taken.lemma_cardinality_of_set();
    if taken.len() > 0 {
        assert(taken.to_set().contains(taken[0]));
    }
    if dirty.contains_key(id) && dirty[id] == e {
        assert(dirty.insert(id, e) =~= dirty);
    }
}

/// A layout write makes its entity one of the dirty entities, which the next
/// take hands out: a scope's entity is dirty after a write of any layout
/// signal created through the scope.
pub proof fn law_layout_write_dirties_its_entity(dirty: Map<u64, EntityId>, id: u64, e: EntityId)
    ensures
        dirty.insert(id, e).values().contains(e),
{
    assert(dirty.insert(id, e).contains_key(id));
}

// ── The write queue ──────────────────────────────────────────────────────

/// The queue after each of `ws` is queued in turn.
pub open spec fn queued_all(q: Seq<QueuedWrite>, ws: Seq<QueuedWrite>) -> Seq<QueuedWrite>
    decreases ws.len(),
{
    if ws.len() == 0 {
        q
    } else {
        queued_all(q, ws.drop_last()).push(ws.last())
    }
}

/// After a drain the queue holds exactly the writes queued since, in order,
/// so the queued-write count is the number of `queue` calls since the drain.
pub proof fn law_queue_counts_writes_since_drain(ws: Seq<QueuedWrite>)
    ensures
        queued_all(Seq::empty(), ws) == ws,
        queued_all(Seq::empty(), ws).len() == ws.len(),
    decreases ws.len(),
{
    if ws.len() > 0 {
        law_queue_counts_writes_since_drain(ws.drop_last());
        assert(ws.drop_last().push(ws.last()) =~= ws);
    } else {
        assert(ws =~= Seq::<QueuedWrite>::empty());
    }
}

// ── Immediate writes between a queue and its drain ──────────────────────

/// Immediate writes leave writes queued but not yet drained in place: they
/// count one version each and keep the queue's drain epoch.
proof fn lemma_sets_keep_pending<T>(q: SignalState<T>, drains: nat, ws: Seq<T>)
    requires
        !q.pending_applied(drains),
    ensures
        set_all(q, drains, ws).pending == q.pending,
        set_all(q, drains, ws).pending_epoch == q.pending_epoch,
        set_all(q, drains, ws).version == q.version + ws.len(),
        ws.len() > 0 ==> set_all(q, drains, ws).value == ws.last(),
        ws.len() == 0 ==> set_all(q, drains, ws) == q,
    decreases ws.len(),
{
    if ws.len() > 0 {
        lemma_sets_keep_pending(q, drains, ws.drop_last());
    }
}

/// A write queued before the next drain is applied by that drain whatever
/// immediate writes come in between: until the drain the last immediate
/// write is read; after it the last queued value is read, and the version
/// counts the immediate writes and every queued write.
pub proof fn law_queued_writes_survive_immediate_writes<T>(s: SignalState<T>, drains: nat, vs: Seq<T>, ws: Seq<T>)
    requires
        s.synced(drains),
        vs.len() > 0,
        ws.len() > 0,
    ensures
        set_all(queue_all(s, drains, vs), drains, ws).current_value(drains) == ws.last(),
        set_all(queue_all(s, drains, vs), drains, ws).current_version(drains) == s.current_version(drains) + ws.len(),
        set_all(queue_all(s, drains, vs), drains, ws).current_value(drains + 1) == vs.last(),
        set_all(queue_all(s, drains, vs), drains, ws).current_version(drains + 1)
            == s.current_version(drains + 1) + vs.len() + ws.len(),
{
    let q = queue_all(s, drains, vs);
    lemma_queue_all_pending(s, drains, vs);
    law_queued_writes_apply_at_drain(s, drains, vs);
    assert(!q.pending_applied(drains));
    lemma_sets_keep_pending(q, drains, ws);
    lemma_queue_all_last(s, drains, vs);
}

/// The last write queued is the last pending one, and the queued state
/// keeps the version its reader saw.
proof fn lemma_queue_all_last<T>(s: SignalState<T>, drains: nat, vs: Seq<T>)
    requires
        s.synced(drains),
        vs.len() > 0,
    ensures
        queue_all(s, drains, vs).pending.last() == vs.last(),
        queue_all(s, drains, vs).version == s.current_version(drains),
    decreases vs.len(),
{
    if vs.len() > 1 {
        lemma_queue_all_last(s, drains, vs.drop_last());
        lemma_queue_all_pending(s, drains, vs.drop_last());
    } else {
        assert(vs.drop_last() =~= Seq::<T>::empty());
        assert(queue_all(s, drains, vs.drop_last()) == s);
    }
}

// ── What a derived computation reads ────────────────────────────────────

/// A derived value that reads a plain signal depends on it: after the read
/// is recorded, a write of that signal makes the derived value stale.
pub proof fn law_signal_read_is_tracked<T>(x: &Signal<T>, subs: Map<u64, Set<u64>>, d: u64)
    ensures
        downstream(subs_with_reads(subs, d, ids_of((&*x).read_ids())), x@.id.raw()).contains(d),
{
    let reads = ids_of((&*x).read_ids());
    assert((&*x).read_ids().len() == 1 && (&*x).read_ids()[0] == x@.id);
    assert(reads[0] == x@.id.raw());
    law_reader_goes_stale_on_write(subs, d, reads, 0);
}

/// A derived value that reads a layout signal depends on it: after the read
/// is recorded, a write of that layout signal (immediate, or queued and
/// drained) makes the derived value stale.
pub proof fn law_layout_signal_read_is_tracked<T>(x: &LayoutSignal<T>, subs: Map<u64, Set<u64>>, d: u64)
    ensures
        downstream(subs_with_reads(subs, d, ids_of((&*x).read_ids())), x@.id.raw()).contains(d),
{
    let reads = ids_of((&*x).read_ids());
    assert((&*x).read_ids().len() == 1 && (&*x).read_ids()[0] == x@.id);
    assert(reads[0] == x@.id.raw());
    law_reader_goes_stale_on_write(subs, d, reads, 0);
}

/// A derived value that reads a pair of sources depends on every signal
/// either component reads: a write of any of them makes it stale.
pub proof fn law_pair_reads_are_tracked<A: Sources, B: Sources>(
    p: (A, B),
    subs: Map<u64, Set<u64>>,
    d: u64,
    x: SignalId,
)
    requires
        p.0.read_ids().contains(x) || p.1.read_ids().contains(x),
    ensures
        downstream(subs_with_reads(subs, d, ids_of(p.read_ids())), x.raw()).contains(d),
{
    let all = p.read_ids();
    let i: int = if p.0.read_ids().contains(x) {
        choose|i: int| 0 <= i < p.0.read_ids().len() && p.0.read_ids()[i] == x
    } else {
        let j = choose|j: int| 0 <= j < p.1.read_ids().len() && p.1.read_ids()[j] == x;
        p.0.read_ids().len() + j
    };
    let reads = ids_of(all);
    assert(0 <= i < all.len() && all[i] == x);
    assert(reads[i] == x.raw());
    law_reader_goes_stale_on_write(subs, d, reads, i);
}

} // verus!
