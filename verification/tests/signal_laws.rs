use std::cell::Cell;

use fe_ui_core::entity::EntityId;
use fe_ui_core::signal::{
    use_derived, use_layout_signal, use_signal, GraphIds, Scope, Signal, SignalGraph, SignalId,
    Version,
};

fn fresh(idx: u32) -> (Scope, SignalGraph) {
    (Scope::new(EntityId::new(idx, 1)), SignalGraph::new(&mut GraphIds::new()))
}

fn link(g: &mut SignalGraph, derived: SignalId, source: SignalId) {
    g.begin_tracking(derived);
    g.record_read(source);
    g.end_tracking(derived);
}

// ── Reads and writes ─────────────────────────────────────────────────────

#[test]
fn law_write_is_read_back_over_a_queued_write() {
    let (mut cx, mut g) = fresh(1);
    let mut sig = use_signal(&mut cx, &mut g, || 0_i32);
    let v0 = sig.version(&g);
    sig.queue(&mut g, 5);
    sig.set(&mut g, 9);
    assert_eq!(sig.get(&g), 9);
    assert_eq!(sig.version(&g), {
        let mut v = v0;
        v.increment()
    });
}

#[test]
fn law_queued_writes_apply_at_drain() {
    let (mut cx, mut g) = fresh(1);
    let mut sig = use_signal(&mut cx, &mut g, || 0_i32);
    sig.set(&mut g, 1);
    let before = sig.version(&g);
    sig.queue(&mut g, 2);
    sig.queue(&mut g, 3);
    // invisible before the drain: value and version unchanged
    assert_eq!(sig.get(&g), 1);
    assert_eq!(sig.version(&g), before);
    g.drain_queues();
    assert_eq!(sig.get(&g), 3);
    let mut expected = before;
    expected.increment();
    expected.increment();
    assert_eq!(sig.version(&g), expected);
}

#[test]
fn queued_write_after_a_drain_starts_a_new_batch() {
    let (mut cx, mut g) = fresh(1);
    let mut sig = use_signal(&mut cx, &mut g, || 0_i32);
    sig.queue(&mut g, 1);
    g.drain_queues();
    sig.queue(&mut g, 2);
    assert_eq!(sig.get(&g), 1);
    g.drain_queues();
    assert_eq!(sig.get(&g), 2);
    assert_eq!(g.drain_count(), 2);
}

#[test]
fn version_starts_at_initial() {
    let (mut cx, mut g) = fresh(1);
    let sig = use_signal(&mut cx, &mut g, || 'x');
    assert_eq!(sig.version(&g), Version::initial());
    assert_eq!(Version::default(), Version::initial());
}

// ── Stale propagation ────────────────────────────────────────────────────

#[test]
fn law_subscribers_are_downstream() {
    let (_cx, mut g) = fresh(1);
    let src = SignalId::next(&mut g);
    let a = SignalId::next(&mut g);
    let b = SignalId::next(&mut g);
    let other = SignalId::next(&mut g);
    g.register_signal(src);
    g.register_derived(a);
    g.register_derived(b);
    g.register_derived(other);
    link(&mut g, a, src);
    link(&mut g, b, a);
    g.mark_signal_updated(src);
    assert!(g.is_derived_stale(a));
    assert!(g.is_derived_stale(b));
    assert!(!g.is_derived_stale(other));
    assert!(!g.is_derived_stale(src));
    g.clear_derived_stale(a);
    assert!(!g.is_derived_stale(a));
    assert!(g.is_derived_stale(b));
}

#[test]
fn record_read_outside_tracking_adds_no_edge() {
    let (_cx, mut g) = fresh(1);
    let src = SignalId::next(&mut g);
    let d = SignalId::next(&mut g);
    g.register_signal(src);
    g.register_derived(d);
    g.record_read(src);
    g.mark_signal_updated(src);
    assert!(!g.is_derived_stale(d));
}

#[test]
fn plain_queued_write_marks_stale_only_in_two_lane_drain() {
    let (mut cx, mut g) = fresh(1);
    let mut sig = use_signal(&mut cx, &mut g, || 0_i32);
    let d = SignalId::next(&mut g);
    g.register_derived(d);
    link(&mut g, d, sig.id());

    sig.queue(&mut g, 1);
    g.drain_physics_queue();
    assert!(!g.is_derived_stale(d));

    sig.queue(&mut g, 2);
    g.drain_queues();
    assert!(g.is_derived_stale(d));
}

#[test]
fn set_marks_derived_stale_at_once() {
    let (mut cx, mut g) = fresh(1);
    let mut sig = use_layout_signal(&mut cx, &mut g, || 1_u8);
    let d = SignalId::next(&mut g);
    g.register_derived(d);
    link(&mut g, d, sig.id());
    sig.set(&mut g, 2);
    assert!(g.is_derived_stale(d));
}

// ── Derived signals ──────────────────────────────────────────────────────

#[test]
fn derived_recomputes_only_when_stale() {
    let runs = Cell::new(0_u32);
    let (mut cx, mut g) = fresh(1);
    let mut src = use_signal(&mut cx, &mut g, || 10_i32);
    let mut d = use_derived(&mut cx, &mut g, |s: &Signal<i32>, g: &SignalGraph| {
        runs.set(runs.get() + 1);
        s.get(g) * 2
    });
    assert_eq!(runs.get(), 0);
    assert!(!g.is_derived_stale(d.id()));

    assert_eq!(d.get(&mut g, &src), 20);
    assert_eq!(d.get(&mut g, &src), 20);
    assert_eq!(runs.get(), 1);

    src.set(&mut g, 11);
    assert!(g.is_derived_stale(d.id()));
    assert_eq!(d.get(&mut g, &src), 22);
    assert!(!g.is_derived_stale(d.id()));
    assert_eq!(d.get(&mut g, &src), 22);
    assert_eq!(runs.get(), 2);
    assert_eq!(cx.owned_signals().len(), 2);
}

#[test]
fn law_reader_goes_stale_on_write() {
    // a derived value that doubles a signal follows the signal's writes
    let (mut cx, mut g) = fresh(1);
    let mut s = use_signal(&mut cx, &mut g, || 1_i32);
    let mut d = use_derived(&mut cx, &mut g, |s: &Signal<i32>, g: &SignalGraph| s.get(g) * 2);
    assert_eq!(d.get(&mut g, &s), 2);
    s.set(&mut g, 5);
    assert_eq!(d.get(&mut g, &s), 10);
}

#[test]
fn derived_tracks_a_pair_of_sources() {
    let (mut cx, mut g) = fresh(1);
    let base = use_signal(&mut cx, &mut g, || 300.0_f32);
    let mut scale = use_signal(&mut cx, &mut g, || 1.0_f32);
    let mut width = use_derived(&mut cx, &mut g, |(b, s): (&Signal<f32>, &Signal<f32>), g: &SignalGraph| {
        b.get(g) * s.get(g)
    });
    assert_eq!(width.get(&mut g, (&base, &scale)), 300.0);
    scale.set(&mut g, 2.0);
    assert!(g.is_derived_stale(width.id()));
    assert_eq!(width.get(&mut g, (&base, &scale)), 600.0);
}

#[test]
fn ids_of_graphs_from_one_source_differ() {
    let mut ids = GraphIds::new();
    let mut g1 = SignalGraph::new(&mut ids);
    let mut g2 = SignalGraph::new(&mut ids);
    let a = SignalId::next(&mut g1);
    let b = SignalId::next(&mut g2);
    assert_ne!(a, b);
    // an id of one graph is never stale in another
    let d = SignalId::next(&mut g1);
    g1.register_signal(a);
    g1.register_derived(d);
    link(&mut g1, d, a);
    g1.mark_signal_updated(a);
    assert!(g1.is_derived_stale(d));
    let d2 = SignalId::next(&mut g2);
    assert!(!g2.is_derived_stale(d));
    assert!(!g2.is_derived_stale(d2));
}

// ── Recompute order ──────────────────────────────────────────────────────

#[test]
fn law_order_puts_dependencies_first_in_a_diamond() {
    // d depends on b and c, which both depend on a.
    let (_cx, mut g) = fresh(1);
    let src = SignalId::next(&mut g);
    let d = SignalId::next(&mut g);
    let c = SignalId::next(&mut g);
    let b = SignalId::next(&mut g);
    let a = SignalId::next(&mut g);
    g.register_signal(src);
    for x in [a, b, c, d] {
        g.register_derived(x);
    }
    link(&mut g, a, src);
    link(&mut g, b, a);
    link(&mut g, c, a);
    link(&mut g, d, b);
    link(&mut g, d, c);
    g.mark_signal_updated(src);

    // ready signals go smallest id first: a, then c before b, then d
    assert_eq!(g.topo_sorted_derived(), vec![a, c, b, d]);
}

#[test]
fn law_order_lists_each_waiting_signal_once() {
    let (_cx, mut g) = fresh(1);
    let src = SignalId::next(&mut g);
    let x = SignalId::next(&mut g);
    let y = SignalId::next(&mut g);
    g.register_signal(src);
    g.register_derived(x);
    g.register_derived(y);
    link(&mut g, x, src);
    link(&mut g, y, src);
    link(&mut g, y, x);
    g.mark_signal_updated(src);
    g.mark_signal_updated(src);
    assert_eq!(g.topo_sorted_derived(), vec![x, y]);
}

#[test]
fn order_leaves_out_a_dependency_cycle() {
    let (_cx, mut g) = fresh(1);
    let src = SignalId::next(&mut g);
    let p = SignalId::next(&mut g);
    let q = SignalId::next(&mut g);
    let free = SignalId::next(&mut g);
    g.register_signal(src);
    g.register_derived(p);
    g.register_derived(q);
    g.register_derived(free);
    link(&mut g, p, q);
    link(&mut g, q, p);
    link(&mut g, p, src);
    link(&mut g, free, src);
    g.mark_signal_updated(src);
    assert!(g.is_derived_stale(p) && g.is_derived_stale(q));
    assert_eq!(g.topo_sorted_derived(), vec![free]);
}

#[test]
fn law_order_of_nothing_is_empty_after_clear() {
    let (_cx, mut g) = fresh(1);
    let src = SignalId::next(&mut g);
    let d = SignalId::next(&mut g);
    g.register_signal(src);
    g.register_derived(d);
    link(&mut g, d, src);
    g.mark_signal_updated(src);
    assert_eq!(g.topo_sorted_derived(), vec![d]);
    g.clear_stale();
    assert!(g.topo_sorted_derived().is_empty());
}

// ── Dirty layout ─────────────────────────────────────────────────────────

#[test]
fn law_rewrites_leave_one_dirty_entry_per_signal() {
    let (mut cx, mut g) = fresh(4);
    let mut w = use_layout_signal(&mut cx, &mut g, || 0_u32);
    let mut h = use_layout_signal(&mut cx, &mut g, || 0_u32);
    for i in 0..10 {
        w.set(&mut g, i);
        h.set(&mut g, i);
    }
    // both signals belong to one entity: one dirty entity, handed out once
    assert_eq!(g.dirty_layout_count(), 1);
    assert_eq!(g.take_layout_dirty(), vec![EntityId::new(4, 1)]);
    assert_eq!(g.dirty_layout_count(), 0);
}

#[test]
fn take_layout_dirty_is_sorted_by_index_then_version() {
    let mut g = SignalGraph::new(&mut GraphIds::new());
    let mut scopes = [
        Scope::new(EntityId::new(7, 1)),
        Scope::new(EntityId::new(2, 5)),
        Scope::new(EntityId::new(2, 3)),
    ];
    let mut sigs = Vec::new();
    for cx in scopes.iter_mut() {
        sigs.push(use_layout_signal(cx, &mut g, || 0_i64));
    }
    for s in sigs.iter_mut() {
        s.queue(&mut g, 1);
    }
    assert_eq!(g.dirty_layout_count(), 0);
    g.drain_physics_queue();
    assert_eq!(
        g.take_layout_dirty(),
        vec![EntityId::new(2, 3), EntityId::new(2, 5), EntityId::new(7, 1)]
    );
    assert!(g.take_layout_dirty().is_empty());
}

#[test]
fn layout_signal_belongs_to_scope_entity() {
    let (mut cx, mut g) = fresh(9);
    let sig = use_layout_signal(&mut cx, &mut g, || ());
    assert_eq!(sig.entity_id(), EntityId::new(9, 1));
    assert_eq!(cx.owned_signals().as_slice(), &[sig.id()]);
}

// ── Ids and entities ─────────────────────────────────────────────────────

#[test]
fn ids_count_up_and_are_never_reused() {
    let mut g = SignalGraph::new(&mut GraphIds::new());
    let a = SignalId::next(&mut g);
    let b = SignalId::next(&mut g);
    assert!(a < b);
    assert_ne!(a, b);
    assert!(g.can_issue_id());
}

#[test]
fn entity_packing_round_trips() {
    let e = EntityId::new(0xdead_beef, 7);
    assert_eq!(e.as_ffi(), 0x0000_0007_dead_beef);
    assert_eq!(EntityId::from_ffi(e.as_ffi()), e);
    assert_eq!(EntityId::from_ffi(u64::MAX), EntityId::new(u32::MAX, u32::MAX));
}

#[test]
fn entity_order_is_index_then_version() {
    assert!(EntityId::new(1, 9).less_than(&EntityId::new(2, 1)));
    assert!(EntityId::new(2, 1).less_than(&EntityId::new(2, 3)));
    assert!(!EntityId::new(2, 3).less_than(&EntityId::new(2, 3)));
}

// ── Sync Point laws ──────────────────────────────────────────────────────

#[test]
fn law_drain_applies_queued_writes_in_order() {
    // one graph queues and drains, the other sets the same writes in order
    let mut ids = GraphIds::new();
    let mut gq = SignalGraph::new(&mut ids);
    let mut gs = SignalGraph::new(&mut ids);
    let mut cq = Scope::new(EntityId::new(3, 1));
    let mut cs = Scope::new(EntityId::new(3, 1));

    let mut pq = use_signal(&mut cq, &mut gq, || 0_i32);
    let mut lq = use_layout_signal(&mut cq, &mut gq, || 0_i32);
    let dq = SignalId::next(&mut gq);
    gq.register_derived(dq);
    link(&mut gq, dq, pq.id());

    let mut ps = use_signal(&mut cs, &mut gs, || 0_i32);
    let mut ls = use_layout_signal(&mut cs, &mut gs, || 0_i32);
    let ds = SignalId::next(&mut gs);
    gs.register_derived(ds);
    link(&mut gs, ds, ps.id());

    pq.queue(&mut gq, 1);
    lq.queue(&mut gq, 2);
    pq.queue(&mut gq, 3);
    gq.drain_queues();

    ps.set(&mut gs, 1);
    ls.set(&mut gs, 2);
    ps.set(&mut gs, 3);

    assert_eq!(pq.get(&gq), ps.get(&gs));
    assert_eq!(lq.get(&gq), ls.get(&gs));
    assert_eq!(pq.version(&gq), ps.version(&gs));
    assert_eq!(lq.version(&gq), ls.version(&gs));
    assert_eq!(gq.is_derived_stale(dq), gs.is_derived_stale(ds));
    assert!(gq.is_derived_stale(dq));
    assert_eq!(gq.dirty_layout_count(), gs.dirty_layout_count());
    assert_eq!(gq.take_layout_dirty(), gs.take_layout_dirty());
    assert_eq!(gq.queued_write_count(), 0);
    assert_eq!(gq.signal_count(), gs.signal_count());
}

#[test]
fn law_taken_entities_are_those_written() {
    let mut g = SignalGraph::new(&mut GraphIds::new());
    let mut a = Scope::new(EntityId::new(5, 1));
    let mut b = Scope::new(EntityId::new(1, 2));
    let mut c = Scope::new(EntityId::new(8, 1));
    let mut sa = use_layout_signal(&mut a, &mut g, || 0_u8);
    let mut sb = use_layout_signal(&mut b, &mut g, || 0_u8);
    let _sc = use_layout_signal(&mut c, &mut g, || 0_u8);
    sa.set(&mut g, 1);
    sb.queue(&mut g, 1);
    g.drain_queues();
    assert_eq!(g.take_layout_dirty(), vec![EntityId::new(1, 2), EntityId::new(5, 1)]);
    sa.set(&mut g, 2);
    assert_eq!(g.take_layout_dirty(), vec![EntityId::new(5, 1)]);
    assert!(g.take_layout_dirty().is_empty());
}

#[test]
fn law_dirty_count_zero_iff_nothing_to_take() {
    let (mut cx, mut g) = fresh(2);
    let mut plain = use_signal(&mut cx, &mut g, || 0_u8);
    let mut lay = use_layout_signal(&mut cx, &mut g, || 0_u8);
    plain.set(&mut g, 1);
    lay.queue(&mut g, 1);
    assert_eq!(g.dirty_layout_count(), 0);
    g.drain_queues();
    assert_eq!(g.dirty_layout_count(), 1);
    lay.set(&mut g, 2);
    assert_eq!(g.dirty_layout_count(), 1);
    assert!(!g.take_layout_dirty().is_empty());
    assert_eq!(g.dirty_layout_count(), 0);
    assert!(g.take_layout_dirty().is_empty());
}

#[test]
fn law_queue_counts_writes_since_drain() {
    let (mut cx, mut g) = fresh(2);
    let mut s = use_signal(&mut cx, &mut g, || 0_u8);
    let mut l = use_layout_signal(&mut cx, &mut g, || 0_u8);
    s.queue(&mut g, 1);
    l.queue(&mut g, 1);
    s.queue(&mut g, 2);
    assert_eq!(g.queued_write_count(), 3);
    g.drain_queues();
    assert_eq!(g.queued_write_count(), 0);
    l.queue(&mut g, 3);
    assert_eq!(g.queued_write_count(), 1);
}

#[test]
fn law_layout_write_dirties_its_entity() {
    let (mut cx, mut g) = fresh(6);
    let e = cx.entity_id();
    let _s = use_signal(&mut cx, &mut g, || 0_u8);
    let mut l = use_layout_signal(&mut cx, &mut g, || 0_u8);
    assert_eq!(cx.entity_id(), e);
    l.set(&mut g, 1);
    assert!(g.take_layout_dirty().contains(&cx.entity_id()));
}
