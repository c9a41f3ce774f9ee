use fe_ui_core::entity::EntityId;
use fe_ui_core::signal::{use_layout_signal, use_signal, GraphIds, Scope, SignalGraph, SignalId};
use slotmap::{DefaultKey, Key, SlotMap};

fn make_scope() -> (Scope, SignalGraph) {
    let graph = SignalGraph::new(&mut GraphIds::new());
    let mut store: SlotMap<DefaultKey, ()> = SlotMap::new();
    let key = store.insert(());
    let entity_id = EntityId::from_ffi(key.data().as_ffi());
    (Scope::new(entity_id), graph)
}

/// Makes `derived` depend on `source`, as a tracked computation of `derived` would.
fn wire(g: &mut SignalGraph, derived: SignalId, source: SignalId) {
    g.begin_tracking(derived);
    g.record_read(source);
    g.end_tracking(derived);
}

// ── Signal<T> ────────────────────────────────────────────────────────────

#[test]
fn signal_initial_value() {
    let (mut cx, mut g) = make_scope();
    let sig = use_signal(&mut cx, &mut g, || 42_i32);
    assert_eq!(sig.get(&g), 42);
}

#[test]
fn signal_set_updates_value() {
    let (mut cx, mut g) = make_scope();
    let mut sig = use_signal(&mut cx, &mut g, || 0_i32);
    sig.set(&mut g, 99);
    assert_eq!(sig.get(&g), 99);
}

#[test]
fn signal_set_increments_version() {
    let (mut cx, mut g) = make_scope();
    let mut sig = use_signal(&mut cx, &mut g, || 0_i32);
    let v0 = sig.version(&g);
    sig.set(&mut g, 1);
    let v1 = sig.version(&g);
    sig.set(&mut g, 2);
    let v2 = sig.version(&g);
    assert!(v1 > v0);
    assert!(v2 > v1);
}

#[test]
fn signal_update_closure() {
    let (mut cx, mut g) = make_scope();
    let mut sig = use_signal(&mut cx, &mut g, || 10_i32);
    sig.update(&mut g, |v| v * 2);
    assert_eq!(sig.get(&g), 20);
}

#[test]
fn signal_multiple_writes_same_frame() {
    let (mut cx, mut g) = make_scope();
    let mut sig = use_signal(&mut cx, &mut g, || 0_i32);
    sig.set(&mut g, 1);
    sig.set(&mut g, 2);
    sig.set(&mut g, 3);
    assert_eq!(sig.get(&g), 3);
}

#[test]
fn signal_queue_drains_at_sync_point() {
    let (mut cx, mut g) = make_scope();
    let mut sig = use_signal(&mut cx, &mut g, || 0_i32);

    sig.queue(&mut g, 42);

    assert_eq!(sig.get(&g), 0);
    assert_eq!(g.queued_write_count(), 1);

    g.drain_queues();

    assert_eq!(sig.get(&g), 42);
    assert_eq!(g.queued_write_count(), 0);
}

#[test]
fn signal_queue_multiple_last_wins() {
    let (mut cx, mut g) = make_scope();
    let mut sig = use_signal(&mut cx, &mut g, || 0_i32);
    sig.queue(&mut g, 1);
    sig.queue(&mut g, 2);
    sig.queue(&mut g, 3);
    assert_eq!(g.queued_write_count(), 3);
    g.drain_queues();
    assert_eq!(sig.get(&g), 3);
    assert_eq!(g.queued_write_count(), 0);
}

// ── LayoutSignal<T> ──────────────────────────────────────────────────────

#[test]
fn layout_signal_initial_value() {
    let (mut cx, mut g) = make_scope();
    let sig = use_layout_signal(&mut cx, &mut g, || 300.0_f32);
    assert_eq!(sig.get(&g), 300.0);
}

#[test]
fn layout_signal_set_marks_entity_dirty() {
    let (mut cx, mut g) = make_scope();
    let mut sig = use_layout_signal(&mut cx, &mut g, || 300.0_f32);
    assert_eq!(g.dirty_layout_count(), 0);
    sig.set(&mut g, 500.0);
    assert_eq!(g.dirty_layout_count(), 1);
    assert_eq!(sig.get(&g), 500.0);
}

#[test]
fn layout_signal_multiple_writes_one_dirty_entry() {
    let (mut cx, mut g) = make_scope();
    let mut sig = use_layout_signal(&mut cx, &mut g, || 0.0_f32);
    for i in 0..1000 {
        sig.set(&mut g, i as f32);
    }
    assert_eq!(g.dirty_layout_count(), 1);
    assert_eq!(sig.get(&g), 999.0);
}

#[test]
fn layout_signal_take_dirty_clears_set() {
    let (mut cx, mut g) = make_scope();
    let mut sig = use_layout_signal(&mut cx, &mut g, || 0.0_f32);
    sig.set(&mut g, 1.0);
    let dirty = g.take_layout_dirty();
    assert_eq!(dirty.len(), 1);
    assert_eq!(g.dirty_layout_count(), 0);
}

#[test]
fn layout_signal_queue_deferred() {
    let (mut cx, mut g) = make_scope();
    let mut sig = use_layout_signal(&mut cx, &mut g, || 0.0_f32);

    sig.queue(&mut g, 99.0);

    assert_eq!(sig.get(&g), 0.0);
    assert_eq!(g.dirty_layout_count(), 0);
    assert_eq!(g.queued_write_count(), 1);

    g.drain_queues();

    assert_eq!(sig.get(&g), 99.0);
    assert_eq!(g.dirty_layout_count(), 1);
    assert_eq!(g.queued_write_count(), 0);
}

#[test]
fn layout_signal_queue_entity_in_dirty_set() {
    let (mut cx, mut g) = make_scope();
    let entity_id = cx.entity_id();
    let mut sig = use_layout_signal(&mut cx, &mut g, || 0.0_f32);

    sig.queue(&mut g, 50.0);
    g.drain_queues();

    let dirty = g.take_layout_dirty();
    assert!(dirty.contains(&entity_id));
}

// ── SignalGraph ──────────────────────────────────────────────────────────

#[test]
fn graph_signal_count_tracks_registration() {
    let (mut cx, mut g) = make_scope();
    assert_eq!(g.signal_count(), 0);
    let _a = use_signal(&mut cx, &mut g, || 0_i32);
    assert_eq!(g.signal_count(), 1);
    let _b = use_signal(&mut cx, &mut g, || 0_i32);
    assert_eq!(g.signal_count(), 2);
    let _c = use_layout_signal(&mut cx, &mut g, || 0.0_f32);
    assert_eq!(g.signal_count(), 3);
}

#[test]
fn graph_topo_sort_empty_when_no_stale() {
    let (_cx, g) = make_scope();
    assert!(g.topo_sorted_derived().is_empty());
}

#[test]
fn graph_mark_signal_updated_marks_subscribers_stale() {
    let (_cx, mut g) = make_scope();

    let source_id = SignalId::next(&mut g);
    let derived_id = SignalId::next(&mut g);

    g.register_signal(source_id);
    g.register_derived(derived_id);
    wire(&mut g, derived_id, source_id);

    assert!(!g.is_derived_stale(derived_id));
    g.mark_signal_updated(source_id);
    assert!(g.is_derived_stale(derived_id));
}

#[test]
fn graph_clear_stale_resets_all_flags() {
    let (_cx, mut g) = make_scope();
    let src = SignalId::next(&mut g);
    let drv = SignalId::next(&mut g);

    g.register_signal(src);
    g.register_derived(drv);
    wire(&mut g, drv, src);
    g.mark_signal_updated(src);

    assert!(g.is_derived_stale(drv));
    g.clear_stale();
    assert!(!g.is_derived_stale(drv));
}

#[test]
fn graph_topo_sort_linear_chain() {
    // dependency chain: a ← b ← c  (c depends on b, b depends on a)
    // correct topo order: a, b, c
    let (_cx, mut g) = make_scope();

    let a = SignalId::next(&mut g);
    let b = SignalId::next(&mut g);
    let c = SignalId::next(&mut g);
    let src = SignalId::next(&mut g);

    g.register_derived(a);
    g.register_derived(b);
    g.register_derived(c);
    g.register_signal(src);
    wire(&mut g, b, a);
    wire(&mut g, c, b);
    // a reads a source, so one write marks all three stale
    wire(&mut g, a, src);
    g.mark_signal_updated(src);

    let sorted = g.topo_sorted_derived();
    let pos = |id: SignalId| sorted.iter().position(|&x| x == id).unwrap();
    assert!(pos(a) < pos(b), "a must come before b");
    assert!(pos(b) < pos(c), "b must come before c");
}

// ── Scope ────────────────────────────────────────────────────────────────

#[test]
fn scope_tracks_owned_signals() {
    let (mut cx, mut g) = make_scope();
    assert_eq!(cx.owned_signals().len(), 0);
    let _a = use_signal(&mut cx, &mut g, || 0_i32);
    let _b = use_signal(&mut cx, &mut g, || 0.0_f32);
    let _c = use_layout_signal(&mut cx, &mut g, || false);
    assert_eq!(cx.owned_signals().len(), 3);
}

#[test]
fn scope_entity_id_matches_dirty_entry() {
    let (mut cx, mut g) = make_scope();
    let entity_id = cx.entity_id();
    let mut sig = use_layout_signal(&mut cx, &mut g, || 0.0_f32);
    sig.set(&mut g, 1.0);
    let dirty = g.take_layout_dirty();
    assert!(dirty.contains(&entity_id));
}

// ── Mixed queue drain ────────────────────────────────────────────────────

#[test]
fn drain_queues_handles_plain_and_layout_together() {
    let (mut cx, mut g) = make_scope();

    let mut plain_sig = use_signal(&mut cx, &mut g, || 0_i32);
    let mut layout_sig = use_layout_signal(&mut cx, &mut g, || 0.0_f32);

    plain_sig.queue(&mut g, 7);
    layout_sig.queue(&mut g, 3.14);

    assert_eq!(g.queued_write_count(), 2);

    g.drain_queues();

    assert_eq!(plain_sig.get(&g), 7);
    assert_eq!(layout_sig.get(&g), 3.14);
    assert_eq!(g.queued_write_count(), 0);
    assert_eq!(g.dirty_layout_count(), 1);
}
