use fe_ui_core::entity::EntityId;
use fe_ui_core::signal::{use_layout_signal, use_signal, GraphIds, Scope, SignalGraph, SignalId};
use slotmap::{DefaultKey, Key, SlotMap};

fn scope_with_graph() -> (Scope, SignalGraph) {
    // A minimal slot map gives a valid entity id.
    let graph = SignalGraph::new(&mut GraphIds::new());
    let mut store: SlotMap<DefaultKey, ()> = SlotMap::new();
    let key = store.insert(());
    let entity_id = EntityId::from_ffi(key.data().as_ffi());
    (Scope::new(entity_id), graph)
}

/// Makes `derived` depend on `source` through a tracked read.
fn depend(g: &mut SignalGraph, derived: SignalId, source: SignalId) {
    g.begin_tracking(derived);
    g.record_read(source);
    g.end_tracking(derived);
}

// ── Signal<T> ────────────────────────────────────────────────────────────

#[test]
fn signal_signal_initial_value() {
    let (mut cx, mut g) = scope_with_graph();
    let sig = use_signal(&mut cx, &mut g, || 42_i32);
    assert_eq!(sig.get(&g), 42);
}

#[test]
fn signal_signal_set_updates_value() {
    let (mut cx, mut g) = scope_with_graph();
    let mut sig = use_signal(&mut cx, &mut g, || 0_i32);
    sig.set(&mut g, 99);
    assert_eq!(sig.get(&g), 99);
}

#[test]
fn signal_signal_set_increments_version() {
    let (mut cx, mut g) = scope_with_graph();
    let mut sig = use_signal(&mut cx, &mut g, || 0_i32);
    let v0 = sig.version(&g);
    sig.set(&mut g, 1);
    let v1 = sig.version(&g);
    sig.set(&mut g, 2);
    let v2 = sig.version(&g);
    assert!(v1 > v0);
    assert!(v2 > v1);
}

#[test]
fn signal_signal_update_closure() {
    let (mut cx, mut g) = scope_with_graph();
    let mut sig = use_signal(&mut cx, &mut g, || 10_i32);
    sig.update(&mut g, |v| v * 2);
    assert_eq!(sig.get(&g), 20);
}

#[test]
fn signal_signal_multiple_writes_same_frame() {
    // All writes are visible; the last one wins as the current value
    let (mut cx, mut g) = scope_with_graph();
    let mut sig = use_signal(&mut cx, &mut g, || 0_i32);
    sig.set(&mut g, 1);
    sig.set(&mut g, 2);
    sig.set(&mut g, 3);
    assert_eq!(sig.get(&g), 3);
}

#[test]
fn signal_signal_queue_drains_at_sync_point() {
    let (mut cx, mut g) = scope_with_graph();
    let mut sig = use_signal(&mut cx, &mut g, || 0_i32);

    sig.queue(&mut g, 42);

    // Before drain — value unchanged
    assert_eq!(sig.get(&g), 0);
    assert_eq!(g.queued_write_count(), 1);

    g.drain_physics_queue();

    // After drain — value updated
    assert_eq!(sig.get(&g), 42);
    assert_eq!(g.queued_write_count(), 0);
}

#[test]
fn signal_queue_multiple() {
    let (mut cx, mut g) = scope_with_graph();
    let mut sig = use_signal(&mut cx, &mut g, || 0_i32);

    sig.queue(&mut g, 1);
    sig.queue(&mut g, 2);
    sig.queue(&mut g, 3);

    assert_eq!(g.queued_write_count(), 3);

    g.drain_physics_queue();

    // All three drained — last writer wins
    assert_eq!(sig.get(&g), 3);
}

// ── LayoutSignal<T> ──────────────────────────────────────────────────────

#[test]
fn signal_layout_signal_initial_value() {
    let (mut cx, mut g) = scope_with_graph();
    let sig = use_layout_signal(&mut cx, &mut g, || 300.0_f32);
    assert_eq!(sig.get(&g), 300.0);
}

#[test]
fn signal_layout_signal_set_marks_entity_dirty() {
    let (mut cx, mut g) = scope_with_graph();
    let mut sig = use_layout_signal(&mut cx, &mut g, || 300.0_f32);

    assert_eq!(g.dirty_layout_count(), 0);

    sig.set(&mut g, 500.0);

    assert_eq!(g.dirty_layout_count(), 1);
    assert_eq!(sig.get(&g), 500.0);
}

#[test]
fn signal_layout_signal_multiple_writes_one_dirty_entry() {
    // Writing 1000 times = 1 dirty entry (last value wins, entity deduped)
    let (mut cx, mut g) = scope_with_graph();
    let mut sig = use_layout_signal(&mut cx, &mut g, || 0.0_f32);

    for i in 0..1000 {
        sig.set(&mut g, i as f32);
    }

    assert_eq!(g.dirty_layout_count(), 1);
    assert_eq!(sig.get(&g), 999.0);
}

#[test]
fn signal_layout_signal_take_dirty_clears_set() {
    let (mut cx, mut g) = scope_with_graph();
    let mut sig = use_layout_signal(&mut cx, &mut g, || 0.0_f32);
    sig.set(&mut g, 1.0);

    let dirty = g.take_layout_dirty();
    assert_eq!(dirty.len(), 1);

    // After take, the dirty set is cleared
    assert_eq!(g.dirty_layout_count(), 0);
}

#[test]
fn signal_layout_signal_queue_deferred() {
    let (mut cx, mut g) = scope_with_graph();
    let mut sig = use_layout_signal(&mut cx, &mut g, || 0.0_f32);

    sig.queue(&mut g, 99.0);

    // Before drain — not yet dirty, value unchanged
    assert_eq!(sig.get(&g), 0.0);
    assert_eq!(g.dirty_layout_count(), 0);

    g.drain_physics_queue();

    assert_eq!(sig.get(&g), 99.0);
    assert_eq!(g.dirty_layout_count(), 1);
}

// ── SignalGraph ──────────────────────────────────────────────────────────

#[test]
fn signal_graph_signal_count_tracks_registration() {
    let (mut cx, mut g) = scope_with_graph();
    assert_eq!(g.signal_count(), 0);

    let _a = use_signal(&mut cx, &mut g, || 0_i32);
    assert_eq!(g.signal_count(), 1);

    let _b = use_signal(&mut cx, &mut g, || 0_i32);
    assert_eq!(g.signal_count(), 2);

    let _c = use_layout_signal(&mut cx, &mut g, || 0.0_f32);
    assert_eq!(g.signal_count(), 3);
}

#[test]
fn signal_graph_topo_sort_empty_when_no_stale() {
    let (_cx, g) = scope_with_graph();
    let sorted = g.topo_sorted_derived();
    assert!(sorted.is_empty());
}

#[test]
fn signal_graph_mark_signal_updated_marks_subscribers_stale() {
    let (_cx, mut g) = scope_with_graph();

    let source_id = SignalId::next(&mut g);
    let derived_id = SignalId::next(&mut g);

    g.register_signal(source_id);
    g.register_derived(derived_id);
    // Wire: derived depends on source
    depend(&mut g, derived_id, source_id);

    assert!(!g.is_derived_stale(derived_id));

    g.mark_signal_updated(source_id);

    assert!(g.is_derived_stale(derived_id));
}

#[test]
fn graph_clear_stale_resets_flags() {
    let (_cx, mut g) = scope_with_graph();

    let source_id = SignalId::next(&mut g);
    let derived_id = SignalId::next(&mut g);

    g.register_signal(source_id);
    g.register_derived(derived_id);
    depend(&mut g, derived_id, source_id);
    g.mark_signal_updated(source_id);

    assert!(g.is_derived_stale(derived_id));
    g.clear_stale();
    assert!(!g.is_derived_stale(derived_id));
}

#[test]
fn signal_graph_topo_sort_linear_chain() {
    // a → b → c  (c depends on b, b depends on a)
    // sorted order should be: a, b, c
    let (_cx, mut g) = scope_with_graph();

    let a = SignalId::next(&mut g);
    let b = SignalId::next(&mut g);
    let c = SignalId::next(&mut g);
    let src = SignalId::next(&mut g);

    g.register_derived(a);
    g.register_derived(b);
    g.register_derived(c);
    g.register_signal(src);

    // b depends on a
    depend(&mut g, b, a);
    // c depends on b
    depend(&mut g, c, b);
    // Mark all stale: a reads a source that is then written
    depend(&mut g, a, src);
    g.mark_signal_updated(src);

    let sorted = g.topo_sorted_derived();

    // a must come before b, b must come before c
    let pos = |id: SignalId| sorted.iter().position(|&x| x == id).unwrap();
    assert!(pos(a) < pos(b));
    assert!(pos(b) < pos(c));
}

// ── Scope ────────────────────────────────────────────────────────────────

#[test]
fn signal_scope_tracks_owned_signals() {
    let (mut cx, mut g) = scope_with_graph();
    assert_eq!(cx.owned_signals().len(), 0);

    let _a = use_signal(&mut cx, &mut g, || 0_i32);
    let _b = use_signal(&mut cx, &mut g, || 0.0_f32);
    let _c = use_layout_signal(&mut cx, &mut g, || false);

    assert_eq!(cx.owned_signals().len(), 3);
}

#[test]
fn scope_entity_id_matches() {
    let (mut cx, mut g) = scope_with_graph();
    let entity_id = cx.entity_id();
    let mut sig = use_layout_signal(&mut cx, &mut g, || 0.0_f32);
    sig.set(&mut g, 1.0);

    let dirty = g.take_layout_dirty();
    assert!(dirty.contains(&entity_id));
}
