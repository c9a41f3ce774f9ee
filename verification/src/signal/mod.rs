//! Fine-grained reactivity.
//!
//! * `Signal<T>` — an immediate reactive value: a write bumps its version and
//!   marks every derived signal downstream of it stale.
//! * `LayoutSignal<T>` — a layout-affecting value: a write also marks the
//!   owning entity dirty, so layout recomputes once per frame, at the Sync Point.
//! * `Derived<T, F>` — a computed value, recomputed only when stale; each
//!   computation records the signals it reads, so their writes make it stale.
//! * `Scope` — one component's handle: its entity and the signals it created.
//!
//! At the Sync Point the graph drains queued writes, orders stale derived
//! signals topologically, and hands out the set of dirty layout entities.

pub mod graph;
pub mod handles;
pub mod laws;
pub mod reach;
pub mod topo;

pub use self::graph::{GraphIds, GraphView, QueuedWrite, SignalGraph, SignalId, Version};
pub use self::handles::{
    use_derived, use_layout_signal, use_signal, Derived, LayoutSignal, Scope, Signal, SignalState, Sources,
};
