# fe_ui_core

The verified core of the Ferrum UI framework.

* `src/` — the library, verified with Verus:
  * `signal/` — the reactive signal graph: immediate and layout signals,
    derived signals that record the signals they read, component scopes,
    ids unique across graphs drawn from one `GraphIds` source, stale
    propagation, the deferred write
    queue drained at the Sync Point, dirty-layout collection and the
    topological recompute order (`laws.rs` states and proves the graph's laws).
  * `hex.rs` — CSS hex colour parsing into 8-bit channels, with its laws.
  * `entity.rs`, `style.rs`, `physics.rs` — entity ids and the enums every
    subsystem shares.
* `app/` — ordinary Rust around the library: the floating-point geometry,
  colour, style and physics types, the entity store, the Taffy layout tree
  and its result cache, and the GPU instance layout.
* `tests/` — tests of the library.
