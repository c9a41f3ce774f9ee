//! Signal handles: immediate signals, layout signals, derived signals, and
//! the component scope that creates them.
//!
//! A handle owns its value and version; the graph it was registered in is
//! passed to every operation that reads or writes graph state. A write
//! deferred with `queue` is held by the signal and becomes its value once the
//! graph has completed the next Sync Point drain.

use vstd::prelude::*;

use crate::entity::EntityId;
use crate::signal::graph::{
    deps_with_reads, ids_of, lemma_reads_subscribe, subs_with_reads, GraphView, QueuedWrite,
    SignalGraph, SignalId, Version,
};
use crate::signal::reach::{downstream, successors};

verus! {

/// The abstract state of a signal's storage.
pub struct SignalState<T> {
    pub id: SignalId,
    /// The value as of the last applied write.
    pub value: T,
    /// Applied writes so far.
    pub version: nat,
    /// Queued writes not yet applied, oldest first.
    pub pending: Seq<T>,
    /// The graph's drain count when the pending writes were queued.
    pub pending_epoch: nat,
}

impl<T> SignalState<T> {
    /// The pending writes have been drained once the graph has counted
    /// more drains than it had when they were queued.
    pub open spec fn pending_applied(self, drains: nat) -> bool {
        self.pending.len() > 0 && self.pending_epoch < drains
    }

    /// The value a reader sees when the graph has completed `drains` drains.
    pub open spec fn current_value(self, drains: nat) -> T {
        if self.pending_applied(drains) {
            self.pending.last()
        } else {
            self.value
        }
    }

    /// The version a reader sees when the graph has completed `drains` drains:
    /// one more for every write, immediate or drained.
    pub open spec fn current_version(self, drains: nat) -> nat {
        if self.pending_applied(drains) {
            self.version + self.pending.len()
        } else {
            self.version
        }
    }

    /// Every write so far, applied or pending, still leaves room to count one more.
    pub open spec fn can_write(self) -> bool {
        self.version + self.pending.len() < u64::MAX
    }

    /// The pending writes were queued against a graph that has completed
    /// no more than `drains` drains.
    pub open spec fn synced(self, drains: nat) -> bool {
        self.pending.len() > 0 ==> self.pending_epoch <= drains
    }

    /// The state right after a write of `v` with `drains` drains completed:
    /// drained pending writes are folded in, then `v` is applied.
    pub open spec fn after_set(self, drains: nat, v: T) -> SignalState<T> {
        SignalState {
            id: self.id,
            value: v,
            version: self.current_version(drains) + 1,
            pending: if self.pending_applied(drains) { Seq::empty() } else { self.pending },
            pending_epoch: self.pending_epoch,
        }
    }

    /// The state right after queueing `v` with `drains` drains completed.
    pub open spec fn after_queue(self, drains: nat, v: T) -> SignalState<T> {
        SignalState {
            id: self.id,
            value: self.current_value(drains),
            version: self.current_version(drains),
            pending: (if self.pending_applied(drains) { Seq::empty() } else { self.pending }).push(v),
            pending_epoch: drains,
        }
    }
}

/// Storage shared by plain and layout signals.
#[derive(Debug)]
struct SignalInner<T> {
    id: SignalId,
    value: T,
    version: Version,
    pending: Vec<T>,
    pending_epoch: u64,
}

impl<T> View for SignalInner<T> {
    type V = SignalState<T>;

    closed spec fn view(&self) -> SignalState<T> {
        SignalState {
            id: self.id,
            value: self.value,
            version: self.version.count() as nat,
            pending: self.pending@,
            pending_epoch: self.pending_epoch as nat,
        }
    }
}

impl<T: Clone> SignalInner<T> {
    closed spec fn wf(&self) -> bool {
        self@.version + self@.pending.len() <= u64::MAX
    }

    fn new(id: SignalId, value: T) -> (s: SignalInner<T>)
        ensures
            s.wf(),
            s@ == (SignalState { id, value, version: 0, pending: Seq::empty(), pending_epoch: 0 }),
    {
        SignalInner { id, value, version: Version::initial(), pending: Vec::new(), pending_epoch: 0 }
    }

    /// Fold in the pending writes that a completed drain has applied.
    fn settle(&mut self, drains: u64)
        requires
            old(self).wf(),
        ensures
            final(self).wf(),
            final(self)@ == (SignalState {
                value: old(self)@.current_value(drains as nat),
                version: old(self)@.current_version(drains as nat),
                pending: if old(self)@.pending_applied(drains as nat) { Seq::empty() } else { old(self)@.pending },
                ..old(self)@
            }),
    {
        if self.pending.len() > 0 && self.pending_epoch < drains {
            let n = self.pending.len() as u64;
            let last = self.pending.pop().unwrap();
            self.value = last;
            self.version = Version::from_count(self.version.get() + n);
            self.pending = Vec::new();
        }
    }

    fn current(&self, drains: u64) -> (v: T)
        ensures
            cloned(self@.current_value(drains as nat), v),
    {
        let n = self.pending.len();
        if n > 0 && self.pending_epoch < drains {
            self.pending[n - 1].clone()
        } else {
            self.value.clone()
        }
    }

    fn current_version(&self, drains: u64) -> (v: Version)
        requires
            self.wf(),
        ensures
            v.count() == self@.current_version(drains as nat),
    {
        if self.pending.len() > 0 && self.pending_epoch < drains {
            Version::from_count(self.version.get() + self.pending.len() as u64)
        } else {
            self.version
        }
    }

    fn write(&mut self, drains: u64, value: T)
        requires
            old(self).wf(),
            old(self)@.can_write(),
        ensures
            final(self).wf(),
            final(self)@ == old(self)@.after_set(drains as nat, value),
    {
        self.settle(drains);
        self.value = value;
        self.version.increment();
    }

    fn push_pending(&mut self, drains: u64, value: T)
        requires
            old(self).wf(),
            old(self)@.can_write(),
        ensures
            final(self).wf(),
            final(self)@ == old(self)@.after_queue(drains as nat, value),
    {
        self.settle(drains);
        self.pending.push(value);
        self.pending_epoch = drains;
    }
}

/// An immediate reactive value: colour, opacity, text, shader parameters.
///
/// A write updates the value and version at once and marks every derived
/// signal downstream of it stale. Not for layout properties: use
/// `LayoutSignal` for those.
#[derive(Debug)]
pub struct Signal<T> {
    inner: SignalInner<T>,
}

impl<T> View for Signal<T> {
    type V = SignalState<T>;

    closed spec fn view(&self) -> SignalState<T> {
        self.inner@
    }
}

impl<T: Clone> Signal<T> {
    /// The signal's internal invariant.
    pub closed spec fn wf(&self) -> bool {
        self.inner.wf()
    }

    fn new(value: T, graph: &mut SignalGraph) -> (s: Signal<T>)
        requires
            old(graph).wf(),
            old(graph)@.next_id < u64::MAX,
        ensures
            final(graph).wf(),
            s.wf(),
            s@ == (SignalState { id: s@.id, value, version: 0, pending: Seq::empty(), pending_epoch: 0 }),
            s@.id.raw() == old(graph)@.next_id,
            s@.id.graph() == old(graph)@.graph,
            final(graph)@ == (GraphView {
                next_id: (old(graph)@.next_id + 1) as u64,
                nodes: old(graph)@.nodes.insert(old(graph)@.next_id),
                ..old(graph)@
            }),
    {
        let id = SignalId::next(graph);
        graph.register_signal(id);
        Signal { inner: SignalInner::new(id, value) }
    }

    /// The signal's id.
    pub fn id(&self) -> (id: SignalId)
        ensures
            id == self@.id,
    {
        self.inner.id
    }

    /// The number of writes seen so far (as of `graph`'s completed drains).
    pub fn version(&self, graph: &SignalGraph) -> (v: Version)
        requires
            self.wf(),
        ensures
            v.count() == self@.current_version(graph@.drains as nat),
    {
        self.inner.current_version(graph.drain_count())
    }

    /// Read the current value.
    pub fn get(&self, graph: &SignalGraph) -> (v: T)
        ensures
            cloned(self@.current_value(graph@.drains as nat), v),
    {
        self.inner.current(graph.drain_count())
    }

    /// Write a new value immediately: bump the version and mark everything
    /// downstream of this signal stale.
    pub fn set(&mut self, graph: &mut SignalGraph, value: T)
        requires
            old(self).wf(),
            old(self)@.can_write(),
            old(graph).wf(),
            old(graph)@.issued(old(self)@.id),
        ensures
            final(self).wf(),
            final(self)@ == old(self)@.after_set(old(graph)@.drains as nat, value),
            final(graph).wf(),
            final(graph)@ == (GraphView {
                stale: old(graph)@.stale.union(downstream(old(graph)@.subscribers, old(self)@.id.raw())),
                ..old(graph)@
            }),
    {
        let drains = graph.drain_count();
        self.inner.write(drains, value);
        graph.mark_signal_updated(self.inner.id);
    }

    /// Write `f` of the current value.
    pub fn update<F: FnOnce(T) -> T>(&mut self, graph: &mut SignalGraph, f: F)
        requires
            old(self).wf(),
            old(self)@.can_write(),
            old(graph).wf(),
            old(graph)@.issued(old(self)@.id),
            forall|c: T| cloned(old(self)@.current_value(old(graph)@.drains as nat), c) ==> f.requires((c,)),
        ensures
            final(self).wf(),
            exists|c: T, r: T|
                cloned(old(self)@.current_value(old(graph)@.drains as nat), c) && f.ensures((c,), r)
                    && final(self)@ == old(self)@.after_set(old(graph)@.drains as nat, r),
            final(graph).wf(),
            final(graph)@ == (GraphView {
                stale: old(graph)@.stale.union(downstream(old(graph)@.subscribers, old(self)@.id.raw())),
                ..old(graph)@
            }),
    {
        let c = self.get(graph);
        let r = f(c);
        self.set(graph, r);
    }

    /// Defer a write to the next Sync Point. Until the graph drains, readers
    /// keep seeing the old value; afterwards they see the last queued one.
    pub fn queue(&mut self, graph: &mut SignalGraph, value: T)
        requires
            old(self).wf(),
            old(self)@.can_write(),
            old(graph).wf(),
            old(graph)@.issued(old(self)@.id),
        ensures
            final(self).wf(),
            final(self)@ == old(self)@.after_queue(old(graph)@.drains as nat, value),
            final(graph).wf(),
            final(graph)@ == (GraphView {
                queue: old(graph)@.queue.push(QueuedWrite { id: old(self)@.id, entity: None }),
                ..old(graph)@
            }),
    {
        let drains = graph.drain_count();
        self.inner.push_pending(drains, value);
        graph.enqueue_write(self.inner.id, None);
    }
}

/// A layout-affecting reactive value: width, height, flex, padding, position.
///
/// A write updates the value at once and marks the owning entity dirty, so
/// layout recomputes once, at the Sync Point, however many writes happened.
#[derive(Debug)]
pub struct LayoutSignal<T> {
    inner: SignalInner<T>,
    entity_id: EntityId,
}

impl<T> View for LayoutSignal<T> {
    type V = SignalState<T>;

    closed spec fn view(&self) -> SignalState<T> {
        self.inner@
    }
}

impl<T: Clone> LayoutSignal<T> {
    /// The signal's internal invariant.
    pub closed spec fn wf(&self) -> bool {
        self.inner.wf()
    }

    /// The entity whose layout this signal affects.
    pub closed spec fn entity(&self) -> EntityId {
        self.entity_id
    }

    fn new(value: T, graph: &mut SignalGraph, entity_id: EntityId) -> (s: LayoutSignal<T>)
        requires
            old(graph).wf(),
            old(graph)@.next_id < u64::MAX,
        ensures
            final(graph).wf(),
            s.wf(),
            s.entity() == entity_id,
            s@ == (SignalState { id: s@.id, value, version: 0, pending: Seq::empty(), pending_epoch: 0 }),
            s@.id.raw() == old(graph)@.next_id,
            s@.id.graph() == old(graph)@.graph,
            final(graph)@ == (GraphView {
                next_id: (old(graph)@.next_id + 1) as u64,
                nodes: old(graph)@.nodes.insert(old(graph)@.next_id),
                layout_entities: old(graph)@.layout_entities.insert(old(graph)@.next_id, entity_id),
                ..old(graph)@
            }),
    {
        let id = SignalId::next(graph);
        graph.register_layout_signal(id, entity_id);
        LayoutSignal { inner: SignalInner::new(id, value), entity_id }
    }

    /// The signal's id.
    pub fn id(&self) -> (id: SignalId)
        ensures
            id == self@.id,
    {
        self.inner.id
    }

    /// The entity whose layout this signal affects.
    pub fn entity_id(&self) -> (e: EntityId)
        ensures
            e == self.entity(),
    {
        self.entity_id
    }

    /// The number of writes seen so far (as of `graph`'s completed drains).
    pub fn version(&self, graph: &SignalGraph) -> (v: Version)
        requires
            self.wf(),
        ensures
            v.count() == self@.current_version(graph@.drains as nat),
    {
        self.inner.current_version(graph.drain_count())
    }

    /// Read the current value.
    pub fn get(&self, graph: &SignalGraph) -> (v: T)
        ensures
            cloned(self@.current_value(graph@.drains as nat), v),
    {
        self.inner.current(graph.drain_count())
    }

    /// Write a new value: it is visible at once; the owning entity is marked
    /// dirty (once, however many writes) and everything downstream stale.
    pub fn set(&mut self, graph: &mut SignalGraph, value: T)
        requires
            old(self).wf(),
            old(self)@.can_write(),
            old(graph).wf(),
            old(graph)@.issued(old(self)@.id),
        ensures
            final(self).wf(),
            final(self).entity() == old(self).entity(),
            final(self)@ == old(self)@.after_set(old(graph)@.drains as nat, value),
            final(graph).wf(),
            final(graph)@ == (GraphView {
                dirty_layout: old(graph)@.dirty_layout.insert(old(self)@.id.raw(), old(self).entity()),
                stale: old(graph)@.stale.union(downstream(old(graph)@.subscribers, old(self)@.id.raw())),
                ..old(graph)@
            }),
    {
        let drains = graph.drain_count();
        self.inner.write(drains, value);
        graph.mark_layout_dirty(self.inner.id, self.entity_id);
    }

    /// Write `f` of the current value.
    pub fn update<F: FnOnce(T) -> T>(&mut self, graph: &mut SignalGraph, f: F)
        requires
            old(self).wf(),
            old(self)@.can_write(),
            old(graph).wf(),
            old(graph)@.issued(old(self)@.id),
            forall|c: T| cloned(old(self)@.current_value(old(graph)@.drains as nat), c) ==> f.requires((c,)),
        ensures
            final(self).wf(),
            final(self).entity() == old(self).entity(),
            exists|c: T, r: T|
                cloned(old(self)@.current_value(old(graph)@.drains as nat), c) && f.ensures((c,), r)
                    && final(self)@ == old(self)@.after_set(old(graph)@.drains as nat, r),
            final(graph).wf(),
            final(graph)@ == (GraphView {
                dirty_layout: old(graph)@.dirty_layout.insert(old(self)@.id.raw(), old(self).entity()),
                stale: old(graph)@.stale.union(downstream(old(graph)@.subscribers, old(self)@.id.raw())),
                ..old(graph)@
            }),
    {
        let c = self.get(graph);
        let r = f(c);
        self.set(graph, r);
    }

    /// Defer a write to the next Sync Point. The entity is marked dirty when
    /// the graph drains, not now.
    pub fn queue(&mut self, graph: &mut SignalGraph, value: T)
        requires
            old(self).wf(),
            old(self)@.can_write(),
            old(graph).wf(),
            old(graph)@.issued(old(self)@.id),
        ensures
            final(self).wf(),
            final(self).entity() == old(self).entity(),
            final(self)@ == old(self)@.after_queue(old(graph)@.drains as nat, value),
            final(graph).wf(),
            final(graph)@ == (GraphView {
                queue: old(graph)@.queue.push(QueuedWrite { id: old(self)@.id, entity: Some(old(self).entity()) }),
                ..old(graph)@
            }),
    {
        let drains = graph.drain_count();
        self.inner.push_pending(drains, value);
        graph.enqueue_write(self.inner.id, Some(self.entity_id));
    }
}

/// The signals a derived computation reads: a signal, a layout signal, or a
/// pair of sources (nest pairs for more).
pub trait Sources {
    /// The ids of the signals read, in order.
    spec fn read_ids(&self) -> Seq<SignalId>;

    /// The ids of the signals read, in order.
    fn ids(&self) -> (v: Vec<SignalId>)
        ensures
            v@ == self.read_ids(),
    ;
}

impl<'a, T> Sources for &'a Signal<T> {
    open spec fn read_ids(&self) -> Seq<SignalId> {
        seq![(**self)@.id]
    }

    fn ids(&self) -> (v: Vec<SignalId>) {
        let mut v: Vec<SignalId> = Vec::new();
        v.push(self.inner.id);
        v
    }
}

impl<'a, T> Sources for &'a LayoutSignal<T> {
    open spec fn read_ids(&self) -> Seq<SignalId> {
        seq![(**self)@.id]
    }

    fn ids(&self) -> (v: Vec<SignalId>) {
        let mut v: Vec<SignalId> = Vec::new();
        v.push(self.inner.id);
        v
    }
}

impl<A: Sources, B: Sources> Sources for (A, B) {
    open spec fn read_ids(&self) -> Seq<SignalId> {
        self.0.read_ids() + self.1.read_ids()
    }

    fn ids(&self) -> (v: Vec<SignalId>) {
        let mut v = self.0.ids();
        let w = self.1.ids();
        let ghost first = v@;
        let mut i: usize = 0;
        while i < w.len()
            invariant
                i <= w.len(),
                w@ == self.1.read_ids(),
                first == self.0.read_ids(),
                v@ == first + w@.subrange(0, i as int),
            decreases w.len() - i,
        {
            v.push(w[i]);
            assert(w@.subrange(0, i + 1) =~= w@.subrange(0, i as int).push(w@[i as int]));
            i = i + 1;
        }
        assert(w@.subrange(0, w.len() as int) =~= w@);
        v
    }
}

/// Records, as tracked reads of derived signal `d`, a read of each of `reads`:
/// every read adds the edges `d` depends on it and it has subscriber `d`.
fn track_reads(graph: &mut SignalGraph, d: SignalId, reads: &Vec<SignalId>)
    requires
        old(graph).wf(),
        old(graph)@.issued(d),
        forall|i: int| 0 <= i < reads@.len() ==> old(graph)@.issued(#[trigger] reads@[i]),
    ensures
        final(graph).wf(),
        final(graph)@ == (GraphView {
            dependencies: deps_with_reads(old(graph)@.dependencies, d.raw(), ids_of(reads@)),
            subscribers: subs_with_reads(old(graph)@.subscribers, d.raw(), ids_of(reads@)),
            tracked_reads: Seq::empty(),
            ..old(graph)@
        }),
{
    let ghost g0 = graph@;
    graph.begin_tracking(d);
    assert(ids_of(reads@.subrange(0, 0)) =~= Seq::<u64>::empty());
    let mut i: usize = 0;
    while i < reads.len()
        invariant
            graph.wf(),
            i <= reads.len(),
            forall|j: int| 0 <= j < reads@.len() ==> g0.issued(#[trigger] reads@[j]),
            graph@ == (GraphView {
                dependencies: deps_with_reads(g0.dependencies, d.raw(), ids_of(reads@.subrange(0, i as int))),
                subscribers: subs_with_reads(g0.subscribers, d.raw(), ids_of(reads@.subrange(0, i as int))),
                tracking_stack: g0.tracking_stack.push(d.raw()),
                tracked_reads: ids_of(reads@.subrange(0, i as int)),
                ..g0
            }),
        decreases reads.len() - i,
    {
        graph.record_read(reads[i]);
        proof {
            let pre = ids_of(reads@.subrange(0, i as int));
            let post = ids_of(reads@.subrange(0, i + 1));
            assert(post =~= pre.push(reads@[i as int].raw()));
            assert(post.drop_last() =~= pre);
        }
        i = i + 1;
    }
    assert(reads@.subrange(0, reads.len() as int) =~= reads@);
    graph.end_tracking(d);
    assert(graph@.tracking_stack =~= g0.tracking_stack);
}

/// A computed value, recomputed only when it is stale or was never computed.
///
/// The computation takes the signals it reads (its `Sources`) and the graph;
/// every recomputation records those reads, so a later write of any of them
/// marks the derived value stale.
pub struct Derived<T, F> {
    id: SignalId,
    compute: F,
    cached: Option<T>,
}

impl<T: Clone, F> Derived<T, F> {
    /// The signal's id.
    pub closed spec fn spec_id(&self) -> SignalId {
        self.id
    }

    /// The value kept from the last computation, if any.
    pub closed spec fn cache(&self) -> Option<T> {
        self.cached
    }

    /// The function that computes the value.
    pub closed spec fn function(&self) -> F {
        self.compute
    }

    fn new(compute: F, graph: &mut SignalGraph) -> (d: Derived<T, F>)
        requires
            old(graph).wf(),
            old(graph)@.next_id < u64::MAX,
        ensures
            final(graph).wf(),
            d.spec_id().raw() == old(graph)@.next_id,
            d.spec_id().graph() == old(graph)@.graph,
            d.cache() == None::<T>,
            d.function() == compute,
            final(graph)@ == (GraphView {
                next_id: (old(graph)@.next_id + 1) as u64,
                nodes: old(graph)@.nodes.insert(old(graph)@.next_id),
                dependencies: if old(graph)@.dependencies.contains_key(old(graph)@.next_id) {
                    old(graph)@.dependencies
                } else {
                    old(graph)@.dependencies.insert(old(graph)@.next_id, Set::empty())
                },
                ..old(graph)@
            }),
    {
        let id = SignalId::next(graph);
        graph.register_derived(id);
        Derived { id, compute, cached: None }
    }

    /// The signal's id.
    pub fn id(&self) -> (id: SignalId)
        ensures
            id == self.spec_id(),
    {
        self.id
    }

    /// Read the value. When it is stale or was never computed, compute it
    /// from `sources`, record each source as read (so that its next write
    /// marks this value stale), keep the value and clear the stale flag;
    /// otherwise return the kept value and leave the graph as it is.
    pub fn get<S: Sources>(&mut self, graph: &mut SignalGraph, sources: S) -> (v: T)
        where
            F: Fn(S, &SignalGraph) -> T,
        requires
            old(graph).wf(),
            old(graph)@.issued(old(self).spec_id()),
            forall|i: int| 0 <= i < sources.read_ids().len() ==> old(graph)@.issued(#[trigger] sources.read_ids()[i]),
            old(self).function().requires((sources, &*old(graph))),
        ensures
            final(graph).wf(),
            final(self).spec_id() == old(self).spec_id(),
            final(self).function() == old(self).function(),
            if old(graph)@.stale.contains(old(self).spec_id().raw()) || old(self).cache() is None {
                &&& old(self).function().ensures((sources, &*old(graph)), v)
                &&& final(self).cache() matches Some(c) && cloned(v, c)
                &&& final(graph)@ == (GraphView {
                    stale: old(graph)@.stale.remove(old(self).spec_id().raw()),
                    dependencies: deps_with_reads(
                        old(graph)@.dependencies,
                        old(self).spec_id().raw(),
                        ids_of(sources.read_ids()),
                    ),
                    subscribers: subs_with_reads(
                        old(graph)@.subscribers,
                        old(self).spec_id().raw(),
                        ids_of(sources.read_ids()),
                    ),
                    tracked_reads: Seq::empty(),
                    ..old(graph)@
                })
                &&& forall|i: int| 0 <= i < sources.read_ids().len() ==>
                    successors(final(graph)@.subscribers, #[trigger] sources.read_ids()[i].raw()).contains(
                        old(self).spec_id().raw(),
                    )
            } else {
                &&& cloned(old(self).cache()->Some_0, v)
                &&& final(self).cache() == old(self).cache()
                &&& final(graph)@ == old(graph)@
            },
    {
        let is_stale = graph.is_derived_stale(self.id);
        if !is_stale {
            if let Some(c) = &self.cached {
                return c.clone();
            }
        }
        let ghost reads = sources.read_ids();
        let ids = sources.ids();
        let value = (self.compute)(sources, &*graph);
        self.cached = Some(value.clone());
        track_reads(graph, self.id, &ids);
        graph.clear_derived_stale(self.id);
        proof {
            assert forall|i: int| 0 <= i < reads.len() implies
                successors(graph@.subscribers, #[trigger] reads[i].raw()).contains(self.id.raw()) by {
                assert(ids_of(reads)[i] == reads[i].raw());
                lemma_reads_subscribe(old(graph)@.subscribers, self.id.raw(), ids_of(reads), i);
            }
        }
        value
    }
}

/// One component's handle: the entity it belongs to and the ids of the
/// signals created through it.
#[derive(Debug)]
pub struct Scope {
    entity_id: EntityId,
    owned_signals: Vec<SignalId>,
}

impl Scope {
    /// The entity this scope belongs to.
    pub closed spec fn entity(&self) -> EntityId {
        self.entity_id
    }

    /// The ids of the signals created through this scope, oldest first.
    pub closed spec fn owned(&self) -> Seq<SignalId> {
        self.owned_signals@
    }

    /// A scope for `entity_id` that owns no signals yet.
    pub fn new(entity_id: EntityId) -> (s: Scope)
        ensures
            s.entity() == entity_id,
            s.owned() == Seq::<SignalId>::empty(),
    {
        Scope { entity_id, owned_signals: Vec::new() }
    }

    /// The entity this scope belongs to.
    pub fn entity_id(&self) -> (e: EntityId)
        ensures
            e == self.entity(),
    {
        self.entity_id
    }

    /// The ids of the signals created through this scope, oldest first.
    pub fn owned_signals(&self) -> (ids: &Vec<SignalId>)
        ensures
            ids@ == self.owned(),
    {
        &self.owned_signals
    }
}

/// Create an immediate reactive signal owned by `cx`, starting at `init()`.
pub fn use_signal<T: Clone, I: FnOnce() -> T>(cx: &mut Scope, graph: &mut SignalGraph, init: I) -> (s: Signal<T>)
    requires
        old(graph).wf(),
        old(graph)@.next_id < u64::MAX,
        init.requires(()),
    ensures
        final(graph).wf(),
        s.wf(),
        init.ensures((), s@.value),
        s@ == (SignalState { id: s@.id, value: s@.value, version: 0, pending: Seq::empty(), pending_epoch: 0 }),
        s@.id.raw() == old(graph)@.next_id,
        s@.id.graph() == old(graph)@.graph,
        !old(graph)@.nodes.contains(s@.id.raw()),
        final(graph)@ == (GraphView {
            next_id: (old(graph)@.next_id + 1) as u64,
            nodes: old(graph)@.nodes.insert(old(graph)@.next_id),
            ..old(graph)@
        }),
        final(cx).entity() == old(cx).entity(),
        final(cx).owned() == old(cx).owned().push(s@.id),
{
    let value = init();
    let signal = Signal::new(value, graph);
    cx.owned_signals.push(signal.id());
    signal
}

/// Create a layout signal owned by `cx` (and by its entity), starting at `init()`.
pub fn use_layout_signal<T: Clone, I: FnOnce() -> T>(cx: &mut Scope, graph: &mut SignalGraph, init: I) -> (s: LayoutSignal<T>)
    requires
        old(graph).wf(),
        old(graph)@.next_id < u64::MAX,
        init.requires(()),
    ensures
        final(graph).wf(),
        s.wf(),
        s.entity() == old(cx).entity(),
        init.ensures((), s@.value),
        s@ == (SignalState { id: s@.id, value: s@.value, version: 0, pending: Seq::empty(), pending_epoch: 0 }),
        s@.id.raw() == old(graph)@.next_id,
        s@.id.graph() == old(graph)@.graph,
        !old(graph)@.nodes.contains(s@.id.raw()),
        final(graph)@ == (GraphView {
            next_id: (old(graph)@.next_id + 1) as u64,
            nodes: old(graph)@.nodes.insert(old(graph)@.next_id),
            layout_entities: old(graph)@.layout_entities.insert(old(graph)@.next_id, old(cx).entity()),
            ..old(graph)@
        }),
        final(cx).entity() == old(cx).entity(),
        final(cx).owned() == old(cx).owned().push(s@.id),
{
    let value = init();
    let signal = LayoutSignal::new(value, graph, cx.entity_id);
    cx.owned_signals.push(signal.id());
    signal
}

/// Create a derived signal owned by `cx`, computed by `compute` from its
/// sources on first read. Nothing is computed yet, and it starts out not stale.
pub fn use_derived<T: Clone, F>(cx: &mut Scope, graph: &mut SignalGraph, compute: F) -> (d: Derived<T, F>)
    requires
        old(graph).wf(),
        old(graph)@.next_id < u64::MAX,
    ensures
        final(graph).wf(),
        d.cache() == None::<T>,
        d.function() == compute,
        d.spec_id().raw() == old(graph)@.next_id,
        d.spec_id().graph() == old(graph)@.graph,
        !old(graph)@.nodes.contains(d.spec_id().raw()),
        !final(graph)@.stale.contains(d.spec_id().raw()),
        final(graph)@ == (GraphView {
            next_id: (old(graph)@.next_id + 1) as u64,
            nodes: old(graph)@.nodes.insert(old(graph)@.next_id),
            dependencies: if old(graph)@.dependencies.contains_key(old(graph)@.next_id) {
                old(graph)@.dependencies
            } else {
                old(graph)@.dependencies.insert(old(graph)@.next_id, Set::empty())
            },
            ..old(graph)@
        }),
        final(cx).entity() == old(cx).entity(),
        final(cx).owned() == old(cx).owned().push(d.spec_id()),
{
    let derived = Derived::new(compute, graph);
    cx.owned_signals.push(derived.id());
    derived
}

} // verus!
