//! The reactive dependency graph: registration, stale propagation, the
//! deferred write queue, dirty layout collection and the topological order
//! in which stale derived signals recompute at the Sync Point.

use std::collections::{HashMap, HashSet};
use vstd::prelude::*;
use vstd::std_specs::iter::{IteratorSpec, VerusForLoopWrapper};

use crate::entity::{entity_lt, EntityId};
use crate::signal::topo::{
    cand_dep, deps_below, deps_of, done_set, ids_sorted, is_first_ready, is_ready, kahn_order,
    lemma_deps_below_step, lemma_index_set_bounded, lemma_kahn_step, lemma_kahn_stuck,
    lemma_mark_done, lemma_pending_initial, lemma_ready_iff_no_pending, pending_deps,
    remaining_of,
};
use crate::signal::reach::{
    all_targets, is_edge, downstream, finite_edges, lemma_closed_covers, lemma_reach_in_targets,
    lemma_reach_step, lemma_targets_finite, reaches, successors,
};

verus! {

broadcast use vstd::std_specs::hash::group_hash_axioms;

/// Unique identifier of a signal. Cheap to copy.
///
/// An id carries the identity of the graph that issued it and its number
/// within that graph, so ids of graphs drawn from one `GraphIds` source never
/// coincide.
#[derive(Debug, Clone, Copy, PartialEq, Eq, Hash, PartialOrd, Ord, Structural)]
pub struct SignalId {
    graph: u64,
    index: u64,
}

impl SignalId {
    /// The number of the id within its graph.
    pub closed spec fn raw(self) -> u64 {
        self.index
    }

    /// The identity of the graph that issued the id.
    pub closed spec fn graph(self) -> u64 {
        self.graph
    }

    /// Issue the next id of `graph`: ids count up from 1 and are never reused.
    pub fn next(graph: &mut SignalGraph) -> (id: SignalId)
        requires
            old(graph).wf(),
            old(graph)@.next_id < u64::MAX,
        ensures
            final(graph).wf(),
            id.raw() == old(graph)@.next_id,
            id.graph() == old(graph)@.graph,
            final(graph)@ == (GraphView { next_id: (old(graph)@.next_id + 1) as u64, ..old(graph)@ }),
    {
        let id = SignalId { graph: graph.graph_id, index: graph.next_id };
        graph.next_id = graph.next_id + 1;
        id
    }
}

/// The one source of graph identities of an application: every graph made
/// from it gets an identity of its own, and so ids of different graphs differ.
#[derive(Debug)]
pub struct GraphIds {
    next: u64,
}

impl GraphIds {
    /// How many graph identities this source has issued.
    pub closed spec fn issued_count(&self) -> u64 {
        self.next
    }

    /// A source that has issued nothing yet.
    pub fn new() -> (ids: GraphIds)
        ensures
            ids.issued_count() == 0,
    {
        GraphIds { next: 0 }
    }

    /// Whether another graph identity can be issued.
    pub fn can_issue(&self) -> (r: bool)
        ensures
            r == (self.issued_count() < u64::MAX),
    {
        self.next < u64::MAX
    }
}

/// Monotonically increasing write counter of a signal.
#[derive(Debug, Clone, Copy, PartialEq, Eq, PartialOrd, Ord, Structural)]
pub struct Version(u64);

impl Version {
    /// The number of writes the version counts.
    pub closed spec fn count(self) -> u64 {
        self.0
    }

    /// The version of a signal that was never written.
    pub fn initial() -> (v: Version)
        ensures
            v.count() == 0,
    {
        Version(0)
    }

    /// The version `n` writes after the first.
    pub(crate) fn from_count(n: u64) -> (v: Version)
        ensures
            v.count() == n,
    {
        Version(n)
    }

    /// The raw write count.
    pub(crate) fn get(&self) -> (n: u64)
        ensures
            n == self.count(),
    {
        self.0
    }

    /// Count one more write and return the new version.
    pub fn increment(&mut self) -> (v: Version)
        requires
            old(self).count() < u64::MAX,
        ensures
            final(self).count() == old(self).count() + 1,
            v == *final(self),
    {
        self.0 = self.0 + 1;
        *self
    }
}

impl Default for Version {
    fn default() -> (v: Version)
        ensures
            v.count() == 0,
    {
        Version(0)
    }
}

/// One deferred write waiting for the Sync Point: the written signal and,
/// for a layout signal, the entity that owns it.
#[derive(Debug, Clone, Copy)]
pub struct QueuedWrite {
    pub id: SignalId,
    pub entity: Option<EntityId>,
}

/// The members of a set of ids, each once, in the set's iteration order.
fn set_elements(s: &HashSet<u64>) -> (v: Vec<u64>)
    ensures
        v@.to_set() == s@,
        v@.no_duplicates(),
{
    let mut v: Vec<u64> = Vec::new();
    let mut iter = VerusForLoopWrapper::new(s.iter(), Ghost(None));
    let ghost items = iter.seq().unref();
    loop
        invariant
            iter.wf(),
            items == iter.seq().unref(),
            items.to_set() == s@,
            items.no_duplicates(),
            iter.iter.decrease() is Some,
            v@ == items.subrange(0, iter.index()),
        ensures
            v@ == items,
        decreases iter.iter.decrease()->0,
    {
        let ghost i = iter.index();
        match iter.next() {
            Some(x) => {
                v.push(*x);
                assert(items.subrange(0, i + 1) =~= items.subrange(0, i).push(*x));
            },
            None => {
                assert(items.subrange(0, i) =~= items);
                break;
            },
        }
    }
    v
}

/// The abstract state of a signal graph.
pub struct GraphView {
    /// The graph's identity, carried by every id it issues.
    pub graph: u64,
    /// The number the next issued id carries.
    pub next_id: u64,
    /// How many Sync Point drains have completed.
    pub drains: u64,
    /// All registered signals (source and derived).
    pub nodes: Set<u64>,
    /// derived signal -> the signals it depends on.
    pub dependencies: Map<u64, Set<u64>>,
    /// signal -> the derived signals that depend on it.
    pub subscribers: Map<u64, Set<u64>>,
    /// Derived signals that must recompute.
    pub stale: Set<u64>,
    /// Written layout signals -> their owning entity, awaiting the Sync Point.
    pub dirty_layout: Map<u64, EntityId>,
    /// Layout signal -> owning entity, recorded at registration.
    pub layout_entities: Map<u64, EntityId>,
    /// Deferred writes in the order they were queued.
    pub queue: Seq<QueuedWrite>,
    /// Derived signals whose computation is being tracked, innermost last.
    pub tracking_stack: Seq<u64>,
    /// Signals read during the current tracked computation.
    pub tracked_reads: Seq<u64>,
}

/// The abstract view of a map of id sets.
pub open spec fn sets_view(m: HashMap<u64, HashSet<u64>>) -> Map<u64, Set<u64>> {
    Map::new(|k: u64| m@.contains_key(k), |k: u64| m@[k]@)
}

/// The reactive dependency graph of one application.
///
/// Tracks which derived signals depend on which signals, marks derived
/// signals stale when something upstream is written, collects the entities
/// whose layout signals were written, and holds deferred writes until the
/// next Sync Point.
#[derive(Debug)]
pub struct SignalGraph {
    graph_id: u64,
    next_id: u64,
    drains: u64,
    nodes: HashSet<u64>,
    dependencies: HashMap<u64, HashSet<u64>>,
    subscribers: HashMap<u64, HashSet<u64>>,
    stale_derived: HashSet<u64>,
    dirty_layout: HashMap<u64, EntityId>,
    layout_signal_entities: HashMap<u64, EntityId>,
    write_queue: Vec<QueuedWrite>,
    tracking_stack: Vec<u64>,
    tracked_reads: Vec<u64>,
}

impl View for SignalGraph {
    type V = GraphView;

    closed spec fn view(&self) -> GraphView {
        GraphView {
            graph: self.graph_id,
            next_id: self.next_id,
            drains: self.drains,
            nodes: self.nodes@,
            dependencies: sets_view(self.dependencies),
            subscribers: sets_view(self.subscribers),
            stale: self.stale_derived@,
            dirty_layout: self.dirty_layout@,
            layout_entities: self.layout_signal_entities@,
            queue: self.write_queue@,
            tracking_stack: self.tracking_stack@,
            tracked_reads: self.tracked_reads@,
        }
    }
}

impl GraphView {
    /// `id` is one this graph has issued.
    pub open spec fn issued(self, id: SignalId) -> bool {
        id.graph() == self.graph && id.raw() < self.next_id
    }
}

/// Every key of `m`, and every member of its sets, is below `n`.
pub open spec fn bounded_edges(m: Map<u64, Set<u64>>, n: u64) -> bool {
    forall|k: u64| #[trigger] m.contains_key(k) ==> k < n && forall|y: u64| #[trigger] m[k].contains(y) ==> y < n
}

/// The abstract graph is well formed: every id it records, whether
/// registered, stale, on an edge, dirty, queued or being tracked, was issued
/// by it, and every id set is finite.
pub open spec fn view_wf(g: GraphView) -> bool {
    &&& forall|x: u64| #[trigger] g.nodes.contains(x) ==> x < g.next_id
    &&& forall|x: u64| #[trigger] g.stale.contains(x) ==> x < g.next_id
    &&& forall|x: u64| #[trigger] g.dirty_layout.contains_key(x) ==> x < g.next_id
    &&& forall|x: u64| #[trigger] g.layout_entities.contains_key(x) ==> x < g.next_id
    &&& forall|i: int| 0 <= i < g.queue.len() ==> g.issued(#[trigger] g.queue[i].id)
    &&& forall|i: int| 0 <= i < g.tracking_stack.len() ==> #[trigger] g.tracking_stack[i] < g.next_id
    &&& bounded_edges(g.dependencies, g.next_id)
    &&& bounded_edges(g.subscribers, g.next_id)
    &&& g.nodes.finite()
    &&& g.stale.finite()
    &&& g.dirty_layout.dom().finite()
    &&& finite_edges(g.dependencies)
    &&& finite_edges(g.subscribers)
}

/// `m` with `x` added to the set of `k` (creating the set when `k` has none).
pub open spec fn add_edge(m: Map<u64, Set<u64>>, k: u64, x: u64) -> Map<u64, Set<u64>> {
    m.insert(k, (if m.contains_key(k) { m[k] } else { Set::empty() }).insert(x))
}

/// The dependency map after derived signal `d` records a read of each of `reads`, in order.
pub open spec fn deps_with_reads(deps: Map<u64, Set<u64>>, d: u64, reads: Seq<u64>) -> Map<u64, Set<u64>>
    decreases reads.len(),
{
    if reads.len() == 0 {
        deps
    } else {
        add_edge(deps_with_reads(deps, d, reads.drop_last()), d, reads.last())
    }
}

/// The subscriber map after derived signal `d` records a read of each of `reads`, in order.
pub open spec fn subs_with_reads(subs: Map<u64, Set<u64>>, d: u64, reads: Seq<u64>) -> Map<u64, Set<u64>>
    decreases reads.len(),
{
    if reads.len() == 0 {
        subs
    } else {
        add_edge(subs_with_reads(subs, d, reads.drop_last()), reads.last(), d)
    }
}

/// After `d` records its reads, `d` subscribes to every signal it read.
pub proof fn lemma_reads_subscribe(subs: Map<u64, Set<u64>>, d: u64, reads: Seq<u64>, i: int)
    requires
        0 <= i < reads.len(),
    ensures
        successors(subs_with_reads(subs, d, reads), reads[i]).contains(d),
    decreases reads.len(),
{
    if i < reads.len() - 1 {
        lemma_reads_subscribe(subs, d, reads.drop_last(), i);
        assert(reads.drop_last()[i] == reads[i]);
    }
}

/// Everything downstream of some queued write in `q` whose lane `lane` selects.
pub open spec fn reached_by_queue(
    subs: Map<u64, Set<u64>>,
    q: Seq<QueuedWrite>,
    lane: spec_fn(QueuedWrite) -> bool,
) -> Set<u64> {
    Set::new(|x: u64| exists|i: int| 0 <= i < q.len() && lane(q[i]) && #[trigger] reaches(subs, q[i].id.raw(), x))
}

/// Selects every queued write.
pub open spec fn any_lane() -> spec_fn(QueuedWrite) -> bool {
    |w: QueuedWrite| true
}

/// Selects the queued writes of layout signals.
pub open spec fn layout_lane() -> spec_fn(QueuedWrite) -> bool {
    |w: QueuedWrite| w.entity is Some
}

/// Selects the queued writes of plain signals.
pub open spec fn plain_lane() -> spec_fn(QueuedWrite) -> bool {
    |w: QueuedWrite| w.entity is None
}

/// The dirty-layout map after recording, in order, the layout writes of `q`.
pub open spec fn dirty_after(dirty: Map<u64, EntityId>, q: Seq<QueuedWrite>) -> Map<u64, EntityId>
    decreases q.len(),
{
    if q.len() == 0 {
        dirty
    } else {
        let d = dirty_after(dirty, q.drop_last());
        match q.last().entity {
            Some(e) => d.insert(q.last().id.raw(), e),
            None => d,
        }
    }
}

/// The graph after a Sync Point drain of `g`: the drain is counted, the
/// queue empties, what the queued writes reach is stale and the entities of
/// the queued layout writes are dirty.
pub open spec fn drained_view(g: GraphView) -> GraphView {
    GraphView {
        drains: (g.drains + 1) as u64,
        queue: Seq::empty(),
        stale: g.stale.union(reached_by_queue(g.subscribers, g.queue, any_lane())),
        dirty_layout: dirty_after(g.dirty_layout, g.queue),
        ..g
    }
}

/// `s` is strictly increasing in the entity order.
pub open spec fn entities_sorted(s: Seq<EntityId>) -> bool {
    forall|i: int, j: int| 0 <= i < j < s.len() ==> entity_lt(#[trigger] s[i], #[trigger] s[j])
}

/// Adds `m`'s set for key `k` by the edge `k -> x` in place.
fn insert_edge(m: &mut HashMap<u64, HashSet<u64>>, k: u64, x: u64)
    requires
        finite_edges(sets_view(*old(m))),
    ensures
        sets_view(*final(m)) == add_edge(sets_view(*old(m)), k, x),
        finite_edges(sets_view(*final(m))),
        final(m)@.dom() == old(m)@.dom().insert(k),
{
    let ghost before = sets_view(*m);
    let mut set = match m.remove(&k) {
        Some(set) => set,
        None => HashSet::new(),
    };
    set.insert(x);
    m.insert(k, set);
    proof {
        assert(sets_view(*m) =~= add_edge(before, k, x));
        assert(m@.dom() =~= old(m)@.dom().insert(k));
        assert(sets_view(*m).dom() =~= m@.dom());
        assert(sets_view(*old(m)).dom() =~= old(m)@.dom());
    }
}

/// The values of an id map, in the map's iteration order (repeats kept).
fn map_values_elements(m: &HashMap<u64, EntityId>) -> (v: Vec<EntityId>)
    ensures
        v@.to_set() == m@.values(),
{
    let mut v: Vec<EntityId> = Vec::new();
    let mut iter = VerusForLoopWrapper::new(m.values(), Ghost(None));
    let ghost items = iter.seq().unref();
    loop
        invariant
            iter.wf(),
            items == iter.seq().unref(),
            items.to_set() == m@.values(),
            iter.iter.decrease() is Some,
            v@ == items.subrange(0, iter.index()),
        ensures
            v@ == items,
        decreases iter.iter.decrease()->0,
    {
        let ghost i = iter.index();
        match iter.next() {
            Some(x) => {
                v.push(*x);
                assert(items.subrange(0, i + 1) =~= items.subrange(0, i).push(*x));
            },
            None => {
                assert(items.subrange(0, i) =~= items);
                break;
            },
        }
    }
    v
}

/// Inserts `e` into the strictly increasing `v` unless it is already there.
fn insert_entity_sorted(v: &mut Vec<EntityId>, e: EntityId)
    requires
        entities_sorted(old(v)@),
    ensures
        entities_sorted(final(v)@),
        final(v)@.to_set() == old(v)@.to_set().insert(e),
{
    let mut p: usize = 0;
    while p < v.len() && v[p].less_than(&e)
        invariant
            p <= v.len(),
            forall|i: int| 0 <= i < p ==> entity_lt(#[trigger] v@[i], e),
        decreases v.len() - p,
    {
        p = p + 1;
    }
    if p < v.len() && v[p] == e {
        assert(old(v)@.to_set().insert(e) =~= old(v)@.to_set());
        return;
    }
    let ghost before = v@;
    v.insert(p, e);
    proof {
        assert(v@ =~= before.subrange(0, p as int).push(e) + before.subrange(p as int, before.len() as int));
        assert forall|i: int, j: int| 0 <= i < j < v@.len() implies entity_lt(#[trigger] v@[i], #[trigger] v@[j]) by {
            if p < before.len() {
                assert(!entity_lt(before[p as int], e));
                assert(before[p as int] != e);
            }
            if i < p && j == p {
            } else if i < p && j > p {
                assert(v@[j] == before[j - 1]);
                if p < before.len() && j - 1 > p {
                    assert(entity_lt(before[p as int], before[j - 1]));
                }
            } else if i == p && j > p {
                assert(v@[j] == before[j - 1]);
                if j - 1 > p {
                    assert(entity_lt(before[p as int], before[j - 1]));
                }
            } else if i > p {
                assert(v@[i] == before[i - 1] && v@[j] == before[j - 1]);
            }
        }
        assert forall|x: EntityId| v@.to_set().contains(x) <==> before.to_set().insert(e).contains(x) by {
            if v@.contains(x) {
                let i = choose|i: int| 0 <= i < v@.len() && v@[i] == x;
                if i < p {
                    assert(before[i] == x);
                } else if i > p {
                    assert(before[i - 1] == x);
                }
            }
            if before.contains(x) {
                let i = choose|i: int| 0 <= i < before.len() && before[i] == x;
                if i < p {
                    assert(v@[i] == x);
                } else {
                    assert(v@[i + 1] == x);
                }
            }
            if x == e {
                assert(v@[p as int] == e);
            }
        }
        assert(v@.to_set() =~= before.to_set().insert(e));
    }
}

/// Inserts `x` into the strictly increasing `v` unless it is already there.
fn insert_id_sorted(v: &mut Vec<u64>, x: u64)
    requires
        ids_sorted(old(v)@),
    ensures
        ids_sorted(final(v)@),
        final(v)@.to_set() == old(v)@.to_set().insert(x),
{
    let mut p: usize = 0;
    while p < v.len() && v[p] < x
        invariant
            p <= v.len(),
            forall|i: int| 0 <= i < p ==> #[trigger] v@[i] < x,
        decreases v.len() - p,
    {
        p = p + 1;
    }
    if p < v.len() && v[p] == x {
        assert(old(v)@.to_set().insert(x) =~= old(v)@.to_set());
        return;
    }
    let ghost before = v@;
    v.insert(p, x);
    proof {
        assert forall|i: int, j: int| 0 <= i < j < v@.len() implies #[trigger] v@[i] < #[trigger] v@[j] by {
            if i < p && j > p {
                assert(v@[j] == before[j - 1]);
            } else if i == p && j > p {
                assert(v@[j] == before[j - 1]);
                assert(before[p as int] >= x);
                if j - 1 > p {
                    assert(before[p as int] < before[j - 1]);
                }
            } else if i > p {
                assert(v@[i] == before[i - 1] && v@[j] == before[j - 1]);
            }
        }
        assert forall|y: u64| v@.to_set().contains(y) <==> before.to_set().insert(x).contains(y) by {
            if v@.contains(y) {
                let i = choose|i: int| 0 <= i < v@.len() && v@[i] == y;
                if i < p {
                    assert(before[i] == y);
                } else if i > p {
                    assert(before[i - 1] == y);
                }
            }
            if before.contains(y) {
                let i = choose|i: int| 0 <= i < before.len() && before[i] == y;
                if i < p {
                    assert(v@[i] == y);
                } else {
                    assert(v@[i + 1] == y);
                }
            }
            if y == x {
                assert(v@[p as int] == x);
            }
        }
        assert(v@.to_set() =~= before.to_set().insert(x));
    }
}

/// The raw ids of a sequence of signal ids.
pub open spec fn ids_of(s: Seq<SignalId>) -> Seq<u64> {
    s.map_values(|x: SignalId| x.raw())
}

impl SignalGraph {
    /// The graph's internal invariant.
    pub open spec fn wf(&self) -> bool {
        view_wf(self@)
    }

    proof fn lemma_view_doms(&self)
        ensures
            sets_view(self.dependencies).dom() == self.dependencies@.dom(),
            sets_view(self.subscribers).dom() == self.subscribers@.dom(),
    {
        assert(sets_view(self.dependencies).dom() =~= self.dependencies@.dom());
        assert(sets_view(self.subscribers).dom() =~= self.subscribers@.dom());
    }

    /// An empty graph with an identity of its own drawn from `ids`: no
    /// signals, nothing stale, nothing dirty, nothing queued.
    pub fn new(ids: &mut GraphIds) -> (g: SignalGraph)
        requires
            old(ids).issued_count() < u64::MAX,
        ensures
            final(ids).issued_count() == old(ids).issued_count() + 1,
            g.wf(),
            g@.graph == old(ids).issued_count(),
            g@.next_id == 1,
            g@.drains == 0,
            g@.nodes == Set::<u64>::empty(),
            g@.dependencies == Map::<u64, Set<u64>>::empty(),
            g@.subscribers == Map::<u64, Set<u64>>::empty(),
            g@.stale == Set::<u64>::empty(),
            g@.dirty_layout == Map::<u64, EntityId>::empty(),
            g@.layout_entities == Map::<u64, EntityId>::empty(),
            g@.queue == Seq::<QueuedWrite>::empty(),
            g@.tracking_stack == Seq::<u64>::empty(),
            g@.tracked_reads == Seq::<u64>::empty(),
    {
        let graph_id = ids.next;
        ids.next = ids.next + 1;
        let g = SignalGraph {
            graph_id,
            next_id: 1,
            drains: 0,
            nodes: HashSet::new(),
            dependencies: HashMap::new(),
            subscribers: HashMap::new(),
            stale_derived: HashSet::new(),
            dirty_layout: HashMap::new(),
            layout_signal_entities: HashMap::new(),
            write_queue: Vec::new(),
            tracking_stack: Vec::new(),
            tracked_reads: Vec::new(),
        };
        assert(g@.dependencies =~= Map::<u64, Set<u64>>::empty());
        assert(g@.subscribers =~= Map::<u64, Set<u64>>::empty());
        g
    }

    /// Whether another id can be issued.
    pub fn can_issue_id(&self) -> (r: bool)
        ensures
            r == (self@.next_id < u64::MAX),
    {
        self.next_id < u64::MAX
    }

    // ── Registration ─────────────────────────────────────────────────────

    /// Register a plain signal; `id` is one this graph issued.
    pub fn register_signal(&mut self, id: SignalId)
        requires
            old(self).wf(),
            old(self)@.issued(id),
        ensures
            final(self).wf(),
            final(self)@ == (GraphView { nodes: old(self)@.nodes.insert(id.raw()), ..old(self)@ }),
    {
        self.nodes.insert(id.index);
    }

    /// Register a layout signal owned by `entity_id`; `id` is one this graph issued.
    pub fn register_layout_signal(&mut self, id: SignalId, entity_id: EntityId)
        requires
            old(self).wf(),
            old(self)@.issued(id),
        ensures
            final(self).wf(),
            final(self)@ == (GraphView {
                nodes: old(self)@.nodes.insert(id.raw()),
                layout_entities: old(self)@.layout_entities.insert(id.raw(), entity_id),
                ..old(self)@
            }),
    {
        self.nodes.insert(id.index);
        self.layout_signal_entities.insert(id.index, entity_id);
    }

    /// Register a derived signal; it starts with an (empty) dependency entry.
    /// `id` is one this graph issued.
    pub fn register_derived(&mut self, id: SignalId)
        requires
            old(self).wf(),
            old(self)@.issued(id),
        ensures
            final(self).wf(),
            final(self)@ == (GraphView {
                nodes: old(self)@.nodes.insert(id.raw()),
                dependencies: if old(self)@.dependencies.contains_key(id.raw()) {
                    old(self)@.dependencies
                } else {
                    old(self)@.dependencies.insert(id.raw(), Set::empty())
                },
                ..old(self)@
            }),
    {
        self.nodes.insert(id.index);
        if !self.dependencies.contains_key(&id.index) {
            self.dependencies.insert(id.index, HashSet::new());
        }
        proof {
            let old_deps = sets_view(old(self).dependencies);
            let want = if old_deps.contains_key(id.raw()) { old_deps } else { old_deps.insert(id.raw(), Set::empty()) };
            assert(sets_view(self.dependencies) =~= want);
        }
    }

    // ── Stale marking ────────────────────────────────────────────────────

    /// Mark every derived signal downstream of `id` stale (breadth-first over
    /// subscriber edges). `id` itself is only marked if it lies on a cycle.
    pub fn mark_signal_updated(&mut self, id: SignalId)
        requires
            old(self).wf(),
            old(self)@.issued(id),
        ensures
            final(self).wf(),
            final(self)@ == (GraphView {
                stale: old(self)@.stale.union(downstream(old(self)@.subscribers, id.raw())),
                ..old(self)@
            }),
    {
        let ghost g0 = self@;
        let ghost subs = g0.subscribers;
        let ghost a = id.raw();
        let ghost univ = all_targets(subs).insert(a);
        proof {
            lemma_targets_finite(subs);
            self.lemma_view_doms();
        }
        let mut to_visit: Vec<u64> = Vec::new();
        to_visit.push(id.index);
        assert(to_visit@[0] == a);
        let mut visited: HashSet<u64> = HashSet::new();
        while to_visit.len() > 0
            invariant
                view_wf(g0),
                g0 == old(self)@,
                subs == g0.subscribers,
                a == id.raw(),
                univ == all_targets(subs).insert(a),
                univ.finite(),
                self@ == (GraphView { stale: self@.stale, ..g0 }),
                sets_view(self.subscribers) == subs,
                self.subscribers@.dom() == subs.dom(),
                self@.stale.finite(),
                g0.stale.subset_of(self@.stale),
                forall|x: u64| #[trigger] self@.stale.contains(x) ==> g0.stale.contains(x) || reaches(subs, a, x),
                forall|x: u64| #[trigger] to_visit@.contains(x) ==> x == a || reaches(subs, a, x),
                forall|x: u64| #[trigger] visited@.contains(x) ==> x == a || reaches(subs, a, x),
                forall|v: u64| #[trigger] visited@.contains(v) ==> successors(subs, v).subset_of(self@.stale),
                forall|v: u64| #[trigger] visited@.contains(v) ==> forall|y: u64| #[trigger] successors(subs, v).contains(y) ==> visited@.contains(y) || to_visit@.contains(y),
                visited@.contains(a) || to_visit@.contains(a),
                visited@.subset_of(univ),
            decreases univ.difference(visited@).len(), to_visit.len(),
        {
            let ghost before_pop = to_visit@;
            let current = to_visit.pop().unwrap();
            let ghost tv = to_visit@;
            proof {
                assert(before_pop =~= tv.push(current));
                assert(before_pop.contains(current));
                assert forall|x: u64| #[trigger] before_pop.contains(x) && x != current implies tv.contains(x) by {
                    let i = choose|i: int| 0 <= i < before_pop.len() && before_pop[i] == x;
                    assert(tv[i] == x);
                }
                assert forall|x: u64| #[trigger] tv.contains(x) implies before_pop.contains(x) by {
                    let i = choose|i: int| 0 <= i < tv.len() && tv[i] == x;
                    assert(before_pop[i] == x);
                }
            }
            let ghost vis_before = visited@;
            if !visited.insert(current) {
                assert(visited@ =~= vis_before);
                continue;
            }
            assert(current == a || reaches(subs, a, current));
            assert(univ.contains(current)) by {
                if current != a {
                    lemma_reach_in_targets(subs, a, current);
                }
            }
            match self.subscribers.get(&current) {
                Some(subs_set) => {
                    assert(successors(subs, current) == subs_set@);
                    let succ_vec = set_elements(subs_set);
                    let ghost succ = subs_set@;
                    let ghost stale_at_entry = self@.stale;
                    let mut k: usize = 0;
                    while k < succ_vec.len()
                        invariant
                            view_wf(g0),
                            subs == g0.subscribers,
                            succ == successors(subs, current),
                            succ_vec@.to_set() == succ,
                            current == a || reaches(subs, a, current),
                            self@ == (GraphView { stale: self@.stale, ..g0 }),
                            sets_view(self.subscribers) == subs,
                            self.subscribers@.dom() == subs.dom(),
                            self@.stale.finite(),
                            g0.stale.subset_of(self@.stale),
                            stale_at_entry.subset_of(self@.stale),
                            forall|x: u64| #[trigger] self@.stale.contains(x) ==> g0.stale.contains(x) || reaches(subs, a, x),
                            forall|x: u64| #[trigger] to_visit@.contains(x) ==> x == a || reaches(subs, a, x),
                            forall|x: u64| #[trigger] tv.contains(x) ==> to_visit@.contains(x),
                            forall|j: int| 0 <= j < k ==> self@.stale.contains(#[trigger] succ_vec@[j]) && to_visit@.contains(succ_vec@[j]),
                            k <= succ_vec.len(),
                        decreases succ_vec.len() - k,
                    {
                        let sub = succ_vec[k];
                        let ghost before = to_visit@;
                        proof {
                            assert(succ_vec@.to_set().contains(sub));
                            lemma_reach_step(subs, a, current, sub);
                        }
                        self.stale_derived.insert(sub);
                        to_visit.push(sub);
                        proof {
                            assert(to_visit@ == before.push(sub));
                            assert forall|x: u64| #[trigger] before.contains(x) implies to_visit@.contains(x) by {
                                let i = choose|i: int| 0 <= i < before.len() && before[i] == x;
                                assert(to_visit@[i] == x);
                            }
                            assert(to_visit@[to_visit@.len() - 1] == sub);
                            assert forall|x: u64| #[trigger] to_visit@.contains(x) implies x == a || reaches(subs, a, x) by {
                                let i = choose|i: int| 0 <= i < to_visit@.len() && to_visit@[i] == x;
                                if i < before.len() {
                                    assert(before[i] == x);
                                    assert(before.contains(x));
                                }
                            }
                            assert forall|j: int| 0 <= j < k + 1 implies self@.stale.contains(#[trigger] succ_vec@[j]) && to_visit@.contains(succ_vec@[j]) by {
                                if j < k {
                                    assert(before.contains(succ_vec@[j]));
                                }
                            }
                        }
                        k = k + 1;
                    }
                    proof {
                        assert forall|y: u64| #[trigger] succ.contains(y) implies self@.stale.contains(y) && to_visit@.contains(y) by {
                            assert(succ_vec@.to_set().contains(y));
                            let j = choose|j: int| 0 <= j < succ_vec@.len() && succ_vec@[j] == y;
                            assert(succ_vec@[j] == y);
                        }
                    }
                },
                None => {},
            }
            proof {
                assert(univ.difference(visited@) =~= univ.difference(vis_before).remove(current));
                assert(univ.difference(vis_before).contains(current));
            }
        }
        proof {
            assert forall|x: u64| reaches(subs, a, x) implies self@.stale.contains(x) by {
                lemma_closed_covers(subs, a, visited@, self@.stale, x);
            }
            assert(self@.stale =~= g0.stale.union(downstream(subs, a)));
            assert forall|x: u64| #[trigger] self@.stale.contains(x) implies x < g0.next_id by {
                if !g0.stale.contains(x) {
                    lemma_reach_in_targets(subs, a, x);
                    let k = choose|k: u64| subs.contains_key(k) && #[trigger] subs[k].contains(x);
                }
            }
        }
    }

    /// Record that layout signal `id` of `entity_id` was written, and mark
    /// everything downstream of it stale.
    pub fn mark_layout_dirty(&mut self, id: SignalId, entity_id: EntityId)
        requires
            old(self).wf(),
            old(self)@.issued(id),
        ensures
            final(self).wf(),
            final(self)@ == (GraphView {
                dirty_layout: old(self)@.dirty_layout.insert(id.raw(), entity_id),
                stale: old(self)@.stale.union(downstream(old(self)@.subscribers, id.raw())),
                ..old(self)@
            }),
    {
        self.dirty_layout.insert(id.index, entity_id);
        self.mark_signal_updated(id);
    }

    /// Whether derived signal `id` must recompute; an id of another graph
    /// never is.
    pub fn is_derived_stale(&self, id: SignalId) -> (r: bool)
        ensures
            r == (id.graph() == self@.graph && self@.stale.contains(id.raw())),
    {
        id.graph == self.graph_id && self.stale_derived.contains(&id.index)
    }

    /// Derived signal `id` has recomputed: it is no longer stale.
    pub fn clear_derived_stale(&mut self, id: SignalId)
        requires
            old(self).wf(),
            old(self)@.issued(id),
        ensures
            final(self).wf(),
            final(self)@ == (GraphView { stale: old(self)@.stale.remove(id.raw()), ..old(self)@ }),
    {
        self.stale_derived.remove(&id.index);
    }

    /// Clear every stale flag once the Sync Point has recomputed them all.
    pub fn clear_stale(&mut self)
        requires
            old(self).wf(),
        ensures
            final(self).wf(),
            final(self)@ == (GraphView { stale: Set::empty(), ..old(self)@ }),
    {
        self.stale_derived.clear();
    }

    // ── Dependency tracking ──────────────────────────────────────────────

    /// Begin recording which signals a derived computation reads.
    pub fn begin_tracking(&mut self, derived_id: SignalId)
        requires
            old(self).wf(),
            old(self)@.issued(derived_id),
        ensures
            final(self).wf(),
            final(self)@ == (GraphView {
                tracking_stack: old(self)@.tracking_stack.push(derived_id.raw()),
                tracked_reads: Seq::empty(),
                ..old(self)@
            }),
    {
        self.tracking_stack.push(derived_id.index);
        self.tracked_reads.clear();
    }

    /// A signal was read. Inside a tracked computation this records the edge
    /// between the innermost derived signal and the signal it read.
    pub fn record_read(&mut self, source_id: SignalId)
        requires
            old(self).wf(),
            old(self)@.issued(source_id),
        ensures
            final(self).wf(),
            old(self)@.tracking_stack.len() == 0 ==> final(self)@ == old(self)@,
            old(self)@.tracking_stack.len() > 0 ==> {
                let d = old(self)@.tracking_stack.last();
                final(self)@ == (GraphView {
                    tracked_reads: old(self)@.tracked_reads.push(source_id.raw()),
                    dependencies: add_edge(old(self)@.dependencies, d, source_id.raw()),
                    subscribers: add_edge(old(self)@.subscribers, source_id.raw(), d),
                    ..old(self)@
                })
            },
    {
        let n = self.tracking_stack.len();
        if n > 0 {
            let derived_id = self.tracking_stack[n - 1];
            self.tracked_reads.push(source_id.index);
            insert_edge(&mut self.dependencies, derived_id, source_id.index);
            insert_edge(&mut self.subscribers, source_id.index, derived_id);
        }
    }

    /// Stop recording for the innermost derived computation.
    pub fn end_tracking(&mut self, derived_id: SignalId)
        requires
            old(self).wf(),
            old(self)@.issued(derived_id),
        ensures
            final(self).wf(),
            final(self)@ == (GraphView {
                tracking_stack: if old(self)@.tracking_stack.len() > 0 {
                    old(self)@.tracking_stack.drop_last()
                } else {
                    old(self)@.tracking_stack
                },
                tracked_reads: Seq::empty(),
                ..old(self)@
            }),
    {
        let _ = derived_id;
        self.tracking_stack.pop();
        self.tracked_reads.clear();
    }

    // ── Write queue ──────────────────────────────────────────────────────

    /// Defer a write of signal `id` to the next Sync Point; `entity` is the
    /// owning entity of a layout signal and `None` for a plain signal.
    pub fn enqueue_write(&mut self, id: SignalId, entity: Option<EntityId>)
        requires
            old(self).wf(),
            old(self)@.issued(id),
        ensures
            final(self).wf(),
            final(self)@ == (GraphView {
                queue: old(self)@.queue.push(QueuedWrite { id, entity }),
                ..old(self)@
            }),
    {
        self.write_queue.push(QueuedWrite { id, entity });
    }

    /// How many Sync Point drains have completed.
    pub fn drain_count(&self) -> (n: u64)
        ensures
            n == self@.drains,
    {
        self.drains
    }

    /// Whether another drain can be counted.
    pub fn can_drain(&self) -> (r: bool)
        ensures
            r == (self@.drains < u64::MAX),
    {
        self.drains < u64::MAX
    }

    /// Marks stale everything downstream of the plain writes among `entries`.
    fn mark_plain_writes(&mut self, entries: &Vec<QueuedWrite>)
        requires
            old(self).wf(),
            forall|i: int| 0 <= i < entries@.len() ==> old(self)@.issued(#[trigger] entries@[i].id),
        ensures
            final(self).wf(),
            final(self)@ == (GraphView {
                stale: old(self)@.stale.union(reached_by_queue(old(self)@.subscribers, entries@, plain_lane())),
                ..old(self)@
            }),
    {
        let ghost g0 = self@;
        let ghost q = entries@;
        let ghost subs = g0.subscribers;
        assert(self@.stale =~= g0.stale.union(reached_by_queue(subs, q.subrange(0, 0), plain_lane())));
        let mut i: usize = 0;
        while i < entries.len()
            invariant
                view_wf(self@),
                entries@ == q,
                i <= entries.len(),
                forall|j: int| 0 <= j < q.len() ==> g0.issued(#[trigger] q[j].id),
                self@ == (GraphView { stale: self@.stale, ..g0 }),
                self@.stale == g0.stale.union(reached_by_queue(subs, q.subrange(0, i as int), plain_lane())),
                subs == g0.subscribers,
            decreases entries.len() - i,
        {
            let w = entries[i];
            if w.entity.is_none() {
                self.mark_signal_updated(w.id);
            }
            proof {
                let before = reached_by_queue(subs, q.subrange(0, i as int), plain_lane());
                let after = reached_by_queue(subs, q.subrange(0, i + 1), plain_lane());
                assert forall|x: u64| after.contains(x) implies before.contains(x) || (w.entity is None && reaches(subs, w.id.raw(), x)) by {
                    let j = choose|j: int| 0 <= j < i + 1 && (plain_lane())(q.subrange(0, i + 1)[j]) && #[trigger] reaches(subs, q.subrange(0, i + 1)[j].id.raw(), x);
                    if j < i {
                        assert(q.subrange(0, i as int)[j] == q.subrange(0, i + 1)[j]);
                    }
                }
                assert forall|x: u64| before.contains(x) implies after.contains(x) by {
                    let j = choose|j: int| 0 <= j < i && (plain_lane())(q.subrange(0, i as int)[j]) && #[trigger] reaches(subs, q.subrange(0, i as int)[j].id.raw(), x);
                    assert(q.subrange(0, i as int)[j] == q.subrange(0, i + 1)[j]);
                }
                if w.entity is None {
                    assert forall|x: u64| reaches(subs, w.id.raw(), x) implies after.contains(x) by {
                        assert(q.subrange(0, i + 1)[i as int] == w);
                    }
                }
                assert(self@.stale =~= g0.stale.union(after));
            }
            i = i + 1;
        }
        assert(q.subrange(0, q.len() as int) =~= q);
    }

    /// Records, in order, the layout writes among `entries`: each marks its
    /// entity dirty and everything downstream of its signal stale.
    fn mark_layout_writes(&mut self, entries: &Vec<QueuedWrite>)
        requires
            old(self).wf(),
            forall|i: int| 0 <= i < entries@.len() ==> old(self)@.issued(#[trigger] entries@[i].id),
        ensures
            final(self).wf(),
            final(self)@ == (GraphView {
                stale: old(self)@.stale.union(reached_by_queue(old(self)@.subscribers, entries@, layout_lane())),
                dirty_layout: dirty_after(old(self)@.dirty_layout, entries@),
                ..old(self)@
            }),
    {
        let ghost g0 = self@;
        let ghost q = entries@;
        let ghost subs = g0.subscribers;
        assert(self@.stale =~= g0.stale.union(reached_by_queue(subs, q.subrange(0, 0), layout_lane())));
        assert(q.subrange(0, 0) =~= Seq::<QueuedWrite>::empty());
        let mut i: usize = 0;
        while i < entries.len()
            invariant
                view_wf(self@),
                entries@ == q,
                i <= entries.len(),
                forall|j: int| 0 <= j < q.len() ==> g0.issued(#[trigger] q[j].id),
                self@ == (GraphView { stale: self@.stale, dirty_layout: self@.dirty_layout, ..g0 }),
                self@.stale == g0.stale.union(reached_by_queue(subs, q.subrange(0, i as int), layout_lane())),
                self@.dirty_layout == dirty_after(g0.dirty_layout, q.subrange(0, i as int)),
                subs == g0.subscribers,
            decreases entries.len() - i,
        {
            let w = entries[i];
            match w.entity {
                Some(e) => self.mark_layout_dirty(w.id, e),
                None => {},
            }
            proof {
                let before = reached_by_queue(subs, q.subrange(0, i as int), layout_lane());
                let after = reached_by_queue(subs, q.subrange(0, i + 1), layout_lane());
                assert forall|x: u64| after.contains(x) implies before.contains(x) || (w.entity is Some && reaches(subs, w.id.raw(), x)) by {
                    let j = choose|j: int| 0 <= j < i + 1 && (layout_lane())(q.subrange(0, i + 1)[j]) && #[trigger] reaches(subs, q.subrange(0, i + 1)[j].id.raw(), x);
                    if j < i {
                        assert(q.subrange(0, i as int)[j] == q.subrange(0, i + 1)[j]);
                    }
                }
                assert forall|x: u64| before.contains(x) implies after.contains(x) by {
                    let j = choose|j: int| 0 <= j < i && (layout_lane())(q.subrange(0, i as int)[j]) && #[trigger] reaches(subs, q.subrange(0, i as int)[j].id.raw(), x);
                    assert(q.subrange(0, i as int)[j] == q.subrange(0, i + 1)[j]);
                }
                if w.entity is Some {
                    assert forall|x: u64| reaches(subs, w.id.raw(), x) implies after.contains(x) by {
                        assert(q.subrange(0, i + 1)[i as int] == w);
                    }
                }
                assert(q.subrange(0, i + 1).drop_last() =~= q.subrange(0, i as int));
                assert(self@.stale =~= g0.stale.union(after));
            }
            i = i + 1;
        }
        assert(q.subrange(0, q.len() as int) =~= q);
    }

    /// Takes every queued write out of the graph, leaving the queue empty.
    fn take_queue(&mut self) -> (entries: Vec<QueuedWrite>)
        requires
            old(self).wf(),
        ensures
            final(self).wf(),
            entries@ == old(self)@.queue,
            final(self)@ == (GraphView { queue: Seq::empty(), ..old(self)@ }),
    {
        let mut entries: Vec<QueuedWrite> = Vec::new();
        std::mem::swap(&mut entries, &mut self.write_queue);
        entries
    }

    /// Sync Point step 1: apply every queued write.
    ///
    /// The queue is emptied first; then each plain write marks what lies
    /// downstream of its signal stale, and each layout write marks its entity
    /// dirty (and what lies downstream stale). The queued values themselves
    /// become visible in their signals once this drain is counted.
    pub fn drain_queues(&mut self)
        requires
            old(self).wf(),
            old(self)@.drains < u64::MAX,
        ensures
            final(self).wf(),
            final(self)@ == drained_view(old(self)@),
    {
        let ghost g0 = self@;
        let ghost q = g0.queue;
        let ghost subs = g0.subscribers;
        // Phase A: take the entries out of the graph.
        let entries = self.take_queue();
        // Phase C: the plain lane, then the layout lane.
        self.mark_plain_writes(&entries);
        self.mark_layout_writes(&entries);
        self.drains = self.drains + 1;
        proof {
            let plain = reached_by_queue(subs, q, plain_lane());
            let all = reached_by_queue(subs, q, any_lane());
            let lay = reached_by_queue(subs, q, layout_lane());
            assert forall|x: u64| all.contains(x) implies plain.contains(x) || lay.contains(x) by {
                let j = choose|j: int| 0 <= j < q.len() && (any_lane())(q[j]) && #[trigger] reaches(subs, q[j].id.raw(), x);
                if q[j].entity is None {
                    assert((plain_lane())(q[j]));
                } else {
                    assert((layout_lane())(q[j]));
                }
            }
            assert forall|x: u64| plain.contains(x) || lay.contains(x) implies all.contains(x) by {
                if plain.contains(x) {
                    let j = choose|j: int| 0 <= j < q.len() && (plain_lane())(q[j]) && #[trigger] reaches(subs, q[j].id.raw(), x);
                    assert((any_lane())(q[j]));
                } else {
                    let j = choose|j: int| 0 <= j < q.len() && (layout_lane())(q[j]) && #[trigger] reaches(subs, q[j].id.raw(), x);
                    assert((any_lane())(q[j]));
                }
            }
            assert(g0.stale.union(plain).union(lay) =~= g0.stale.union(all));
        }
    }

    /// Sync Point step 1, single-lane form: apply every queued write in the
    /// order it was queued.
    ///
    /// A plain write only updates its signal's value; a layout write also marks
    /// its entity dirty and what lies downstream of it stale.
    pub fn drain_physics_queue(&mut self)
        requires
            old(self).wf(),
            old(self)@.drains < u64::MAX,
        ensures
            final(self).wf(),
            final(self)@ == (GraphView {
                drains: (old(self)@.drains + 1) as u64,
                queue: Seq::empty(),
                stale: old(self)@.stale.union(reached_by_queue(old(self)@.subscribers, old(self)@.queue, layout_lane())),
                dirty_layout: dirty_after(old(self)@.dirty_layout, old(self)@.queue),
                ..old(self)@
            }),
    {
        let entries = self.take_queue();
        self.mark_layout_writes(&entries);
        self.drains = self.drains + 1;
    }

    /// The entities whose layout signals were written, each once and in
    /// ascending entity order.
    fn dirty_entities(&self) -> (entities: Vec<EntityId>)
        ensures
            entities_sorted(entities@),
            entities@.to_set() == self@.dirty_layout.values(),
            entities@.len() == self@.dirty_layout.values().len(),
    {
        let values = map_values_elements(&self.dirty_layout);
        let mut entities: Vec<EntityId> = Vec::new();
        let mut i: usize = 0;
        while i < values.len()
            invariant
                i <= values.len(),
                entities_sorted(entities@),
                entities@.to_set() == values@.subrange(0, i as int).to_set(),
            decreases values.len() - i,
        {
            insert_entity_sorted(&mut entities, values[i]);
            proof {
                assert(values@.subrange(0, i + 1) =~= values@.subrange(0, i as int).push(values@[i as int]));
                values@.subrange(0, i as int).lemma_push_to_set_commute(values@[i as int]);
            }
            i = i + 1;
        }
        assert(values@.subrange(0, values.len() as int) =~= values@);
        proof {
            assert forall|a: int, b: int| 0 <= a < entities@.len() && 0 <= b < entities@.len() && a != b
                implies entities@[a] != entities@[b] by {
                if a < b {
                    assert(entity_lt(entities@[a], entities@[b]));
                } else {
                    assert(entity_lt(entities@[b], entities@[a]));
                }
            }
            entities@.unique_seq_to_set();
        }
        entities
    }

    /// Sync Point step 3: hand out every entity whose layout signals were
    /// written, each once and in ascending entity order, and clear the set.
    pub fn take_layout_dirty(&mut self) -> (entities: Vec<EntityId>)
        requires
            old(self).wf(),
        ensures
            final(self).wf(),
            entities_sorted(entities@),
            entities@.to_set() == old(self)@.dirty_layout.values(),
            final(self)@ == (GraphView { dirty_layout: Map::empty(), ..old(self)@ }),
    {
        let entities = self.dirty_entities();
        self.dirty_layout.clear();
        assert(self@.dirty_layout =~= Map::<u64, EntityId>::empty());
        entities
    }

    /// Whether signal `x` depends on signal `d`.
    fn depends_on(&self, x: u64, d: u64) -> (r: bool)
        ensures
            r == deps_of(self@.dependencies, x).contains(d),
    {
        proof {
            self.lemma_view_doms();
        }
        match self.dependencies.get(&x) {
            Some(set) => set.contains(&d),
            None => false,
        }
    }

    /// The stale signals in ascending id order.
    fn sorted_stale(&self) -> (cand: Vec<u64>)
        ensures
            ids_sorted(cand@),
            cand@.to_set() == self@.stale,
            cand@.no_duplicates(),
    {
        let elems = set_elements(&self.stale_derived);
        let mut cand: Vec<u64> = Vec::new();
        let mut i: usize = 0;
        while i < elems.len()
            invariant
                i <= elems.len(),
                ids_sorted(cand@),
                cand@.to_set() == elems@.subrange(0, i as int).to_set(),
            decreases elems.len() - i,
        {
            insert_id_sorted(&mut cand, elems[i]);
            proof {
                assert(elems@.subrange(0, i + 1) =~= elems@.subrange(0, i as int).push(elems@[i as int]));
                elems@.subrange(0, i as int).lemma_push_to_set_commute(elems@[i as int]);
            }
            i = i + 1;
        }
        assert(elems@.subrange(0, elems.len() as int) =~= elems@);
        assert forall|a: int, b: int| 0 <= a < cand@.len() && 0 <= b < cand@.len() && a != b implies cand@[a] != cand@[b] by {
            if a < b {
                assert(cand@[a] < cand@[b]);
            } else {
                assert(cand@[b] < cand@[a]);
            }
        }
        cand
    }

    /// Sync Point step 2: the order in which stale derived signals recompute.
    ///
    /// Kahn's algorithm over the stale signals: a signal becomes ready once
    /// every stale signal it depends on has been ordered, and the ready signal
    /// with the smallest id goes next. Dependencies come before dependents;
    /// signals on a dependency cycle are left out.
    pub fn topo_sorted_derived(&self) -> (order: Vec<SignalId>)
        requires
            self.wf(),
        ensures
            ids_of(order@) == kahn_order(self@.dependencies, self@.stale),
            forall|i: int| 0 <= i < order@.len() ==> (#[trigger] order@[i]).graph() == self@.graph,
    {
        let ghost deps = self@.dependencies;
        let cand = self.sorted_stale();
        let n = cand.len();
        // In-degree of each candidate: how many stale signals it depends on.
        let mut indeg: Vec<usize> = Vec::new();
        let mut i: usize = 0;
        while i < n
            invariant
                n == cand.len(),
                i <= n,
                indeg@.len() == i,
                deps == self@.dependencies,
                forall|t: int| 0 <= t < i ==> #[trigger] indeg@[t] == deps_below(deps, cand@, t, n as int).len(),
            decreases n - i,
        {
            let mut c: usize = 0;
            let mut j: usize = 0;
            assert(deps_below(deps, cand@, i as int, 0) =~= Set::<int>::empty());
            while j < n
                invariant
                    n == cand.len(),
                    i < n,
                    j <= n,
                    deps == self@.dependencies,
                    c == deps_below(deps, cand@, i as int, j as int).len(),
                    c <= j,
                decreases n - j,
            {
                proof {
                    lemma_deps_below_step(deps, cand@, i as int, j as int);
                }
                if self.depends_on(cand[i], cand[j]) {
                    c = c + 1;
                }
                j = j + 1;
            }
            indeg.push(c);
            i = i + 1;
        }
        let mut done: Vec<bool> = Vec::new();
        let mut i: usize = 0;
        while i < n
            invariant
                i <= n,
                done@.len() == i,
                forall|t: int| 0 <= t < i ==> !#[trigger] done@[t],
            decreases n - i,
        {
            done.push(false);
            i = i + 1;
        }
        proof {
            assert forall|t: int| 0 <= t < n implies #[trigger] indeg@[t] == pending_deps(deps, cand@, done@, t).len() by {
                lemma_pending_initial(deps, cand@, done@, t);
            }
            assert(remaining_of(cand@, done@) =~= self@.stale) by {
                assert forall|x: u64| self@.stale.contains(x) implies remaining_of(cand@, done@).contains(x) by {
                    assert(cand@.to_set().contains(x));
                    let j = choose|j: int| 0 <= j < cand@.len() && cand@[j] == x;
                }
                assert forall|x: u64| remaining_of(cand@, done@).contains(x) implies self@.stale.contains(x) by {
                    let j = choose|j: int| 0 <= j < cand@.len() && cand@[j] == x && !done@[j];
                    assert(cand@.contains(x));
                }
            }
            assert(done_set(done@) =~= Set::<int>::empty());
            assert(self@.stale.finite());
        }
        let mut order: Vec<SignalId> = Vec::new();
        loop
            invariant
                n == cand.len(),
                ids_sorted(cand@),
                cand@.no_duplicates(),
                deps == self@.dependencies,
                done@.len() == n,
                indeg@.len() == n,
                forall|t: int| 0 <= t < n ==> #[trigger] indeg@[t] == pending_deps(deps, cand@, done@, t).len(),
                remaining_of(cand@, done@).finite(),
                ids_of(order@) + kahn_order(deps, remaining_of(cand@, done@)) == kahn_order(deps, self@.stale),
                order@.len() == done_set(done@).len(),
                done_set(done@).finite(),
                forall|i: int| 0 <= i < order@.len() ==> (#[trigger] order@[i]).graph() == self@.graph,
            ensures
                ids_of(order@) == kahn_order(deps, self@.stale),
                forall|i: int| 0 <= i < order@.len() ==> (#[trigger] order@[i]).graph() == self@.graph,
            decreases n - order@.len(),
        {
            proof {
                lemma_index_set_bounded(done_set(done@), n as int);
            }
            // The first candidate that is not done and has no pending dependency.
            let mut k: usize = 0;
            while k < n && (done[k] || indeg[k] != 0)
                invariant
                    k <= n,
                    n == cand.len(),
                    done@.len() == n,
                    indeg@.len() == n,
                    forall|t: int| 0 <= t < k ==> #[trigger] done@[t] || indeg@[t] != 0,
                decreases n - k,
            {
                k = k + 1;
            }
            let ghost rem = remaining_of(cand@, done@);
            if k == n {
                proof {
                    assert forall|x: u64| !#[trigger] is_ready(deps, rem, x) by {
                        if is_ready(deps, rem, x) {
                            let j = choose|j: int| 0 <= j < cand@.len() && cand@[j] == x && !done@[j];
                            lemma_ready_iff_no_pending(deps, cand@, done@, j);
                            assert(done@[j] || indeg@[j] != 0);
                        }
                    }
                    lemma_kahn_stuck(deps, rem);
                    assert(ids_of(order@) + Seq::<u64>::empty() =~= ids_of(order@));
                }
                break;
            }
            proof {
                lemma_ready_iff_no_pending(deps, cand@, done@, k as int);
                assert forall|y: u64| #[trigger] is_ready(deps, rem, y) implies cand@[k as int] <= y by {
                    let j = choose|j: int| 0 <= j < cand@.len() && cand@[j] == y && !done@[j];
                    lemma_ready_iff_no_pending(deps, cand@, done@, j);
                    if j < k {
                        assert(done@[j] || indeg@[j] != 0);
                    } else if j > k {
                        assert(cand@[k as int] < cand@[j]);
                    }
                }
                assert(is_first_ready(deps, rem, cand@[k as int]));
                lemma_kahn_step(deps, rem, cand@[k as int]);
                lemma_mark_done(deps, cand@, done@, k as int);
            }
            let ghost order_before = order@;
            let ghost done_before = done@;
            order.push(SignalId { graph: self.graph_id, index: cand[k] });
            done.set(k, true);
            proof {
                assert(ids_of(order@) =~= ids_of(order_before).push(cand@[k as int]));
                assert(ids_of(order@) + kahn_order(deps, rem.remove(cand@[k as int])) =~= ids_of(order_before) + (seq![cand@[k as int]] + kahn_order(deps, rem.remove(cand@[k as int]))));
            }
            // Every candidate depending on the one just ordered has one dependency fewer.
            let mut t: usize = 0;
            while t < n
                invariant
                    n == cand.len(),
                    t <= n,
                    k < n,
                    deps == self@.dependencies,
                    done@.len() == n,
                    indeg@.len() == n,
                    done_before.len() == n,
                    !done_before[k as int],
                    done@ == done_before.update(k as int, true),
                    forall|u: int| t <= u < n ==> #[trigger] indeg@[u] == pending_deps(deps, cand@, done_before, u).len(),
                    forall|u: int| 0 <= u < t ==> #[trigger] indeg@[u] == pending_deps(deps, cand@, done@, u).len(),
                    forall|u: int| #[trigger] pending_deps(deps, cand@, done@, u) == pending_deps(deps, cand@, done_before, u).remove(k as int),
                decreases n - t,
            {
                proof {
                    lemma_index_set_bounded(pending_deps(deps, cand@, done_before, t as int), n as int);
                }
                if self.depends_on(cand[t], cand[k]) && indeg[t] > 0 {
                    proof {
                        assert(pending_deps(deps, cand@, done_before, t as int).contains(k as int));
                    }
                    let d = indeg[t] - 1;
                    indeg.set(t, d);
                } else {
                    proof {
                        if self@.dependencies == deps && cand_dep(deps, cand@, t as int, k as int) {
                            assert(pending_deps(deps, cand@, done_before, t as int).contains(k as int));
                        } else {
                            assert(pending_deps(deps, cand@, done_before, t as int).remove(k as int) =~= pending_deps(deps, cand@, done_before, t as int));
                        }
                    }
                }
                t = t + 1;
            }
            proof {
                lemma_index_set_bounded(done_set(done@), n as int);
            }
        }
        order
    }

    // ── Diagnostics ──────────────────────────────────────────────────────

    /// The number of registered signals.
    pub fn signal_count(&self) -> (n: usize)
        ensures
            n == self@.nodes.len(),
    {
        self.nodes.len()
    }

    /// The number of dirty layout entities awaiting the Sync Point: each
    /// entity counts once, however many of its layout signals were written.
    pub fn dirty_layout_count(&self) -> (n: usize)
        ensures
            n == self@.dirty_layout.values().len(),
    {
        let entities = self.dirty_entities();
        entities.len()
    }

    /// The number of deferred writes awaiting the Sync Point.
    pub fn queued_write_count(&self) -> (n: usize)
        ensures
            n == self@.queue.len(),
    {
        self.write_queue.len()
    }

}

} // verus!
