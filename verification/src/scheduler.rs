use vstd::prelude::*;
use dashmap::DashSet;
use crate::component::{Components, TypeKey};
use crate::dashmap_api::{ids_clear, ids_insert, ids_items, ids_new, queued_ids};
use crate::bitcount::{count_set, lemma_count_cleared, lemma_count_none, lemma_count_pushed};
use crate::entity::{Entities, EntityId};
use crate::sparse::SparseSet;
use crate::smallvec_api::{access_get, access_items, access_len, AccessList};
use std::collections::HashSet;
use std::marker::PhantomData;
use vstd::std_specs::iter::IteratorSpec;

verus! {

/// One access that a system asks for: to the column or resource of one
/// type, shared or exclusive.
#[derive(Debug, Copy, Clone, PartialEq, Eq, Structural)]
pub struct BorrowedTypeDescriptor {
    pub exclusive: bool,
    pub type_id: TypeKey,
}

/// What one parameter of a system means to the scheduler.
///
/// Event readers, event writers and per-system state cannot alias anything,
/// so they have no effect on scheduling.
pub enum SystemParamDescriptor {
    Unit,
    EventReader,
    EventWriter,
    State,
    Query(AccessList),
    Res(TypeKey),
    ResMut(TypeKey),
}

/// The scheduler's summary of one system: its id and what each of its
/// parameters accesses.
pub struct SystemDescriptor {
    pub id: usize,
    pub deps: Vec<SystemParamDescriptor>,
}

/// The accesses of one parameter, as `(type key, exclusive)` pairs.
pub open spec fn param_accesses(param: SystemParamDescriptor) -> Seq<(usize, bool)> {
    match param {
        SystemParamDescriptor::Query(list) => access_items(list),
        SystemParamDescriptor::Res(key) => seq![(key.0, false)],
        SystemParamDescriptor::ResMut(key) => seq![(key.0, true)],
        _ => Seq::empty(),
    }
}

/// The accesses of a list of parameters: those of each, one after another.
pub open spec fn deps_accesses(deps: Seq<SystemParamDescriptor>) -> Seq<(usize, bool)>
    decreases deps.len(),
{
    if deps.len() == 0 {
        Seq::empty()
    } else {
        deps_accesses(deps.drop_last()) + param_accesses(deps.last())
    }
}

/// Two access sets conflict iff they mention a common type and at least one
/// of the two accesses to it is exclusive.
pub open spec fn accesses_conflict(a: Seq<(usize, bool)>, b: Seq<(usize, bool)>) -> bool {
    exists|i: int, j: int|
        0 <= i < a.len() && 0 <= j < b.len() && (#[trigger] a[i]).0 == (#[trigger] b[j]).0 && (
        a[i].1 || b[j].1)
}

impl SystemDescriptor {
    /// Everything that the system accesses.
    pub open spec fn spec_accesses(&self) -> Seq<(usize, bool)> {
        deps_accesses(self.deps@)
    }

    /// Whether the system may not run beside `other`.
    pub open spec fn spec_conflicts(&self, other: &SystemDescriptor) -> bool {
        accesses_conflict(self.spec_accesses(), other.spec_accesses())
    }

    /// Everything that the system accesses: the union of what its
    /// parameters access.
    pub fn accesses(&self) -> (all: Vec<(usize, bool)>)
        ensures
            all@ == self.spec_accesses(),
    {
        let mut all: Vec<(usize, bool)> = Vec::new();
        let mut i: usize = 0;
        while i < self.deps.len()
            invariant
                i <= self.deps.len(),
                all@ == deps_accesses(self.deps@.subrange(0, i as int)),
            decreases self.deps.len() - i,
        {
            let ghost before = all@;
            let ghost done = self.deps@.subrange(0, i as int);
            let ghost next = self.deps@.subrange(0, i + 1);
            proof {
                assert(next.drop_last() =~= done);
                assert(next.last() == self.deps@[i as int]);
            }
            match &self.deps[i] {
                SystemParamDescriptor::Query(list) => {
                    let n = access_len(list);
                    let mut j: usize = 0;
                    while j < n
                        invariant
                            j <= n,
                            n == access_items(*list).len(),
                            all@ == before + access_items(*list).subrange(0, j as int),
                        decreases n - j,
                    {
                        all.push(access_get(list, j));
                        proof {
                            assert(access_items(*list).subrange(0, j + 1) =~= access_items(
                                *list,
                            ).subrange(0, j as int).push(access_items(*list)[j as int]));
                        }
                        j = j + 1;
                    }
                    proof {
                        assert(access_items(*list).subrange(0, n as int) =~= access_items(*list));
                    }
                },
                SystemParamDescriptor::Res(key) => {
                    all.push((key.0, false));
                    proof {
                        assert(all@ =~= before + seq![(key.0, false)]);
                    }
                },
                SystemParamDescriptor::ResMut(key) => {
                    all.push((key.0, true));
                    proof {
                        assert(all@ =~= before + seq![(key.0, true)]);
                    }
                },
                _ => {
                    proof {
                        assert(all@ =~= before + Seq::<(usize, bool)>::empty());
                    }
                },
            }
            i = i + 1;
        }
        proof {
            assert(self.deps@.subrange(0, self.deps.len() as int) =~= self.deps@);
        }
        all
    }

    /// Whether the system may not run beside `other`: whether their access
    /// sets conflict.
    pub fn conflicts(&self, other: &SystemDescriptor) -> (conflict: bool)
        ensures
            conflict == self.spec_conflicts(other),
    {
        let mine = self.accesses();
        let theirs = other.accesses();
        let mut i: usize = 0;
        while i < mine.len()
            invariant
                i <= mine.len(),
                mine@ == self.spec_accesses(),
                theirs@ == other.spec_accesses(),
                forall|a: int, b: int|
                    0 <= a < i && 0 <= b < theirs.len() ==> !((#[trigger] mine@[a]).0 == (
                    #[trigger] theirs@[b]).0 && (mine@[a].1 || theirs@[b].1)),
            decreases mine.len() - i,
        {
            let mut j: usize = 0;
            while j < theirs.len()
                invariant
                    i < mine.len(),
                    j <= theirs.len(),
                    mine@ == self.spec_accesses(),
                    theirs@ == other.spec_accesses(),
                    forall|b: int|
                        0 <= b < j ==> !(mine@[i as int].0 == (#[trigger] theirs@[b]).0 && (
                        mine@[i as int].1 || theirs@[b].1)),
                decreases theirs.len() - j,
            {
                if mine[i].0 == theirs[j].0 && (mine[i].1 || theirs[j].1) {
                    proof {
                        let a = self.spec_accesses();
                        let b = other.spec_accesses();
                        assert(a[i as int].0 == b[j as int].0 && (a[i as int].1 || b[j as int].1));
                    }
                    return true;
                }
                j = j + 1;
            }
            i = i + 1;
        }
        false
    }
}

/// The id of a system within its schedule.
#[derive(Debug, Copy, Clone, PartialEq, Eq, Structural)]
pub struct SystemId(pub usize);

/// Two systems that may not run at the same time.
#[derive(Copy, Clone, PartialEq, Eq, Structural)]
pub struct GraphEdge {
    pub from: SystemId,
    pub to: SystemId,
}

impl From<(SystemId, SystemId)> for GraphEdge {
    fn from(pair: (SystemId, SystemId)) -> (edge: Self) {
        GraphEdge { from: pair.0, to: pair.1 }
    }
}

impl vstd::std_specs::convert::FromSpecImpl<(SystemId, SystemId)> for GraphEdge {
    open spec fn obeys_from_spec() -> bool {
        true
    }

    open spec fn from_spec(pair: (SystemId, SystemId)) -> Self {
        GraphEdge { from: pair.0, to: pair.1 }
    }
}

/// The systems of a schedule and the pairs of them that may not run at the
/// same time.
pub struct ScheduleGraph {
    nodes: Vec<SystemId>,
    edges: Vec<GraphEdge>,
}

/// Whether an edge joins `a` and `b`, in either direction.
pub open spec fn adjacent(edges: Seq<GraphEdge>, a: SystemId, b: SystemId) -> bool {
    exists|e: int|
        0 <= e < edges.len() && ((#[trigger] edges[e]).from == a && edges[e].to == b
            || edges[e].from == b && edges[e].to == a)
}

/// Whether a node before node `i` that is joined to it has the time slot
/// `slot`.
pub open spec fn slot_taken(
    nodes: Seq<SystemId>,
    edges: Seq<GraphEdge>,
    slots: Seq<usize>,
    i: int,
    slot: usize,
) -> bool {
    exists|j: int| 0 <= j < i && adjacent(edges, nodes[i], nodes[j]) && #[trigger] slots[j] == slot
}

/// Whether `slots` gives the first `upto` nodes their time slots greedily:
/// each node, in order, has the lowest slot that no node before it that is
/// joined to it has.
pub open spec fn greedy_slots(
    nodes: Seq<SystemId>,
    edges: Seq<GraphEdge>,
    slots: Seq<usize>,
    upto: int,
) -> bool {
    forall|i: int|
        0 <= i < upto ==> !slot_taken(nodes, edges, slots, i, #[trigger] slots[i]) && forall|
            lower: usize,
        |
            lower < slots[i] ==> slot_taken(nodes, edges, slots, i, lower)
}

impl ScheduleGraph {
    /// The systems, in the order they were added.
    pub closed spec fn nodes(&self) -> Seq<SystemId> {
        self.nodes@
    }

    /// The pairs of systems that may not run at the same time.
    pub closed spec fn edges(&self) -> Seq<GraphEdge> {
        self.edges@
    }

    pub fn new() -> (graph: Self)
        ensures
            graph.nodes().len() == 0,
            graph.edges().len() == 0,
    {
        ScheduleGraph { nodes: Vec::new(), edges: Vec::new() }
    }

    /// The number of systems.
    pub fn node_count(&self) -> (n: usize)
        ensures
            n == self.nodes().len(),
    {
        self.nodes.len()
    }

    /// The number of edges.
    pub fn edge_count(&self) -> (n: usize)
        ensures
            n == self.edges().len(),
    {
        self.edges.len()
    }

    pub fn add_node(&mut self, node: SystemId)
        ensures
            final(self).nodes() == old(self).nodes().push(node),
            final(self).edges() == old(self).edges(),
    {
        self.nodes.push(node);
    }

    pub fn add_edge(&mut self, edge: GraphEdge)
        ensures
            final(self).nodes() == old(self).nodes(),
            final(self).edges() == old(self).edges().push(edge),
    {
        self.edges.push(edge);
    }

    /// Removes every edge equal to `edge`. The others keep their order.
    pub fn remove_edge(&mut self, edge: GraphEdge)
        ensures
            final(self).nodes() == old(self).nodes(),
            final(self).edges() == old(self).edges().filter(|e: GraphEdge| e != edge),
    {
        let ghost keep = |e: GraphEdge| e != edge;
        let mut kept: Vec<GraphEdge> = Vec::new();
        let mut i: usize = 0;
        proof {
            reveal_with_fuel(Seq::filter, 1);
            assert(self.edges@.subrange(0, 0).len() == 0);
        }
        while i < self.edges.len()
            invariant
                i <= self.edges.len(),
                self.edges@ == old(self).edges(),
                self.nodes@ == old(self).nodes(),
                keep == (|e: GraphEdge| e != edge),
                kept@ == self.edges@.subrange(0, i as int).filter(keep),
            decreases self.edges.len() - i,
        {
            let e = self.edges[i];
            proof {
                reveal_with_fuel(Seq::filter, 1);
                let next = self.edges@.subrange(0, i + 1);
                assert(next.drop_last() =~= self.edges@.subrange(0, i as int));
                assert(next.last() == e);
            }
            if !(e.from.0 == edge.from.0 && e.to.0 == edge.to.0) {
                kept.push(e);
            }
            i = i + 1;
        }
        proof {
            assert(self.edges@.subrange(0, self.edges.len() as int) =~= self.edges@);
        }
        self.edges = kept;
    }

    /// Whether an edge joins `a` and `b`, in either direction.
    pub fn connects(&self, a: SystemId, b: SystemId) -> (joined: bool)
        ensures
            joined == adjacent(self.edges(), a, b),
    {
        let mut e: usize = 0;
        while e < self.edges.len()
            invariant
                e <= self.edges.len(),
                forall|k: int|
                    0 <= k < e ==> !((#[trigger] self.edges@[k]).from == a && self.edges@[k].to == b
                        || self.edges@[k].from == b && self.edges@[k].to == a),
            decreases self.edges.len() - e,
        {
            let edge = self.edges[e];
            if (edge.from.0 == a.0 && edge.to.0 == b.0) || (edge.from.0 == b.0 && edge.to.0 == a.0) {
                return true;
            }
            e = e + 1;
        }
        false
    }

    /// Gives every system a time slot so that no two systems joined by an
    /// edge share one. The systems are taken in order, and each gets the
    /// lowest slot that is still free for it.
    pub fn optimize(self) -> (timeslots: Vec<usize>)
        ensures
            timeslots.len() == self.nodes().len(),
            forall|i: int| 0 <= i < timeslots.len() ==> #[trigger] timeslots[i] <= i,
            greedy_slots(self.nodes(), self.edges(), timeslots@, self.nodes().len() as int),
            forall|i: int, j: int|
                0 <= i < timeslots.len() && 0 <= j < timeslots.len() && i != j && adjacent(
                    self.edges(),
                    self.nodes()[i],
                    self.nodes()[j],
                ) ==> timeslots[i] != timeslots[j],
    {
        let n = self.nodes.len();
        let mut timeslots: Vec<usize> = Vec::new();
        let mut i: usize = 0;
        while i < n
            invariant
                i <= n,
                n == self.nodes().len(),
                timeslots.len() == i,
                forall|j: int| 0 <= j < i ==> #[trigger] timeslots[j] <= j,
                greedy_slots(self.nodes(), self.edges(), timeslots@, i as int),
            decreases n - i,
        {
            let slot = self.lowest_free_slot(&timeslots, i);
            let ghost before = timeslots@;
            timeslots.push(slot);
            proof {
                let nodes = self.nodes();
                let edges = self.edges();
                let after = timeslots@;
                assert forall|k: int| 0 <= k < i + 1 implies !slot_taken(
                    nodes,
                    edges,
                    after,
                    k,
                    #[trigger] after[k],
                ) && forall|lower: usize|
                    lower < after[k] ==> slot_taken(nodes, edges, after, k, lower) by {
                    assert(forall|j: int| 0 <= j < k ==> after[j] == before[j]);
                    if k < i {
                        assert(after[k] == before[k]);
                        assert(!slot_taken(nodes, edges, before, k, before[k]));
                        if slot_taken(nodes, edges, after, k, after[k]) {
                            let j = choose|j: int|
                                0 <= j < k && adjacent(edges, nodes[k], nodes[j])
                                    && #[trigger] after[j] == after[k];
                            assert(before[j] == before[k]);
                        }
                        assert forall|lower: usize| lower < after[k] implies slot_taken(
                            nodes,
                            edges,
                            after,
                            k,
                            lower,
                        ) by {
                            assert(slot_taken(nodes, edges, before, k, lower));
                            let j = choose|j: int|
                                0 <= j < k && adjacent(edges, nodes[k], nodes[j])
                                    && #[trigger] before[j] == lower;
                            assert(after[j] == lower);
                        }
                    } else {
                        if slot_taken(nodes, edges, after, k, after[k]) {
                            let j = choose|j: int|
                                0 <= j < k && adjacent(edges, nodes[k], nodes[j])
                                    && #[trigger] after[j] == after[k];
                            assert(before[j] == slot);
                        }
                        assert forall|lower: usize| lower < after[k] implies slot_taken(
                            nodes,
                            edges,
                            after,
                            k,
                            lower,
                        ) by {
                            assert(slot_taken(nodes, edges, before, k, lower));
                            let j = choose|j: int|
                                0 <= j < k && adjacent(edges, nodes[k], nodes[j])
                                    && #[trigger] before[j] == lower;
                            assert(after[j] == lower);
                        }
                    }
                }
            }
            i = i + 1;
        }
        proof {
            let nodes = self.nodes();
            let edges = self.edges();
            assert forall|a: int, b: int|
                0 <= a < timeslots.len() && 0 <= b < timeslots.len() && a != b && adjacent(
                    edges,
                    nodes[a],
                    nodes[b],
                ) implies timeslots[a] != timeslots[b] by {
                if a < b {
                    assert(!slot_taken(nodes, edges, timeslots@, b, timeslots@[b]));
                } else {
                    assert(!slot_taken(nodes, edges, timeslots@, a, timeslots@[a]));
                }
            }
        }
        timeslots
    }

    /// The lowest time slot that no node before node `i` that is joined to
    /// it has.
    fn lowest_free_slot(&self, timeslots: &Vec<usize>, i: usize) -> (slot: usize)
        requires
            i < self.nodes().len(),
            i < usize::MAX,
            timeslots.len() == i,
            forall|j: int| 0 <= j < i ==> #[trigger] timeslots[j] <= j,
        ensures
            slot <= i,
            !slot_taken(self.nodes(), self.edges(), timeslots@, i as int, slot),
            forall|lower: usize|
                lower < slot ==> slot_taken(self.nodes(), self.edges(), timeslots@, i as int, lower),
    {
        let ghost nodes = self.nodes();
        let ghost edges = self.edges();
        let mut available: Vec<bool> = Vec::new();
        let mut k: usize = 0;
        while k <= i
            invariant
                k <= i + 1,
                i < usize::MAX,
                available.len() == k,
                forall|s: int| 0 <= s < k ==> #[trigger] available[s],
                count_set(available@, k as int) == k,
            decreases i + 1 - k,
        {
            let ghost before = available@;
            available.push(true);
            proof {
                lemma_count_pushed(before, available@, k as int);
            }
            k = k + 1;
        }
        let mut j: usize = 0;
        while j < i
            invariant
                j <= i,
                i < self.nodes().len(),
                nodes == self.nodes(),
                edges == self.edges(),
                timeslots.len() == i,
                available.len() == i + 1,
                forall|t: int| 0 <= t < i ==> #[trigger] timeslots[t] <= t,
                forall|s: int|
                    0 <= s <= i ==> (#[trigger] available[s]) == !exists|t: int|
                        0 <= t < j && adjacent(edges, nodes[i as int], nodes[t])
                            && #[trigger] timeslots[t] == s,
                count_set(available@, i + 1) >= i + 1 - j,
            decreases i - j,
        {
            if self.connects(self.nodes[i], self.nodes[j]) {
                let taken = timeslots[j];
                let ghost before = available@;
                available.set(taken, false);
                proof {
                    lemma_count_cleared(before, taken as int, i + 1);
                    assert forall|s: int| 0 <= s <= i implies (#[trigger] available[s]) == !exists|
                        t: int,
                    |
                        0 <= t < j + 1 && adjacent(edges, nodes[i as int], nodes[t])
                            && #[trigger] timeslots[t] == s by {
                        if s == taken {
                            assert(timeslots[j as int] == s);
                        } else {
                            if exists|t: int|
                                0 <= t < j + 1 && adjacent(edges, nodes[i as int], nodes[t])
                                    && #[trigger] timeslots[t] == s {
                                let t = choose|t: int|
                                    0 <= t < j + 1 && adjacent(edges, nodes[i as int], nodes[t])
                                        && #[trigger] timeslots[t] == s;
                                assert(t < j);
                            }
                        }
                    }
                }
            } else {
                proof {
                    assert forall|s: int| 0 <= s <= i implies (#[trigger] available[s]) == !exists|
                        t: int,
                    |
                        0 <= t < j + 1 && adjacent(edges, nodes[i as int], nodes[t])
                            && #[trigger] timeslots[t] == s by {
                        if exists|t: int|
                            0 <= t < j + 1 && adjacent(edges, nodes[i as int], nodes[t])
                                && #[trigger] timeslots[t] == s {
                            let t = choose|t: int|
                                0 <= t < j + 1 && adjacent(edges, nodes[i as int], nodes[t])
                                    && #[trigger] timeslots[t] == s;
                            assert(t < j);
                        }
                    }
                }
            }
            j = j + 1;
        }
        let mut slot: usize = 0;
        while !available[slot]
            invariant
                slot <= i,
                available.len() == i + 1,
                forall|s: int| 0 <= s < slot ==> !#[trigger] available[s],
                count_set(available@, i + 1) >= 1,
            decreases i - slot,
        {
            proof {
                lemma_count_none(available@, slot + 1);
            }
            slot = slot + 1;
        }
        proof {
            assert(available[slot as int]);
            assert forall|lower: usize| lower < slot implies slot_taken(
                nodes,
                edges,
                timeslots@,
                i as int,
                lower,
            ) by {
                assert(!available[lower as int]);
            }
        }
        slot
    }
}

impl Default for ScheduleGraph {
    /// A graph without systems.
    fn default() -> (graph: Self)
        ensures
            graph.nodes().len() == 0,
            graph.edges().len() == 0,
    {
        ScheduleGraph::new()
    }
}

/// A conflict between access sets does not depend on their order.
pub proof fn lemma_conflict_symmetric(a: Seq<(usize, bool)>, b: Seq<(usize, bool)>)
    ensures
        accesses_conflict(a, b) == accesses_conflict(b, a),
{
    if accesses_conflict(a, b) {
        let (i, j) = choose|i: int, j: int|
            0 <= i < a.len() && 0 <= j < b.len() && (#[trigger] a[i]).0 == (#[trigger] b[j]).0 && (
            a[i].1 || b[j].1);
        assert(b[j].0 == a[i].0 && (b[j].1 || a[i].1));
    }
    if accesses_conflict(b, a) {
        let (i, j) = choose|i: int, j: int|
            0 <= i < b.len() && 0 <= j < a.len() && (#[trigger] b[i]).0 == (#[trigger] a[j]).0 && (
            b[i].1 || a[j].1);
        assert(a[j].0 == b[i].0 && (a[j].1 || b[i].1));
    }
}

/// How a schedule runs its systems.
pub trait ExecutorKind {

}

/// Runs the systems of a wave one after another on the calling thread.
pub enum SingleThreadedExecutor {
    Kind,
}

impl ExecutorKind for SingleThreadedExecutor {

}

/// Runs the systems of a wave on a pool of worker threads.
pub enum MultiThreadedExecutor {
    Kind,
}

impl ExecutorKind for MultiThreadedExecutor {

}

/// The ordered registry of the systems that run each tick.
pub struct Schedule<K: ExecutorKind> {
    systems: Vec<SystemDescriptor>,
    _marker: PhantomData<K>,
}

/// Whether a system before system `i` whose access set conflicts with that
/// of system `i` runs in wave `wave`.
pub open spec fn wave_taken(systems: Seq<SystemDescriptor>, waves: Seq<usize>, i: int, wave: usize) -> bool {
    exists|j: int|
        0 <= j < i && systems[i].spec_conflicts(&systems[j]) && #[trigger] waves[j] == wave
}

/// Whether `waves` gives every system its wave greedily: each system, in
/// order, runs in the lowest wave in which no system before it runs whose
/// access set conflicts with its own.
pub open spec fn greedy_waves(systems: Seq<SystemDescriptor>, waves: Seq<usize>) -> bool {
    &&& waves.len() == systems.len()
    &&& forall|i: int| 0 <= i < waves.len() ==> #[trigger] waves[i] <= i
    &&& forall|i: int| 0 <= i < waves.len() ==> !wave_taken(systems, waves, i, #[trigger] waves[i])
    &&& forall|i: int, lower: usize|
        0 <= i < waves.len() && lower < waves[i] ==> #[trigger] wave_taken(systems, waves, i, lower)
}

/// Whether `batches` holds the systems of each wave: one batch for each
/// wave, in the order of the waves, with the systems of a wave in ascending
/// order of their ids.
pub open spec fn grouped(batches: Seq<Vec<SystemId>>, waves: Seq<usize>) -> bool {
    &&& batches.len() == wave_count(waves)
    &&& forall|wave: int|
        0 <= wave < batches.len() ==> (#[trigger] batches[wave])@ == wave_members(
            waves,
            wave as usize,
            waves.len() as int,
        )
}

/// Whether one of the batches holds the system.
pub open spec fn runs_in(batches: Seq<Vec<SystemId>>, system: SystemId) -> bool {
    exists|b: int| 0 <= b < batches.len() && (#[trigger] batches[b])@.contains(system)
}

/// Whether every system of the registry has its position as its id.
pub open spec fn ids_in_order(systems: Seq<SystemDescriptor>) -> bool {
    forall|i: int| 0 <= i < systems.len() ==> (#[trigger] systems[i]).id == i
}

/// Whether the edges are exactly the pairs of systems whose access sets
/// conflict, each pair once with its earlier system first and the pairs in
/// ascending order, counting the pairs whose first system is before `rows`,
/// and those of system `rows` with a system before `columns`.
pub open spec fn edges_cover(
    systems: Seq<SystemDescriptor>,
    edges: Seq<GraphEdge>,
    rows: int,
    columns: int,
) -> bool {
    &&& forall|e: int|
        0 <= e < edges.len() ==> {
            let edge = #[trigger] edges[e];
            &&& edge.from.0 < edge.to.0 < systems.len()
            &&& edge.from.0 < rows || (edge.from.0 == rows && edge.to.0 < columns)
            &&& systems[edge.from.0 as int].spec_conflicts(&systems[edge.to.0 as int])
        }
    &&& forall|a: int, b: int|
        0 <= a < b < systems.len() && (a < rows || (a == rows && b < columns))
            && #[trigger] systems[a].spec_conflicts(&systems[b]) ==> adjacent(
            edges,
            SystemId(a as usize),
            SystemId(b as usize),
        )
    &&& forall|e: int, f: int|
        0 <= e < f < edges.len() ==> (#[trigger] edges[e]).from.0 < (#[trigger] edges[f]).from.0 || (
        edges[e].from.0 == edges[f].from.0 && edges[e].to.0 < edges[f].to.0)
}

impl<K: ExecutorKind> Schedule<K> {
    /// The descriptors of the systems, in the order they were added.
    pub closed spec fn systems(&self) -> Seq<SystemDescriptor> {
        self.systems@
    }

    pub open spec fn wf(&self) -> bool {
        ids_in_order(self.systems())
    }

    pub fn new() -> (schedule: Self)
        ensures
            schedule.wf(),
            schedule.systems().len() == 0,
    {
        Schedule { systems: Vec::new(), _marker: PhantomData }
    }

    /// Registers a system that accesses what `deps` says and returns its id:
    /// the number of systems registered before it.
    pub fn add_system(&mut self, deps: Vec<SystemParamDescriptor>) -> (id: SystemId)
        requires
            old(self).wf(),
        ensures
            final(self).wf(),
            id.0 == old(self).systems().len(),
            final(self).systems() == old(self).systems().push(SystemDescriptor { id: id.0, deps }),
    {
        let system_id = self.systems.len();
        self.systems.push(SystemDescriptor { id: system_id, deps });
        SystemId(system_id)
    }

    /// Registers a system that returns a future. To the scheduler it is a
    /// system like any other.
    pub fn add_async_system(&mut self, deps: Vec<SystemParamDescriptor>) -> (id: SystemId)
        requires
            old(self).wf(),
        ensures
            final(self).wf(),
            id.0 == old(self).systems().len(),
            final(self).systems() == old(self).systems().push(SystemDescriptor { id: id.0, deps }),
    {
        self.add_system(deps)
    }

    /// The number of systems registered.
    pub fn len(&self) -> (n: usize)
        ensures
            n == self.systems().len(),
    {
        self.systems.len()
    }

    /// The graph of the schedule: a node for every system, in order, and an
    /// edge for every pair of systems whose access sets conflict.
    pub fn schedule_graph(&self) -> (graph: ScheduleGraph)
        requires
            self.wf(),
        ensures
            graph.nodes().len() == self.systems().len(),
            forall|i: int| 0 <= i < graph.nodes().len() ==> #[trigger] graph.nodes()[i] == SystemId(
                i as usize,
            ),
            edges_cover(self.systems(), graph.edges(), self.systems().len() as int, 0),
    {
        let n = self.systems.len();
        let mut graph = ScheduleGraph::new();
        let mut i: usize = 0;
        while i < n
            invariant
                i <= n,
                n == self.systems().len(),
                graph.nodes().len() == i,
                graph.edges().len() == 0,
                forall|k: int| 0 <= k < i ==> #[trigger] graph.nodes()[k] == SystemId(k as usize),
            decreases n - i,
        {
            graph.add_node(SystemId(i));
            i = i + 1;
        }
        let mut a: usize = 0;
        while a < n
            invariant
                a <= n,
                n == self.systems().len(),
                graph.nodes().len() == n,
                forall|k: int| 0 <= k < n ==> #[trigger] graph.nodes()[k] == SystemId(k as usize),
                edges_cover(self.systems(), graph.edges(), a as int, 0),
            decreases n - a,
        {
            let mut b: usize = a + 1;
            proof {
                assert(edges_cover(self.systems(), graph.edges(), a as int, a + 1));
            }
            while b < n
                invariant
                    a < n,
                    a < b <= n,
                    n == self.systems().len(),
                    graph.nodes().len() == n,
                    forall|k: int|
                        0 <= k < n ==> #[trigger] graph.nodes()[k] == SystemId(k as usize),
                    edges_cover(self.systems(), graph.edges(), a as int, b as int),
                decreases n - b,
            {
                let ghost before = graph.edges();
                if self.systems[a].conflicts(&self.systems[b]) {
                    graph.add_edge(GraphEdge { from: SystemId(a), to: SystemId(b) });
                    proof {
                        lemma_edges_grow(self.systems(), before, graph.edges(), a as int, b as int);
                    }
                }
                proof {
                    lemma_edges_next(self.systems(), before, graph.edges(), a as int, b as int);
                }
                b = b + 1;
            }
            proof {
                assert(edges_cover(self.systems(), graph.edges(), a + 1, 0));
            }
            a = a + 1;
        }
        graph
    }

    /// The systems of each wave: the batches run one after another, and the
    /// systems of one batch run at the same time. Every system is in one
    /// batch, and no two systems of one batch have access sets that
    /// conflict.
    pub fn batches(&self) -> (batches: Vec<Vec<SystemId>>)
        requires
            self.wf(),
        ensures
            exists|waves: Seq<usize>|
                greedy_waves(self.systems(), waves) && #[trigger] grouped(batches@, waves),
            forall|b: int, i: int|
                0 <= b < batches.len() && 0 <= i < batches[b].len() ==> (#[trigger] batches[b][i]).0
                    < self.systems().len(),
            forall|b: int, i: int, j: int|
                0 <= b < batches.len() && 0 <= i < j < batches[b].len() ==> !self.systems()[(
                #[trigger] batches[b][i]).0 as int].spec_conflicts(
                    &self.systems()[(#[trigger] batches[b][j]).0 as int],
                ),
            forall|id: usize|
                id < self.systems().len() ==> #[trigger] runs_in(batches@, SystemId(id)),
    {
        let waves = self.waves();
        let batches = group_by_wave(&waves);
        proof {
            let systems = self.systems();
            assert(grouped(batches@, waves@));
            assert forall|b: int, i: int|
                0 <= b < batches.len() && 0 <= i < batches[b].len() implies (
            #[trigger] batches[b][i]).0 < systems.len() by {
                lemma_wave_members(waves@, b as usize, waves.len() as int);
            }
            assert forall|b: int, i: int, j: int|
                0 <= b < batches.len() && 0 <= i < j < batches[b].len() implies !systems[(
            #[trigger] batches[b][i]).0 as int].spec_conflicts(
                &systems[(#[trigger] batches[b][j]).0 as int],
            ) by {
                lemma_wave_members(waves@, b as usize, waves.len() as int);
                let x = batches[b][i].0 as int;
                let y = batches[b][j].0 as int;
                assert(x != y);
                assert(waves[x] == waves[y]);
            }
            assert forall|id: usize| id < systems.len() implies #[trigger] runs_in(
                batches@,
                SystemId(id),
            ) by {
                lemma_wave_count(waves@, id as int);
                let b = waves[id as int] as int;
                lemma_wave_members(waves@, b as usize, waves.len() as int);
                assert(batches[b]@.contains(SystemId(id)));
            }
        }
        batches
    }

    /// The wave in which each system runs: waves run one after another, and
    /// the systems of one wave run at the same time. No two systems of one
    /// wave have access sets that conflict.
    pub fn waves(&self) -> (waves: Vec<usize>)
        requires
            self.wf(),
        ensures
            waves.len() == self.systems().len(),
            forall|i: int, j: int|
                0 <= i < waves.len() && 0 <= j < waves.len() && i != j
                    && #[trigger] self.systems()[i].spec_conflicts(&self.systems()[j])
                    ==> waves[i] != waves[j],
            greedy_waves(self.systems(), waves@),
    {
        let graph = self.schedule_graph();
        let ghost nodes = graph.nodes();
        let ghost edges = graph.edges();
        let waves = graph.optimize();
        proof {
            let systems = self.systems();
            assert forall|i: int, j: int|
                0 <= i < waves.len() && 0 <= j < waves.len() && i != j
                    && #[trigger] systems[i].spec_conflicts(&systems[j]) implies waves[i]
                != waves[j] by {
                lemma_conflict_symmetric(systems[i].spec_accesses(), systems[j].spec_accesses());
                if i < j {
                    assert(adjacent(edges, SystemId(i as usize), SystemId(j as usize)));
                    assert(adjacent(edges, nodes[i], nodes[j]));
                } else {
                    assert(systems[j].spec_conflicts(&systems[i]));
                    assert(adjacent(edges, SystemId(j as usize), SystemId(i as usize)));
                    assert(adjacent(edges, nodes[j], nodes[i]));
                    let e = choose|e: int|
                        0 <= e < edges.len() && ((#[trigger] edges[e]).from == nodes[j]
                            && edges[e].to == nodes[i] || edges[e].from == nodes[i] && edges[e].to
                            == nodes[j]);
                    assert(adjacent(edges, nodes[i], nodes[j]));
                }
            }
            assert forall|i: int, wave: usize| 0 <= i < waves.len() implies wave_taken(
                systems,
                waves@,
                i,
                wave,
            ) == slot_taken(nodes, edges, waves@, i, wave) by {
                if wave_taken(systems, waves@, i, wave) {
                    let j = choose|j: int|
                        0 <= j < i && systems[i].spec_conflicts(&systems[j])
                            && #[trigger] waves@[j] == wave;
                    lemma_conflict_symmetric(
                        systems[i].spec_accesses(),
                        systems[j].spec_accesses(),
                    );
                    assert(systems[j].spec_conflicts(&systems[i]));
                    assert(adjacent(edges, SystemId(j as usize), SystemId(i as usize)));
                    let e = choose|e: int|
                        0 <= e < edges.len() && ((#[trigger] edges[e]).from == nodes[j]
                            && edges[e].to == nodes[i] || edges[e].from == nodes[i] && edges[e].to
                            == nodes[j]);
                    assert(adjacent(edges, nodes[i], nodes[j]));
                    assert(slot_taken(nodes, edges, waves@, i, wave));
                }
                if slot_taken(nodes, edges, waves@, i, wave) {
                    let j = choose|j: int|
                        0 <= j < i && adjacent(edges, nodes[i], nodes[j])
                            && #[trigger] waves@[j] == wave;
                    let e = choose|e: int|
                        0 <= e < edges.len() && ((#[trigger] edges[e]).from == nodes[i]
                            && edges[e].to == nodes[j] || edges[e].from == nodes[j] && edges[e].to
                            == nodes[i]);
                    assert(edges[e].from.0 < edges[e].to.0);
                    assert(edges[e].from == nodes[j] && edges[e].to == nodes[i]);
                    assert(systems[j].spec_conflicts(&systems[i]));
                    lemma_conflict_symmetric(
                        systems[i].spec_accesses(),
                        systems[j].spec_accesses(),
                    );
                    assert(wave_taken(systems, waves@, i, wave));
                }
            }
            assert forall|i: int| 0 <= i < waves.len() implies #[trigger] waves[i] <= i by {}
            assert forall|i: int| 0 <= i < waves.len() implies !wave_taken(
                systems,
                waves@,
                i,
                #[trigger] waves[i],
            ) by {
                assert(!slot_taken(nodes, edges, waves@, i, waves@[i]));
            }
            assert forall|i: int, lower: usize|
                0 <= i < waves.len() && lower < waves[i] implies #[trigger] wave_taken(
                systems,
                waves@,
                i,
                lower,
            ) by {
                assert(slot_taken(nodes, edges, waves@, i, lower));
            }
        }
        waves
    }
}

/// The number of waves: one more than the highest wave that a system runs
/// in, and none where there is no system.
pub open spec fn wave_count(waves: Seq<usize>) -> nat
    decreases waves.len(),
{
    if waves.len() == 0 {
        0
    } else if wave_count(waves.drop_last()) > waves.last() {
        wave_count(waves.drop_last())
    } else {
        (waves.last() + 1) as nat
    }
}

/// The systems among the first `upto` that run in wave `wave`, in ascending
/// order of their ids.
pub open spec fn wave_members(waves: Seq<usize>, wave: usize, upto: int) -> Seq<SystemId>
    decreases upto,
{
    if upto <= 0 {
        Seq::empty()
    } else if waves[upto - 1] == wave {
        wave_members(waves, wave, upto - 1).push(SystemId((upto - 1) as usize))
    } else {
        wave_members(waves, wave, upto - 1)
    }
}

/// Every wave that a system runs in is below the number of waves.
pub proof fn lemma_wave_count(waves: Seq<usize>, i: int)
    requires
        0 <= i < waves.len(),
    ensures
        waves[i] < wave_count(waves),
    decreases waves.len(),
{
    if i < waves.len() - 1 {
        lemma_wave_count(waves.drop_last(), i);
    }
}

/// Groups the systems by the wave they run in: one batch for each wave, in
/// the order of the waves, with the systems of a wave in ascending order of
/// their ids. No system may run in a wave beyond the number of systems.
pub fn group_by_wave(waves: &Vec<usize>) -> (batches: Vec<Vec<SystemId>>)
    requires
        forall|i: int| 0 <= i < waves.len() ==> #[trigger] waves[i] < waves.len(),
    ensures
        grouped(batches@, waves@),
{
    let n = waves.len();
    let mut count: usize = 0;
    let mut i: usize = 0;
    while i < n
        invariant
            i <= n,
            n == waves.len(),
            forall|k: int| 0 <= k < waves.len() ==> #[trigger] waves[k] < waves.len(),
            count == wave_count(waves@.subrange(0, i as int)),
        decreases n - i,
    {
        proof {
            assert(waves@.subrange(0, i + 1).drop_last() =~= waves@.subrange(0, i as int));
        }
        if waves[i] >= count {
            count = waves[i] + 1;
        }
        i = i + 1;
    }
    proof {
        assert(waves@.subrange(0, n as int) =~= waves@);
    }
    let mut batches: Vec<Vec<SystemId>> = Vec::new();
    let mut wave: usize = 0;
    while wave < count
        invariant
            wave <= count,
            n == waves.len(),
            count == wave_count(waves@),
            batches.len() == wave,
            forall|w: int|
                0 <= w < wave ==> (#[trigger] batches[w])@ == wave_members(
                    waves@,
                    w as usize,
                    n as int,
                ),
        decreases count - wave,
    {
        let mut batch: Vec<SystemId> = Vec::new();
        let mut id: usize = 0;
        while id < n
            invariant
                id <= n,
                n == waves.len(),
                batch@ == wave_members(waves@, wave, id as int),
            decreases n - id,
        {
            if waves[id] == wave {
                batch.push(SystemId(id));
            }
            id = id + 1;
        }
        let ghost before = batches@;
        batches.push(batch);
        proof {
            assert forall|w: int| 0 <= w < wave + 1 implies (#[trigger] batches[w])@
                == wave_members(waves@, w as usize, n as int) by {
                if w < wave {
                    assert(batches[w] == before[w]);
                }
            }
        }
        wave = wave + 1;
    }
    batches
}

/// The members of a wave are the systems that run in it, in ascending order
/// of their ids.
pub proof fn lemma_wave_members(waves: Seq<usize>, wave: usize, upto: int)
    requires
        0 <= upto <= waves.len(),
        upto <= usize::MAX,
    ensures
        forall|k: int|
            0 <= k < wave_members(waves, wave, upto).len() ==> (#[trigger] wave_members(
                waves,
                wave,
                upto,
            )[k]).0 < upto && waves[wave_members(waves, wave, upto)[k].0 as int] == wave,
        forall|k: int, l: int|
            0 <= k < l < wave_members(waves, wave, upto).len() ==> wave_members(
                waves,
                wave,
                upto,
            )[k].0 < wave_members(waves, wave, upto)[l].0,
        forall|id: int|
            0 <= id < upto && waves[id] == wave ==> wave_members(waves, wave, upto).contains(
                SystemId(id as usize),
            ),
    decreases upto,
{
    if upto > 0 {
        lemma_wave_members(waves, wave, upto - 1);
        let rest = wave_members(waves, wave, upto - 1);
        let all = wave_members(waves, wave, upto);
        assert forall|id: int| 0 <= id < upto && waves[id] == wave implies all.contains(
            SystemId(id as usize),
        ) by {
            if id < upto - 1 {
                let k = choose|k: int| 0 <= k < rest.len() && rest[k] == SystemId(id as usize);
                assert(all[k] == SystemId(id as usize));
            } else {
                assert(all[rest.len() as int] == SystemId(id as usize));
            }
        }
    }
}

/// An edge added for the pair `(a, b)` keeps the cover of the pairs before
/// it.
proof fn lemma_edges_grow(
    systems: Seq<SystemDescriptor>,
    before: Seq<GraphEdge>,
    after: Seq<GraphEdge>,
    a: int,
    b: int,
)
    requires
        0 <= a < b < systems.len(),
        b <= usize::MAX,
        edges_cover(systems, before, a, b),
        after == before.push(GraphEdge { from: SystemId(a as usize), to: SystemId(b as usize) }),
        systems[a].spec_conflicts(&systems[b]),
    ensures
        edges_cover(systems, after, a, b + 1),
{
    assert forall|x: int, y: int|
        0 <= x < y < systems.len() && (x < a || (x == a && y < b + 1))
            && #[trigger] systems[x].spec_conflicts(&systems[y]) implies adjacent(
        after,
        SystemId(x as usize),
        SystemId(y as usize),
    ) by {
        if x == a && y == b {
            assert(after[before.len() as int].from == SystemId(x as usize));
        } else {
            assert(adjacent(before, SystemId(x as usize), SystemId(y as usize)));
            let e = choose|e: int|
                0 <= e < before.len() && ((#[trigger] before[e]).from == SystemId(x as usize)
                    && before[e].to == SystemId(y as usize) || before[e].from == SystemId(
                    y as usize,
                ) && before[e].to == SystemId(x as usize));
            assert(after[e] == before[e]);
        }
    }
    assert forall|e: int| 0 <= e < after.len() implies {
        let edge = #[trigger] after[e];
        &&& edge.from.0 < edge.to.0 < systems.len()
        &&& edge.from.0 < a || (edge.from.0 == a && edge.to.0 < b + 1)
        &&& systems[edge.from.0 as int].spec_conflicts(&systems[edge.to.0 as int])
    } by {
        if e < before.len() {
            assert(after[e] == before[e]);
        }
    }
    assert forall|e: int, f: int| 0 <= e < f < after.len() implies (#[trigger] after[e]).from.0 < (
    #[trigger] after[f]).from.0 || (after[e].from.0 == after[f].from.0 && after[e].to.0
        < after[f].to.0) by {
        assert(after[e] == before[e]);
        if f < before.len() {
            assert(after[f] == before[f]);
        }
    }
}

/// Once the pair `(a, b)` is dealt with, the cover reaches one pair
/// further.
proof fn lemma_edges_next(
    systems: Seq<SystemDescriptor>,
    before: Seq<GraphEdge>,
    after: Seq<GraphEdge>,
    a: int,
    b: int,
)
    requires
        0 <= a < b < systems.len(),
        edges_cover(systems, before, a, b),
        systems[a].spec_conflicts(&systems[b]) ==> edges_cover(systems, after, a, b + 1),
        !systems[a].spec_conflicts(&systems[b]) ==> after == before,
    ensures
        edges_cover(systems, after, a, b + 1),
{
}

/// The ids of a set, each once, in an order that is not determined.
fn queued(set: &HashSet<usize>) -> (items: Vec<usize>)
    ensures
        items@.no_duplicates(),
        items@.to_set() == set@,
{
    broadcast use vstd::std_specs::hash::group_hash_axioms;

    let mut items: Vec<usize> = Vec::new();
    let ghost all = set.iter().remaining();
    for id in it: set.iter()
        invariant
            it.seq() == all,
            all.unref().to_set() == set@,
            all.no_duplicates(),
            items.len() == it.index(),
            forall|k: int| 0 <= k < items.len() ==> items@[k] == *all[k],
    {
        items.push(*id);
    }
    assert(items@ =~= all.unref());
    items
}

/// The structural changes asked for during a tick. They are applied once
/// every system of the tick is done.
pub struct Scheduler {
    /// Keeps track of entities that need to be despawned at the end of a tick.
    despawn_queue: DashSet<usize>,
    /// Keeps track of components to remove from entities at the end of a
    /// tick: for each type key, the entities that lose that component.
    remove_queue: SparseSet<HashSet<usize>>,
}

impl Scheduler {
    /// The entities to despawn.
    pub closed spec fn despawned(&self) -> Set<usize> {
        queued_ids(self.despawn_queue)
    }

    /// The components to remove: pairs of a type key and an entity.
    pub closed spec fn removals(&self) -> Set<(usize, usize)> {
        Set::new(
            |p: (usize, usize)|
                self.remove_queue@.contains_key(p.0) && self.remove_queue@[p.0]@.contains(p.1),
        )
    }

    pub closed spec fn wf(&self) -> bool {
        self.remove_queue.wf()
    }

    pub fn new() -> (scheduler: Self)
        ensures
            scheduler.wf(),
            scheduler.despawned() == Set::<usize>::empty(),
            scheduler.removals() == Set::<(usize, usize)>::empty(),
    {
        let scheduler = Scheduler { despawn_queue: ids_new(), remove_queue: SparseSet::new() };
        assert(scheduler.despawned() =~= Set::<usize>::empty());
        assert(scheduler.removals() =~= Set::<(usize, usize)>::empty());
        scheduler
    }

    /// Asks for `entity` to be despawned at the end of the tick.
    pub fn schedule_despawn(&mut self, entity: EntityId)
        requires
            old(self).wf(),
        ensures
            final(self).wf(),
            final(self).despawned() == old(self).despawned().insert(entity.0),
            final(self).removals() == old(self).removals(),
    {
        ids_insert(&mut self.despawn_queue, entity.0);
    }

    /// Asks for the component of type `type_id` to be taken away from
    /// `entity` at the end of the tick.
    pub fn schedule_remove_component(&mut self, entity: EntityId, type_id: TypeKey)
        requires
            old(self).wf(),
        ensures
            final(self).wf(),
            final(self).despawned() == old(self).despawned(),
            final(self).removals() == old(self).removals().insert((type_id.0, entity.0)),
    {
        broadcast use vstd::std_specs::hash::group_hash_axioms;

        match self.remove_queue.slot_of(type_id.0) {
            Some(slot) => {
                let entry = self.remove_queue.value_at_mut(slot);
                entry.insert(entity.0);
            },
            None => {
                let mut entry: HashSet<usize> = HashSet::new();
                entry.insert(entity.0);
                self.remove_queue.insert(type_id.0, entry);
            },
        }
        proof {
            assert(self.removals() =~= old(self).removals().insert((type_id.0, entity.0)));
        }
    }

    /// Runs before the systems of a tick.
    pub fn pre_tick(&self) {
    }

    /// Applies the changes asked for during the tick, once its systems are
    /// done: first the removals of components, then the despawns, which take
    /// every component away from the entity and free its id. The columns
    /// left without values go, and both queues are empty afterwards.
    pub fn post_tick<T>(&mut self, entities: &mut Entities, components: &mut Components<T>)
        requires
            old(self).wf(),
            old(components).wf(),
            old(components).unlocked(),
        ensures
            final(self).wf(),
            final(self).despawned() == Set::<usize>::empty(),
            final(self).removals() == Set::<(usize, usize)>::empty(),
            final(entities)@ == old(entities)@.difference(old(self).despawned()),
            final(components).wf(),
            final(components).unlocked(),
            final(components)@ == Components::<T>::pruned(
                Components::<T>::stripped(
                    old(components)@,
                    old(self).removals(),
                    old(self).despawned(),
                ),
            ),
    {
        self.tick_removal(components);
        self.tick_despawn(entities, components);
        proof {
            Components::<T>::lemma_strip_twice(
                old(components)@,
                old(self).removals(),
                old(self).despawned(),
            );
        }
    }

    /// Takes away every component in the removal queue and empties the
    /// queue.
    fn tick_removal<T>(&mut self, components: &mut Components<T>)
        requires
            old(self).wf(),
            old(components).wf(),
            old(components).unlocked(),
        ensures
            final(self).wf(),
            final(self).despawned() == old(self).despawned(),
            final(self).removals() == Set::<(usize, usize)>::empty(),
            final(components).wf(),
            final(components).locks() == old(components).locks(),
            final(components)@ == Components::<T>::stripped(
                old(components)@,
                old(self).removals(),
                Set::empty(),
            ),
    {
        let ghost first = components@;
        let ghost mut done: Set<(usize, usize)> = Set::empty();
        proof {
            Components::<T>::lemma_strip_nothing(first);
        }
        let n = self.remove_queue.len();
        let mut s: usize = 0;
        while s < n
            invariant
                s <= n,
                *self == *old(self),
                self.wf(),
                n == self.remove_queue.ids().len(),
                components.wf(),
                components.locks() == old(components).locks(),
                old(components).unlocked(),
                components@ == Components::<T>::stripped(first, done, Set::empty()),
                forall|p: (usize, usize)| done.contains(p) ==> self.removals().contains(p),
                forall|p: (usize, usize)|
                    #![trigger done.contains(p)]
                    self.removals().contains(p) && self.remove_queue.slots()[p.0] < s
                        ==> done.contains(p),
            decreases n - s,
        {
            let k = self.remove_queue.id_at(s);
            let items = queued(self.remove_queue.value_at(s));
            let ghost outer = done;
            let mut j: usize = 0;
            while j < items.len()
                invariant
                    j <= items.len(),
                    *self == *old(self),
                    self.wf(),
                    s < self.remove_queue.ids().len(),
                    k == self.remove_queue.ids()[s as int],
                    items@.to_set() == self.remove_queue@[k]@,
                    self.remove_queue@.contains_key(k),
                    components.wf(),
                    components.locks() == old(components).locks(),
                    old(components).unlocked(),
                    components@ == Components::<T>::stripped(first, done, Set::empty()),
                    forall|p: (usize, usize)| done.contains(p) ==> self.removals().contains(p),
                    forall|p: (usize, usize)| outer.contains(p) ==> done.contains(p),
                    forall|t: int| 0 <= t < j ==> done.contains((k, #[trigger] items@[t])),
                decreases items.len() - j,
            {
                let e = items[j];
                proof {
                    components.lemma_unlocked_allows(EntityId(e));
                    Components::<T>::lemma_strip_pair(
                        first,
                        done,
                        Set::empty(),
                        TypeKey(k),
                        EntityId(e),
                    );
                    assert(items@.to_set().contains(items@[j as int]));
                }
                let ghost before = components@;
                let res = components.remove(TypeKey(k), EntityId(e));
                proof {
                    assert(res is Ok);
                    assert(before.contains_key(k) == first.contains_key(k));
                    done = done.insert((k, e));
                }
                j = j + 1;
            }
            proof {
                assert forall|p: (usize, usize)|
                    #![trigger done.contains(p)]
                    self.removals().contains(p) && self.remove_queue.slots()[p.0] < s
                        + 1 implies done.contains(p) by {
                    if self.remove_queue.slots()[p.0] == s {
                        assert(self.remove_queue.slots().contains_key(p.0));
                        assert(p.0 == k);
                        assert(items@.to_set().contains(p.1));
                        let t = choose|t: int| 0 <= t < items@.len() && items@[t] == p.1;
                        assert(done.contains((k, items@[t])));
                    }
                }
            }
            s = s + 1;
        }
        proof {
            assert(done =~= self.removals()) by {
                assert forall|p: (usize, usize)| self.removals().contains(p) implies done.contains(
                    p,
                ) by {
                    assert(self.remove_queue.slots().contains_key(p.0));
                }
            }
        }
        self.remove_queue = SparseSet::new();
        proof {
            assert(self.removals() =~= Set::<(usize, usize)>::empty());
        }
    }

    /// Takes every component away from the entities in the despawn queue,
    /// drops the columns left without values, frees the ids, and empties the
    /// queue.
    fn tick_despawn<T>(&mut self, entities: &mut Entities, components: &mut Components<T>)
        requires
            old(self).wf(),
            old(components).wf(),
            old(components).unlocked(),
        ensures
            final(self).wf(),
            final(self).despawned() == Set::<usize>::empty(),
            final(self).removals() == old(self).removals(),
            final(entities)@ == old(entities)@.difference(old(self).despawned()),
            final(components).wf(),
            final(components).unlocked(),
            final(components)@ == Components::<T>::pruned(
                Components::<T>::stripped(old(components)@, Set::empty(), old(self).despawned()),
            ),
    {
        let ghost first = components@;
        let ghost mut gone: Set<usize> = Set::empty();
        proof {
            Components::<T>::lemma_strip_nothing(first);
        }
        let items = ids_items(&self.despawn_queue);
        let mut ids: Vec<EntityId> = Vec::new();
        let mut j: usize = 0;
        while j < items.len()
            invariant
                j <= items.len(),
                ids.len() == j,
                forall|t: int| 0 <= t < j ==> #[trigger] ids@[t] == EntityId(items@[t]),
                components.wf(),
                components.locks() == old(components).locks(),
                old(components).unlocked(),
                components@ == Components::<T>::stripped(first, Set::empty(), gone),
                forall|e: usize| gone.contains(e) <==> exists|t: int|
                    0 <= t < j && #[trigger] items@[t] == e,
            decreases items.len() - j,
        {
            let e = items[j];
            proof {
                components.lemma_unlocked_allows(EntityId(e));
                Components::<T>::lemma_strip_entity(first, Set::empty(), gone, EntityId(e));
            }
            components.remove_entity(EntityId(e));
            ids.push(EntityId(e));
            proof {
                let ghost before = gone;
                gone = gone.insert(e);
                assert forall|x: usize| gone.contains(x) <==> exists|t: int|
                    0 <= t < j + 1 && #[trigger] items@[t] == x by {
                    if before.contains(x) {
                        let t = choose|t: int| 0 <= t < j && #[trigger] items@[t] == x;
                        assert(0 <= t < j + 1 && items@[t] == x);
                    }
                    if x == e {
                        assert(items@[j as int] == x);
                    }
                }
            }
            j = j + 1;
        }
        proof {
            assert(gone =~= self.despawned()) by {
                assert forall|x: usize| gone.contains(x) <==> items@.to_set().contains(x) by {
                    if items@.to_set().contains(x) {
                        let t = choose|t: int| 0 <= t < items@.len() && items@[t] == x;
                        assert(0 <= t < j && items@[t] == x);
                    }
                }
            }
        }
        components.prune();
        entities.free_many(&ids);
        proof {
            assert(Set::new(|id: usize| ids@.contains(EntityId(id))) =~= self.despawned()) by {
                assert forall|x: usize| ids@.contains(EntityId(x)) <==> self.despawned().contains(
                    x,
                ) by {
                    if ids@.contains(EntityId(x)) {
                        let t = choose|t: int| 0 <= t < ids@.len() && ids@[t] == EntityId(x);
                        assert(items@[t] == x);
                        assert(items@.to_set().contains(items@[t]));
                    }
                    if self.despawned().contains(x) {
                        assert(items@.to_set().contains(x));
                        let t = choose|t: int| 0 <= t < items@.len() && items@[t] == x;
                        assert(ids@[t] == EntityId(x));
                    }
                }
            }
            assert forall|k: usize| (#[trigger] components.locks().contains_key(k))
                implies components.locks()[k] == 0 by {
                assert(old(components).locks().contains_key(k));
            }
        }
        ids_clear(&mut self.despawn_queue);
        proof {
            assert(self.despawned() =~= Set::<usize>::empty());
        }
    }
}

impl Default for Scheduler {
    /// A scheduler with nothing queued.
    fn default() -> (scheduler: Self)
        ensures
            scheduler.wf(),
            scheduler.despawned() == Set::<usize>::empty(),
            scheduler.removals() == Set::<(usize, usize)>::empty(),
    {
        Scheduler::new()
    }
}

} // verus!
