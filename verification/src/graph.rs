//! Materialized reachable graphs and the index-level algorithms on them:
//! induced subgraphs and breadth-first shortest paths.
use crate::checker::{
    capture_closed, captured_state, search_result_wf, search_with_probes, ExplorationLimits,
    GraphSearchOutcome, InconclusiveReason, TraceStep,
};
use crate::model::{ModelError, Transition, TransitionSystem};
use crate::state::{views_of, StateValue};
use vstd::prelude::*;

verus! {

/// One captured edge: the action label and the dense id of its target.
#[derive(Debug, Clone, PartialEq, Eq)]
pub struct SnapshotEdge {
    pub action: String,
    pub target: usize,
}

impl SnapshotEdge {
    pub fn copy(&self) -> (e: Self)
        ensures
            e == *self,
    {
        SnapshotEdge { action: self.action.clone(), target: self.target }
    }
}

/// A dense, index-addressed graph: `states[i]` has outgoing edges
/// `outgoing[i]`, and `initial_ids` lists the roots.
#[derive(Debug, Clone)]
pub struct ReachableGraph<S> {
    pub states: Vec<S>,
    pub outgoing: Vec<Vec<SnapshotEdge>>,
    pub initial_ids: Vec<usize>,
}

impl<S> ReachableGraph<S> {
    /// Every edge target and every root is a valid state id.
    pub open spec fn wf(&self) -> bool {
        &&& self.outgoing.len() == self.states.len()
        &&& forall|i: int, k: int|
            0 <= i < self.outgoing.len() && 0 <= k < self.outgoing@[i].len() ==> (
            #[trigger] self.outgoing@[i]@[k]).target < self.states.len()
        &&& forall|i: int|
            0 <= i < self.initial_ids.len() ==> #[trigger] self.initial_ids@[i] < self.states.len()
    }

    /// There is an edge `from --action--> to`.
    pub open spec fn edge(&self, from: int, action: Seq<char>, to: int) -> bool {
        exists|k: int|
            0 <= k < self.outgoing@[from].len() && (#[trigger] self.outgoing@[from]@[k]).action@
                == action && self.outgoing@[from]@[k].target == to
    }

    /// There is some edge from `from` to `to`.
    pub open spec fn step(&self, from: int, to: int) -> bool {
        exists|k: int|
            0 <= k < self.outgoing@[from].len() && (#[trigger] self.outgoing@[from]@[k]).target
                == to
    }
}

/// `path` is a walk of `graph` whose nodes all satisfy `allowed`.
pub open spec fn is_walk<S>(graph: ReachableGraph<S>, path: Seq<int>, allowed: Seq<bool>) -> bool {
    &&& path.len() > 0
    &&& forall|i: int|
        0 <= i < path.len() ==> 0 <= #[trigger] path[i] < graph.states.len() && allowed[path[i]]
    &&& forall|i: int| 0 <= i < path.len() - 1 ==> graph.step(#[trigger] path[i], path[i + 1])
}

/// Every node is allowed.
pub open spec fn everything(n: nat) -> Seq<bool> {
    Seq::new(n, |i: int| true)
}

/// `trace` spells the walk `path` of `graph`: each step holds the state of
/// the matching node, the first step has no action, and each later step
/// carries the label of an edge between consecutive nodes.
pub open spec fn trace_spells<S: View>(
    graph: ReachableGraph<S>,
    trace: Seq<TraceStep<S>>,
    path: Seq<int>,
) -> bool {
    &&& trace.len() == path.len()
    &&& trace.len() > 0 ==> trace[0].action is None
    &&& forall|i: int|
        0 <= i < trace.len() ==> (#[trigger] trace[i]).state@ == graph.states@[path[i]]@
    &&& forall|i: int|
        0 < i < trace.len() ==> (#[trigger] trace[i]).action is Some && graph.edge(
            path[i - 1],
            trace[i].action->0@,
            path[i],
        )
}

/// Number of included nodes before `t`: the new id of an included node.
pub open spec fn rank(included: Seq<bool>, t: int) -> int
    decreases t,
{
    if t <= 0 {
        0
    } else {
        rank(included, t - 1) + if included[t - 1] {
            1int
        } else {
            0
        }
    }
}

/// The included node ids, in increasing order.
pub open spec fn selected(included: Seq<bool>) -> Seq<int>
    decreases included.len(),
{
    if included.len() == 0 {
        Seq::empty()
    } else if included.last() {
        selected(included.drop_last()).push(included.len() - 1)
    } else {
        selected(included.drop_last())
    }
}

/// The edges of `edges` whose targets are included, renumbered by rank.
pub open spec fn kept_edges(edges: Seq<SnapshotEdge>, included: Seq<bool>) -> Seq<SnapshotEdge>
    decreases edges.len(),
{
    if edges.len() == 0 {
        Seq::empty()
    } else {
        let rest = kept_edges(edges.drop_last(), included);
        let e = edges.last();
        if included[e.target as int] {
            rest.push(SnapshotEdge { action: e.action, target: rank(included, e.target as int) as usize })
        } else {
            rest
        }
    }
}

/// The included roots, renumbered by rank.
pub open spec fn kept_roots(roots: Seq<usize>, included: Seq<bool>) -> Seq<usize>
    decreases roots.len(),
{
    if roots.len() == 0 {
        Seq::empty()
    } else {
        let rest = kept_roots(roots.drop_last(), included);
        if included[roots.last() as int] {
            rest.push(rank(included, roots.last() as int) as usize)
        } else {
            rest
        }
    }
}

pub proof fn lemma_rank_bounds(included: Seq<bool>, t: int)
    requires
        0 <= t <= included.len(),
    ensures
        0 <= rank(included, t) <= t,
        rank(included, t) <= selected(included).len(),
        t == included.len() ==> rank(included, t) == selected(included).len(),
    decreases included.len(),
{
    lemma_rank_prefix(included, t);
    if included.len() > 0 {
        if t < included.len() {
            lemma_rank_bounds(included.drop_last(), t);
            lemma_rank_same_prefix(included, included.drop_last(), t);
        } else {
            lemma_rank_bounds(included.drop_last(), t - 1);
            lemma_rank_same_prefix(included, included.drop_last(), t - 1);
        }
    }
}

proof fn lemma_rank_prefix(included: Seq<bool>, t: int)
    requires
        0 <= t,
    ensures
        0 <= rank(included, t) <= t,
    decreases t,
{
    if t > 0 {
        lemma_rank_prefix(included, t - 1);
    }
}

proof fn lemma_rank_same_prefix(a: Seq<bool>, b: Seq<bool>, t: int)
    requires
        0 <= t <= a.len(),
        t <= b.len(),
        forall|i: int| 0 <= i < t ==> a[i] == b[i],
    ensures
        rank(a, t) == rank(b, t),
    decreases t,
{
    if t > 0 {
        lemma_rank_same_prefix(a, b, t - 1);
    }
}

/// Ranks of included nodes are strictly increasing and below the count.
pub proof fn lemma_rank_included(included: Seq<bool>, t: int)
    requires
        0 <= t < included.len(),
        included[t],
    ensures
        0 <= rank(included, t) < selected(included).len(),
        selected(included)[rank(included, t)] == t,
    decreases included.len(),
{
    let d = included.drop_last();
    if t < included.len() - 1 {
        lemma_rank_included(d, t);
        lemma_rank_same_prefix(included, d, t);
    } else {
        lemma_rank_bounds(d, d.len() as int);
        lemma_rank_same_prefix(included, d, t);
    }
}

pub proof fn lemma_selected_bounds(included: Seq<bool>)
    ensures
        forall|i: int|
            0 <= i < selected(included).len() ==> 0 <= #[trigger] selected(included)[i] < included.len()
                && included[selected(included)[i]],
        forall|i: int, j: int|
            0 <= i < j < selected(included).len() ==> #[trigger] selected(included)[i] < #[trigger] selected(
                included,
            )[j],
    decreases included.len(),
{
    if included.len() > 0 {
        let d = included.drop_last();
        lemma_selected_bounds(d);
        assert(forall|i: int| 0 <= i < d.len() ==> d[i] == included[i]);
        let sd = selected(d);
        let s = selected(included);
        if included.last() {
            assert(s == sd.push(included.len() - 1));
            assert(forall|i: int| 0 <= i < sd.len() ==> s[i] == sd[i]);
        } else {
            assert(s == sd);
        }
    }
}

/// An edge kept by the induced graph comes from an edge of the original
/// list with the same label whose target is included and ranks to it.
pub proof fn lemma_kept_edge_source(edges: Seq<SnapshotEdge>, included: Seq<bool>, k: int)
    requires
        0 <= k < kept_edges(edges, included).len(),
        forall|j: int| 0 <= j < edges.len() ==> (#[trigger] edges[j]).target < included.len(),
    ensures
        exists|j: int|
            0 <= j < edges.len() && included[(#[trigger] edges[j]).target as int] && edges[j].action
                == kept_edges(edges, included)[k].action && rank(included, edges[j].target as int)
                == kept_edges(edges, included)[k].target,
    decreases edges.len(),
{
    let d = edges.drop_last();
    let rest = kept_edges(d, included);
    assert forall|j: int| 0 <= j < d.len() implies (#[trigger] d[j]).target < included.len() by {
        assert(d[j] == edges[j]);
    }
    if k < rest.len() {
        lemma_kept_edge_source(d, included, k);
        let j = choose|j: int|
            0 <= j < d.len() && included[(#[trigger] d[j]).target as int] && d[j].action == rest[k].action
                && rank(included, d[j].target as int) == rest[k].target;
        assert(d[j] == edges[j]);
    } else {
        let j = edges.len() - 1;
        let e = edges[j];
        assert(e == edges.last());
        lemma_rank_bounds(included, e.target as int);
        assert(included[e.target as int]);
    }
}

/// A root kept by the induced graph is the rank of an included original
/// root.
pub proof fn lemma_kept_root_source(roots: Seq<usize>, included: Seq<bool>, k: int)
    requires
        0 <= k < kept_roots(roots, included).len(),
        forall|j: int| 0 <= j < roots.len() ==> (#[trigger] roots[j]) < included.len(),
    ensures
        exists|j: int|
            0 <= j < roots.len() && included[(#[trigger] roots[j]) as int] && rank(included, roots[j] as int)
                == kept_roots(roots, included)[k],
    decreases roots.len(),
{
    let d = roots.drop_last();
    let rest = kept_roots(d, included);
    assert forall|j: int| 0 <= j < d.len() implies (#[trigger] d[j]) < included.len() by {
        assert(d[j] == roots[j]);
    }
    if k < rest.len() {
        lemma_kept_root_source(d, included, k);
        let j = choose|j: int|
            0 <= j < d.len() && included[(#[trigger] d[j]) as int] && rank(included, d[j] as int) == rest[k];
        assert(d[j] == roots[j]);
    } else {
        let j = roots.len() - 1;
        assert(roots[j] == roots.last());
        lemma_rank_bounds(included, roots[j] as int);
    }
}

/// A walk of the induced graph, mapped through `selected`, is a walk of the
/// original graph through included nodes, spelling the same trace.
pub proof fn lemma_induced_walk<S: View>(
    graph: ReachableGraph<S>,
    included: Seq<bool>,
    r: ReachableGraph<S>,
    mask: Seq<bool>,
    p: Seq<int>,
    trace: Seq<TraceStep<S>>,
)
    requires
        graph.wf(),
        r.wf(),
        included.len() == graph.states.len(),
        r.states.len() == selected(included).len(),
        forall|j: int| 0 <= j < r.states.len() ==> (#[trigger] r.states@[j])@ == graph.states@[selected(included)[j]]@,
        forall|j: int|
            0 <= j < r.outgoing.len() ==> (#[trigger] r.outgoing@[j])@ == kept_edges(
                graph.outgoing@[selected(included)[j]]@,
                included,
            ),
        is_walk(r, p, mask),
        trace_spells(r, trace, p),
    ensures
        is_walk(graph, p.map_values(|v: int| selected(included)[v]), included),
        trace_spells(graph, trace, p.map_values(|v: int| selected(included)[v])),
{
    let q = p.map_values(|v: int| selected(included)[v]);
    lemma_selected_bounds(included);
    assert forall|i: int| 0 <= i < q.len() implies 0 <= #[trigger] q[i] < graph.states.len() && included[q[i]] by {
        assert(0 <= p[i] < r.states.len());
    }
    assert forall|i: int| 0 <= i < q.len() - 1 implies graph.step(#[trigger] q[i], q[i + 1]) by {
        assert(r.step(p[i], p[i + 1]));
        let u = p[i];
        let k = choose|k: int| 0 <= k < r.outgoing@[u].len() && (#[trigger] r.outgoing@[u]@[k]).target == p[i + 1];
        let edges = graph.outgoing@[selected(included)[u]]@;
        lemma_kept_edge_source(edges, included, k);
        let j = choose|j: int|
            0 <= j < edges.len() && included[(#[trigger] edges[j]).target as int] && edges[j].action
                == kept_edges(edges, included)[k].action && rank(included, edges[j].target as int)
                == kept_edges(edges, included)[k].target;
        lemma_rank_included(included, edges[j].target as int);
        assert(graph.outgoing@[q[i]]@[j].target == q[i + 1]);
    }
    assert forall|i: int| 0 <= i < trace.len() implies (#[trigger] trace[i]).state@ == graph.states@[q[i]]@ by {
        assert(0 <= p[i] < r.states.len());
    }
    assert forall|i: int| 0 < i < trace.len() implies (#[trigger] trace[i]).action is Some && graph.edge(
        q[i - 1],
        trace[i].action->0@,
        q[i],
    ) by {
        assert(r.edge(p[i - 1], trace[i].action->0@, p[i]));
        let u = p[i - 1];
        let k = choose|k: int|
            0 <= k < r.outgoing@[u].len() && (#[trigger] r.outgoing@[u]@[k]).action@ == trace[i].action->0@
                && r.outgoing@[u]@[k].target == p[i];
        let edges = graph.outgoing@[selected(included)[u]]@;
        lemma_kept_edge_source(edges, included, k);
        let j = choose|j: int|
            0 <= j < edges.len() && included[(#[trigger] edges[j]).target as int] && edges[j].action
                == kept_edges(edges, included)[k].action && rank(included, edges[j].target as int)
                == kept_edges(edges, included)[k].target;
        lemma_rank_included(included, edges[j].target as int);
        assert(graph.outgoing@[q[i - 1]]@[j].target == q[i]);
    }
}

/// The induced subgraph on the included nodes, preserving discovery order
/// for states and roots; edges between included nodes are kept in order.
pub fn induced_graph<S: StateValue>(graph: &ReachableGraph<S>, included: &[bool]) -> (r:
    ReachableGraph<S>)
    requires
        graph.wf(),
        included@.len() == graph.states.len(),
    ensures
        r.wf(),
        r.states.len() == selected(included@).len(),
        forall|j: int|
            0 <= j < r.states.len() ==> (#[trigger] r.states@[j])@ == graph.states@[selected(
                included@,
            )[j]]@,
        forall|j: int|
            0 <= j < r.outgoing.len() ==> (#[trigger] r.outgoing@[j])@ == kept_edges(
                graph.outgoing@[selected(included@)[j]]@,
                included@,
            ),
        r.initial_ids@ == kept_roots(graph.initial_ids@, included@),
{
    let n = graph.states.len();
    let mut old_to_new: Vec<usize> = Vec::new();
    let mut states: Vec<S> = Vec::new();
    let mut sources: Vec<usize> = Vec::new();
    let mut old_id: usize = 0;
    while old_id < n
        invariant
            n == graph.states.len(),
            included@.len() == n,
            old_id <= n,
            old_to_new.len() == old_id,
            states.len() == sources.len(),
            sources@.len() == rank(included@, old_id as int),
            forall|i: int| 0 <= i < old_id ==> #[trigger] old_to_new@[i] == rank(included@, i),
            forall|j: int| 0 <= j < sources.len() ==> #[trigger] sources@[j] == selected(
                included@.subrange(0, old_id as int),
            )[j],
            forall|j: int| 0 <= j < sources.len() ==> #[trigger] sources@[j] < old_id,
            forall|j: int|
                0 <= j < states.len() ==> (#[trigger] states@[j])@ == graph.states@[sources@[j] as int]@,
            sources@.len() == selected(included@.subrange(0, old_id as int)).len(),
        decreases n - old_id,
    {
        let prefix = Ghost(included@.subrange(0, old_id + 1));
        assert(prefix@.drop_last() =~= included@.subrange(0, old_id as int));
        old_to_new.push(states.len());
        if included[old_id] {
            states.push(graph.states[old_id].copy_value());
            sources.push(old_id);
        }
        proof {
            assert(prefix@.last() == included@[old_id as int]);
        }
        old_id += 1;
    }
    assert(included@.subrange(0, n as int) =~= included@);
    proof {
        lemma_rank_bounds(included@, n as int);
    }
    let mut outgoing: Vec<Vec<SnapshotEdge>> = Vec::new();
    let mut j: usize = 0;
    while j < sources.len()
        invariant
            graph.wf(),
            n == graph.states.len(),
            included@.len() == n,
            old_to_new.len() == n,
            forall|i: int| 0 <= i < n ==> #[trigger] old_to_new@[i] == rank(included@, i),
            forall|i: int| 0 <= i < sources.len() ==> #[trigger] sources@[i] == selected(included@)[i],
            forall|i: int| 0 <= i < sources.len() ==> #[trigger] sources@[i] < n,
            sources.len() == selected(included@).len(),
            j <= sources.len(),
            outgoing.len() == j,
            forall|i: int|
                0 <= i < j ==> (#[trigger] outgoing@[i])@ == kept_edges(
                    graph.outgoing@[selected(included@)[i]]@,
                    included@,
                ),
        decreases sources.len() - j,
    {
        let src = sources[j];
        let edges = &graph.outgoing[src];
        let mut kept: Vec<SnapshotEdge> = Vec::new();
        let mut k: usize = 0;
        while k < edges.len()
            invariant
                graph.wf(),
                src < n,
                n == graph.states.len(),
                included@.len() == n,
                old_to_new.len() == n,
                forall|i: int| 0 <= i < n ==> #[trigger] old_to_new@[i] == rank(included@, i),
                edges@ == graph.outgoing@[src as int]@,
                k <= edges.len(),
                kept@ == kept_edges(edges@.subrange(0, k as int), included@),
            decreases edges.len() - k,
        {
            let e = &edges[k];
            assert(e.target < n);
            assert(edges@.subrange(0, k + 1).drop_last() =~= edges@.subrange(0, k as int));
            if included[e.target] {
                kept.push(SnapshotEdge { action: e.action.clone(), target: old_to_new[e.target] });
            }
            k += 1;
        }
        assert(edges@.subrange(0, edges.len() as int) =~= edges@);
        outgoing.push(kept);
        j += 1;
    }
    let mut initial_ids: Vec<usize> = Vec::new();
    let mut r: usize = 0;
    while r < graph.initial_ids.len()
        invariant
            graph.wf(),
            n == graph.states.len(),
            included@.len() == n,
            old_to_new.len() == n,
            forall|i: int| 0 <= i < n ==> #[trigger] old_to_new@[i] == rank(included@, i),
            r <= graph.initial_ids.len(),
            initial_ids@ == kept_roots(graph.initial_ids@.subrange(0, r as int), included@),
        decreases graph.initial_ids.len() - r,
    {
        let old = graph.initial_ids[r];
        assert(old < n);
        assert(graph.initial_ids@.subrange(0, r + 1).drop_last() =~= graph.initial_ids@.subrange(
            0,
            r as int,
        ));
        if included[old] {
            initial_ids.push(old_to_new[old]);
        }
        r += 1;
    }
    assert(graph.initial_ids@.subrange(0, r as int) =~= graph.initial_ids@);
    let res = ReachableGraph { states, outgoing, initial_ids };
    proof {
        lemma_selected_bounds(included@);
        lemma_kept_wf(graph, included@, res);
    }
    res
}

proof fn lemma_kept_edges_targets(edges: Seq<SnapshotEdge>, included: Seq<bool>, n: int)
    requires
        n == included.len(),
        forall|k: int| 0 <= k < edges.len() ==> (#[trigger] edges[k]).target < n,
    ensures
        forall|k: int|
            0 <= k < kept_edges(edges, included).len() ==> (#[trigger] kept_edges(
                edges,
                included,
            )[k]).target < selected(included).len(),
    decreases edges.len(),
{
    if edges.len() > 0 {
        assert(forall|k: int| 0 <= k < edges.len() - 1 ==> edges.drop_last()[k] == edges[k]);
        lemma_kept_edges_targets(edges.drop_last(), included, n);
        let e = edges.last();
        let rest = kept_edges(edges.drop_last(), included);
        if included[e.target as int] {
            lemma_rank_included(included, e.target as int);
            assert(forall|k: int| 0 <= k < rest.len() ==> kept_edges(edges, included)[k] == rest[k]);
        }
    }
}

proof fn lemma_kept_roots_targets(roots: Seq<usize>, included: Seq<bool>, n: int)
    requires
        n == included.len(),
        forall|k: int| 0 <= k < roots.len() ==> #[trigger] roots[k] < n,
    ensures
        forall|k: int|
            0 <= k < kept_roots(roots, included).len() ==> #[trigger] kept_roots(roots, included)[k]
                < selected(included).len(),
    decreases roots.len(),
{
    if roots.len() > 0 {
        assert(forall|k: int| 0 <= k < roots.len() - 1 ==> roots.drop_last()[k] == roots[k]);
        lemma_kept_roots_targets(roots.drop_last(), included, n);
        let rest = kept_roots(roots.drop_last(), included);
        if included[roots.last() as int] {
            lemma_rank_included(included, roots.last() as int);
            assert(forall|k: int| 0 <= k < rest.len() ==> kept_roots(roots, included)[k] == rest[k]);
        }
    }
}

proof fn lemma_kept_wf<S>(graph: &ReachableGraph<S>, included: Seq<bool>, res: ReachableGraph<S>)
    requires
        graph.wf(),
        included.len() == graph.states.len(),
        res.states.len() == selected(included).len(),
        res.outgoing.len() == res.states.len(),
        forall|i: int| 0 <= i < selected(included).len() ==> 0 <= #[trigger] selected(included)[i] < graph.states.len(),
        forall|j: int|
            0 <= j < res.outgoing.len() ==> (#[trigger] res.outgoing@[j])@ == kept_edges(
                graph.outgoing@[selected(included)[j]]@,
                included,
            ),
        res.initial_ids@ == kept_roots(graph.initial_ids@, included),
    ensures
        res.wf(),
{
    assert forall|i: int, k: int|
        0 <= i < res.outgoing.len() && 0 <= k < res.outgoing@[i].len() implies (
        #[trigger] res.outgoing@[i]@[k]).target < res.states.len() by {
        let src = selected(included)[i];
        lemma_kept_edges_targets(graph.outgoing@[src]@, included, included.len() as int);
    }
    lemma_kept_roots_targets(graph.initial_ids@, included, included.len() as int);
}

/// The mask that `allowed` denotes: every node when absent.
pub open spec fn mask_of(allowed: Option<&[bool]>, n: nat) -> Seq<bool> {
    match allowed {
        Some(m) => m@,
        None => everything(n),
    }
}

/// `goal` is reachable from one of `starts` through allowed nodes.
pub open spec fn reachable_from<S>(
    graph: ReachableGraph<S>,
    starts: Seq<usize>,
    goal: int,
    mask: Seq<bool>,
) -> bool {
    exists|p: Seq<int>|
        #[trigger] is_walk(graph, p, mask) && starts.contains(p[0] as usize) && p.last() == goal
}

/// Every node of a walk from a start is itself reachable from that start
/// through the same mask.
pub proof fn lemma_walk_prefix_reachable<S>(graph: ReachableGraph<S>, starts: Seq<usize>, p: Seq<int>, mask: Seq<bool>, j: int)
    requires
        is_walk(graph, p, mask),
        starts.contains(p[0] as usize),
        0 <= j < p.len(),
    ensures
        reachable_from(graph, starts, p[j], mask),
{
    let q = p.subrange(0, j + 1);
    assert(q[0] == p[0]);
    assert forall|i: int| 0 <= i < q.len() - 1 implies graph.step(#[trigger] q[i], q[i + 1]) by {
        assert(q[i] == p[i] && q[i + 1] == p[i + 1]);
    }
    assert(is_walk(graph, q, mask));
    assert(q.last() == p[j]);
}

/// A kept edge stands for every edge of `edges` into an included node.
pub proof fn lemma_kept_edge_present(edges: Seq<SnapshotEdge>, included: Seq<bool>, k: int)
    requires
        0 <= k < edges.len(),
        0 <= edges[k].target < included.len(),
        included[edges[k].target as int],
    ensures
        exists|k2: int|
            0 <= k2 < kept_edges(edges, included).len() && (#[trigger] kept_edges(edges, included)[k2]).target == rank(
                included,
                edges[k].target as int,
            ) as usize,
    decreases edges.len(),
{
    let rest = kept_edges(edges.drop_last(), included);
    if k == edges.len() - 1 {
        assert(kept_edges(edges, included)[rest.len() as int].target == rank(included, edges[k].target as int) as usize);
    } else {
        assert(edges.drop_last()[k] == edges[k]);
        lemma_kept_edge_present(edges.drop_last(), included, k);
        let k2 = choose|k2: int|
            0 <= k2 < rest.len() && (#[trigger] rest[k2]).target == rank(included, edges[k].target as int) as usize;
        assert(kept_edges(edges, included)[k2] == rest[k2]);
    }
}

/// Every included root is kept, renumbered by rank.
pub proof fn lemma_kept_root_present(roots: Seq<usize>, included: Seq<bool>, r: int)
    requires
        0 <= r < roots.len(),
        0 <= roots[r] < included.len(),
        included[roots[r] as int],
    ensures
        kept_roots(roots, included).contains(rank(included, roots[r] as int) as usize),
    decreases roots.len(),
{
    let rest = kept_roots(roots.drop_last(), included);
    if r == roots.len() - 1 {
        assert(kept_roots(roots, included)[rest.len() as int] == rank(included, roots[r] as int) as usize);
    } else {
        assert(roots.drop_last()[r] == roots[r]);
        lemma_kept_root_present(roots.drop_last(), included, r);
        let i = choose|i: int| 0 <= i < rest.len() && rest[i] == rank(included, roots[r] as int) as usize;
        if included[roots.last() as int] {
            assert(kept_roots(roots, included)[i] == rest[i]);
        } else {
            assert(kept_roots(roots, included) == rest);
        }
    }
}

/// A walk of `graph` inside `included` from a root, renumbered by rank, is
/// a walk of the induced graph `r` from one of its roots.
pub proof fn lemma_walk_to_induced<S>(
    graph: ReachableGraph<S>,
    included: Seq<bool>,
    r: ReachableGraph<S>,
    p: Seq<int>,
)
    requires
        graph.wf(),
        r.wf(),
        included.len() == graph.states.len(),
        r.states.len() == selected(included).len(),
        forall|j: int|
            0 <= j < r.outgoing.len() ==> (#[trigger] r.outgoing@[j])@ == kept_edges(
                graph.outgoing@[selected(included)[j]]@,
                included,
            ),
        r.initial_ids@ == kept_roots(graph.initial_ids@, included),
        is_walk(graph, p, included),
        graph.initial_ids@.contains(p[0] as usize),
    ensures
        reachable_from(r, r.initial_ids@, rank(included, p.last()), everything(r.states@.len())),
{
    let q = p.map_values(|v: int| rank(included, v));
    assert forall|i: int| 0 <= i < q.len() implies 0 <= #[trigger] q[i] < r.states.len() && everything(
        r.states@.len(),
    )[q[i]] by {
        lemma_rank_included(included, p[i]);
    }
    assert forall|i: int| 0 <= i < q.len() - 1 implies r.step(#[trigger] q[i], q[i + 1]) by {
        assert(graph.step(p[i], p[i + 1]));
        let k = choose|k: int| 0 <= k < graph.outgoing@[p[i]].len() && (#[trigger] graph.outgoing@[p[i]]@[k]).target == p[i + 1];
        lemma_rank_included(included, p[i]);
        lemma_kept_edge_present(graph.outgoing@[p[i]]@, included, k);
        let k2 = choose|k2: int|
            0 <= k2 < kept_edges(graph.outgoing@[p[i]]@, included).len() && (#[trigger] kept_edges(
                graph.outgoing@[p[i]]@,
                included,
            )[k2]).target == rank(included, p[i + 1]) as usize;
        assert(r.outgoing@[q[i]]@ == kept_edges(graph.outgoing@[p[i]]@, included));
        assert(r.outgoing@[q[i]]@[k2].target == q[i + 1]);
    }
    assert(is_walk(r, q, everything(r.states@.len())));
    let root = choose|root: int| 0 <= root < graph.initial_ids@.len() && graph.initial_ids@[root] == p[0] as usize;
    lemma_kept_root_present(graph.initial_ids@, included, root);
    assert(r.initial_ids@.contains(q[0] as usize));
}

struct Search {
    seen: Vec<bool>,
    root: Vec<bool>,
    order: Vec<usize>,
    predecessor: Vec<Option<(usize, usize)>>,
    queue: Vec<usize>,
}

#[verifier::opaque]
spec fn search_inv<S>(
    graph: ReachableGraph<S>,
    starts: Seq<usize>,
    mask: Seq<bool>,
    s: Search,
    head: int,
) -> bool {
    let n = graph.states.len();
    &&& s.seen.len() == n && s.root.len() == n && s.order.len() == n && s.predecessor.len() == n
    &&& 0 <= head <= s.queue.len()
    &&& forall|q: int| 0 <= q < s.queue.len() ==> #[trigger] s.queue@[q] < n
    &&& forall|q: int|
        0 <= q < s.queue.len() ==> s.seen@[#[trigger] s.queue@[q] as int] && s.order@[s.queue@[q] as int] == q
    &&& forall|v: int| 0 <= v < n && #[trigger] s.seen@[v] ==> s.order@[v] < s.queue.len() && s.queue@[s.order@[v] as int] == v
    &&& forall|v: int| 0 <= v < n && #[trigger] s.seen@[v] ==> mask[v]
    &&& forall|v: int| 0 <= v < n && #[trigger] s.root@[v] ==> s.seen@[v]
    &&& s.queue.len() == count_true(s.seen@)
    &&& forall|v: int|
        0 <= v < n && #[trigger] s.seen@[v] ==> if s.root@[v] {
            starts.contains(v as usize)
        } else {
            s.predecessor@[v] matches Some(pe) && pe.0 < n && s.seen@[pe.0 as int] && s.order@[pe.0 as int] < s.order@[v]
                && pe.1 < graph.outgoing@[pe.0 as int].len() && graph.outgoing@[pe.0 as int]@[pe.1 as int].target == v
        }
    &&& forall|q: int, k: int|
        0 <= q < head && 0 <= k < graph.outgoing@[s.queue@[q] as int].len() && mask[(#[trigger] graph.outgoing@[
            s.queue@[q] as int]@[k]).target as int] ==> s.seen@[graph.outgoing@[s.queue@[q] as int]@[k].target as int]
}

/// Walks from seen starts stay inside a seen set closed under allowed edges.
proof fn lemma_closed_walk<S>(graph: ReachableGraph<S>, seen: Seq<bool>, mask: Seq<bool>, p: Seq<int>, i: int)
    requires
        graph.wf(),
        seen.len() == graph.states.len(),
        is_walk(graph, p, mask),
        0 <= i < p.len(),
        seen[p[0]],
        forall|u: int, k: int|
            0 <= u < graph.states.len() && seen[u] && 0 <= k < graph.outgoing@[u].len() && mask[(#[trigger] graph.outgoing@[u]@[k]).target as int]
                ==> seen[graph.outgoing@[u]@[k].target as int],
    ensures
        seen[p[i]],
    decreases i,
{
    if i > 0 {
        lemma_closed_walk(graph, seen, mask, p, i - 1);
        assert(graph.step(p[i - 1], p[i]));
        let k = choose|k: int| 0 <= k < graph.outgoing@[p[i - 1]].len() && (#[trigger] graph.outgoing@[p[i - 1]]@[k]).target == p[i];
        assert(mask[p[i]]);
    }
}

pub(crate) fn all_true(n: usize) -> (v: Vec<bool>)
    ensures
        v@ == everything(n as nat),
{
    let mut v: Vec<bool> = Vec::new();
    let mut i: usize = 0;
    while i < n
        invariant
            i <= n,
            v@ == everything(i as nat),
        decreases n - i,
    {
        v.push(true);
        assert(v@ =~= everything((i + 1) as nat));
        i += 1;
    }
    v
}

/// Marks `target` seen and enqueues it, as a root or via edge `via`.
fn discover<S>(
    graph: &ReachableGraph<S>,
    Ghost(starts): Ghost<Seq<usize>>,
    Ghost(mask): Ghost<Seq<bool>>,
    s: &mut Search,
    Ghost(head): Ghost<int>,
    target: usize,
    via: Option<(usize, usize)>,
)
    requires
        graph.wf(),
        mask.len() == graph.states.len(),
        search_inv(*graph, starts, mask, *old(s), head),
        target < graph.states.len(),
        mask[target as int],
        !old(s).seen@[target as int],
        match via {
            None => starts.contains(target),
            Some(pe) => pe.0 < graph.states.len() && old(s).seen@[pe.0 as int] && pe.1
                < graph.outgoing@[pe.0 as int].len() && graph.outgoing@[pe.0 as int]@[pe.1 as int].target
                == target,
        },
    ensures
        search_inv(*graph, starts, mask, *final(s), head),
        final(s).seen@[target as int],
        forall|v: int| 0 <= v < graph.states.len() && old(s).seen@[v] ==> #[trigger] final(s).seen@[v],
        final(s).queue@ == old(s).queue@.push(target),
{
    let n = graph.states.len();
    let ghost old_s = *s;
    proof {
        reveal(search_inv);
    }
    let pos = s.queue.len();
    proof {
        lemma_count_true_set(s.seen@, target as int);
    }
    s.seen.set(target, true);
    match via {
        None => {
            s.root.set(target, true);
        },
        Some(pe) => {
            s.predecessor.set(target, Some(pe));
        },
    }
    s.order.set(target, pos);
    s.queue.push(target);
    proof {
        assert forall|v: int| 0 <= v < n && #[trigger] s.seen@[v] implies s.order@[v] < s.queue.len()
            && s.queue@[s.order@[v] as int] == v by {
            if v != target {
                assert(old_s.seen@[v]);
            }
        }
        assert forall|v: int| 0 <= v < n && #[trigger] s.seen@[v] implies if s.root@[v] {
            starts.contains(v as usize)
        } else {
            s.predecessor@[v] matches Some(pe) && pe.0 < n && s.seen@[pe.0 as int] && s.order@[pe.0 as int]
                < s.order@[v] && pe.1 < graph.outgoing@[pe.0 as int].len() && graph.outgoing@[pe.0 as int]@[pe.1 as int].target == v
        } by {
            if v != target {
                assert(old_s.seen@[v]);
                if !s.root@[v] {
                    let pe = s.predecessor@[v]->0;
                    assert(pe.0 != target);
                }
            } else {
                assert(!old_s.root@[target as int]);
                if let Some(pe) = via {
                    assert(old_s.order@[pe.0 as int] < old_s.queue.len());
                }
            }
        }
        assert forall|v: int| 0 <= v < n && #[trigger] s.root@[v] implies s.seen@[v] by {
            if v != target {
                assert(old_s.root@[v]);
            }
        }
        assert forall|q: int, k: int|
            0 <= q < head && 0 <= k < graph.outgoing@[s.queue@[q] as int].len() && mask[(#[trigger] graph.outgoing@[
                s.queue@[q] as int]@[k]).target as int] implies s.seen@[graph.outgoing@[s.queue@[q] as int]@[k].target as int] by {
            assert(s.queue@[q] == old_s.queue@[q]);
        }
    }
}

proof fn lemma_search_basic<S>(graph: ReachableGraph<S>, starts: Seq<usize>, mask: Seq<bool>, s: Search, head: int)
    requires
        search_inv(graph, starts, mask, s, head),
    ensures
        s.seen.len() == graph.states.len(),
        s.root.len() == graph.states.len(),
        s.order.len() == graph.states.len(),
        s.predecessor.len() == graph.states.len(),
        0 <= head <= s.queue.len(),
        forall|q: int| 0 <= q < s.queue.len() ==> #[trigger] s.queue@[q] < graph.states.len(),
        forall|q: int| 0 <= q < s.queue.len() ==> s.seen@[#[trigger] s.queue@[q] as int],
        s.queue.len() <= graph.states.len(),
{
    reveal(search_inv);
    lemma_queue_bound(graph, starts, mask, s, head);
}

/// Number of `true` entries.
pub open spec fn count_true(v: Seq<bool>) -> int
    decreases v.len(),
{
    if v.len() == 0 {
        0
    } else {
        count_true(v.drop_last()) + if v.last() {
            1int
        } else {
            0
        }
    }
}

pub proof fn lemma_count_true_bound(v: Seq<bool>)
    ensures
        0 <= count_true(v) <= v.len(),
    decreases v.len(),
{
    if v.len() > 0 {
        lemma_count_true_bound(v.drop_last());
    }
}

pub proof fn lemma_count_true_set(v: Seq<bool>, i: int)
    requires
        0 <= i < v.len(),
        !v[i],
    ensures
        count_true(v.update(i, true)) == count_true(v) + 1,
    decreases v.len(),
{
    if i < v.len() - 1 {
        lemma_count_true_set(v.drop_last(), i);
        assert(v.update(i, true).drop_last() =~= v.drop_last().update(i, true));
    } else {
        assert(v.update(i, true).drop_last() =~= v.drop_last());
    }
}

proof fn lemma_queue_bound<S>(graph: ReachableGraph<S>, starts: Seq<usize>, mask: Seq<bool>, s: Search, head: int)
    requires
        search_inv(graph, starts, mask, s, head),
    ensures
        s.queue.len() <= graph.states.len(),
{
    reveal(search_inv);
    lemma_count_true_bound(s.seen@);
}

proof fn lemma_advance_head<S>(graph: ReachableGraph<S>, starts: Seq<usize>, mask: Seq<bool>, s: Search, head: int)
    requires
        search_inv(graph, starts, mask, s, head),
        head < s.queue.len(),
        forall|k: int|
            0 <= k < graph.outgoing@[s.queue@[head] as int].len() && mask[(#[trigger] graph.outgoing@[s.queue@[head] as int]@[k]).target as int]
                ==> s.seen@[graph.outgoing@[s.queue@[head] as int]@[k].target as int],
    ensures
        search_inv(graph, starts, mask, s, head + 1),
{
    reveal(search_inv);
}

/// Breadth-first search from the allowed starts; stops once `goal` is
/// dequeued.
fn bfs<S>(graph: &ReachableGraph<S>, starts: &[usize], goal: usize, mask: &[bool]) -> (s: Search)
    requires
        graph.wf(),
        mask@.len() == graph.states.len(),
        forall|i: int| 0 <= i < starts@.len() ==> #[trigger] starts@[i] < graph.states.len(),
    ensures
        exists|head: int| search_inv(*graph, starts@, mask@, s, head) && (head == s.queue.len() || (
        goal < graph.states.len() && s.seen@[goal as int])),
        forall|i: int| 0 <= i < starts@.len() && mask@[starts@[i] as int] ==> s.seen@[#[trigger] starts@[i] as int],
{
    let n = graph.states.len();
    let mut s = Search {
        seen: Vec::new(),
        root: Vec::new(),
        order: Vec::new(),
        predecessor: Vec::new(),
        queue: Vec::new(),
    };
    let mut i: usize = 0;
    while i < n
        invariant
            i <= n,
            s.seen.len() == i && s.root.len() == i && s.order.len() == i && s.predecessor.len() == i,
            s.queue.len() == 0,
            forall|v: int| 0 <= v < i ==> !s.seen@[v] && !s.root@[v],
            count_true(s.seen@) == 0,
        decreases n - i,
    {
        assert(s.seen@.push(false).drop_last() =~= s.seen@);
        s.seen.push(false);
        s.root.push(false);
        s.order.push(0);
        s.predecessor.push(None);
        i += 1;
    }
    proof {
        reveal(search_inv);
    }
    let mut i: usize = 0;
    while i < starts.len()
        invariant
            graph.wf(),
            n == graph.states.len(),
            mask@.len() == n,
            forall|j: int| 0 <= j < starts@.len() ==> #[trigger] starts@[j] < n,
            i <= starts.len(),
            search_inv(*graph, starts@, mask@, s, 0),
            forall|j: int| 0 <= j < i && mask@[starts@[j] as int] ==> s.seen@[#[trigger] starts@[j] as int],
        decreases starts.len() - i,
    {
        let start = starts[i];
        proof {
            lemma_search_basic(*graph, starts@, mask@, s, 0);
        }
        if mask[start] && !s.seen[start] {
            proof {
                assert(starts@.contains(start));
            }
            discover(graph, Ghost(starts@), Ghost(mask@), &mut s, Ghost(0), start, None);
        }
        i += 1;
    }
    let mut head: usize = 0;
    while head < s.queue.len()
        invariant
            graph.wf(),
            n == graph.states.len(),
            mask@.len() == n,
            search_inv(*graph, starts@, mask@, s, head as int),
            head <= s.queue.len(),
            forall|j: int| 0 <= j < starts@.len() ==> #[trigger] starts@[j] < n,
            forall|j: int| 0 <= j < starts@.len() && mask@[starts@[j] as int] ==> s.seen@[#[trigger] starts@[j] as int],
        ensures
            search_inv(*graph, starts@, mask@, s, head as int),
            head == s.queue.len() || (goal < n && s.seen@[goal as int]),
            forall|j: int| 0 <= j < starts@.len() && mask@[starts@[j] as int] ==> s.seen@[#[trigger] starts@[j] as int],
        decreases n - head,
    {
        proof {
            lemma_search_basic(*graph, starts@, mask@, s, head as int);
        }
        let node = s.queue[head];
        if node == goal {
            break;
        }
        let edges = &graph.outgoing[node];
        let mut k: usize = 0;
        while k < edges.len()
            invariant
                graph.wf(),
                n == graph.states.len(),
                mask@.len() == n,
                head < s.queue.len(),
                node == s.queue@[head as int],
                node < n,
                edges@ == graph.outgoing@[node as int]@,
                k <= edges.len(),
                search_inv(*graph, starts@, mask@, s, head as int),
                forall|j: int| 0 <= j < starts@.len() ==> #[trigger] starts@[j] < n,
                forall|j: int| 0 <= j < k && mask@[edges@[j].target as int] ==> s.seen@[#[trigger] edges@[j].target as int],
                forall|j: int| 0 <= j < starts@.len() && mask@[starts@[j] as int] ==> s.seen@[#[trigger] starts@[j] as int],
            decreases edges.len() - k,
        {
            let target = edges[k].target;
            proof {
                lemma_search_basic(*graph, starts@, mask@, s, head as int);
            }
            if mask[target] && !s.seen[target] {
                discover(graph, Ghost(starts@), Ghost(mask@), &mut s, Ghost(head as int), target, Some((node, k)));
            }
            k += 1;
        }
        proof {
            lemma_advance_head(*graph, starts@, mask@, s, head as int);
            lemma_search_basic(*graph, starts@, mask@, s, head + 1);
        }
        head += 1;
    }
    s
}

proof fn lemma_search_pred<S>(graph: ReachableGraph<S>, starts: Seq<usize>, mask: Seq<bool>, s: Search, head: int, v: int)
    requires
        search_inv(graph, starts, mask, s, head),
        0 <= v < graph.states.len(),
        s.seen@[v],
    ensures
        mask[v],
        s.order@[v] < s.queue.len(),
        if s.root@[v] {
            starts.contains(v as usize)
        } else {
            s.predecessor@[v] matches Some(pe) && pe.0 < graph.states.len() && s.seen@[pe.0 as int]
                && s.order@[pe.0 as int] < s.order@[v] && pe.1 < graph.outgoing@[pe.0 as int].len()
                && graph.outgoing@[pe.0 as int]@[pe.1 as int].target == v
        },
{
    reveal(search_inv);
}

proof fn lemma_search_closed<S>(graph: ReachableGraph<S>, starts: Seq<usize>, mask: Seq<bool>, s: Search)
    requires
        search_inv(graph, starts, mask, s, s.queue.len() as int),
    ensures
        forall|u: int, k: int|
            0 <= u < graph.states.len() && s.seen@[u] && 0 <= k < graph.outgoing@[u].len() && mask[(#[trigger] graph.outgoing@[u]@[k]).target as int]
                ==> s.seen@[graph.outgoing@[u]@[k].target as int],
{
    reveal(search_inv);
    assert forall|u: int, k: int|
        0 <= u < graph.states.len() && s.seen@[u] && 0 <= k < graph.outgoing@[u].len() && mask[(#[trigger] graph.outgoing@[u]@[k]).target as int]
            implies s.seen@[graph.outgoing@[u]@[k].target as int] by {
        let q = s.order@[u] as int;
        assert(s.queue@[q] == u);
    }
}

/// The search-tree walk from a root to `goal`, with the index of the edge
/// used to reach each node after the first.
fn tree_walk<S>(graph: &ReachableGraph<S>, Ghost(starts): Ghost<Seq<usize>>, Ghost(mask): Ghost<Seq<bool>>, s: &Search, Ghost(head): Ghost<int>, goal: usize) -> (r: (Vec<usize>, Vec<usize>))
    requires
        graph.wf(),
        mask.len() == graph.states.len(),
        search_inv(*graph, starts, mask, *s, head),
        goal < graph.states.len(),
        s.seen@[goal as int],
    ensures
        r.0.len() > 0,
        r.1.len() == r.0.len(),
        starts.contains(r.0@[0]),
        r.0@[r.0.len() - 1] == goal,
        forall|i: int| 0 <= i < r.0.len() ==> #[trigger] r.0@[i] < graph.states.len() && mask[r.0@[i] as int],
        forall|i: int|
            0 < i < r.0.len() ==> #[trigger] r.1@[i] < graph.outgoing@[r.0@[i - 1] as int].len()
                && graph.outgoing@[r.0@[i - 1] as int]@[r.1@[i] as int].target == r.0@[i],
{
    let mut rev_nodes: Vec<usize> = Vec::new();
    let mut rev_edges: Vec<usize> = Vec::new();
    let mut node = goal;
    proof {
        lemma_search_pred(*graph, starts, mask, *s, head, goal as int);
    }
    loop
        invariant_except_break
            rev_nodes.len() > 0 ==> rev_edges@[rev_nodes.len() - 1] < graph.outgoing@[node as int].len()
                && graph.outgoing@[node as int]@[rev_edges@[rev_nodes.len() - 1] as int].target == rev_nodes@[rev_nodes.len() - 1],
        invariant
            graph.wf(),
            mask.len() == graph.states.len(),
            search_inv(*graph, starts, mask, *s, head),
            node < graph.states.len(),
            s.seen@[node as int],
            rev_nodes.len() == rev_edges.len(),
            rev_nodes.len() == 0 ==> node == goal,
            rev_nodes.len() > 0 ==> rev_nodes@[0] == goal,
            forall|i: int| 0 <= i < rev_nodes.len() ==> #[trigger] rev_nodes@[i] < graph.states.len() && mask[rev_nodes@[i] as int],
            forall|i: int|
                0 <= i < rev_nodes.len() - 1 ==> #[trigger] rev_edges@[i] < graph.outgoing@[rev_nodes@[i + 1] as int].len()
                    && graph.outgoing@[rev_nodes@[i + 1] as int]@[rev_edges@[i] as int].target == rev_nodes@[i],
        ensures
            rev_nodes.len() > 0,
            rev_nodes.len() == rev_edges.len(),
            rev_nodes@[0] == goal,
            starts.contains(rev_nodes@[rev_nodes.len() - 1]),
            forall|i: int| 0 <= i < rev_nodes.len() ==> #[trigger] rev_nodes@[i] < graph.states.len() && mask[rev_nodes@[i] as int],
            forall|i: int|
                0 <= i < rev_nodes.len() - 1 ==> #[trigger] rev_edges@[i] < graph.outgoing@[rev_nodes@[i + 1] as int].len()
                    && graph.outgoing@[rev_nodes@[i + 1] as int]@[rev_edges@[i] as int].target == rev_nodes@[i],
        decreases s.order@[node as int],
    {
        proof {
            lemma_search_pred(*graph, starts, mask, *s, head, node as int);
            lemma_search_basic(*graph, starts, mask, *s, head);
        }
        if s.root[node] {
            rev_nodes.push(node);
            rev_edges.push(0);
            break;
        }
        match s.predecessor[node] {
            Some((prev, edge)) => {
                rev_nodes.push(node);
                rev_edges.push(edge);
                node = prev;
            },
            None => {
                rev_nodes.push(node);
                rev_edges.push(0);
                break;
            },
        }
    }
    let n = rev_nodes.len();
    let mut nodes: Vec<usize> = Vec::new();
    let mut edges: Vec<usize> = Vec::new();
    let mut k: usize = 0;
    while k < n
        invariant
            n == rev_nodes.len(),
            n == rev_edges.len(),
            k <= n,
            nodes.len() == k,
            edges.len() == k,
            forall|j: int| 0 <= j < k ==> #[trigger] nodes@[j] == rev_nodes@[n - 1 - j],
            forall|j: int| 0 < j < k ==> #[trigger] edges@[j] == rev_edges@[n - 1 - j],
        decreases n - k,
    {
        nodes.push(rev_nodes[n - 1 - k]);
        edges.push(if k == 0 { 0 } else { rev_edges[n - 1 - k] });
        k += 1;
    }
    proof {
        assert forall|i: int| 0 < i < nodes.len() implies #[trigger] edges@[i] < graph.outgoing@[nodes@[i - 1] as int].len()
            && graph.outgoing@[nodes@[i - 1] as int]@[edges@[i] as int].target == nodes@[i] by {
            assert(nodes@[i - 1] == rev_nodes@[n - 1 - i + 1]);
        }
        assert forall|i: int| 0 <= i < nodes.len() implies #[trigger] nodes@[i] < graph.states.len() && mask[nodes@[i] as int] by {
            assert(nodes@[i] == rev_nodes@[n - 1 - i]);
        }
    }
    (nodes, edges)
}

/// A breadth-first path from one of `starts` to `goal` that visits only
/// nodes in `allowed` (every node when `allowed` is `None`), or `None` when
/// `goal` cannot be reached that way.
pub fn shortest_path<S: StateValue>(
    graph: &ReachableGraph<S>,
    starts: &[usize],
    goal: usize,
    allowed: Option<&[bool]>,
) -> (r: Option<Vec<TraceStep<S>>>)
    requires
        graph.wf(),
        forall|i: int| 0 <= i < starts@.len() ==> #[trigger] starts@[i] < graph.states.len(),
        allowed matches Some(m) ==> m@.len() == graph.states.len(),
    ensures
        r matches Some(t) ==> exists|p: Seq<int>|
            #[trigger] is_walk(*graph, p, mask_of(allowed, graph.states@.len())) && starts@.contains(
                p[0] as usize,
            ) && p.last() == goal && trace_spells(*graph, t@, p),
        r is None ==> !reachable_from(*graph, starts@, goal as int, mask_of(allowed, graph.states@.len())),
{
    let n = graph.states.len();
    let all = all_true(n);
    let mask: &[bool] = match allowed {
        Some(m) => m,
        None => all.as_slice(),
    };
    assert(mask@ == mask_of(allowed, n as nat));
    let s = bfs(graph, starts, goal, mask);
    let ghost head = choose|head: int| search_inv(*graph, starts@, mask@, s, head) && (head == s.queue.len() || (
        goal < graph.states.len() && s.seen@[goal as int]));
    proof {
        lemma_search_basic(*graph, starts@, mask@, s, head);
    }
    if goal >= n || !s.seen[goal] {
        proof {
            if reachable_from(*graph, starts@, goal as int, mask@) {
                let p = choose|p: Seq<int>| #[trigger] is_walk(*graph, p, mask@) && starts@.contains(p[0] as usize) && p.last() == goal;
                let j = choose|j: int| 0 <= j < starts@.len() && starts@[j] == p[0] as usize;
                assert(mask@[p[0]]);
                assert(s.seen@[starts@[j] as int]);
                lemma_search_closed(*graph, starts@, mask@, s);
                lemma_closed_walk(*graph, s.seen@, mask@, p, p.len() - 1);
            }
        }
        return None;
    }
    let (nodes, edges) = tree_walk(graph, Ghost(starts@), Ghost(mask@), &s, Ghost(head), goal);
    let mut trace: Vec<TraceStep<S>> = Vec::new();
    let mut i: usize = 0;
    while i < nodes.len()
        invariant
            graph.wf(),
            nodes.len() == edges.len(),
            i <= nodes.len(),
            trace.len() == i,
            forall|j: int| 0 <= j < nodes.len() ==> #[trigger] nodes@[j] < graph.states.len(),
            forall|j: int|
                0 < j < nodes.len() ==> #[trigger] edges@[j] < graph.outgoing@[nodes@[j - 1] as int].len()
                    && graph.outgoing@[nodes@[j - 1] as int]@[edges@[j] as int].target == nodes@[j],
            forall|j: int| 0 <= j < i ==> (#[trigger] trace@[j]).state@ == graph.states@[nodes@[j] as int]@,
            i > 0 ==> trace@[0].action is None,
            forall|j: int|
                0 < j < i ==> (#[trigger] trace@[j]).action == Some(graph.outgoing@[nodes@[j - 1] as int]@[edges@[j] as int].action),
        decreases nodes.len() - i,
    {
        let state = graph.states[nodes[i]].copy_value();
        let action = if i == 0 {
            None
        } else {
            Some(graph.outgoing[nodes[i - 1]][edges[i]].action.clone())
        };
        trace.push(TraceStep { action, state });
        i += 1;
    }
    let ghost p = nodes@.map_values(|v: usize| v as int);
    proof {
        assert forall|j: int| 0 <= j < p.len() - 1 implies graph.step(#[trigger] p[j], p[j + 1]) by {
            let _ = graph.outgoing@[p[j]]@[edges@[j + 1] as int];
        }
        assert(is_walk(*graph, p, mask@));
        assert forall|j: int| 0 < j < trace@.len() implies (#[trigger] trace@[j]).action is Some && graph.edge(
            p[j - 1],
            trace@[j].action->0@,
            p[j],
        ) by {
            let _ = graph.outgoing@[p[j - 1]]@[edges@[j] as int];
        }
        assert(trace_spells(*graph, trace@, p));
    }
    Some(trace)
}

/// The complete reachable graph of a model, captured once.
#[derive(Debug, Clone)]
pub struct CapturedReachableGraph<S> {
    pub graph: ReachableGraph<S>,
    pub discovered_states: usize,
    pub explored_transitions: usize,
    pub max_depth_reached: Option<usize>,
}

/// Whether a bounded capture covered the whole reachable graph.
#[derive(Debug, Clone, Copy, PartialEq, Eq, Structural)]
pub enum GraphCaptureCompletion {
    Complete,
    Inconclusive(InconclusiveReason),
}

/// A reachable-graph prefix justified by one bounded BFS.
///
/// `graph` holds only transitions that were counted and whose targets were
/// retained. `known_terminal[id]` is true only when the model's successor
/// list for that state was evaluated and is empty, so a cutoff is never
/// mistaken for a terminal. `complete_enabled_actions[id]` is `Some` with
/// the labels of every model transition of the state, in order, when its
/// successor list was evaluated, and `None` when it never was.
#[derive(Debug, Clone)]
pub struct BoundedCapturedReachableGraph<S> {
    pub graph: ReachableGraph<S>,
    pub discovered_states: usize,
    pub checked_states: usize,
    pub explored_transitions: usize,
    pub max_depth_reached: Option<usize>,
    pub completion: GraphCaptureCompletion,
    pub known_terminal: Vec<bool>,
    pub complete_enabled_actions: Vec<Option<Vec<String>>>,
}

/// What the bounded capture records of each state's model transitions:
/// one entry per retained state; a known terminal evaluated to no
/// transitions; the retained edges are a prefix, by label, of the
/// transitions evaluated.
pub open spec fn enabled_actions_ok<S>(
    g: ReachableGraph<S>,
    known_terminal: Seq<bool>,
    enabled: Seq<Option<Vec<String>>>,
) -> bool {
    &&& enabled.len() == g.states.len()
    &&& forall|j: int| 0 <= j < enabled.len() && #[trigger] known_terminal[j] ==> (enabled[j] matches Some(a) && a@.len() == 0)
    &&& forall|j: int|
        0 <= j < enabled.len() ==> (#[trigger] enabled[j] matches Some(a) ==> g.outgoing@[j].len() <= a@.len()
            && forall|k: int| 0 <= k < g.outgoing@[j].len() ==> (#[trigger] g.outgoing@[j]@[k]).action@ == a@[k]@)
}

#[derive(Debug, Clone, PartialEq, Eq)]
pub enum GraphCaptureError {
    Model(ModelError),
    UnexpectedInconclusive,
    SnapshotTargetMissing,
}

/// Some state of `states` has view `v`.
pub open spec fn state_in<S: View>(states: Seq<S>, v: S::V) -> bool {
    exists|q: int| 0 <= q < states.len() && (#[trigger] states[q])@ == v
}

/// Some root of `graph` is a state with view `v`.
pub open spec fn root_with<S: View>(graph: ReachableGraph<S>, v: S::V) -> bool {
    exists|r: int|
        0 <= r < graph.initial_ids.len() && graph.states@[(#[trigger] graph.initial_ids@[r]) as int]@ == v
}

/// The roots are the graph states of the model's initial states, each once.
pub open spec fn roots_of_initial<S: View>(graph: ReachableGraph<S>, initial: Seq<S>) -> bool {
    &&& forall|i: int| 0 <= i < initial.len() ==> #[trigger] root_with(graph, initial[i]@)
    &&& forall|r: int|
        0 <= r < graph.initial_ids.len() ==> views_of(initial).contains(
            graph.states@[(#[trigger] graph.initial_ids@[r]) as int]@,
        )
    &&& forall|a: int, b: int|
        0 <= a < b < graph.initial_ids.len() ==> #[trigger] graph.initial_ids@[a]
            != #[trigger] graph.initial_ids@[b]
}

/// The states of the graph are pairwise distinct.
pub open spec fn distinct_states<S: View>(graph: ReachableGraph<S>) -> bool {
    forall|i: int, j: int|
        0 <= i < j < graph.states.len() ==> (#[trigger] graph.states@[i])@ != (
        #[trigger] graph.states@[j])@
}

/// Some listed id points to a state with view `v`.
pub open spec fn ids_cover<S: View>(states: Seq<S>, ids: Seq<usize>, v: S::V) -> bool {
    exists|r: int| 0 <= r < ids.len() && states[(#[trigger] ids[r]) as int]@ == v
}

fn contains_id(ids: &Vec<usize>, id: usize) -> (found: bool)
    ensures
        found == ids@.contains(id),
{
    let mut k: usize = 0;
    while k < ids.len()
        invariant
            k <= ids.len(),
            forall|j: int| 0 <= j < k ==> ids@[j] != id,
        decreases ids.len() - k,
    {
        if ids[k] == id {
            return true;
        }
        k += 1;
    }
    false
}

/// Dense ids of the initial states that are present, first occurrence first.
fn initial_ids_of<S: StateValue>(states: &Vec<S>, initial: &[S]) -> (ids: Vec<usize>)
    ensures
        forall|r: int| 0 <= r < ids.len() ==> #[trigger] ids@[r] < states.len(),
        forall|r: int|
            0 <= r < ids.len() ==> views_of(initial@).contains(states@[(#[trigger] ids@[r]) as int]@),
        forall|a: int, b: int| 0 <= a < b < ids.len() ==> #[trigger] ids@[a] != #[trigger] ids@[b],
        forall|i: int|
            0 <= i < initial@.len() && state_in(states@, initial@[i]@) ==> #[trigger] ids_cover(
                states@,
                ids@,
                initial@[i]@,
            ),
{
    let mut ids: Vec<usize> = Vec::new();
    let mut i: usize = 0;
    while i < initial.len()
        invariant
            i <= initial.len(),
            forall|r: int| 0 <= r < ids.len() ==> #[trigger] ids@[r] < states.len(),
            forall|r: int|
                0 <= r < ids.len() ==> views_of(initial@).contains(states@[(#[trigger] ids@[r]) as int]@),
            forall|a: int, b: int| 0 <= a < b < ids.len() ==> #[trigger] ids@[a] != #[trigger] ids@[b],
            forall|j: int|
                0 <= j < i && state_in(states@, initial@[j]@) ==> #[trigger] ids_cover(
                    states@,
                    ids@,
                    initial@[j]@,
                ),
        decreases initial.len() - i,
    {
        let ghost before = ids@;
        match crate::state::position_of(states, &initial[i]) {
            Some(id) => {
                if !contains_id(&ids, id) {
                    ids.push(id);
                    proof {
                        assert(views_of(initial@)[i as int] == initial@[i as int]@);
                        assert forall|j: int|
                            0 <= j <= i && state_in(states@, initial@[j]@) implies #[trigger] ids_cover(
                                states@,
                                ids@,
                                initial@[j]@,
                            ) by {
                            if j < i {
                                assert(ids_cover(states@, before, initial@[j]@));
                                let r = choose|r: int| 0 <= r < before.len() && states@[(#[trigger] before[r]) as int]@ == initial@[j]@;
                                assert(ids@[r] == before[r]);
                            } else {
                                assert(ids@[ids.len() - 1] == id);
                            }
                        }
                    }
                } else {
                    proof {
                        let r = choose|r: int| 0 <= r < ids.len() && ids@[r] == id;
                        assert(states@[ids@[r] as int]@ == initial@[i as int]@);
                    }
                }
            },
            None => {
                proof {
                    if state_in(states@, initial@[i as int]@) {
                        let q = choose|q: int| 0 <= q < states.len() && (#[trigger] states@[q])@ == initial@[i as int]@;
                    }
                }
            },
        }
        i += 1;
    }
    ids
}

/// The unbounded breadth-first search of `model` can run its transition
/// counter up to `usize::MAX` and stop there: a machine limit, the one way
/// an exhaustive capture stops early.
pub closed spec fn capture_saturates<S: View>(model: TransitionSystem<S>) -> bool {
    exists|res: crate::checker::GraphSearchResult<S>|
        #[trigger] search_result_wf(
            res,
            model.initial(),
            crate::checker::no_limits(),
            crate::model::invariant_names(model.invariant_list()),
            false,
        ) && res.outcome == GraphSearchOutcome::<S>::Inconclusive(
            InconclusiveReason::TransitionLimitReached { limit: usize::MAX },
        )
}

/// Exhaustively materialize the reachable transition graph once through the
/// canonical BFS. Higher-level analyses reuse this snapshot so the model's
/// transition relation is evaluated once per reachable state.
pub fn capture_reachable_graph<S: StateValue>(model: &TransitionSystem<S>) -> (r: Result<
    CapturedReachableGraph<S>,
    GraphCaptureError,
>)
    ensures
        r matches Ok(c) ==> {
            &&& c.graph.wf()
            &&& distinct_states(c.graph)
            &&& roots_of_initial(c.graph, model.initial())
            &&& c.discovered_states == c.graph.states.len()
            &&& forall|i: int, k: int|
                0 <= i < c.graph.outgoing.len() && 0 <= k < c.graph.outgoing@[i].len() ==> crate::text::trim(
                    (#[trigger] c.graph.outgoing@[i]@[k]).action@,
                ).len() > 0
        },
        r matches Err(e) ==> e is Model || (e is UnexpectedInconclusive && capture_saturates(*model)),
{
    let search = match search_with_probes(model, ExplorationLimits::unbounded(), false) {
        Ok(s) => s,
        Err(e) => {
            return Err(GraphCaptureError::Model(e));
        },
    };
    match search.outcome {
        GraphSearchOutcome::Exhausted => {},
        _ => {
            proof {
                assert(search_result_wf(
                    search,
                    model.initial(),
                    crate::checker::no_limits(),
                    crate::model::invariant_names(model.invariant_list()),
                    false,
                ));
            }
            return Err(GraphCaptureError::UnexpectedInconclusive);
        },
    }
    let ghost views = views_of(search.states@);
    let initial_ids = initial_ids_of(&search.states, model.initial_states());
    let graph = ReachableGraph { states: search.states, outgoing: search.edges, initial_ids };
    proof {
        assert forall|i: int, k: int|
            0 <= i < graph.outgoing.len() && 0 <= k < graph.outgoing@[i].len() implies (
            #[trigger] graph.outgoing@[i]@[k]).target < graph.states.len() by {
            assert(crate::checker::edge_matches(graph.outgoing@[i]@[k], search.captured@[i].1@[k], views));
        }
        assert forall|i: int, k: int|
            0 <= i < graph.outgoing.len() && 0 <= k < graph.outgoing@[i].len() implies crate::text::trim(
                (#[trigger] graph.outgoing@[i]@[k]).action@,
            ).len() > 0 by {
            assert(crate::checker::edge_matches(graph.outgoing@[i]@[k], search.captured@[i].1@[k], views));
            let _ = search.captured@[i].1@[k];
        }
        assert forall|i: int| 0 <= i < model.initial().len() implies #[trigger] root_with(graph, model.initial()[i]@) by {
            assert(captured_state(search.captured@, model.initial()[i]@));
            let q = choose|q: int| 0 <= q < search.captured.len() && (#[trigger] search.captured@[q]).0@ == model.initial()[i]@;
            assert(graph.states@[q]@ == model.initial()[i]@);
            assert(state_in(graph.states@, model.initial()[i]@));
            assert(ids_cover(graph.states@, graph.initial_ids@, model.initial()[i]@));
        }
    }
    Ok(
        CapturedReachableGraph {
            graph,
            discovered_states: search.discovered_states,
            explored_transitions: search.explored_transitions,
            max_depth_reached: search.max_depth_reached,
        },
    )
}

/// Materialize the portion of the reachable graph justified by one bounded
/// BFS. A cutoff never fabricates an absent edge or a terminal.
pub fn capture_reachable_graph_with_limits<S: StateValue>(
    model: &TransitionSystem<S>,
    limits: ExplorationLimits,
) -> (r: Result<BoundedCapturedReachableGraph<S>, GraphCaptureError>)
    ensures
        r matches Ok(c) ==> {
            &&& c.graph.wf()
            &&& distinct_states(c.graph)
            &&& c.known_terminal.len() == c.graph.states.len()
            &&& forall|i: int| 0 <= i < c.known_terminal.len() && #[trigger] c.known_terminal@[i] ==> c.graph.outgoing@[i].len() == 0
            &&& enabled_actions_ok(c.graph, c.known_terminal@, c.complete_enabled_actions@)
            &&& c.discovered_states == c.graph.states.len()
            &&& c.checked_states <= c.discovered_states
            &&& (limits.max_states matches Some(l) ==> c.discovered_states <= l)
            &&& (limits.max_transitions matches Some(l) ==> c.explored_transitions <= l)
            &&& (c.completion is Complete ==> roots_of_initial(c.graph, model.initial())
                && c.checked_states == c.discovered_states)
            &&& forall|r: int|
                0 <= r < c.graph.initial_ids.len() ==> views_of(model.initial()).contains(
                    c.graph.states@[(#[trigger] c.graph.initial_ids@[r]) as int]@,
                )
        },
        r matches Err(e) ==> e is Model,
{
    let search = match search_with_probes(model, limits, false) {
        Ok(s) => s,
        Err(e) => {
            return Err(GraphCaptureError::Model(e));
        },
    };
    let completion = match search.outcome {
        GraphSearchOutcome::Exhausted => GraphCaptureCompletion::Complete,
        GraphSearchOutcome::Inconclusive(reason) => GraphCaptureCompletion::Inconclusive(reason),
        GraphSearchOutcome::Match { .. } => {
            return Err(GraphCaptureError::UnexpectedInconclusive);
        },
    };
    let ghost views = views_of(search.states@);
    let n = search.states.len();
    let mut outgoing: Vec<Vec<SnapshotEdge>> = Vec::new();
    let mut known_terminal: Vec<bool> = Vec::new();
    let mut enabled: Vec<Option<Vec<String>>> = Vec::new();
    let mut i: usize = 0;
    while i < n
        invariant
            enabled.len() == i,
            forall|j: int| 0 <= j < i ==> (#[trigger] enabled@[j] is Some <==> j < search.captured.len()),
            forall|j: int|
                0 <= j < i ==> (#[trigger] enabled@[j] matches Some(a) ==> a@.len() == search.captured@[j].1.len()
                    && forall|k: int| 0 <= k < a@.len() ==> (#[trigger] a@[k])@ == search.captured@[j].1@[k].action@),
            n == search.states.len(),
            views == views_of(search.states@),
            crate::checker::edges_follow(search.edges@, search.captured@, views, search.outcome is Exhausted),
            search.captured.len() <= n,
            i <= n,
            outgoing.len() == i,
            known_terminal.len() == i,
            forall|j: int| 0 <= j < i ==> (#[trigger] outgoing@[j])@ == if j < search.edges.len() {
                search.edges@[j]@
            } else {
                Seq::<SnapshotEdge>::empty()
            },
            forall|j: int| 0 <= j < i ==> #[trigger] known_terminal@[j] == (j < search.captured.len()
                && search.captured@[j].1.len() == 0),
        decreases n - i,
    {
        if i < search.edges.len() {
            let mut copy: Vec<SnapshotEdge> = Vec::new();
            let mut k: usize = 0;
            while k < search.edges[i].len()
                invariant
                    i < search.edges.len(),
                    k <= search.edges@[i as int].len(),
                    copy@ == search.edges@[i as int]@.subrange(0, k as int),
                decreases search.edges@[i as int].len() - k,
            {
                copy.push(search.edges[i][k].copy());
                assert(copy@ =~= search.edges@[i as int]@.subrange(0, k + 1));
                k += 1;
            }
            assert(search.edges@[i as int]@.subrange(0, k as int) =~= search.edges@[i as int]@);
            outgoing.push(copy);
        } else {
            outgoing.push(Vec::new());
        }
        known_terminal.push(i < search.captured.len() && search.captured[i].1.len() == 0);
        if i < search.captured.len() {
            let list = &search.captured[i].1;
            let mut labels: Vec<String> = Vec::new();
            let mut k: usize = 0;
            while k < list.len()
                invariant
                    k <= list@.len(),
                    labels@.len() == k,
                    forall|x: int| 0 <= x < k ==> (#[trigger] labels@[x])@ == list@[x].action@,
                decreases list.len() - k,
            {
                labels.push(list[k].action.clone());
                k += 1;
            }
            enabled.push(Some(labels));
        } else {
            enabled.push(None);
        }
        i += 1;
    }
    let initial_ids = initial_ids_of(&search.states, model.initial_states());
    let graph = ReachableGraph { states: search.states, outgoing, initial_ids };
    proof {
        assert forall|i: int, k: int|
            0 <= i < graph.outgoing.len() && 0 <= k < graph.outgoing@[i].len() implies (
            #[trigger] graph.outgoing@[i]@[k]).target < graph.states.len() by {
            assert(crate::checker::edge_matches(search.edges@[i]@[k], search.captured@[i].1@[k], views));
        }
        assert forall|i: int| 0 <= i < known_terminal.len() && #[trigger] known_terminal@[i] implies graph.outgoing@[i].len() == 0 by {
            assert(search.edges@[i].len() <= search.captured@[i].1.len());
        }
        assert forall|j: int|
            0 <= j < enabled@.len() implies (#[trigger] enabled@[j] matches Some(a) ==> graph.outgoing@[j].len() <= a@.len()
                && forall|k: int| 0 <= k < graph.outgoing@[j].len() ==> (#[trigger] graph.outgoing@[j]@[k]).action@ == a@[k]@) by {
            if let Some(a) = enabled@[j] {
                assert(search.edges@[j].len() <= search.captured@[j].1.len());
                assert forall|k: int| 0 <= k < graph.outgoing@[j].len() implies (#[trigger] graph.outgoing@[j]@[k]).action@ == a@[k]@ by {
                    assert(crate::checker::edge_matches(search.edges@[j]@[k], search.captured@[j].1@[k], views));
                }
            }
        }
        assert forall|j: int| 0 <= j < enabled@.len() && #[trigger] known_terminal@[j] implies (enabled@[j] matches Some(a) && a@.len() == 0) by {}
        assert(enabled_actions_ok(graph, known_terminal@, enabled@));
        if completion is Complete {
            assert forall|i: int| 0 <= i < model.initial().len() implies #[trigger] root_with(graph, model.initial()[i]@) by {
                assert(captured_state(search.captured@, model.initial()[i]@));
                let q = choose|q: int| 0 <= q < search.captured.len() && (#[trigger] search.captured@[q]).0@ == model.initial()[i]@;
                assert(graph.states@[q]@ == model.initial()[i]@);
                assert(state_in(graph.states@, model.initial()[i]@));
                assert(ids_cover(graph.states@, graph.initial_ids@, model.initial()[i]@));
            }
        }
    }
    Ok(
        BoundedCapturedReachableGraph {
            graph,
            discovered_states: search.discovered_states,
            checked_states: search.checked_states,
            explored_transitions: search.explored_transitions,
            max_depth_reached: search.max_depth_reached,
            completion,
            known_terminal,
            complete_enabled_actions: enabled,
        },
    )
}

/// The nodes reachable from `starts` through nodes in `mask`.
pub fn reachable_set<S>(graph: &ReachableGraph<S>, starts: &[usize], mask: &[bool]) -> (seen: Vec<bool>)
    requires
        graph.wf(),
        mask@.len() == graph.states.len(),
        forall|i: int| 0 <= i < starts@.len() ==> #[trigger] starts@[i] < graph.states.len(),
    ensures
        seen.len() == graph.states.len(),
        forall|v: int| 0 <= v < graph.states.len() ==> #[trigger] seen@[v] == reachable_from(*graph, starts@, v, mask@),
{
    let n = graph.states.len();
    let s = bfs(graph, starts, n, mask);
    let ghost head = choose|head: int| search_inv(*graph, starts@, mask@, s, head) && (head == s.queue.len() || (
        n < graph.states.len() && s.seen@[n as int]));
    proof {
        lemma_search_basic(*graph, starts@, mask@, s, head);
        lemma_search_closed(*graph, starts@, mask@, s);
        assert forall|v: int| 0 <= v < graph.states.len() implies #[trigger] s.seen@[v] == reachable_from(*graph, starts@, v, mask@) by {
            if s.seen@[v] {
                let (nodes, edges) = tree_walk_spec(*graph, starts@, mask@, s, head, v);
                let p = nodes.map_values(|x: usize| x as int);
                assert forall|j: int| 0 <= j < p.len() - 1 implies graph.step(#[trigger] p[j], p[j + 1]) by {
                    let _ = graph.outgoing@[p[j]]@[edges[j + 1] as int];
                }
                assert(is_walk(*graph, p, mask@));
            } else if reachable_from(*graph, starts@, v, mask@) {
                let p = choose|p: Seq<int>| #[trigger] is_walk(*graph, p, mask@) && starts@.contains(p[0] as usize) && p.last() == v;
                let j = choose|j: int| 0 <= j < starts@.len() && starts@[j] == p[0] as usize;
                assert(mask@[p[0]]);
                assert(s.seen@[starts@[j] as int]);
                lemma_closed_walk(*graph, s.seen@, mask@, p, p.len() - 1);
            }
        }
    }
    s.seen
}

/// A search-tree walk exists to every seen node.
proof fn tree_walk_spec<S>(graph: ReachableGraph<S>, starts: Seq<usize>, mask: Seq<bool>, s: Search, head: int, goal: int) -> (r: (Seq<usize>, Seq<usize>))
    requires
        graph.wf(),
        mask.len() == graph.states.len(),
        search_inv(graph, starts, mask, s, head),
        0 <= goal < graph.states.len(),
        s.seen@[goal],
    ensures
        r.0.len() > 0,
        r.1.len() == r.0.len(),
        starts.contains(r.0[0]),
        r.0[r.0.len() - 1] == goal,
        forall|i: int| 0 <= i < r.0.len() ==> #[trigger] r.0[i] < graph.states.len() && mask[r.0[i] as int],
        forall|i: int|
            0 < i < r.0.len() ==> #[trigger] r.1[i] < graph.outgoing@[r.0[i - 1] as int].len()
                && graph.outgoing@[r.0[i - 1] as int]@[r.1[i] as int].target == r.0[i],
    decreases s.order@[goal],
{
    lemma_search_pred(graph, starts, mask, s, head, goal);
    if s.root@[goal] {
        (seq![goal as usize], seq![0usize])
    } else {
        let pe = s.predecessor@[goal]->0;
        let (nodes, edges) = tree_walk_spec(graph, starts, mask, s, head, pe.0 as int);
        let rn = nodes.push(goal as usize);
        let re = edges.push(pe.1);
        assert forall|i: int| 0 < i < rn.len() implies #[trigger] re[i] < graph.outgoing@[rn[i - 1] as int].len()
            && graph.outgoing@[rn[i - 1] as int]@[re[i] as int].target == rn[i] by {
            if i < rn.len() - 1 {
                assert(re[i] == edges[i] && rn[i] == nodes[i] && rn[i - 1] == nodes[i - 1]);
            }
        }
        (rn, re)
    }
}

} // verus!
