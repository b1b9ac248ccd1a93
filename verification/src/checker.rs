//! Deterministic breadth-first exploration of a model's reachable states and
//! the safety checker built on it.
use crate::graph::SnapshotEdge;
use crate::model::{Invariant, ModelError, Transition, TransitionSystem, invariant_names};
use crate::state::{views_of, StateValue};
use crate::text::{lemma_text_less_asymmetric, lemma_text_less_irreflexive, lemma_text_less_total,
    lemma_text_less_transitive, less_text, chars_of, same_text, text_less, trim};
use vstd::prelude::*;

verus! {

/// Whether exploration proved safety, found a violation, or stopped before a
/// proof was complete.
#[derive(Debug, Clone, Copy, PartialEq, Eq, Structural)]
pub enum VerificationStatus {
    Safe,
    Violated,
    Inconclusive,
}

/// Resource boundary that prevented exhaustive exploration.
#[derive(Debug, Clone, Copy, PartialEq, Eq, Structural)]
pub enum InconclusiveReason {
    StateLimitReached { limit: usize },
    TransitionLimitReached { limit: usize },
    DepthLimitReached { limit: usize },
}

/// Optional deterministic bounds for explicit-state exploration.
///
/// A limit is only reported when it actually prevents required work.
#[derive(Debug, Clone, Copy, PartialEq, Eq, Structural)]
pub struct ExplorationLimits {
    pub max_states: Option<usize>,
    pub max_transitions: Option<usize>,
    pub max_depth: Option<usize>,
}

/// Limits that bound nothing.
pub open spec fn no_limits() -> ExplorationLimits {
    ExplorationLimits { max_states: None, max_transitions: None, max_depth: None }
}

impl ExplorationLimits {
    pub fn unbounded() -> (limits: Self)
        ensures
            limits == no_limits(),
    {
        ExplorationLimits { max_states: None, max_transitions: None, max_depth: None }
    }
}

impl Default for ExplorationLimits {
    fn default() -> (limits: Self)
        ensures
            limits.max_states is None,
            limits.max_transitions is None,
            limits.max_depth is None,
    {
        ExplorationLimits::unbounded()
    }
}

/// One state in a reconstructed path. `action` is the transition taken from
/// the previous state; it is `None` for an initial state.
#[derive(Debug, Clone, PartialEq, Eq)]
pub struct TraceStep<S> {
    pub action: Option<String>,
    pub state: S,
}

/// The first invariant violation encountered by deterministic BFS.
#[derive(Debug, Clone, PartialEq, Eq)]
pub struct Counterexample<S> {
    pub invariant: String,
    pub trace: Vec<TraceStep<S>>,
}

/// Summary returned by the semantic checker.
#[derive(Debug, Clone, PartialEq, Eq)]
pub struct CheckResult<S> {
    pub status: VerificationStatus,
    pub discovered_states: usize,
    pub checked_states: usize,
    pub explored_transitions: usize,
    /// Greatest BFS depth among states retained by the search; `None` only
    /// when a zero-state budget prevents loading the first initial state.
    pub max_depth_reached: Option<usize>,
    /// Examined transition edges grouped by action label, ordered by label.
    /// The counts always sum to `explored_transitions`.
    pub transitions_by_action: Vec<(String, usize)>,
    pub counterexample: Option<Counterexample<S>>,
    pub inconclusive_reason: Option<InconclusiveReason>,
}

// ----- per-action transition counts -----

/// Labels strictly increase along the sequence.
pub open spec fn counts_ordered(counts: Seq<(String, usize)>) -> bool {
    forall|i: int, j: int|
        0 <= i < j < counts.len() ==> text_less(#[trigger] counts[i].0@, #[trigger] counts[j].0@)
}

/// The sum of all counts.
pub open spec fn counts_total(counts: Seq<(String, usize)>) -> int
    decreases counts.len(),
{
    if counts.len() == 0 {
        0
    } else {
        counts_total(counts.drop_last()) + counts.last().1
    }
}

proof fn lemma_counts_total_split(counts: Seq<(String, usize)>, i: int)
    requires
        0 <= i <= counts.len(),
    ensures
        counts_total(counts) == counts_total(counts.subrange(0, i)) + counts_total(
            counts.subrange(i, counts.len() as int),
        ),
    decreases counts.len(),
{
    if i == counts.len() {
        assert(counts.subrange(0, i) =~= counts);
        assert(counts.subrange(i, counts.len() as int) =~= Seq::<(String, usize)>::empty());
    } else {
        lemma_counts_total_split(counts.drop_last(), i);
        assert(counts.drop_last().subrange(0, i) =~= counts.subrange(0, i));
        assert(counts.subrange(i, counts.len() as int).drop_last() =~= counts.drop_last().subrange(
            i,
            counts.len() - 1,
        ));
    }
}

proof fn lemma_counts_total_nonneg(counts: Seq<(String, usize)>)
    ensures
        counts_total(counts) >= 0,
        forall|i: int| 0 <= i < counts.len() ==> counts[i].1 <= counts_total(counts),
    decreases counts.len(),
{
    if counts.len() > 0 {
        lemma_counts_total_nonneg(counts.drop_last());
        assert forall|i: int| 0 <= i < counts.len() implies counts[i].1 <= counts_total(counts) by {
            if i < counts.len() - 1 {
                assert(counts[i] == counts.drop_last()[i]);
            }
        }
    }
}

proof fn lemma_counts_total_update(counts: Seq<(String, usize)>, i: int, v: (String, usize))
    requires
        0 <= i < counts.len(),
    ensures
        counts_total(counts.update(i, v)) == counts_total(counts) - counts[i].1 + v.1,
    decreases counts.len(),
{
    if i < counts.len() - 1 {
        lemma_counts_total_update(counts.drop_last(), i, v);
        assert(counts.update(i, v).drop_last() =~= counts.drop_last().update(i, v));
    } else {
        assert(counts.update(i, v).drop_last() =~= counts.drop_last());
    }
}

proof fn lemma_counts_total_insert(counts: Seq<(String, usize)>, i: int, v: (String, usize))
    requires
        0 <= i <= counts.len(),
    ensures
        counts_total(counts.insert(i, v)) == counts_total(counts) + v.1,
    decreases counts.len(),
{
    if i < counts.len() {
        lemma_counts_total_insert(counts.drop_last(), i, v);
        assert(counts.insert(i, v).drop_last() =~= counts.drop_last().insert(i, v));
    } else {
        assert(counts.insert(i, v).drop_last() =~= counts);
    }
}

/// Count one more transition labelled `action`, keeping labels ordered.
fn record_action(counts: &mut Vec<(String, usize)>, action: &String)
    requires
        counts_ordered(old(counts)@),
        counts_total(old(counts)@) < usize::MAX,
    ensures
        counts_ordered(final(counts)@),
        counts_total(final(counts)@) == counts_total(old(counts)@) + 1,
        exists|i: int|
            0 <= i < final(counts)@.len() && #[trigger] final(counts)@[i].0@ == action@,
{
    let key = chars_of(action.as_str());
    let mut i: usize = 0;
    proof {
        lemma_counts_total_nonneg(counts@);
    }
    while i < counts.len()
        invariant
            i <= counts.len(),
            key@ == action@,
            forall|j: int| 0 <= j < i ==> text_less(#[trigger] counts@[j].0@, action@),
        ensures
            i <= counts.len(),
            forall|j: int| 0 <= j < i ==> text_less(#[trigger] counts@[j].0@, action@),
            i < counts.len() ==> !text_less(counts@[i as int].0@, action@),
        decreases counts.len() - i,
    {
        let here = chars_of(counts[i].0.as_str());
        if !less_text(&here, &key) {
            break;
        }
        i += 1;
    }
    let ghost before = counts@;
    if i < counts.len() && same_text(counts[i].0.as_str(), action.as_str()) {
        let (label, n) = counts.remove(i);
        proof {
            lemma_counts_total_nonneg(before);
        }
        counts.insert(i, (label, n + 1));
        proof {
            assert(counts@ =~= before.update(i as int, (before[i as int].0, (n + 1) as usize)));
            lemma_counts_total_update(before, i as int, (before[i as int].0, (n + 1) as usize));
            assert(counts@[i as int].0@ == action@);
            assert forall|a: int, b: int| 0 <= a < b < counts@.len() implies text_less(
                #[trigger] counts@[a].0@,
                #[trigger] counts@[b].0@,
            ) by {
                assert(before[a].0@ == counts@[a].0@);
                assert(before[b].0@ == counts@[b].0@);
            }
        }
    } else {
        counts.insert(i, (action.clone(), 1));
        proof {
            assert(counts@ =~= before.insert(i as int, (*action, 1usize)));
            lemma_counts_total_insert(before, i as int, (*action, 1usize));
            assert(counts@[i as int].0@ == action@);
            if i < before.len() {
                lemma_text_less_total(before[i as int].0@, action@);
                assert(before[i as int].0@ != action@);
                assert(text_less(action@, before[i as int].0@));
            }
            assert forall|a: int, b: int| 0 <= a < b < counts@.len() implies text_less(
                #[trigger] counts@[a].0@,
                #[trigger] counts@[b].0@,
            ) by {
                if a < i && b == i {
                } else if a < i && b > i {
                    lemma_text_less_transitive(counts@[a].0@, action@, before[i as int].0@);
                    if b - 1 > i {
                        lemma_text_less_transitive(counts@[a].0@, before[i as int].0@, before[b - 1].0@);
                    }
                } else if a == i && b > i {
                    if b - 1 > i {
                        lemma_text_less_transitive(action@, before[i as int].0@, before[b - 1].0@);
                    }
                } else if a > i {
                    assert(counts@[a] == before[a - 1]);
                    assert(counts@[b] == before[b - 1]);
                } else {
                    assert(counts@[a] == before[a]);
                    assert(counts@[b] == before[b]);
                }
            }
        }
    }
}

// ----- breadth-first search -----

struct Node<S> {
    state: S,
    predecessor: Option<usize>,
    action: Option<String>,
    depth: usize,
}

/// Internal outcome of the one canonical BFS.
pub(crate) enum GraphSearchOutcome<S> {
    Exhausted,
    Match { label: String, trace: Vec<TraceStep<S>> },
    Inconclusive(InconclusiveReason),
}

pub(crate) struct GraphSearchResult<S> {
    pub outcome: GraphSearchOutcome<S>,
    pub discovered_states: usize,
    pub checked_states: usize,
    pub explored_transitions: usize,
    pub max_depth_reached: Option<usize>,
    pub transitions_by_action: Vec<(String, usize)>,
    /// Every state whose successors were evaluated, with those successors, in
    /// expansion order.
    pub captured: Vec<(S, Vec<Transition<S>>)>,
    /// Every retained state, in discovery order (expansion order is a prefix).
    pub states: Vec<S>,
    /// For each expanded state, the counted successor edges whose targets
    /// were retained, as dense ids into `states`.
    pub edges: Vec<Vec<SnapshotEdge>>,
}

/// `e` is the retained form of transition `t` over the state views `views`.
pub open spec fn edge_matches<S: View>(e: SnapshotEdge, t: Transition<S>, views: Seq<S::V>) -> bool {
    &&& e.action@ == t.action@
    &&& e.target < views.len()
    &&& views[e.target as int] == t.next@
}

/// The retained edges follow the recorded successor lists in order; every
/// list but possibly the last is retained whole, and all are when
/// `complete`.
pub open spec fn edges_follow<S: View>(
    edges: Seq<Vec<SnapshotEdge>>,
    captured: Seq<(S, Vec<Transition<S>>)>,
    views: Seq<S::V>,
    complete: bool,
) -> bool {
    &&& edges.len() == captured.len()
    &&& forall|p: int| 0 <= p < edges.len() ==> #[trigger] edges[p].len() <= captured[p].1.len()
    &&& forall|p: int|
        0 <= p < edges.len() && (complete || p < edges.len() - 1) ==> #[trigger] edges[p].len()
            == captured[p].1.len()
    &&& forall|p: int, k: int|
        0 <= p < edges.len() && 0 <= k < edges[p].len() ==> edge_matches(
            #[trigger] edges[p]@[k],
            captured[p].1@[k],
            views,
        )
}

proof fn lemma_edges_follow_extend<S: View>(
    edges: Seq<Vec<SnapshotEdge>>,
    captured: Seq<(S, Vec<Transition<S>>)>,
    views: Seq<S::V>,
    v: S::V,
    complete: bool,
)
    requires
        edges_follow(edges, captured, views, complete),
    ensures
        edges_follow(edges, captured, views.push(v), complete),
{
    assert forall|p: int, k: int|
        0 <= p < edges.len() && 0 <= k < edges[p].len() implies edge_matches(
            #[trigger] edges[p]@[k],
            captured[p].1@[k],
            views.push(v),
        ) by {
        assert(edge_matches(edges[p]@[k], captured[p].1@[k], views));
    }
}

spec fn node_views<S: View>(nodes: Seq<Node<S>>) -> Seq<S::V> {
    nodes.map_values(|n: Node<S>| n.state@)
}

fn states_of<S: StateValue>(nodes: &Vec<Node<S>>) -> (states: Vec<S>)
    ensures
        views_of(states@) == node_views(nodes@),
        states.len() == nodes.len(),
        forall|i: int| 0 <= i < states.len() ==> (#[trigger] states@[i])@ == nodes@[i].state@,
{
    let mut states: Vec<S> = Vec::new();
    let mut i: usize = 0;
    while i < nodes.len()
        invariant
            i <= nodes.len(),
            states.len() == i,
            forall|j: int| 0 <= j < i ==> (#[trigger] states@[j])@ == nodes@[j].state@,
        decreases nodes.len() - i,
    {
        states.push(nodes[i].state.copy_value());
        i += 1;
    }
    assert(views_of(states@) =~= node_views(nodes@));
    states
}

/// `from --action--> to` is one of the recorded successor edges.
pub open spec fn step_recorded<S: View>(
    captured: Seq<(S, Vec<Transition<S>>)>,
    from: S::V,
    action: Seq<char>,
    to: S::V,
) -> bool {
    exists|p: int, t: int|
        #![trigger captured[p], captured[p].1@[t]]
        0 <= p < captured.len() && captured[p].0@ == from && 0 <= t < captured[p].1.len()
            && captured[p].1@[t].action@ == action && captured[p].1@[t].next@ == to
}

/// A trace is a path through the recorded successor lists that starts at an
/// initial state: its first step has no action and every later step follows
/// a recorded edge.
pub open spec fn trace_follows<S: View>(
    trace: Seq<TraceStep<S>>,
    captured: Seq<(S, Vec<Transition<S>>)>,
    initial: Seq<S>,
) -> bool {
    &&& trace.len() > 0
    &&& trace[0].action is None
    &&& views_of(initial).contains(trace[0].state@)
    &&& forall|k: int|
        0 < k < trace.len() ==> (#[trigger] trace[k]).action is Some && step_recorded(
            captured,
            trace[k - 1].state@,
            trace[k].action->0@,
            trace[k].state@,
        )
}

spec fn nodes_wf<S: View>(
    nodes: Seq<Node<S>>,
    captured: Seq<(S, Vec<Transition<S>>)>,
    initial: Seq<S>,
) -> bool {
    &&& captured.len() <= nodes.len()
    &&& forall|i: int| 0 <= i < captured.len() ==> (#[trigger] captured[i]).0@ == nodes[i].state@
    &&& forall|i: int| 0 <= i < nodes.len() ==> match #[trigger] nodes[i].predecessor {
        Some(p) => {
            &&& p < i
            &&& p < captured.len()
            &&& nodes[i].action is Some
            &&& nodes[i].depth == nodes[p as int].depth + 1
            &&& step_recorded(captured, nodes[p as int].state@, nodes[i].action->0@, nodes[i].state@)
        },
        None => nodes[i].action is None && nodes[i].depth == 0 && views_of(initial).contains(
            nodes[i].state@,
        ),
    }
    &&& forall|i: int| 0 <= i < nodes.len() ==> #[trigger] nodes[i].depth <= i
    &&& forall|i: int, j: int|
        0 <= i < j < nodes.len() ==> #[trigger] nodes[i].state@ != #[trigger] nodes[j].state@
}

/// The search-tree path from a root to `node_id`, as node ids.
fn ancestry<S: View>(
    nodes: &Vec<Node<S>>,
    node_id: usize,
    Ghost(captured): Ghost<Seq<(S, Vec<Transition<S>>)>>,
    Ghost(initial): Ghost<Seq<S>>,
) -> (path: Vec<usize>)
    requires
        nodes_wf(nodes@, captured, initial),
        node_id < nodes.len(),
    ensures
        path.len() == nodes@[node_id as int].depth + 1,
        path@[path.len() - 1] == node_id,
        nodes@[path@[0] as int].predecessor is None,
        forall|k: int| 0 <= k < path.len() ==> #[trigger] path@[k] < nodes.len(),
        forall|k: int|
            0 < k < path.len() ==> nodes@[#[trigger] path@[k] as int].predecessor == Some(path@[k - 1]),
{
    let mut reversed: Vec<usize> = Vec::new();
    let mut id = node_id;
    reversed.push(id);
    while nodes[id].predecessor.is_some()
        invariant
            nodes_wf(nodes@, captured, initial),
            id < nodes.len(),
            reversed.len() > 0,
            reversed@[0] == node_id,
            reversed@[reversed.len() - 1] == id,
            reversed.len() - 1 + nodes@[id as int].depth == nodes@[node_id as int].depth,
            forall|k: int| 0 <= k < reversed.len() ==> #[trigger] reversed@[k] < nodes.len(),
            forall|k: int|
                0 <= k < reversed.len() - 1 ==> nodes@[#[trigger] reversed@[k] as int].predecessor
                    == Some(reversed@[k + 1]),
        decreases id,
    {
        let p = match nodes[id].predecessor {
            Some(p) => p,
            None => id,
        };
        id = p;
        reversed.push(id);
    }
    let n = reversed.len();
    let mut path: Vec<usize> = Vec::new();
    let mut k: usize = 0;
    while k < n
        invariant
            n == reversed.len(),
            k <= n,
            path.len() == k,
            forall|j: int| 0 <= j < k ==> #[trigger] path@[j] == reversed@[n - 1 - j],
        decreases n - k,
    {
        path.push(reversed[n - 1 - k]);
        k += 1;
    }
    proof {
        assert forall|j: int| 0 < j < path.len() implies nodes@[#[trigger] path@[j] as int].predecessor
            == Some(path@[j - 1]) by {
            assert(path@[j] == reversed@[n - 1 - j]);
            assert(path@[j - 1] == reversed@[n - 1 - j + 1]);
        }
    }
    path
}

fn reconstruct_trace<S: StateValue>(
    nodes: &Vec<Node<S>>,
    node_id: usize,
    Ghost(captured): Ghost<Seq<(S, Vec<Transition<S>>)>>,
    Ghost(initial): Ghost<Seq<S>>,
) -> (trace: Vec<TraceStep<S>>)
    requires
        nodes_wf(nodes@, captured, initial),
        node_id < nodes.len(),
    ensures
        trace_follows(trace@, captured, initial),
        trace@.len() == nodes@[node_id as int].depth + 1,
        trace@.last().state@ == nodes@[node_id as int].state@,
{
    let path = ancestry(nodes, node_id, Ghost(captured), Ghost(initial));
    let mut trace: Vec<TraceStep<S>> = Vec::new();
    let mut k: usize = 0;
    while k < path.len()
        invariant
            nodes_wf(nodes@, captured, initial),
            k <= path.len(),
            trace.len() == k,
            forall|j: int| 0 <= j < path.len() ==> #[trigger] path@[j] < nodes.len(),
            forall|j: int|
                0 <= j < k ==> (#[trigger] trace@[j]).state@ == nodes@[path@[j] as int].state@
                    && trace@[j].action == nodes@[path@[j] as int].action,
        decreases path.len() - k,
    {
        let node = &nodes[path[k]];
        trace.push(TraceStep { action: node.action.clone(), state: node.state.copy_value() });
        k += 1;
    }
    proof {
        assert forall|j: int| 0 < j < trace@.len() implies (#[trigger] trace@[j]).action is Some
            && step_recorded(
            captured,
            trace@[j - 1].state@,
            trace@[j].action->0@,
            trace@[j].state@,
        ) by {
            let c = path@[j] as int;
            assert(nodes@[c].predecessor == Some(path@[j - 1]));
        }
        let r = path@[0] as int;
        assert(nodes@[r].predecessor is None);
    }
    trace
}

/// Every recorded successor leads to a state among the first `count` nodes.
spec fn successors_known<S: View>(
    nodes: Seq<Node<S>>,
    captured: Seq<(S, Vec<Transition<S>>)>,
    upto: int,
) -> bool {
    forall|p: int, t: int|
        0 <= p < upto && 0 <= t < captured[p].1.len() ==> exists|q: int|
            0 <= q < nodes.len() && #[trigger] nodes[q].state@ == (#[trigger] captured[p].1@[t]).next@
}

/// The states of the recorded expansions are pairwise distinct and every
/// recorded successor is itself a recorded state: a complete reachable graph.
pub open spec fn capture_closed<S: View>(captured: Seq<(S, Vec<Transition<S>>)>) -> bool {
    &&& forall|i: int, j: int|
        0 <= i < j < captured.len() ==> (#[trigger] captured[i]).0@ != (#[trigger] captured[j]).0@
    &&& forall|p: int, t: int|
        0 <= p < captured.len() && 0 <= t < captured[p].1.len() ==> exists|q: int|
            0 <= q < captured.len() && (#[trigger] captured[q]).0@ == (
            #[trigger] captured[p].1@[t]).next@
}

/// Some recorded expansion is of a state with view `v`.
pub open spec fn captured_state<S: View>(captured: Seq<(S, Vec<Transition<S>>)>, v: S::V) -> bool {
    exists|q: int| 0 <= q < captured.len() && (#[trigger] captured[q]).0@ == v
}

/// What every run of the search guarantees, whatever the transition relation
/// and the invariant predicates answer.
pub(crate) open spec fn search_result_wf<S: View>(
    res: GraphSearchResult<S>,
    initial: Seq<S>,
    limits: ExplorationLimits,
    inv_names: Seq<Seq<char>>,
    check_invariants: bool,
) -> bool {
    &&& counts_ordered(res.transitions_by_action@)
    &&& counts_total(res.transitions_by_action@) == res.explored_transitions
    &&& res.checked_states <= res.discovered_states
    &&& res.captured.len() <= res.checked_states
    &&& res.states.len() == res.discovered_states
    &&& forall|i: int|
        0 <= i < res.captured.len() ==> (#[trigger] res.captured@[i]).0@ == res.states@[i]@
    &&& forall|i: int, j: int|
        0 <= i < j < res.states.len() ==> (#[trigger] res.states@[i])@ != (#[trigger] res.states@[j])@
    &&& edges_follow(res.edges@, res.captured@, views_of(res.states@), res.outcome is Exhausted)
    &&& (res.max_depth_reached is None) == (res.discovered_states == 0)
    &&& (limits.max_states matches Some(l) ==> res.discovered_states <= l)
    &&& (limits.max_transitions matches Some(l) ==> res.explored_transitions <= l)
    &&& (limits.max_depth matches Some(l) ==> (res.max_depth_reached matches Some(d) ==> d <= l))
    &&& forall|i: int, j: int|
        0 <= i < j < res.captured.len() ==> (#[trigger] res.captured@[i]).0@ != (
        #[trigger] res.captured@[j]).0@
    &&& forall|i: int, k: int|
                0 <= i < res.captured.len() && 0 <= k < res.captured@[i].1.len() ==> trim(
                    (#[trigger] res.captured@[i].1@[k]).action@,
                ).len() > 0
    &&& match res.outcome {
        GraphSearchOutcome::Exhausted => {
            &&& res.checked_states == res.discovered_states
            &&& res.captured.len() == res.discovered_states
            &&& capture_closed(res.captured@)
            &&& forall|i: int| 0 <= i < initial.len() ==> #[trigger] captured_state(res.captured@, initial[i]@)
        },
        GraphSearchOutcome::Match { label, trace } => {
            &&& check_invariants
            &&& inv_names.contains(label@)
            &&& trace_follows(trace@, res.captured@, initial)
            &&& res.captured.len() + 1 == res.checked_states
        },
        GraphSearchOutcome::Inconclusive(reason) => match reason {
            InconclusiveReason::StateLimitReached { limit } => limits.max_states == Some(limit)
                && res.discovered_states == limit,
            InconclusiveReason::TransitionLimitReached { limit } => res.explored_transitions
                == limit && (limits.max_transitions == Some(limit) || (
            limits.max_transitions is None && limit == usize::MAX)),
            InconclusiveReason::DepthLimitReached { limit } => limits.max_depth == Some(limit),
        },
    }
}

/// Some node holds a state with view `v`.
spec fn holds_state<S: View>(nodes: Seq<Node<S>>, v: S::V) -> bool {
    exists|q: int| 0 <= q < nodes.len() && #[trigger] nodes[q].state@ == v
}

spec fn max_depth_of<S>(nodes: Seq<Node<S>>, m: Option<usize>) -> bool {
    &&& (m is None) == (nodes.len() == 0)
    &&& m matches Some(d) ==> (forall|i: int| 0 <= i < nodes.len() ==> #[trigger] nodes[i].depth <= d)
}

/// The invariant's predicate answered true on a state with view `v`.
pub open spec fn passes<S: View>(inv: Invariant<S>, v: S::V) -> bool {
    exists|s: S| s@ == v && #[trigger] inv.may_answer(s, true)
}

/// Every invariant of `invs` answered true on every recorded expansion.
pub open spec fn all_pass<S: View>(invs: Seq<Invariant<S>>, captured: Seq<(S, Vec<Transition<S>>)>) -> bool {
    forall|i: int, j: int|
        0 <= i < captured.len() && 0 <= j < invs.len() ==> #[trigger] passes(invs[j], (#[trigger] captured[i]).0@)
}

/// Invariant `j` is the first of `invs` whose predicate may fail on `s`
/// in this evaluation: every earlier one answered true, and it answered
/// false.
pub open spec fn first_failure<S>(invs: Seq<Invariant<S>>, s: S, j: int) -> bool {
    &&& 0 <= j < invs.len()
    &&& invs[j].may_answer(s, false)
    &&& forall|k: int| 0 <= k < j ==> #[trigger] invs[k].may_answer(s, true)
}

/// The first invariant whose predicate fails on `state`.
fn first_violated_invariant<S>(invariants: &[Invariant<S>], state: &S) -> (label: Option<String>)
    ensures
        match label {
            Some(l) => exists|j: int| #[trigger] first_failure(invariants@, *state, j) && invariant_names(invariants@)[j] == l@,
            None => forall|j: int| 0 <= j < invariants@.len() ==> #[trigger] invariants@[j].may_answer(*state, true),
        },
{
    let mut i: usize = 0;
    while i < invariants.len()
        invariant
            i <= invariants.len(),
            forall|j: int| 0 <= j < i ==> #[trigger] invariants@[j].may_answer(*state, true),
        decreases invariants.len() - i,
    {
        let ok = invariants[i].holds(state);
        if !ok {
            let name = String::from_str(invariants[i].name());
            assert(invariant_names(invariants@)[i as int] == name@);
            assert(first_failure(invariants@, *state, i as int));
            return Some(name);
        }
        i += 1;
    }
    None
}

/// Index of the node holding `state`, if any.
fn find_node<S: StateValue>(nodes: &Vec<Node<S>>, state: &S) -> (found: Option<usize>)
    ensures
        found matches Some(q) ==> q < nodes.len() && nodes@[q as int].state@ == state@,
        found is None ==> forall|j: int| 0 <= j < nodes.len() ==> nodes@[j].state@ != state@,
{
    let mut q: usize = 0;
    while q < nodes.len()
        invariant
            q <= nodes.len(),
            forall|j: int| 0 <= j < q ==> nodes@[j].state@ != state@,
        decreases nodes.len() - q,
    {
        if nodes[q].state.same_value(state) {
            return Some(q);
        }
        q += 1;
    }
    None
}

proof fn lemma_edges_push<S: View>(
    edges: Seq<Vec<SnapshotEdge>>,
    captured: Seq<(S, Vec<Transition<S>>)>,
    views: Seq<S::V>,
    current: Vec<SnapshotEdge>,
    head: int,
)
    requires
        captured.len() == head + 1,
        edges.len() == head,
        edges_follow(edges, captured.subrange(0, head), views, true),
        current.len() <= captured[head].1.len(),
        forall|j: int| 0 <= j < current.len() ==> edge_matches(#[trigger] current@[j], captured[head].1@[j], views),
    ensures
        edges_follow(edges.push(current), captured, views, false),
        current.len() == captured[head].1.len() ==> edges_follow(edges.push(current), captured, views, true),
{
    let e = edges.push(current);
    assert forall|p: int| 0 <= p < head implies #[trigger] captured.subrange(0, head)[p] == captured[p] by {}
    assert forall|p: int, k: int| 0 <= p < e.len() && 0 <= k < e[p].len() implies edge_matches(
        #[trigger] e[p]@[k],
        captured[p].1@[k],
        views,
    ) by {
        if p < head {
            assert(captured.subrange(0, head)[p] == captured[p]);
            assert(edge_matches(edges[p]@[k], captured.subrange(0, head)[p].1@[k], views));
        }
    }
    assert forall|p: int| 0 <= p < e.len() implies #[trigger] e[p].len() <= captured[p].1.len() by {
        if p < head {
            assert(captured.subrange(0, head)[p] == captured[p]);
        }
    }
    assert forall|p: int| 0 <= p < e.len() && p < e.len() - 1 implies #[trigger] e[p].len() == captured[p].1.len() by {
        assert(captured.subrange(0, head)[p] == captured[p]);
    }
}

/// Canonical deterministic BFS used by safety checking and by reachable-graph
/// capture. States are dequeued in discovery order; with `check_invariants`
/// the invariants are evaluated on each dequeued state before its successors
/// are generated, and the first failure ends the search with a shortest
/// trace to that state.
#[verifier::rlimit(50)]
pub(crate) fn search_with_probes<S: StateValue>(
    model: &TransitionSystem<S>,
    limits: ExplorationLimits,
    check_invariants: bool,
) -> (r: Result<GraphSearchResult<S>, ModelError>)
    ensures
        r matches Ok(res) ==> search_result_wf(
            res,
            model.initial(),
            limits,
            invariant_names(model.invariant_list()),
            check_invariants,
        ),
        r matches Ok(res) ==> (check_invariants ==> all_pass(model.invariant_list(), res.captured@)),
        r matches Ok(res) ==> (res.outcome matches GraphSearchOutcome::Match { label, trace } ==> exists|s: S, j: int|
            s@ == trace@.last().state@ && #[trigger] first_failure(model.invariant_list(), s, j) && invariant_names(
                model.invariant_list(),
            )[j] == label@),
{
    let ghost initial = model.initial();
    let initial_states = model.initial_states();
    let invariants = model.invariants();
    let mut nodes: Vec<Node<S>> = Vec::new();
    let mut captured: Vec<(S, Vec<Transition<S>>)> = Vec::new();
    let mut max_depth_reached: Option<usize> = None;
    let mut transitions_by_action: Vec<(String, usize)> = Vec::new();
    let mut edges: Vec<Vec<SnapshotEdge>> = Vec::new();
    let mut i: usize = 0;
    while i < initial_states.len()
        invariant
            initial_states@ == initial,
            i <= initial_states.len(),
            captured.len() == 0,
            edges.len() == 0,
            transitions_by_action.len() == 0,
            nodes_wf(nodes@, captured@, initial),
            max_depth_of(nodes@, max_depth_reached),
            max_depth_reached matches Some(d) ==> d == 0,
            limits.max_states matches Some(l) ==> nodes.len() <= l,
            forall|j: int| 0 <= j < i ==> #[trigger] holds_state(nodes@, initial[j]@),
        decreases initial_states.len() - i,
    {
        let ghost start = nodes@;
        let found = find_node(&nodes, &initial_states[i]);
        let known = found.is_some();
        if !known {
            if let Some(limit) = limits.max_states {
                if nodes.len() >= limit {
                    return Ok(
                        GraphSearchResult {
                            outcome: GraphSearchOutcome::Inconclusive(
                                InconclusiveReason::StateLimitReached { limit },
                            ),
                            discovered_states: nodes.len(),
                            checked_states: 0,
                            explored_transitions: 0,
                            max_depth_reached,
                            transitions_by_action,
                            captured,
                            states: states_of(&nodes),
                            edges,
                        },
                    );
                }
            }
            let ghost before = nodes@;
            nodes.push(
                Node {
                    state: initial_states[i].copy_value(),
                    predecessor: None,
                    action: None,
                    depth: 0,
                },
            );
            proof {
                assert(views_of(initial)[i as int] == initial[i as int]@);
                assert forall|a: int| 0 <= a < nodes.len() implies match #[trigger] nodes@[a].predecessor {
                    Some(p) => {
                        &&& p < a
                        &&& p < captured@.len()
                        &&& nodes@[a].action is Some
                        &&& nodes@[a].depth == nodes@[p as int].depth + 1
                        &&& step_recorded(captured@, nodes@[p as int].state@, nodes@[a].action->0@, nodes@[a].state@)
                    },
                    None => nodes@[a].action is None && nodes@[a].depth == 0 && views_of(initial).contains(
                        nodes@[a].state@,
                    ),
                } by {
                    if a < before.len() {
                        assert(nodes@[a] == before[a]);
                    }
                }
                assert forall|a: int, b: int| 0 <= a < b < nodes.len() implies #[trigger] nodes@[a].state@
                    != #[trigger] nodes@[b].state@ by {
                    if b < before.len() {
                        assert(nodes@[a] == before[a] && nodes@[b] == before[b]);
                    } else {
                        assert(nodes@[a] == before[a]);
                    }
                }
            }
            max_depth_reached = Some(0);
        }
        proof {
            assert forall|j: int| 0 <= j <= i implies #[trigger] holds_state(nodes@, initial[j]@) by {
                if j == i && !known {
                    assert(nodes@[nodes.len() - 1].state@ == initial[j]@);
                } else if j == i {
                    let q = found->0 as int;
                    assert(nodes@[q].state@ == initial[j]@);
                } else {
                    assert(holds_state(start, initial[j]@));
                    let q = choose|q: int| 0 <= q < start.len() && #[trigger] start[q].state@ == initial[j]@;
                    assert(nodes@[q] == start[q]);
                }
            }
        }
        i += 1;
    }

    let mut head: usize = 0;
    let mut explored_transitions: usize = 0;
    while head < nodes.len()
        invariant
            initial_states@ == initial,
            initial == model.initial(),
            invariants@ == model.invariant_list(),
            head <= nodes.len(),
            captured.len() == head,
            check_invariants ==> all_pass(model.invariant_list(), captured@),
            edges_follow(edges@, captured@, node_views(nodes@), true),
            nodes_wf(nodes@, captured@, initial),
            successors_known(nodes@, captured@, head as int),
            max_depth_of(nodes@, max_depth_reached),
            limits.max_states matches Some(l) ==> nodes.len() <= l,
            limits.max_transitions matches Some(l) ==> explored_transitions <= l,
            limits.max_depth matches Some(l) ==> (max_depth_reached matches Some(d) ==> d <= l),
            counts_ordered(transitions_by_action@),
            counts_total(transitions_by_action@) == explored_transitions,
            forall|i: int, k: int|
                0 <= i < captured.len() && 0 <= k < captured@[i].1.len() ==> trim(
                    (#[trigger] captured@[i].1@[k]).action@,
                ).len() > 0,
            forall|j: int| 0 <= j < initial.len() ==> #[trigger] holds_state(nodes@, initial[j]@),
        decreases nodes.len() - head + 2 * (usize::MAX - explored_transitions),
    {
        let depth = nodes[head].depth;
        let ghost n0 = nodes.len() as int;
        let ghost e0 = explored_transitions as int;
        if check_invariants {
            if let Some(label) = first_violated_invariant(invariants, &nodes[head].state) {
                let trace = reconstruct_trace(&nodes, head, Ghost(captured@), Ghost(initial));
                proof {
                    let j = choose|j: int| #[trigger] first_failure(invariants@, nodes@[head as int].state, j) && invariant_names(invariants@)[j] == label@;
                    assert(first_failure(model.invariant_list(), nodes@[head as int].state, j));
                }
                return Ok(
                    GraphSearchResult {
                        outcome: GraphSearchOutcome::Match { label, trace },
                        discovered_states: nodes.len(),
                        checked_states: head + 1,
                        explored_transitions,
                        max_depth_reached,
                        transitions_by_action,
                        captured,
                        states: states_of(&nodes),
                        edges,
                    },
                );
            }
        }
        proof {
            if check_invariants {
                assert forall|j: int| 0 <= j < invariants@.len() implies #[trigger] passes(
                    model.invariant_list()[j],
                    nodes@[head as int].state@,
                ) by {
                    assert(invariants@[j].may_answer(nodes@[head as int].state, true));
                }
            }
        }
        let transitions = model.successors(&nodes[head].state)?;
        let ghost before_capture = captured@;
        captured.push((nodes[head].state.copy_value(), transitions));
        proof {
            if check_invariants {
                assert forall|i: int, j: int|
                    0 <= i < captured@.len() && 0 <= j < model.invariant_list().len() implies #[trigger] passes(
                    model.invariant_list()[j],
                    (#[trigger] captured@[i]).0@,
                ) by {
                    if i < before_capture.len() {
                        assert(captured@[i] == before_capture[i]);
                    }
                }
            }
        }
        proof {
            assert forall|a: int| 0 <= a < nodes.len() implies match #[trigger] nodes@[a].predecessor {
                Some(p) => {
                    &&& p < a
                    &&& p < captured@.len()
                    &&& nodes@[a].action is Some
                    &&& nodes@[a].depth == nodes@[p as int].depth + 1
                    &&& step_recorded(captured@, nodes@[p as int].state@, nodes@[a].action->0@, nodes@[a].state@)
                },
                None => nodes@[a].action is None && nodes@[a].depth == 0 && views_of(initial).contains(
                    nodes@[a].state@,
                ),
            } by {
                if let Some(p) = nodes@[a].predecessor {
                    let (pp, tt) = choose|pp: int, tt: int| #![trigger before_capture[pp], before_capture[pp].1@[tt]]
                        0 <= pp < before_capture.len() && before_capture[pp].0@ == nodes@[p as int].state@ && 0 <= tt < before_capture[pp].1.len()
                        && before_capture[pp].1@[tt].action@ == nodes@[a].action->0@ && before_capture[pp].1@[tt].next@ == nodes@[a].state@;
                    assert(captured@[pp] == before_capture[pp]);
                }
            }
            assert forall|p: int, t: int|
                0 <= p < head && 0 <= t < captured@[p].1.len() implies exists|q: int|
                    0 <= q < nodes.len() && #[trigger] nodes@[q].state@ == (#[trigger] captured@[p].1@[t]).next@ by {
                assert(captured@[p] == before_capture[p]);
            }
        }
        let count = captured[head].1.len();
        let mut current: Vec<SnapshotEdge> = Vec::new();
        proof {
            assert forall|p: int| 0 <= p < head implies #[trigger] captured@[p] == before_capture[p] by {}
        }
        let mut k: usize = 0;
        while k < count
            invariant
                initial_states@ == initial,
                head < nodes.len(),
                captured.len() == head + 1,
                check_invariants ==> all_pass(model.invariant_list(), captured@),
                count == captured@[head as int].1.len(),
                k <= count,
                edges.len() == head,
                edges_follow(edges@, captured@.subrange(0, head as int), node_views(nodes@), true),
                current.len() == k,
                forall|j: int| 0 <= j < k ==> edge_matches(#[trigger] current@[j], captured@[head as int].1@[j], node_views(nodes@)),
                depth == nodes@[head as int].depth,
                nodes.len() as int - 2 * explored_transitions as int + k as int <= n0 - 2 * e0,
                nodes_wf(nodes@, captured@, initial),
                successors_known(nodes@, captured@, head as int),
                forall|t: int|
                    0 <= t < k ==> exists|q: int|
                        0 <= q < nodes.len() && #[trigger] nodes@[q].state@ == (#[trigger] captured@[head as int].1@[t]).next@,
                max_depth_of(nodes@, max_depth_reached),
                limits.max_states matches Some(l) ==> nodes.len() <= l,
                limits.max_transitions matches Some(l) ==> explored_transitions <= l,
                limits.max_depth matches Some(l) ==> (max_depth_reached matches Some(d) ==> d <= l),
                counts_ordered(transitions_by_action@),
                counts_total(transitions_by_action@) == explored_transitions,
                forall|i: int, k: int|
                0 <= i < captured.len() && 0 <= k < captured@[i].1.len() ==> trim(
                    (#[trigger] captured@[i].1@[k]).action@,
                ).len() > 0,
                forall|j: int| 0 <= j < initial.len() ==> #[trigger] holds_state(nodes@, initial[j]@),
            decreases count - k,
        {
            let transition_limit = match limits.max_transitions {
                Some(l) => l,
                None => usize::MAX,
            };
            if explored_transitions >= transition_limit {
                proof {
                    lemma_edges_push(edges@, captured@, node_views(nodes@), current, head as int);
                }
                edges.push(current);
                return Ok(
                    GraphSearchResult {
                        outcome: GraphSearchOutcome::Inconclusive(
                            InconclusiveReason::TransitionLimitReached { limit: transition_limit },
                        ),
                        discovered_states: nodes.len(),
                        checked_states: head + 1,
                        explored_transitions,
                        max_depth_reached,
                        transitions_by_action,
                        captured,
                        states: states_of(&nodes),
                        edges,
                    },
                );
            }
            record_action(&mut transitions_by_action, &captured[head].1[k].action);
            explored_transitions += 1;
            let found = find_node(&nodes, &captured[head].1[k].next);
            if let Some(q) = found {
                current.push(SnapshotEdge { action: captured[head].1[k].action.clone(), target: q });
            }
            let known = found.is_some();
            if !known {
                if let Some(limit) = limits.max_depth {
                    if depth >= limit {
                        proof {
                            lemma_edges_push(edges@, captured@, node_views(nodes@), current, head as int);
                        }
                        edges.push(current);
                        return Ok(
                            GraphSearchResult {
                                outcome: GraphSearchOutcome::Inconclusive(
                                    InconclusiveReason::DepthLimitReached { limit },
                                ),
                                discovered_states: nodes.len(),
                                checked_states: head + 1,
                                explored_transitions,
                                max_depth_reached,
                                transitions_by_action,
                                captured,
                                states: states_of(&nodes),
                                edges,
                            },
                        );
                    }
                }
                if let Some(limit) = limits.max_states {
                    if nodes.len() >= limit {
                        proof {
                            lemma_edges_push(edges@, captured@, node_views(nodes@), current, head as int);
                        }
                        edges.push(current);
                        return Ok(
                            GraphSearchResult {
                                outcome: GraphSearchOutcome::Inconclusive(
                                    InconclusiveReason::StateLimitReached { limit },
                                ),
                                discovered_states: nodes.len(),
                                checked_states: head + 1,
                                explored_transitions,
                                max_depth_reached,
                                transitions_by_action,
                                captured,
                                states: states_of(&nodes),
                                edges,
                            },
                        );
                    }
                }
                let next_depth = depth + 1;
                let ghost before = nodes@;
                let new_node = Node {
                    state: captured[head].1[k].next.copy_value(),
                    predecessor: Some(head),
                    action: Some(captured[head].1[k].action.clone()),
                    depth: next_depth,
                };
                nodes.push(new_node);
                max_depth_reached = match max_depth_reached {
                    Some(m) => if m >= next_depth { Some(m) } else { Some(next_depth) },
                    None => Some(next_depth),
                };
                proof {
                    let a_new = nodes.len() - 1;
                    assert(step_recorded(captured@, nodes@[head as int].state@, nodes@[a_new].action->0@, nodes@[a_new].state@)) by {
                        assert(captured@[head as int].0@ == nodes@[head as int].state@);
                        let _ = captured@[head as int].1@[k as int];
                    }
                    assert forall|a: int| 0 <= a < nodes.len() implies match #[trigger] nodes@[a].predecessor {
                        Some(p) => {
                            &&& p < a
                            &&& p < captured@.len()
                            &&& nodes@[a].action is Some
                            &&& nodes@[a].depth == nodes@[p as int].depth + 1
                            &&& step_recorded(captured@, nodes@[p as int].state@, nodes@[a].action->0@, nodes@[a].state@)
                        },
                        None => nodes@[a].action is None && nodes@[a].depth == 0 && views_of(initial).contains(
                            nodes@[a].state@,
                        ),
                    } by {
                        if a < before.len() {
                            assert(nodes@[a] == before[a]);
                            if let Some(p) = before[a].predecessor {
                                assert(nodes@[p as int] == before[p as int]);
                            }
                        }
                    }
                    assert forall|a: int| 0 <= a < nodes.len() implies #[trigger] nodes@[a].depth <= a by {
                        if a < before.len() {
                            assert(nodes@[a] == before[a]);
                        }
                    }
                    assert forall|a: int, b: int| 0 <= a < b < nodes.len() implies #[trigger] nodes@[a].state@
                        != #[trigger] nodes@[b].state@ by {
                        if b < before.len() {
                            assert(nodes@[a] == before[a] && nodes@[b] == before[b]);
                        } else {
                            assert(nodes@[a] == before[a]);
                        }
                    }
                    assert forall|j: int| 0 <= j < captured.len() implies (#[trigger] captured@[j]).0@ == nodes@[j].state@ by {
                        assert(nodes@[j] == before[j]);
                    }
                    assert forall|p: int, t: int|
                        0 <= p < head && 0 <= t < captured@[p].1.len() implies exists|q: int|
                            0 <= q < nodes.len() && #[trigger] nodes@[q].state@ == (#[trigger] captured@[p].1@[t]).next@ by {
                        let q = choose|q: int| 0 <= q < before.len() && #[trigger] before[q].state@ == captured@[p].1@[t].next@;
                        assert(nodes@[q] == before[q]);
                    }
                    assert forall|t: int| 0 <= t <= k implies exists|q: int|
                        0 <= q < nodes.len() && #[trigger] nodes@[q].state@ == (#[trigger] captured@[head as int].1@[t]).next@ by {
                        if t < k {
                            let q = choose|q: int| 0 <= q < before.len() && #[trigger] before[q].state@ == captured@[head as int].1@[t].next@;
                            assert(nodes@[q] == before[q]);
                        } else {
                            assert(nodes@[a_new].state@ == captured@[head as int].1@[t].next@);
                        }
                    }
                    assert forall|j: int| 0 <= j < initial.len() implies #[trigger] holds_state(nodes@, initial[j]@) by {
                        assert(holds_state(before, initial[j]@));
                        let q = choose|q: int| 0 <= q < before.len() && #[trigger] before[q].state@ == initial[j]@;
                        assert(nodes@[q] == before[q]);
                    }
                    assert(node_views(nodes@) =~= node_views(before).push(nodes@[a_new].state@));
                    lemma_edges_follow_extend(edges@, captured@.subrange(0, head as int), node_views(before), nodes@[a_new].state@, true);
                    assert forall|j: int| 0 <= j < k implies edge_matches(#[trigger] current@[j], captured@[head as int].1@[j], node_views(nodes@)) by {
                        assert(edge_matches(current@[j], captured@[head as int].1@[j], node_views(before)));
                    }
                }
                current.push(SnapshotEdge { action: captured[head].1[k].action.clone(), target: nodes.len() - 1 });
            }
            proof {
                assert(edge_matches(current@[k as int], captured@[head as int].1@[k as int], node_views(nodes@)));
            }
            k += 1;
        }
        proof {
            lemma_edges_push(edges@, captured@, node_views(nodes@), current, head as int);
        }
        edges.push(current);
        head += 1;
    }
    proof {
        assert forall|i: int, j: int| 0 <= i < j < captured.len() implies (#[trigger] captured@[i]).0@ != (#[trigger] captured@[j]).0@ by {
            let _ = nodes@[i];
            let _ = nodes@[j];
        }
        assert forall|p: int, t: int|
            0 <= p < captured.len() && 0 <= t < captured@[p].1.len() implies exists|q: int|
                0 <= q < captured.len() && (#[trigger] captured@[q]).0@ == (#[trigger] captured@[p].1@[t]).next@ by {
            let q = choose|q: int| 0 <= q < nodes.len() && #[trigger] nodes@[q].state@ == captured@[p].1@[t].next@;
            let _ = captured@[q];
        }
        assert forall|i: int| 0 <= i < initial.len() implies #[trigger] captured_state(captured@, initial[i]@) by {
            assert(holds_state(nodes@, initial[i]@));
            let q = choose|q: int| 0 <= q < nodes.len() && #[trigger] nodes@[q].state@ == initial[i]@;
            let _ = captured@[q];
        }
    }
    let res = GraphSearchResult {
            outcome: GraphSearchOutcome::Exhausted,
            discovered_states: nodes.len(),
            checked_states: head,
            explored_transitions,
            max_depth_reached,
            transitions_by_action,
            captured,
            states: states_of(&nodes),
            edges,
        };
    Ok(res)
}

/// The relation between a safety-check result and the exploration limits:
/// consistent status, counters within limits, a reported limit that was
/// actually reached, and a counterexample trace from an initial state.
pub open spec fn check_result_wf<S: View>(
    res: CheckResult<S>,
    initial: Seq<S>,
    limits: ExplorationLimits,
    inv_names: Seq<Seq<char>>,
) -> bool {
    &&& counts_ordered(res.transitions_by_action@)
    &&& counts_total(res.transitions_by_action@) == res.explored_transitions
    &&& res.checked_states <= res.discovered_states
    &&& (res.max_depth_reached is None) == (res.discovered_states == 0)
    &&& (limits.max_states matches Some(l) ==> res.discovered_states <= l)
    &&& (limits.max_transitions matches Some(l) ==> res.explored_transitions <= l)
    &&& (limits.max_depth matches Some(l) ==> (res.max_depth_reached matches Some(d) ==> d <= l))
    &&& match res.status {
        VerificationStatus::Safe => {
            &&& res.counterexample is None
            &&& res.inconclusive_reason is None
            &&& res.checked_states == res.discovered_states
            &&& initial.len() > 0 ==> res.discovered_states > 0
        },
        VerificationStatus::Violated => {
            &&& res.inconclusive_reason is None
            &&& res.counterexample matches Some(c) && inv_names.contains(c.invariant@) && c.trace.len() > 0
                && c.trace@[0].action is None && views_of(initial).contains(c.trace@[0].state@)
                && forall|k: int| 0 < k < c.trace.len() ==> (#[trigger] c.trace@[k]).action is Some
        },
        VerificationStatus::Inconclusive => {
            &&& res.counterexample is None
            &&& res.inconclusive_reason matches Some(reason) && match reason {
                InconclusiveReason::StateLimitReached { limit } => limits.max_states == Some(limit)
                    && res.discovered_states == limit,
                InconclusiveReason::TransitionLimitReached { limit } => res.explored_transitions
                    == limit && (limits.max_transitions == Some(limit) || (
                limits.max_transitions is None && limit == usize::MAX)),
                InconclusiveReason::DepthLimitReached { limit } => limits.max_depth == Some(limit),
            }
        },
    }
}

/// What a safety check's verdict says of the model's invariants: a Safe
/// run expanded a set of states closed under the successors the relation
/// returned, holding every initial state, on each of which every invariant
/// answered true; a violation ends, along recorded successor steps, in a
/// state where the named invariant is the first to answer false, after
/// every state expanded before it passed every invariant.
pub open spec fn verdict_ok<S: View>(model: TransitionSystem<S>, res: CheckResult<S>) -> bool {
    let invs = model.invariant_list();
    &&& res.status == VerificationStatus::Safe ==> exists|captured: Seq<(S, Vec<Transition<S>>)>|
        #[trigger] all_pass(invs, captured) && capture_closed(captured) && captured.len() == res.discovered_states
            && forall|i: int| 0 <= i < model.initial().len() ==> #[trigger] captured_state(captured, model.initial()[i]@)
    &&& res.counterexample matches Some(c) ==> {
        &&& exists|captured: Seq<(S, Vec<Transition<S>>)>|
            #[trigger] all_pass(invs, captured) && trace_follows(c.trace@, captured, model.initial())
        &&& exists|s: S, j: int|
            s@ == c.trace@.last().state@ && #[trigger] first_failure(invs, s, j) && invariant_names(invs)[j]
                == c.invariant@
    }
}

/// Step `k` of `path` follows a recorded transition.
pub open spec fn path_step<S: View>(captured: Seq<(S, Vec<Transition<S>>)>, path: Seq<S::V>, k: int) -> bool {
    exists|a: Seq<char>| #[trigger] step_recorded(captured, path[k - 1], a, path[k])
}

/// `path` starts at an initial state and follows recorded transitions.
pub open spec fn recorded_path<S: View>(
    captured: Seq<(S, Vec<Transition<S>>)>,
    initial: Seq<S>,
    path: Seq<S::V>,
) -> bool {
    &&& path.len() > 0
    &&& views_of(initial).contains(path[0])
    &&& forall|k: int| 0 < k < path.len() ==> #[trigger] path_step(captured, path, k)
}

/// A capture closed under its recorded transitions, holding every initial
/// state, holds every state along a recorded path.
proof fn lemma_recorded_path_captured<S: View>(
    captured: Seq<(S, Vec<Transition<S>>)>,
    initial: Seq<S>,
    path: Seq<S::V>,
)
    requires
        capture_closed(captured),
        forall|i: int| 0 <= i < initial.len() ==> #[trigger] captured_state(captured, initial[i]@),
        recorded_path(captured, initial, path),
    ensures
        forall|k: int| 0 <= k < path.len() ==> #[trigger] captured_state(captured, path[k]),
    decreases path.len(),
{
    if path.len() == 1 {
        let i = choose|i: int| 0 <= i < views_of(initial).len() && views_of(initial)[i] == path[0];
        assert(captured_state(captured, initial[i]@));
    } else {
        let prefix = path.drop_last();
        assert forall|k: int| 0 < k < prefix.len() implies #[trigger] path_step(captured, prefix, k) by {
            assert(path_step(captured, path, k));
            assert(prefix[k - 1] == path[k - 1] && prefix[k] == path[k]);
        }
        lemma_recorded_path_captured(captured, initial, prefix);
        let last = path.len() - 1;
        assert(path_step(captured, path, last));
        let a = choose|a: Seq<char>| #[trigger] step_recorded(captured, path[last - 1], a, path[last]);
        let (p, t) = choose|p: int, t: int|
            #![trigger captured[p], captured[p].1@[t]]
            0 <= p < captured.len() && captured[p].0@ == path[last - 1] && 0 <= t < captured[p].1.len()
                && captured[p].1@[t].action@ == a && captured[p].1@[t].next@ == path[last];
        let q = choose|q: int| 0 <= q < captured.len() && (#[trigger] captured[q]).0@ == (#[trigger] captured[p].1@[t]).next@;
        assert(captured_state(captured, path[last]));
        assert forall|k: int| 0 <= k < path.len() implies #[trigger] captured_state(captured, path[k]) by {
            if k < last {
                assert(prefix[k] == path[k]);
                assert(captured_state(captured, prefix[k]));
            }
        }
    }
}

/// Law: a `Safe` verdict means that every declared invariant answered true
/// at every state reachable from an initial state along the transitions the
/// relation produced in the run.
pub proof fn lemma_safe_every_reachable_state_passes<S: View>(model: TransitionSystem<S>, res: CheckResult<S>)
    requires
        verdict_ok(model, res),
        res.status == VerificationStatus::Safe,
    ensures
        exists|captured: Seq<(S, Vec<Transition<S>>)>|
            #[trigger] all_pass(model.invariant_list(), captured) && forall|path: Seq<S::V>, k: int, j: int|
                #[trigger] recorded_path(captured, model.initial(), path) && 0 <= k < path.len() && 0 <= j
                    < model.invariant_list().len() ==> #[trigger] passes(model.invariant_list()[j], path[k]),
{
    let invs = model.invariant_list();
    let captured = choose|captured: Seq<(S, Vec<Transition<S>>)>|
        #[trigger] all_pass(invs, captured) && capture_closed(captured) && captured.len() == res.discovered_states
            && forall|i: int| 0 <= i < model.initial().len() ==> #[trigger] captured_state(captured, model.initial()[i]@);
    assert forall|path: Seq<S::V>, k: int, j: int|
        #[trigger] recorded_path(captured, model.initial(), path) && 0 <= k < path.len() && 0 <= j < invs.len()
            implies #[trigger] passes(invs[j], path[k]) by {
        lemma_recorded_path_captured(captured, model.initial(), path);
        assert(captured_state(captured, path[k]));
        let q = choose|q: int| 0 <= q < captured.len() && (#[trigger] captured[q]).0@ == path[k];
        assert(passes(invs[j], captured[q].0@));
    }
}

/// Explore the reachable state graph without resource bounds.
pub fn check<S: StateValue>(model: &TransitionSystem<S>) -> (r: Result<CheckResult<S>, ModelError>)
    ensures
        r matches Ok(res) ==> check_result_wf(
            res,
            model.initial(),
            no_limits(),
            invariant_names(model.invariant_list()),
        ),
        r matches Ok(res) ==> verdict_ok(*model, res),
{
    check_with_limits(model, ExplorationLimits::unbounded())
}

/// Explore the reachable state graph with deterministic breadth-first search
/// and optional state, transition, and depth bounds.
///
/// BFS with predecessor links reports the first violating state along a
/// shortest transition-count path from an initial state. Bounds never imply
/// safety: when a bound prevents required work the result is `Inconclusive`.
pub fn check_with_limits<S: StateValue>(model: &TransitionSystem<S>, limits: ExplorationLimits) -> (r:
    Result<CheckResult<S>, ModelError>)
    ensures
        r matches Ok(res) ==> check_result_wf(
            res,
            model.initial(),
            limits,
            invariant_names(model.invariant_list()),
        ),
        r matches Ok(res) ==> verdict_ok(*model, res),
{
    let search = search_with_probes(model, limits, true)?;
    let ghost cap = search.captured@;
    let ghost out = search.outcome;
    let GraphSearchResult {
        outcome,
        discovered_states,
        checked_states,
        explored_transitions,
        max_depth_reached,
        transitions_by_action,
        captured,
        ..
    } = search;
    proof {
        if outcome is Exhausted && model.initial().len() > 0 {
            let v = model.initial()[0]@;
            assert(captured_state(captured@, v));
        }
    }
    let res = match outcome {
        GraphSearchOutcome::Exhausted => CheckResult {
            status: VerificationStatus::Safe,
            discovered_states,
            checked_states,
            explored_transitions,
            max_depth_reached,
            transitions_by_action,
            counterexample: None,
            inconclusive_reason: None,
        },
        GraphSearchOutcome::Match { label, trace } => CheckResult {
            status: VerificationStatus::Violated,
            discovered_states,
            checked_states,
            explored_transitions,
            max_depth_reached,
            transitions_by_action,
            counterexample: Some(Counterexample { invariant: label, trace }),
            inconclusive_reason: None,
        },
        GraphSearchOutcome::Inconclusive(reason) => CheckResult {
            status: VerificationStatus::Inconclusive,
            discovered_states,
            checked_states,
            explored_transitions,
            max_depth_reached,
            transitions_by_action,
            counterexample: None,
            inconclusive_reason: Some(reason),
        },
    };
    proof {
        if res.status == VerificationStatus::Safe {
            assert(all_pass(model.invariant_list(), cap));
        }
        if res.counterexample is Some {
            assert(all_pass(model.invariant_list(), cap));
            assert(trace_follows(res.counterexample->0.trace@, cap, model.initial()));
        }
    }
    Ok(res)
}

} // verus!
