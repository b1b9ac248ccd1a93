//! Action enablement of a model graph carried over to the state ids of a
//! product built on it, for weak-fairness checks on the product.
use crate::fairness::WeakFairness;
use crate::graph::{ReachableGraph, SnapshotEdge};
use crate::state::StateValue;
use crate::text::owned;
use vstd::prelude::*;

verus! {

/// `m` is the last model id whose state has the view `v`.
pub open spec fn last_match<S: View>(states: Seq<S>, v: S::V, m: int) -> bool {
    &&& 0 <= m < states.len()
    &&& states[m]@ == v
    &&& forall|k: int| m < k < states.len() ==> (#[trigger] states[k])@ != v
}

/// The projection of product state `q` can come out as a state that model
/// id `m` is the last to hold.
pub open spec fn projects_to<S: View, P, F: Fn(&P) -> &S>(f: F, q: P, states: Seq<S>, m: int) -> bool {
    exists|r: &S| #[trigger] call_ensures(f, (&q,), r) && last_match(states, r@, m)
}

/// `row` has the action labels of `labels`, in order, each edge pointing
/// back at product state `i`.
pub open spec fn row_of(row: Seq<SnapshotEdge>, labels: Seq<Seq<char>>, i: int) -> bool {
    &&& row.len() == labels.len()
    &&& forall|k: int| 0 <= k < row.len() ==> (#[trigger] row[k]).action@ == labels[k] && row[k].target == i
}

/// The labels of a list of edges.
pub open spec fn edge_labels(edges: Seq<SnapshotEdge>) -> Seq<Seq<char>> {
    edges.map_values(|e: SnapshotEdge| e.action@)
}

/// The views of a list of action names.
pub open spec fn name_views(names: Seq<String>) -> Seq<Seq<char>> {
    names.map_values(|s: String| s@)
}

/// `g` keeps the product's states and roots, and has one row per state.
pub open spec fn same_frame<P: Clone>(g: ReachableGraph<P>, product: ReachableGraph<P>) -> bool {
    &&& g.states.len() == product.states.len()
    &&& forall|i: int| 0 <= i < g.states.len() ==> cloned::<P>(#[trigger] product.states@[i], g.states@[i])
    &&& g.initial_ids@ == product.initial_ids@
    &&& g.outgoing.len() == product.states.len()
}

/// The last id whose state has the view of `target`.
fn last_id_of<S: StateValue>(states: &Vec<S>, target: &S) -> (m: Option<usize>)
    ensures
        match m {
            Some(m) => last_match(states@, target@, m as int),
            None => forall|k: int| 0 <= k < states.len() ==> (#[trigger] states@[k])@ != target@,
        },
{
    let mut k: usize = states.len();
    while k > 0
        invariant
            k <= states.len(),
            forall|j: int| k <= j < states.len() ==> (#[trigger] states@[j])@ != target@,
        decreases k,
    {
        k -= 1;
        if states[k].same_value(target) {
            return Some(k);
        }
    }
    None
}

/// Product state `i` projects to model state `ids[i]`, and its row has
/// the labels enabled there.
pub open spec fn rows_follow<S: View, P, F: Fn(&P) -> &S>(
    f: F,
    g: ReachableGraph<P>,
    product: ReachableGraph<P>,
    model_graph: ReachableGraph<S>,
    ids: Seq<int>,
) -> bool {
    &&& ids.len() == g.outgoing.len()
    &&& forall|i: int|
        0 <= i < g.outgoing.len() ==> projects_to(f, product.states@[i], model_graph.states@, #[trigger] ids[i]) && row_of(
            g.outgoing@[i]@,
            edge_labels(model_graph.outgoing@[ids[i]]@),
            i,
        )
}

/// As `rows_follow`, where a model state with unknown enablement (`None`
/// in `known`) enables every action of `fair`.
pub open spec fn bounded_rows_follow<S: View, P, F: Fn(&P) -> &S>(
    f: F,
    g: ReachableGraph<P>,
    product: ReachableGraph<P>,
    model_graph: ReachableGraph<S>,
    known: Seq<Option<Vec<String>>>,
    fair: Seq<String>,
    ids: Seq<int>,
) -> bool {
    &&& ids.len() == g.outgoing.len()
    &&& forall|i: int|
        0 <= i < g.outgoing.len() ==> projects_to(f, product.states@[i], model_graph.states@, #[trigger] ids[i]) && row_of(
            g.outgoing@[i]@,
            match known[ids[i]] {
                Some(actions) => name_views(actions@),
                None => name_views(fair),
            },
            i,
        )
}

/// Edges with the given labels, each pointing at `target`.
fn self_edges(labels: &[String], target: usize) -> (row: Vec<SnapshotEdge>)
    ensures
        row_of(row@, name_views(labels@), target as int),
{
    let mut row: Vec<SnapshotEdge> = Vec::new();
    let mut k: usize = 0;
    while k < labels.len()
        invariant
            k <= labels@.len(),
            row_of(row@, name_views(labels@).take(k as int), target as int),
        decreases labels.len() - k,
    {
        row.push(SnapshotEdge { action: owned(labels[k].as_str()), target });
        k += 1;
    }
    assert(name_views(labels@).take(labels@.len() as int) =~= name_views(labels@));
    row
}

/// Copies of the model edges' labels, each pointing at `target`.
fn relabelled(edges: &Vec<SnapshotEdge>, target: usize) -> (row: Vec<SnapshotEdge>)
    ensures
        row_of(row@, edge_labels(edges@), target as int),
{
    let mut row: Vec<SnapshotEdge> = Vec::new();
    let mut k: usize = 0;
    while k < edges.len()
        invariant
            k <= edges@.len(),
            row_of(row@, edge_labels(edges@).take(k as int), target as int),
        decreases edges.len() - k,
    {
        row.push(SnapshotEdge { action: owned(edges[k].action.as_str()), target });
        k += 1;
    }
    assert(edge_labels(edges@).take(edges@.len() as int) =~= edge_labels(edges@));
    row
}

/// Projects the complete model graph's action enablement onto the product's
/// state ids: each product state gets the labels enabled at the model state
/// it projects to, as edges back to itself (only the labels matter). `None`
/// where some product state projects to no model state.
pub fn complete_enablement_graph<S: StateValue, P: Clone, F: Fn(&P) -> &S>(
    model_graph: &ReachableGraph<S>,
    product: &ReachableGraph<P>,
    project_model_state: F,
) -> (r: Option<ReachableGraph<P>>)
    requires
        model_graph.outgoing.len() == model_graph.states.len(),
        forall|i: int| 0 <= i < product.states.len() ==> call_requires(project_model_state, (&#[trigger] product.states@[i],)),
    ensures
        r matches Some(g) ==> same_frame(g, *product),
        r matches Some(g) ==> exists|ids: Seq<int>| #[trigger] rows_follow(project_model_state, g, *product, *model_graph, ids),
        r is None ==> exists|i: int, s: &S|
            0 <= i < product.states.len() && #[trigger] call_ensures(project_model_state, (&product.states@[i],), s)
                && forall|k: int| 0 <= k < model_graph.states.len() ==> (#[trigger] model_graph.states@[k])@ != s@,
{
    let mut outgoing: Vec<Vec<SnapshotEdge>> = Vec::new();
    let ghost mut ids: Seq<int> = Seq::empty();
    let mut i: usize = 0;
    while i < product.states.len()
        invariant
            model_graph.outgoing.len() == model_graph.states.len(),
            forall|j: int| 0 <= j < product.states.len() ==> call_requires(project_model_state, (&#[trigger] product.states@[j],)),
            i <= product.states.len(),
            outgoing@.len() == i,
            ids.len() == i,
            forall|j: int|
                0 <= j < i ==> projects_to(project_model_state, product.states@[j], model_graph.states@, #[trigger] ids[j])
                    && row_of(outgoing@[j]@, edge_labels(model_graph.outgoing@[ids[j]]@), j),
        decreases product.states.len() - i,
    {
        let projected = project_model_state(&product.states[i]);
        match last_id_of(&model_graph.states, projected) {
            None => {
                return None;
            },
            Some(m) => {
                let row = relabelled(&model_graph.outgoing[m], i);
                proof {
                    assert(projects_to(project_model_state, product.states@[i as int], model_graph.states@, m as int));
                    ids = ids.push(m as int);
                }
                outgoing.push(row);
            },
        }
        i += 1;
    }
    let g = ReachableGraph { states: product.states.clone(), outgoing, initial_ids: product.initial_ids.clone() };
    let ghost built = g;
    let r = Some(g);
    proof {
        assert(built.initial_ids@ =~= product.initial_ids@);
        assert(r->0 == built);
        assert(rows_follow(project_model_state, r->0, *product, *model_graph, ids));
    }
    r
}

/// Projects bounded model enablement onto the product's state ids without
/// taking unknown enablement for disabled actions: a model state with known
/// enabled actions gives exactly those labels, one with unknown enablement
/// gives every fair action. `None` where the table does not have one entry
/// per model state, or where some product state projects to no model state.
pub fn bounded_enablement_graph<S: StateValue, P: Clone, F: Fn(&P) -> &S>(
    model_graph: &ReachableGraph<S>,
    complete_enabled_actions: &[Option<Vec<String>>],
    product: &ReachableGraph<P>,
    fairness: &WeakFairness,
    project_model_state: F,
) -> (r: Option<ReachableGraph<P>>)
    requires
        forall|i: int| 0 <= i < product.states.len() ==> call_requires(project_model_state, (&#[trigger] product.states@[i],)),
    ensures
        complete_enabled_actions@.len() != model_graph.states.len() ==> r is None,
        match r {
            Some(g) => {
                &&& same_frame(g, *product)
                &&& exists|ids: Seq<int>|
                    #[trigger] bounded_rows_follow(
                        project_model_state,
                        g,
                        *product,
                        *model_graph,
                        complete_enabled_actions@,
                        fairness.action_list(),
                        ids,
                    )
            },
            None => complete_enabled_actions@.len() != model_graph.states.len() || exists|i: int, s: &S|
                0 <= i < product.states.len() && #[trigger] call_ensures(project_model_state, (&product.states@[i],), s)
                    && forall|k: int| 0 <= k < model_graph.states.len() ==> (#[trigger] model_graph.states@[k])@ != s@,
        },
{
    if complete_enabled_actions.len() != model_graph.states.len() {
        return None;
    }
    let mut outgoing: Vec<Vec<SnapshotEdge>> = Vec::new();
    let ghost mut ids: Seq<int> = Seq::empty();
    let mut i: usize = 0;
    while i < product.states.len()
        invariant
            complete_enabled_actions@.len() == model_graph.states.len(),
            forall|j: int| 0 <= j < product.states.len() ==> call_requires(project_model_state, (&#[trigger] product.states@[j],)),
            i <= product.states.len(),
            outgoing@.len() == i,
            ids.len() == i,
            forall|j: int|
                0 <= j < i ==> projects_to(project_model_state, product.states@[j], model_graph.states@, #[trigger] ids[j])
                    && row_of(
                    outgoing@[j]@,
                    match complete_enabled_actions@[ids[j]] {
                        Some(actions) => name_views(actions@),
                        None => name_views(fairness.action_list()),
                    },
                    j,
                ),
        decreases product.states.len() - i,
    {
        let projected = project_model_state(&product.states[i]);
        match last_id_of(&model_graph.states, projected) {
            None => {
                return None;
            },
            Some(m) => {
                let row = match &complete_enabled_actions[m] {
                    Some(actions) => self_edges(actions.as_slice(), i),
                    None => self_edges(fairness.actions(), i),
                };
                proof {
                    assert(projects_to(project_model_state, product.states@[i as int], model_graph.states@, m as int));
                    ids = ids.push(m as int);
                }
                outgoing.push(row);
            },
        }
        i += 1;
    }
    let g = ReachableGraph { states: product.states.clone(), outgoing, initial_ids: product.initial_ids.clone() };
    proof {
        assert(g.initial_ids@ =~= product.initial_ids@);
        assert(g.states.len() == product.states.len());
        assert(forall|i: int| 0 <= i < g.states.len() ==> cloned::<P>(#[trigger] product.states@[i], g.states@[i]));
        assert(g.outgoing.len() == product.states.len());
        assert(bounded_rows_follow(
            project_model_state,
            g,
            *product,
            *model_graph,
            complete_enabled_actions@,
            fairness.action_list(),
            ids,
        ));
    }
    Some(g)
}

} // verus!
