//! Synchronous products of a captured model graph with a deterministic
//! action-driven automaton.
use crate::bounded::BoundedOutcome;
use crate::checker::{ExplorationLimits, InconclusiveReason};
use crate::graph::{ReachableGraph, SnapshotEdge};
use crate::state::StateValue;
use std::sync::Arc;
use vstd::prelude::*;

verus! {

/// A caller-supplied automaton step: the next automaton state after an
/// action label.
#[verifier::external_body]
#[verifier::reject_recursive_types(A)]
pub struct ActionStep<A> {
    step: Arc<dyn Fn(&A, &str) -> A + Send + Sync>,
}

impl<A> ActionStep<A> {
    /// Boxes the closure with `Arc::new`; nothing is claimed of the closure.
    #[verifier::external_body]
    pub(crate) fn from_fn<F: Fn(&A, &str) -> A + Send + Sync + 'static>(step: F) -> Self {
        ActionStep { step: Arc::new(step) }
    }

    /// Calls the caller's closure; its result is the caller's code, so no
    /// clause states it.
    #[verifier::external_body]
    pub(crate) fn advance(&self, state: &A, action: &str) -> A {
        (self.step)(state, action)
    }

    /// Shares the same closure (`Arc::clone`).
    #[verifier::external_body]
    pub(crate) fn share(&self) -> Self {
        ActionStep { step: Arc::clone(&self.step) }
    }
}

/// A product state: the model state and the automaton state reached by the
/// actions taken so far.
#[derive(Debug, Clone, PartialEq, Eq)]
pub struct BuchiProductState<S, A> {
    pub state: S,
    pub automaton: A,
}

impl<S: View, A: View> View for BuchiProductState<S, A> {
    type V = (S::V, A::V);

    open spec fn view(&self) -> (S::V, A::V) {
        (self.state@, self.automaton@)
    }
}

impl<S: StateValue, A: StateValue> StateValue for BuchiProductState<S, A> {
    fn same_value(&self, other: &Self) -> (same: bool) {
        self.state.same_value(&other.state) && self.automaton.same_value(&other.automaton)
    }

    fn copy_value(&self) -> (copy: Self) {
        BuchiProductState { state: self.state.copy_value(), automaton: self.automaton.copy_value() }
    }
}

/// A product under construction limits, with the model id of every product
/// state and which product states are known model terminals.
pub struct BoundedActionProduct<S, A> {
    pub graph: ReachableGraph<BuchiProductState<S, A>>,
    pub model_ids: Vec<usize>,
    pub checked_states: usize,
    pub explored_transitions: usize,
    pub max_depth_reached: Option<usize>,
    pub completion: BoundedOutcome<()>,
    pub known_terminal: Vec<bool>,
}

/// The product is a faithful prefix of the synchronous product: each state
/// pairs a model state with an automaton state, states are distinct, every
/// retained product edge follows a model edge with the same label, roots
/// pair model roots with the automaton's initial state, expanded states keep
/// all their model edges, and known terminals are evaluated model terminals.
pub open spec fn product_wf<S: View, A: View>(
    model: ReachableGraph<S>,
    model_terminal: Seq<bool>,
    initial: A::V,
    p: BoundedActionProduct<S, A>,
) -> bool {
    let g = p.graph;
    let n = g.states.len();
    &&& g.wf()
    &&& p.model_ids.len() == n
    &&& p.known_terminal.len() == n
    &&& p.checked_states <= n
    &&& forall|i: int| 0 <= i < n ==> #[trigger] p.model_ids@[i] < model.states.len()
    &&& forall|i: int| 0 <= i < n ==> (#[trigger] g.states@[i]).state@ == model.states@[p.model_ids@[i] as int]@
    &&& forall|i: int, j: int|
        0 <= i < j < n ==> (#[trigger] g.states@[i])@ != (#[trigger] g.states@[j])@
    &&& forall|i: int, k: int|
        0 <= i < n && 0 <= k < g.outgoing@[i].len() ==> model.edge(
            p.model_ids@[i] as int,
            (#[trigger] g.outgoing@[i]@[k]).action@,
            p.model_ids@[g.outgoing@[i]@[k].target as int] as int,
        )
    &&& forall|r: int|
        0 <= r < g.initial_ids.len() ==> model.initial_ids@.contains(
            p.model_ids@[(#[trigger] g.initial_ids@[r]) as int],
        ) && g.states@[g.initial_ids@[r] as int].automaton@ == initial
    &&& forall|i: int|
        0 <= i < p.checked_states ==> (#[trigger] g.outgoing@[i]).len() == model.outgoing@[p.model_ids@[i] as int].len()
    &&& forall|i: int, k: int|
        0 <= i < p.checked_states && 0 <= k < g.outgoing@[i].len() ==> (#[trigger] g.outgoing@[i]@[k]).action
            == model.outgoing@[p.model_ids@[i] as int]@[k].action && p.model_ids@[g.outgoing@[i]@[k].target as int]
            == model.outgoing@[p.model_ids@[i] as int]@[k].target
    &&& forall|i: int|
        0 <= i < n && #[trigger] p.known_terminal@[i] ==> i < p.checked_states && g.outgoing@[i].len() == 0
            && model_terminal[p.model_ids@[i] as int]
    &&& forall|i: int|
        0 <= i < p.checked_states ==> #[trigger] p.known_terminal@[i] == model_terminal[p.model_ids@[i] as int]
    &&& (p.completion is Conclusive ==> p.checked_states == n)
}

fn find_product<S: StateValue, A: StateValue>(
    states: &Vec<BuchiProductState<S, A>>,
    model_ids: &Vec<usize>,
    model_id: usize,
    automaton: &A,
) -> (found: Option<usize>)
    requires
        model_ids.len() == states.len(),
    ensures
        found matches Some(q) ==> q < states.len() && model_ids@[q as int] == model_id && states@[q as int].automaton@
            == automaton@,
        found is None ==> forall|j: int|
            0 <= j < states.len() ==> !(model_ids@[j] == model_id && states@[j].automaton@ == automaton@),
{
    let mut q: usize = 0;
    while q < states.len()
        invariant
            model_ids.len() == states.len(),
            q <= states.len(),
            forall|j: int| 0 <= j < q ==> !(model_ids@[j] == model_id && states@[j].automaton@ == automaton@),
        decreases states.len() - q,
    {
        if model_ids[q] == model_id && states[q].automaton.same_value(automaton) {
            return Some(q);
        }
        q += 1;
    }
    None
}

/// Adds the product state `(model_id, automaton)` with no edges yet.
fn add_product_state<S: StateValue, A: StateValue>(
    model: &ReachableGraph<S>,
    Ghost(model_terminal): Ghost<Seq<bool>>,
    Ghost(initial): Ghost<A::V>,
    p: &mut BoundedActionProduct<S, A>,
    depths: &mut Vec<usize>,
    model_id: usize,
    automaton: A,
    depth: usize,
)
    requires
        model.wf(),
        crate::graph::distinct_states(*model),
        product_wf(*model, model_terminal, initial, *old(p)),
        old(depths).len() == old(p).graph.states.len(),
        forall|j: int| old(p).checked_states <= j < old(p).graph.states.len() ==> (#[trigger] old(p).graph.outgoing@[j]).len() == 0 && !old(p).known_terminal@[j],
        old(p).completion is Inconclusive,
        model_id < model.states.len(),
        forall|j: int|
            0 <= j < old(p).graph.states.len() ==> !(old(p).model_ids@[j] == model_id && old(p).graph.states@[j].automaton@ == automaton@),
    ensures
        product_wf(*model, model_terminal, initial, *final(p)),
        final(depths)@ == old(depths)@.push(depth),
        final(p).graph.states.len() == old(p).graph.states.len() + 1,
        final(p).graph.initial_ids == old(p).graph.initial_ids,
        final(p).checked_states == old(p).checked_states,
        final(p).explored_transitions == old(p).explored_transitions,
        final(p).max_depth_reached == old(p).max_depth_reached,
        final(p).completion == old(p).completion,
        final(p).model_ids@ == old(p).model_ids@.push(model_id),
        forall|j: int| 0 <= j < old(p).graph.states.len() ==> #[trigger] final(p).graph.states@[j] == old(p).graph.states@[j],
        final(p).graph.states@[old(p).graph.states.len() as int].automaton@ == automaton@,
        forall|j: int| 0 <= j < old(p).graph.outgoing.len() ==> #[trigger] final(p).graph.outgoing@[j] == old(p).graph.outgoing@[j],
        forall|j: int| final(p).checked_states <= j < final(p).graph.states.len() ==> (#[trigger] final(p).graph.outgoing@[j]).len() == 0 && !final(p).known_terminal@[j],
{
    let ghost old_p = *p;
    let state = BuchiProductState { state: model.states[model_id].copy_value(), automaton };
    p.graph.states.push(state);
    p.graph.outgoing.push(Vec::new());
    p.model_ids.push(model_id);
    p.known_terminal.push(false);
    depths.push(depth);
    proof {
        let g = p.graph;
        let n = g.states.len();
        assert forall|i: int, j: int| 0 <= i < j < n implies (#[trigger] g.states@[i])@ != (#[trigger] g.states@[j])@ by {
            if j == n - 1 {
                assert(old_p.model_ids@[i] == p.model_ids@[i]);
                if g.states@[i]@ == g.states@[j]@ {
                    assert(g.states@[i] == old_p.graph.states@[i]);
                    let mi = old_p.model_ids@[i] as int;
                    assert(old_p.graph.states@[i].state@ == model.states@[mi]@);
                    if mi != model_id as int {
                        if mi < model_id {
                            assert(model.states@[mi]@ != model.states@[model_id as int]@);
                        } else {
                            assert(model.states@[model_id as int]@ != model.states@[mi]@);
                        }
                    }
                }
            } else {
                assert(g.states@[i] == old_p.graph.states@[i] && g.states@[j] == old_p.graph.states@[j]);
            }
        }
        assert forall|i: int, k: int|
            0 <= i < n && 0 <= k < g.outgoing@[i].len() implies (#[trigger] g.outgoing@[i]@[k]).target < g.states.len() by {
            assert(g.outgoing@[i] == old_p.graph.outgoing@[i]);
        }
        assert forall|i: int| 0 <= i < g.initial_ids.len() implies #[trigger] g.initial_ids@[i] < g.states.len() by {}
        assert forall|i: int, k: int|
            0 <= i < n && 0 <= k < g.outgoing@[i].len() implies model.edge(
                p.model_ids@[i] as int,
                (#[trigger] g.outgoing@[i]@[k]).action@,
                p.model_ids@[g.outgoing@[i]@[k].target as int] as int,
            ) by {
            assert(g.outgoing@[i] == old_p.graph.outgoing@[i]);
            assert(p.model_ids@[i] == old_p.model_ids@[i]);
            assert(p.model_ids@[g.outgoing@[i]@[k].target as int] == old_p.model_ids@[old_p.graph.outgoing@[i]@[k].target as int]);
        }
        assert forall|i: int, k: int|
            0 <= i < p.checked_states && 0 <= k < g.outgoing@[i].len() implies (#[trigger] g.outgoing@[i]@[k]).action
                == model.outgoing@[p.model_ids@[i] as int]@[k].action && p.model_ids@[g.outgoing@[i]@[k].target as int]
                == model.outgoing@[p.model_ids@[i] as int]@[k].target by {
            assert(g.outgoing@[i] == old_p.graph.outgoing@[i]);
            assert(p.model_ids@[g.outgoing@[i]@[k].target as int] == old_p.model_ids@[old_p.graph.outgoing@[i]@[k].target as int]);
        }
    }
}

/// Building the complete product of a captured graph of `model` with an
/// automaton starting at `initial` can run its transition counter up to
/// `usize::MAX` and stop there: a machine limit, the one way the unbounded
/// product stops early.
pub open spec fn product_saturates<S: View, A: View>(model: crate::model::TransitionSystem<S>, initial: A::V) -> bool {
    exists|c: ReachableGraph<S>, p: BoundedActionProduct<S, A>|
        #[trigger] product_wf(c, terminal_marks(c), initial, p) && c.wf() && crate::graph::distinct_states(c)
            && crate::graph::roots_of_initial(c, model.initial()) && p.explored_transitions == usize::MAX
}

/// Every state is reachable from a root of `g`.
pub open spec fn all_reachable<P>(g: ReachableGraph<P>) -> bool {
    forall|i: int|
        0 <= i < g.states.len() ==> #[trigger] crate::graph::reachable_from(
            g,
            g.initial_ids@,
            i,
            crate::graph::everything(g.states@.len()),
        )
}

/// Every state is a root, or was discovered along the edge `parent[i]`
/// from an earlier state: an installed edge of a state before `head`, or
/// an edge of `head` still held in `current`.
pub open spec fn rooted_by<P>(g: ReachableGraph<P>, parent: Seq<(int, int)>, head: int, current: Seq<SnapshotEdge>) -> bool {
    &&& parent.len() == g.states.len()
    &&& forall|i: int|
        0 <= i < g.states.len() ==> g.initial_ids@.contains(i as usize) || {
            let q = (#[trigger] parent[i]).0;
            let k = parent[i].1;
            &&& 0 <= q < i
            &&& 0 <= k
            &&& (q < head && k < g.outgoing@[q].len() && g.outgoing@[q]@[k].target == i) || (q == head && k
                < current.len() && current[k].target == i)
        }
}

/// A graph whose states are rooted through installed edges has every state
/// reachable from a root.
pub proof fn lemma_rooted_reachable<P>(g: ReachableGraph<P>, parent: Seq<(int, int)>, head: int, i: int)
    requires
        rooted_by(g, parent, head, Seq::empty()),
        0 <= i < g.states.len(),
    ensures
        crate::graph::reachable_from(g, g.initial_ids@, i, crate::graph::everything(g.states@.len())),
    decreases i,
{
    let all = crate::graph::everything(g.states@.len());
    if g.initial_ids@.contains(i as usize) {
        let p = seq![i];
        assert(crate::graph::is_walk(g, p, all));
    } else {
        let q = parent[i].0;
        let k = parent[i].1;
        lemma_rooted_reachable(g, parent, head, q);
        let p = choose|p: Seq<int>|
            #[trigger] crate::graph::is_walk(g, p, all) && g.initial_ids@.contains(p[0] as usize) && p.last() == q;
        let p2 = p.push(i);
        assert(g.step(q, i));
        assert forall|j: int| 0 <= j < p2.len() - 1 implies g.step(#[trigger] p2[j], p2[j + 1]) by {
            if j < p.len() - 1 {
                assert(p2[j] == p[j] && p2[j + 1] == p[j + 1]);
            }
        }
        assert(crate::graph::is_walk(g, p2, all));
        assert(p2[0] == p[0]);
    }
}

/// Rooted through installed edges: every state is reachable.
pub proof fn lemma_rooted_all<P>(g: ReachableGraph<P>, parent: Seq<(int, int)>, head: int)
    requires
        rooted_by(g, parent, head, Seq::empty()),
    ensures
        all_reachable(g),
{
    assert forall|i: int| 0 <= i < g.states.len() implies #[trigger] crate::graph::reachable_from(
        g,
        g.initial_ids@,
        i,
        crate::graph::everything(g.states@.len()),
    ) by {
        lemma_rooted_reachable(g, parent, head, i);
    }
}

/// Rooted states stay rooted when the head's held edges are installed.
pub proof fn lemma_rooted_close<P>(
    g: ReachableGraph<P>,
    g2: ReachableGraph<P>,
    parent: Seq<(int, int)>,
    head: int,
    current: Vec<SnapshotEdge>,
)
    requires
        rooted_by(g, parent, head, current@),
        g2.states.len() == g.states.len(),
        g2.initial_ids == g.initial_ids,
        0 <= head < g.outgoing@.len(),
        g2.outgoing@ == g.outgoing@.update(head, current),
    ensures
        rooted_by(g2, parent, head + 1, Seq::empty()),
{
    assert forall|i: int| 0 <= i < g2.states.len() && !g2.initial_ids@.contains(i as usize) implies {
        let q = (#[trigger] parent[i]).0;
        let k = parent[i].1;
        &&& 0 <= q < i
        &&& 0 <= k
        &&& (q < head + 1 && k < g2.outgoing@[q].len() && g2.outgoing@[q]@[k].target == i) || (q == head + 1 && k
            < Seq::<SnapshotEdge>::empty().len() && Seq::<SnapshotEdge>::empty()[k].target == i)
    } by {
        let q = parent[i].0;
        if q != head {
            assert(g2.outgoing@[q] == g.outgoing@[q]);
        }
    }
}

spec fn frontier_open<S, A>(p: BoundedActionProduct<S, A>) -> bool {
    forall|j: int|
        p.checked_states <= j < p.graph.states.len() ==> (#[trigger] p.graph.outgoing@[j]).len() == 0
            && !p.known_terminal@[j]
}

/// Install the edges of the state being expanded.
fn close_state<S: StateValue, A: StateValue>(
    model: &ReachableGraph<S>,
    model_terminal: &[bool],
    Ghost(initial): Ghost<A::V>,
    p: &mut BoundedActionProduct<S, A>,
    current: Vec<SnapshotEdge>,
    complete: bool,
)
    requires
        model.wf(),
        model_terminal@.len() == model.states.len(),
        forall|m: int| 0 <= m < model.states.len() && #[trigger] model_terminal@[m] ==> model.outgoing@[m].len() == 0,
        product_wf(*model, model_terminal@, initial, *old(p)),
        frontier_open(*old(p)),
        old(p).completion is Inconclusive,
        old(p).checked_states < old(p).graph.states.len(),
        current.len() <= model.outgoing@[old(p).model_ids@[old(p).checked_states as int] as int].len(),
        complete ==> current.len() == model.outgoing@[old(p).model_ids@[old(p).checked_states as int] as int].len(),
        forall|j: int|
            0 <= j < current.len() ==> (#[trigger] current@[j]).target < old(p).graph.states.len() && current@[j].action
                == model.outgoing@[old(p).model_ids@[old(p).checked_states as int] as int]@[j].action
                && old(p).model_ids@[current@[j].target as int] == model.outgoing@[old(p).model_ids@[old(
                p).checked_states as int] as int]@[j].target,
    ensures
        product_wf(*model, model_terminal@, initial, *final(p)),
        complete ==> frontier_open(*final(p)),
        final(p).checked_states == old(p).checked_states + if complete { 1int } else { 0 },
        final(p).graph.states == old(p).graph.states,
        final(p).model_ids == old(p).model_ids,
        final(p).graph.initial_ids == old(p).graph.initial_ids,
        final(p).explored_transitions == old(p).explored_transitions,
        final(p).max_depth_reached == old(p).max_depth_reached,
        final(p).completion == old(p).completion,
        final(p).graph.outgoing@ == old(p).graph.outgoing@.update(old(p).checked_states as int, current),
{
    let ghost old_p = *p;
    let head = p.checked_states;
    let m = p.model_ids[head];
    p.graph.outgoing.set(head, current);
    if complete {
        p.known_terminal.set(head, model_terminal[m]);
        p.checked_states = head + 1;
    }
    proof {
        let g = p.graph;
        let n = g.states.len();
        assert forall|i: int, k: int|
            0 <= i < n && 0 <= k < g.outgoing@[i].len() implies (#[trigger] g.outgoing@[i]@[k]).target < g.states.len() by {
            if i != head {
                assert(g.outgoing@[i] == old_p.graph.outgoing@[i]);
            }
        }
        assert forall|i: int, k: int|
            0 <= i < n && 0 <= k < g.outgoing@[i].len() implies model.edge(
                p.model_ids@[i] as int,
                (#[trigger] g.outgoing@[i]@[k]).action@,
                p.model_ids@[g.outgoing@[i]@[k].target as int] as int,
            ) by {
            if i != head {
                assert(g.outgoing@[i] == old_p.graph.outgoing@[i]);
            } else {
                let _ = model.outgoing@[m as int]@[k];
            }
        }
        assert forall|i: int| 0 <= i < p.checked_states implies (#[trigger] g.outgoing@[i]).len() == model.outgoing@[p.model_ids@[i] as int].len() by {
            if i != head {
                assert(g.outgoing@[i] == old_p.graph.outgoing@[i]);
            }
        }
        assert forall|i: int, k: int|
            0 <= i < p.checked_states && 0 <= k < g.outgoing@[i].len() implies (#[trigger] g.outgoing@[i]@[k]).action
                == model.outgoing@[p.model_ids@[i] as int]@[k].action && p.model_ids@[g.outgoing@[i]@[k].target as int]
                == model.outgoing@[p.model_ids@[i] as int]@[k].target by {
            if i != head {
                assert(g.outgoing@[i] == old_p.graph.outgoing@[i]);
            }
        }
        assert forall|i: int| 0 <= i < n && #[trigger] p.known_terminal@[i] implies i < p.checked_states && g.outgoing@[i].len() == 0
            && model_terminal@[p.model_ids@[i] as int] by {
            if i != head {
                assert(p.known_terminal@[i] == old_p.known_terminal@[i]);
            }
        }
        if complete {
            assert forall|j: int| p.checked_states <= j < n implies (#[trigger] g.outgoing@[j]).len() == 0 && !p.known_terminal@[j] by {
                assert(g.outgoing@[j] == old_p.graph.outgoing@[j]);
            }
        }
    }
}

/// Every model root has a product root over it.
pub open spec fn roots_covered(model_roots: Seq<usize>, model_ids: Seq<usize>, roots: Seq<usize>) -> bool {
    forall|r: int| 0 <= r < model_roots.len() ==> root_over(model_ids, roots, #[trigger] model_roots[r])
}

/// Some product root lies over the model state `m`.
pub open spec fn root_over(model_ids: Seq<usize>, roots: Seq<usize>, m: usize) -> bool {
    exists|q: int| 0 <= q < roots.len() && model_ids[roots[q] as int] == m
}

/// Build the synchronous product of a captured model prefix with an
/// action-driven automaton, breadth first, within `limits`.
///
/// `model_terminal[m]` marks model states whose successors are known to be
/// none; only those make product states known terminals. A cutoff leaves the
/// remaining product states unexpanded and reports the limit.
pub fn build_action_product_from_prefix_with_limits<S: StateValue, A: StateValue>(
    model: &ReachableGraph<S>,
    model_terminal: &[bool],
    initial: &A,
    step: &ActionStep<A>,
    limits: ExplorationLimits,
) -> (p: BoundedActionProduct<S, A>)
    requires
        model.wf(),
        crate::graph::distinct_states(*model),
        model_terminal@.len() == model.states.len(),
        forall|m: int| 0 <= m < model.states.len() && #[trigger] model_terminal@[m] ==> model.outgoing@[m].len() == 0,
    ensures
        product_wf(*model, model_terminal@, initial@, p),
        all_reachable(p.graph),
        p.completion is Conclusive ==> roots_covered(model.initial_ids@, p.model_ids@, p.graph.initial_ids@),
        p.completion matches BoundedOutcome::Inconclusive(reason) ==> match reason {
            InconclusiveReason::StateLimitReached { limit } => limits.max_states == Some(limit)
                && p.graph.states.len() == limit,
            InconclusiveReason::TransitionLimitReached { limit } => p.explored_transitions == limit
                && (limits.max_transitions == Some(limit) || (limits.max_transitions is None && limit == usize::MAX)),
            InconclusiveReason::DepthLimitReached { limit } => limits.max_depth == Some(limit),
        },
        limits.max_states matches Some(l) ==> p.graph.states.len() <= l,
{
    let placeholder = InconclusiveReason::StateLimitReached { limit: 0 };
    let mut p = BoundedActionProduct {
        graph: ReachableGraph { states: Vec::new(), outgoing: Vec::new(), initial_ids: Vec::new() },
        model_ids: Vec::new(),
        checked_states: 0,
        explored_transitions: 0,
        max_depth_reached: None,
        completion: BoundedOutcome::Inconclusive(placeholder),
        known_terminal: Vec::new(),
    };
    let mut depths: Vec<usize> = Vec::new();
    let mut r: usize = 0;
    while r < model.initial_ids.len()
        invariant
            model.wf(),
            crate::graph::distinct_states(*model),
            model_terminal@.len() == model.states.len(),
            forall|m: int| 0 <= m < model.states.len() && #[trigger] model_terminal@[m] ==> model.outgoing@[m].len() == 0,
            product_wf(*model, model_terminal@, initial@, p),
            frontier_open(p),
            p.checked_states == 0,
            p.explored_transitions == 0,
            p.completion == BoundedOutcome::<()>::Inconclusive(placeholder),
            depths.len() == p.graph.states.len(),
            r <= model.initial_ids.len(),
            limits.max_states matches Some(l) ==> p.graph.states.len() <= l,
            p.max_depth_reached is Some <==> p.graph.states.len() > 0,
            p.graph.initial_ids.len() == p.graph.states.len(),
            forall|j: int| 0 <= j < p.graph.initial_ids.len() ==> #[trigger] p.graph.initial_ids@[j] == j,
            forall|x: int|
                0 <= x < r ==> exists|q: int|
                    0 <= q < p.graph.initial_ids.len() && p.model_ids@[p.graph.initial_ids@[q] as int] == (#[trigger] model.initial_ids@[x]),
        decreases model.initial_ids.len() - r,
    {
        let m = model.initial_ids[r];
        let a0 = initial.copy_value();
        let ghost before = p;
        match find_product(&p.graph.states, &p.model_ids, m, &a0) {
            Some(q) => {
                proof {
                    assert(p.graph.initial_ids@[q as int] == q);
                    assert(p.model_ids@[p.graph.initial_ids@[q as int] as int] == model.initial_ids@[r as int]);
                }
            },
            None => {
                if let Some(limit) = limits.max_states {
                    if p.graph.states.len() >= limit {
                        p.completion = BoundedOutcome::Inconclusive(InconclusiveReason::StateLimitReached { limit });
                        proof {
                            let all = crate::graph::everything(p.graph.states@.len());
                            assert forall|i: int| 0 <= i < p.graph.states.len() implies #[trigger] crate::graph::reachable_from(
                                p.graph,
                                p.graph.initial_ids@,
                                i,
                                all,
                            ) by {
                                assert(p.graph.initial_ids@[i] == i);
                                assert(crate::graph::is_walk(p.graph, seq![i], all));
                            }
                        }
                        return p;
                    }
                }
                let id = p.graph.states.len();
                add_product_state(model, Ghost(model_terminal@), Ghost(initial@), &mut p, &mut depths, m, a0, 0);
                p.graph.initial_ids.push(id);
                p.max_depth_reached = Some(0);
                proof {
                    let g = p.graph;
                    assert(model.initial_ids@[r as int] == m);
                    assert forall|j: int| 0 <= j < g.initial_ids.len() implies #[trigger] g.initial_ids@[j] < g.states.len() by {}
                    assert forall|q: int|
                        0 <= q < g.initial_ids.len() implies model.initial_ids@.contains(
                            p.model_ids@[(#[trigger] g.initial_ids@[q]) as int],
                        ) && g.states@[g.initial_ids@[q] as int].automaton@ == initial@ by {
                        if q < id {
                            assert(g.initial_ids@[q] == before.graph.initial_ids@[q]);
                            assert(g.states@[q] == before.graph.states@[q]);
                        } else {
                            assert(p.model_ids@[id as int] == model.initial_ids@[r as int]);
                        }
                    }
                    assert forall|x: int|
                        0 <= x <= r implies exists|q: int|
                            0 <= q < g.initial_ids.len() && p.model_ids@[g.initial_ids@[q] as int] == (#[trigger] model.initial_ids@[x]) by {
                        if x < r {
                            let q = choose|q: int|
                                0 <= q < before.graph.initial_ids.len() && before.model_ids@[before.graph.initial_ids@[q] as int] == model.initial_ids@[x];
                            assert(g.initial_ids@[q] == before.graph.initial_ids@[q]);
                        } else {
                            assert(g.initial_ids@[id as int] == id);
                        }
                    }
                }
            },
        }
        r += 1;
    }
    let ghost before = p;
    let out = expand_product(model, model_terminal, initial, step, limits, p, depths);
    proof {
        assert forall|x: int|
            0 <= x < model.initial_ids@.len() implies root_over(out.model_ids@, out.graph.initial_ids@, #[trigger] model.initial_ids@[x]) by {
            let q = choose|q: int|
                0 <= q < before.graph.initial_ids.len() && before.model_ids@[before.graph.initial_ids@[q] as int] == model.initial_ids@[x];
            assert(before.graph.initial_ids@[q] < before.graph.states.len());
            assert(out.model_ids@[before.graph.initial_ids@[q] as int] == before.model_ids@[before.graph.initial_ids@[q] as int]);
            assert(out.graph.initial_ids@[q] == before.graph.initial_ids@[q]);
        }
    }
    out
}

/// Breadth-first expansion of the product from its roots.
fn expand_product<S: StateValue, A: StateValue>(
    model: &ReachableGraph<S>,
    model_terminal: &[bool],
    initial: &A,
    step: &ActionStep<A>,
    limits: ExplorationLimits,
    p0: BoundedActionProduct<S, A>,
    depths: Vec<usize>,
) -> (out: BoundedActionProduct<S, A>)
    requires
        model.wf(),
        crate::graph::distinct_states(*model),
        model_terminal@.len() == model.states.len(),
        forall|m: int| 0 <= m < model.states.len() && #[trigger] model_terminal@[m] ==> model.outgoing@[m].len() == 0,
        product_wf(*model, model_terminal@, initial@, p0),
        frontier_open(p0),
        p0.checked_states == 0,
        p0.explored_transitions == 0,
        p0.completion is Inconclusive,
        depths.len() == p0.graph.states.len(),
        limits.max_states matches Some(l) ==> p0.graph.states.len() <= l,
        p0.max_depth_reached is Some <==> p0.graph.states.len() > 0,
        p0.graph.initial_ids.len() == p0.graph.states.len(),
        forall|j: int| 0 <= j < p0.graph.initial_ids.len() ==> #[trigger] p0.graph.initial_ids@[j] == j,
    ensures
        all_reachable(out.graph),
        product_wf(*model, model_terminal@, initial@, out),
        out.graph.initial_ids == p0.graph.initial_ids,
        forall|j: int| 0 <= j < p0.graph.states.len() ==> #[trigger] out.model_ids@[j] == p0.model_ids@[j],
        out.graph.states.len() >= p0.graph.states.len(),
        out.completion matches BoundedOutcome::Inconclusive(reason) ==> match reason {
            InconclusiveReason::StateLimitReached { limit } => limits.max_states == Some(limit)
                && out.graph.states.len() == limit,
            InconclusiveReason::TransitionLimitReached { limit } => out.explored_transitions == limit
                && (limits.max_transitions == Some(limit) || (limits.max_transitions is None && limit == usize::MAX)),
            InconclusiveReason::DepthLimitReached { limit } => limits.max_depth == Some(limit),
        },
        limits.max_states matches Some(l) ==> out.graph.states.len() <= l,
        out.max_depth_reached is Some <==> out.graph.states.len() > 0,
{
    let mut p = p0;
    let mut depths = depths;
    let ghost roots = p.graph.initial_ids;
    let ghost ids0 = p.model_ids@;
    let ghost mut parent: Seq<(int, int)> = Seq::new(p0.graph.states.len() as nat, |i: int| (0int, 0int));
    assert forall|i: int| #![trigger parent[i]] 0 <= i < p.graph.states.len() implies p.graph.initial_ids@.contains(i as usize) by {
        assert(p.graph.initial_ids@[i] == i);
    }
    assert(rooted_by(p.graph, parent, p.checked_states as int, Seq::empty()));
    while p.checked_states < p.graph.states.len()
        invariant
            model.wf(),
            crate::graph::distinct_states(*model),
            model_terminal@.len() == model.states.len(),
            forall|m: int| 0 <= m < model.states.len() && #[trigger] model_terminal@[m] ==> model.outgoing@[m].len() == 0,
            product_wf(*model, model_terminal@, initial@, p),
            frontier_open(p),
            p.completion is Inconclusive,
            depths.len() == p.graph.states.len(),
            p.graph.initial_ids == roots,
            roots == p0.graph.initial_ids,
            ids0 == p0.model_ids@,
            ids0.len() == p0.graph.states.len(),
            ids0.len() <= p.graph.states.len(),
            forall|j: int| 0 <= j < ids0.len() ==> #[trigger] p.model_ids@[j] == ids0[j],
            limits.max_states matches Some(l) ==> p.graph.states.len() <= l,
            limits.max_transitions matches Some(l) ==> p.explored_transitions <= l,
            p.max_depth_reached is Some <==> p.graph.states.len() > 0,
            rooted_by(p.graph, parent, p.checked_states as int, Seq::empty()),
        decreases p.graph.states.len() - p.checked_states + 2 * (usize::MAX - p.explored_transitions),
    {
        let head = p.checked_states;
        let depth = depths[head];
        let m = p.model_ids[head];
        let ghost n0 = p.graph.states.len() as int;
        let ghost e0 = p.explored_transitions as int;
        let count = model.outgoing[m].len();
        let mut current: Vec<SnapshotEdge> = Vec::new();
        let mut k: usize = 0;
        while k < count
            invariant
                model.wf(),
                crate::graph::distinct_states(*model),
                model_terminal@.len() == model.states.len(),
                forall|m: int| 0 <= m < model.states.len() && #[trigger] model_terminal@[m] ==> model.outgoing@[m].len() == 0,
                product_wf(*model, model_terminal@, initial@, p),
                frontier_open(p),
                p.completion is Inconclusive,
                depths.len() == p.graph.states.len(),
                p.graph.initial_ids == roots,
                roots == p0.graph.initial_ids,
                ids0 == p0.model_ids@,
                ids0.len() == p0.graph.states.len(),
                ids0.len() <= p.graph.states.len(),
                forall|j: int| 0 <= j < ids0.len() ==> #[trigger] p.model_ids@[j] == ids0[j],
                limits.max_states matches Some(l) ==> p.graph.states.len() <= l,
                limits.max_transitions matches Some(l) ==> p.explored_transitions <= l,
                p.max_depth_reached is Some <==> p.graph.states.len() > 0,
                head == p.checked_states,
                head < p.graph.states.len(),
                m == p.model_ids@[head as int],
                m < model.states.len(),
                count == model.outgoing@[m as int].len(),
                k <= count,
                current.len() == k,
                p.graph.states.len() as int - 2 * p.explored_transitions as int + k as int <= n0 - 2 * e0,
                forall|j: int|
                    0 <= j < current.len() ==> (#[trigger] current@[j]).target < p.graph.states.len() && current@[j].action
                        == model.outgoing@[m as int]@[j].action
                        && p.model_ids@[current@[j].target as int] == model.outgoing@[m as int]@[j].target,
                rooted_by(p.graph, parent, head as int, current@),
            decreases count - k,
        {
            let transition_limit = match limits.max_transitions {
                Some(l) => l,
                None => usize::MAX,
            };
            if p.explored_transitions >= transition_limit {
                let ghost before_close = p.graph;
                let ghost held = current;
                close_state(model, model_terminal, Ghost(initial@), &mut p, current, false);
                proof {
                    lemma_rooted_close(before_close, p.graph, parent, head as int, held);
                    lemma_rooted_all(p.graph, parent, head + 1);
                }
                p.completion = BoundedOutcome::Inconclusive(
                    InconclusiveReason::TransitionLimitReached { limit: transition_limit },
                );
                return p;
            }
            p.explored_transitions = p.explored_transitions + 1;
            let edge = model.outgoing[m][k].copy();
            let target = edge.target;
            let next = step.advance(&p.graph.states[head].automaton, edge.action.as_str());
            let ghost before = p;
            match find_product(&p.graph.states, &p.model_ids, target, &next) {
                Some(q) => {
                    let ghost held = current@;
                    current.push(SnapshotEdge { action: edge.action, target: q });
                    proof {
                        assert forall|i: int| 0 <= i < p.graph.states.len() && !p.graph.initial_ids@.contains(i as usize)
                            && (#[trigger] parent[i]).0 == head implies parent[i].1 < current@.len()
                            && current@[parent[i].1].target == i by {
                            assert(current@[parent[i].1] == held[parent[i].1]);
                        }
                    }
                },
                None => {
                    if let Some(limit) = limits.max_depth {
                        if depth >= limit {
                            let ghost before_close = p.graph;
                            let ghost held = current;
                            close_state(model, model_terminal, Ghost(initial@), &mut p, current, false);
                            proof {
                                lemma_rooted_close(before_close, p.graph, parent, head as int, held);
                                lemma_rooted_all(p.graph, parent, head + 1);
                            }
                            p.completion = BoundedOutcome::Inconclusive(InconclusiveReason::DepthLimitReached { limit });
                            return p;
                        }
                    }
                    if let Some(limit) = limits.max_states {
                        if p.graph.states.len() >= limit {
                            let ghost before_close = p.graph;
                            let ghost held = current;
                            close_state(model, model_terminal, Ghost(initial@), &mut p, current, false);
                            proof {
                                lemma_rooted_close(before_close, p.graph, parent, head as int, held);
                                lemma_rooted_all(p.graph, parent, head + 1);
                            }
                            p.completion = BoundedOutcome::Inconclusive(InconclusiveReason::StateLimitReached { limit });
                            return p;
                        }
                    }
                    let id = p.graph.states.len();
                    let next_depth = if depth < usize::MAX { depth + 1 } else { depth };
                    let ghost g_before = p.graph;
                    add_product_state(model, Ghost(model_terminal@), Ghost(initial@), &mut p, &mut depths, target, next, next_depth);
                    proof {
                        parent = parent.push((head as int, current@.len() as int));
                    }
                    p.max_depth_reached = match p.max_depth_reached {
                        Some(d) => if d >= next_depth { Some(d) } else { Some(next_depth) },
                        None => Some(next_depth),
                    };
                    let ghost held = current@;
                    current.push(SnapshotEdge { action: edge.action, target: id });
                    proof {
                        assert forall|i: int| 0 <= i < p.graph.states.len() && !p.graph.initial_ids@.contains(i as usize) implies {
                            let q = (#[trigger] parent[i]).0;
                            let k = parent[i].1;
                            &&& 0 <= q < i
                            &&& 0 <= k
                            &&& (q < head && k < p.graph.outgoing@[q].len() && p.graph.outgoing@[q]@[k].target == i) || (q
                                == head && k < current@.len() && current@[k].target == i)
                        } by {
                            if i < id {
                                assert(parent[i] == parent.drop_last()[i]);
                                let q = parent[i].0;
                                if q < head {
                                    assert(p.graph.outgoing@[q] == g_before.outgoing@[q]);
                                } else {
                                    assert(current@[parent[i].1] == held[parent[i].1]);
                                }
                            }
                        }
                        assert forall|j: int| 0 <= j < ids0.len() implies #[trigger] p.model_ids@[j] == ids0[j] by {
                            assert(p.model_ids@[j] == before.model_ids@[j]);
                        }
                    }
                },
            }
            k += 1;
        }
        let ghost before_close = p.graph;
        let ghost held = current;
        close_state(model, model_terminal, Ghost(initial@), &mut p, current, true);
        proof {
            lemma_rooted_close(before_close, p.graph, parent, head as int, held);
        }
    }
    p.completion = BoundedOutcome::Conclusive(());
    proof {
        lemma_rooted_all(p.graph, parent, p.checked_states as int);
    }
    p
}

/// The model states with no outgoing edges.
pub open spec fn terminal_marks<S>(model: ReachableGraph<S>) -> Seq<bool> {
    Seq::new(model.states.len() as nat, |m: int| model.outgoing@[m].len() == 0)
}

fn terminal_flags<S>(model: &ReachableGraph<S>) -> (flags: Vec<bool>)
    requires
        model.wf(),
    ensures
        flags@ == terminal_marks(*model),
{
    let mut flags: Vec<bool> = Vec::new();
    let mut m: usize = 0;
    while m < model.states.len()
        invariant
            model.wf(),
            m <= model.states.len(),
            flags@ == terminal_marks(*model).subrange(0, m as int),
        decreases model.states.len() - m,
    {
        flags.push(model.outgoing[m].len() == 0);
        m += 1;
        assert(flags@ =~= terminal_marks(*model).subrange(0, m as int));
    }
    assert(flags@ =~= terminal_marks(*model));
    flags
}

/// The product of a completely captured model with the automaton, within
/// `limits`; a product state is a known terminal exactly when it was
/// expanded and its model state has no successors.
pub fn build_action_product_with_limits<S: StateValue, A: StateValue>(
    model: &ReachableGraph<S>,
    initial: &A,
    step: &ActionStep<A>,
    limits: ExplorationLimits,
) -> (p: BoundedActionProduct<S, A>)
    requires
        model.wf(),
        crate::graph::distinct_states(*model),
    ensures
        all_reachable(p.graph),
        product_wf(*model, terminal_marks(*model), initial@, p),
        forall|i: int|
            0 <= i < p.checked_states ==> (#[trigger] p.known_terminal@[i] <==> p.graph.outgoing@[i].len() == 0),
        p.completion is Conclusive ==> roots_covered(model.initial_ids@, p.model_ids@, p.graph.initial_ids@),
        p.completion matches BoundedOutcome::Inconclusive(reason) ==> match reason {
            InconclusiveReason::StateLimitReached { limit } => limits.max_states == Some(limit)
                && p.graph.states.len() == limit,
            InconclusiveReason::TransitionLimitReached { limit } => p.explored_transitions == limit
                && (limits.max_transitions == Some(limit) || (limits.max_transitions is None && limit == usize::MAX)),
            InconclusiveReason::DepthLimitReached { limit } => limits.max_depth == Some(limit),
        },
        limits.max_states matches Some(l) ==> p.graph.states.len() <= l,
{
    let flags = terminal_flags(model);
    let p = build_action_product_from_prefix_with_limits(model, flags.as_slice(), initial, step, limits);
    proof {
        assert forall|i: int|
            0 <= i < p.checked_states implies (#[trigger] p.known_terminal@[i] <==> p.graph.outgoing@[i].len() == 0) by {
            assert(p.graph.outgoing@[i].len() == model.outgoing@[p.model_ids@[i] as int].len());
        }
    }
    p
}

/// The whole product of a completely captured model with the automaton.
///
/// Exploration stops only if the transition counter would pass
/// `usize::MAX`, which is then reported as the transition limit.
pub fn build_action_product<S: StateValue, A: StateValue>(
    model: &ReachableGraph<S>,
    initial: &A,
    step: &ActionStep<A>,
) -> (p: BoundedActionProduct<S, A>)
    requires
        model.wf(),
        crate::graph::distinct_states(*model),
    ensures
        all_reachable(p.graph),
        product_wf(*model, terminal_marks(*model), initial@, p),
        forall|i: int|
            0 <= i < p.checked_states ==> (#[trigger] p.known_terminal@[i] <==> p.graph.outgoing@[i].len() == 0),
        p.completion is Conclusive ==> roots_covered(model.initial_ids@, p.model_ids@, p.graph.initial_ids@),
        p.completion matches BoundedOutcome::Inconclusive(reason) ==> reason == (InconclusiveReason::TransitionLimitReached {
            limit: usize::MAX,
        }) && p.explored_transitions == usize::MAX,
{
    build_action_product_with_limits(model, initial, step, ExplorationLimits::unbounded())
}

} // verus!
