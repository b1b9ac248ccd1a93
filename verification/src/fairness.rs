//! Exact-action weak fairness for infinite executions.
use crate::buchi::BuchiError;
use crate::checker::TraceStep;
use crate::graph::{
    everything, induced_graph, is_walk, reachable_from, selected, shortest_path, trace_spells, ReachableGraph,
};
use crate::recurrence::{
    append_path, component_is_cyclic, cyclic, is_scc_partition, member_mask, members_of, spells_walk,
    strongly_connected_components, whole_component, RecurrenceError,
};
use crate::state::StateValue;
use crate::text::{is_blank, owned, repeats_earlier, same_text, trim};
use vstd::prelude::*;

pub use crate::buchi::check_buchi_with_weak_fairness;

verus! {

/// Exact-action weak-fairness assumptions for infinite executions.
///
/// For every configured action `a`, an infinite execution is weakly fair when
/// it does not postpone `a` forever while `a` remains continuously enabled:
/// on a repeated finite recurrent walk, each configured action is either
/// disabled at some recurrent state or taken on the walk. The empty set
/// assumes no fairness.
#[derive(Debug, Clone, PartialEq, Eq)]
pub struct WeakFairness {
    actions: Vec<String>,
}

impl WeakFairness {
    pub closed spec fn action_list(&self) -> Seq<String> {
        self.actions@
    }

    /// Fairness over the given actions, in order; names must not be blank
    /// and must not repeat.
    pub fn new(actions: &[&str]) -> (r: Result<Self, FairnessError>)
        ensures
            match r {
                Ok(f) => f.action_list().len() == actions@.len() && (forall|i: int|
                    0 <= i < actions@.len() ==> #[trigger] f.action_list()[i]@ == actions@[i]@) && (forall|i: int|
                    0 <= i < actions@.len() ==> trim((#[trigger] actions@[i])@).len() > 0) && (forall|i: int|
                    0 <= i < actions@.len() ==> !#[trigger] repeats_earlier(f.action_list(), i)),
                Err(e) => exists|j: int| 0 <= j < actions@.len() && #[trigger] weak_rejection(actions@, j, e),
            },
    {
        let mut ordered: Vec<String> = Vec::new();
        let mut j: usize = 0;
        while j < actions.len()
            invariant
                j <= actions@.len(),
                ordered@.len() == j,
                forall|i: int| 0 <= i < j ==> #[trigger] ordered@[i]@ == actions@[i]@,
                forall|i: int| 0 <= i < j ==> trim((#[trigger] actions@[i])@).len() > 0,
                forall|i: int| 0 <= i < j ==> !#[trigger] text_repeats(actions@, i),
            decreases actions.len() - j,
        {
            let action = actions[j];
            if is_blank(action) {
                assert(weak_rejection(actions@, j as int, FairnessError::EmptyActionName));
                return Err(FairnessError::EmptyActionName);
            }
            let mut i: usize = 0;
            while i < j
                invariant
                    j < actions@.len(),
                    i <= j,
                    ordered@.len() == j,
                    action@ == actions@[j as int]@,
                    forall|k: int| 0 <= k < j ==> #[trigger] ordered@[k]@ == actions@[k]@,
                    forall|k: int| 0 <= k < i ==> (#[trigger] actions@[k])@ != actions@[j as int]@,
                    trim(actions@[j as int]@).len() > 0,
                    forall|i: int| 0 <= i < j ==> trim((#[trigger] actions@[i])@).len() > 0,
                    forall|i: int| 0 <= i < j ==> !#[trigger] text_repeats(actions@, i),
                decreases j - i,
            {
                if same_text(ordered[i].as_str(), action) {
                    assert(text_repeats(actions@, j as int));
                    let e = FairnessError::DuplicateAction { action: owned(action) };
                    assert(weak_rejection(actions@, j as int, e));
                    return Err(e);
                }
                i += 1;
            }
            ordered.push(owned(action));
            j += 1;
        }
        proof {
            assert forall|i: int| 0 <= i < actions@.len() implies !#[trigger] repeats_earlier(ordered@, i) by {
                if repeats_earlier(ordered@, i) {
                    let k = choose|k: int| 0 <= k < i && (#[trigger] ordered@[k])@ == ordered@[i]@;
                    assert(actions@[k]@ == actions@[i]@);
                    assert(text_repeats(actions@, i));
                }
            }
        }
        Ok(WeakFairness { actions: ordered })
    }

    /// No fairness assumption.
    pub fn none() -> (f: Self)
        ensures
            f.action_list().len() == 0,
    {
        WeakFairness { actions: Vec::new() }
    }

    pub fn actions(&self) -> (actions: &[String])
        ensures
            actions@ == self.action_list(),
    {
        self.actions.as_slice()
    }

    pub fn is_empty(&self) -> (empty: bool)
        ensures
            empty == (self.action_list().len() == 0),
    {
        self.actions.len() == 0
    }

    /// The same assumptions without the actions named in `removed`, in
    /// their original order.
    pub(crate) fn without(&self, removed: &[String]) -> (f: Self)
        ensures
            crate::combined_fairness::names(f.action_list()) == crate::combined_fairness::without(
                crate::combined_fairness::names(self.action_list()),
                crate::combined_fairness::names(removed@),
            ),
    {
        let ghost r = crate::combined_fairness::names(removed@);
        let ghost w = crate::combined_fairness::names(self.actions@);
        let mut kept: Vec<String> = Vec::new();
        let mut j: usize = 0;
        while j < self.actions.len()
            invariant
                j <= self.actions@.len(),
                r == crate::combined_fairness::names(removed@),
                w == crate::combined_fairness::names(self.actions@),
                crate::combined_fairness::names(kept@) == crate::combined_fairness::without(w.take(j as int), r),
            decreases self.actions.len() - j,
        {
            let mut found = false;
            let mut i: usize = 0;
            while i < removed.len()
                invariant
                    i <= removed@.len(),
                    j < self.actions@.len(),
                    r == crate::combined_fairness::names(removed@),
                    found == exists|x: int| 0 <= x < i && (#[trigger] removed@[x])@ == self.actions@[j as int]@,
                decreases removed.len() - i,
            {
                if same_text(removed[i].as_str(), self.actions[j].as_str()) {
                    found = true;
                }
                i += 1;
            }
            proof {
                assert(w.take(j + 1).drop_last() =~= w.take(j as int));
                assert(w.take(j + 1).last() == self.actions@[j as int]@);
                if found {
                    let x = choose|x: int| 0 <= x < removed@.len() && (#[trigger] removed@[x])@ == self.actions@[j as int]@;
                    assert(r[x] == removed@[x]@);
                    assert(r.contains(self.actions@[j as int]@));
                } else {
                    assert forall|x: int| 0 <= x < r.len() implies r[x] != self.actions@[j as int]@ by {
                        assert(r[x] == removed@[x]@);
                    }
                }
            }
            if !found {
                let ghost before = kept@;
                kept.push(owned(self.actions[j].as_str()));
                proof {
                    assert(crate::combined_fairness::names(kept@) =~= crate::combined_fairness::names(before).push(
                        self.actions@[j as int]@,
                    ));
                }
            }
            j += 1;
        }
        proof {
            assert(w.take(self.actions@.len() as int) =~= w);
        }
        WeakFairness { actions: kept }
    }
}

impl Default for WeakFairness {
    fn default() -> (f: Self)
        ensures
            f.action_list().len() == 0,
    {
        WeakFairness { actions: Vec::new() }
    }
}

/// Declaration `j` is the first bad one and `e` is the error it gives: an
/// empty-name error when blank, else a duplicate-action error.
pub open spec fn weak_rejection(actions: Seq<&str>, j: int, e: FairnessError) -> bool {
    &&& forall|i: int| 0 <= i < j ==> trim((#[trigger] actions[i])@).len() > 0 && !text_repeats(actions, i)
    &&& if trim(actions[j]@).len() == 0 {
        e == FairnessError::EmptyActionName
    } else {
        text_repeats(actions, j) && (e matches FairnessError::DuplicateAction { action } && action@ == actions[j]@)
    }
}

/// The string at `j` equals an earlier one.
pub open spec fn text_repeats(names: Seq<&str>, j: int) -> bool {
    exists|i: int| 0 <= i < j && (#[trigger] names[i])@ == names[j]@
}

#[derive(Debug, Clone, PartialEq, Eq)]
pub enum FairnessError {
    EmptyActionName,
    DuplicateAction { action: String },
}

/// What a fairness failure's message says.
pub open spec fn fairness_error_text(e: FairnessError) -> Seq<char> {
    match e {
        FairnessError::EmptyActionName => "weak-fair action name must not be empty"@,
        FairnessError::DuplicateAction { action } => "duplicate weak-fair action '"@ + action@ + "'"@,
    }
}

impl FairnessError {
    pub fn message(&self) -> (text: String)
        ensures
            text@ == fairness_error_text(*self),
    {
        let mut out = String::new();
        match self {
            FairnessError::EmptyActionName => crate::text::append(&mut out, "weak-fair action name must not be empty"),
            FairnessError::DuplicateAction { action } => {
                crate::text::append(&mut out, "duplicate weak-fair action '");
                crate::text::append(&mut out, action.as_str());
                crate::text::append(&mut out, "'");
            },
        }
        assert(out@ =~= fairness_error_text(*self));
        out
    }
}

/// `a` labels some edge leaving state `v` of `g`.
pub open spec fn enabled<S>(g: ReachableGraph<S>, v: int, a: Seq<char>) -> bool {
    exists|k: int| 0 <= k < g.outgoing@[v].len() && (#[trigger] g.outgoing@[v]@[k]).action@ == a
}

/// Some member of `component` disables `a` in the full graph.
pub open spec fn disabled_member<S>(
    full: ReachableGraph<S>,
    to_full: Seq<usize>,
    component: Seq<usize>,
    a: Seq<char>,
) -> bool {
    exists|i: int| 0 <= i < component.len() && !enabled(full, to_full[#[trigger] component[i] as int] as int, a)
}

/// An edge labelled `a` stays inside `component`.
pub open spec fn internal_edge<S>(residual: ReachableGraph<S>, component: Seq<usize>, a: Seq<char>) -> bool {
    exists|i: int, k: int|
        0 <= i < component.len() && 0 <= k < residual.outgoing@[component[i] as int].len() && (#[trigger] residual.outgoing@[
            component[i] as int]@[k]).action@ == a && component.contains(
            residual.outgoing@[component[i] as int]@[k].target,
        )
}

/// The component can honour fair action `a` forever.
pub open spec fn action_witnessed<S>(
    full: ReachableGraph<S>,
    residual: ReachableGraph<S>,
    to_full: Seq<usize>,
    component: Seq<usize>,
    a: Seq<char>,
) -> bool {
    disabled_member(full, to_full, component, a) || internal_edge(residual, component, a)
}

/// A cyclic component admits a weakly fair recurrent walk: every fair action
/// is disabled at some member (in the full graph) or labels an edge that
/// stays inside the component.
pub open spec fn fair_component<S>(
    full: ReachableGraph<S>,
    residual: ReachableGraph<S>,
    to_full: Seq<usize>,
    component: Seq<usize>,
    actions: Seq<String>,
) -> bool {
    forall|j: int| 0 <= j < actions.len() ==> #[trigger] action_witnessed(full, residual, to_full, component, actions[j]@)
}

/// The walk spelled by `cycle` honours fair action `a`: a later step takes
/// `a`, or some step holds a member's state at which `a` is disabled.
pub open spec fn honours<S: View>(
    full: ReachableGraph<S>,
    residual: ReachableGraph<S>,
    to_full: Seq<usize>,
    component: Seq<usize>,
    cycle: Seq<TraceStep<S>>,
    a: Seq<char>,
) -> bool {
    ||| exists|i: int| 1 <= i < cycle.len() && #[trigger] takes(cycle[i], a)
    ||| exists|i: int, m: int|
        0 <= i < cycle.len() && 0 <= m < component.len() && #[trigger] holds_member_state(
            residual,
            cycle[i],
            component[m],
        ) && !enabled(full, to_full[component[m] as int] as int, a)
}

/// The step was taken with action `a`.
pub open spec fn takes<S>(step: TraceStep<S>, a: Seq<char>) -> bool {
    step.action matches Some(x) && x@ == a
}

/// The step holds the state of residual node `v`.
pub open spec fn holds_member_state<S: View>(residual: ReachableGraph<S>, step: TraceStep<S>, v: usize) -> bool {
    step.state@ == residual.states@[v as int]@
}

pub(crate) proof fn lemma_honours_extend<S: View>(
    full: ReachableGraph<S>,
    residual: ReachableGraph<S>,
    to_full: Seq<usize>,
    component: Seq<usize>,
    c1: Seq<TraceStep<S>>,
    c2: Seq<TraceStep<S>>,
    a: Seq<char>,
)
    requires
        honours(full, residual, to_full, component, c1, a),
        c2.len() >= c1.len(),
        c2.subrange(0, c1.len() as int) == c1,
    ensures
        honours(full, residual, to_full, component, c2, a),
{
    if exists|i: int| 1 <= i < c1.len() && #[trigger] takes(c1[i], a) {
        let i = choose|i: int| 1 <= i < c1.len() && #[trigger] takes(c1[i], a);
        assert(c2[i] == c1[i]);
        assert(takes(c2[i], a));
    } else {
        let (i, m) = choose|i: int, m: int|
            0 <= i < c1.len() && 0 <= m < component.len() && #[trigger] holds_member_state(residual, c1[i], component[m])
                && !enabled(full, to_full[component[m] as int] as int, a);
        assert(c2[i] == c1[i]);
        assert(holds_member_state(residual, c2[i], component[m]));
    }
}

pub(crate) proof fn lemma_spells_push<S: View>(
    g: ReachableGraph<S>,
    c: Seq<TraceStep<S>>,
    mask: Seq<bool>,
    from: int,
    to: int,
    k: int,
    step: TraceStep<S>,
)
    requires
        g.wf(),
        spells_walk(g, c, mask, from, to),
        0 <= k < g.outgoing@[to].len(),
        mask[g.outgoing@[to]@[k].target as int],
        step.action == Some(g.outgoing@[to]@[k].action),
        step.state@ == g.states@[g.outgoing@[to]@[k].target as int]@,
    ensures
        spells_walk(g, c.push(step), mask, from, g.outgoing@[to]@[k].target as int),
{
    let p = choose|p: Seq<int>| #[trigger] is_walk(g, p, mask) && p[0] == from && p.last() == to && trace_spells(g, c, p);
    let t = g.outgoing@[to]@[k].target as int;
    let q = p.push(t);
    let c2 = c.push(step);
    assert forall|i: int| 0 <= i < q.len() implies 0 <= #[trigger] q[i] < g.states.len() && mask[q[i]] by {
        if i < p.len() {
            assert(q[i] == p[i]);
        }
    }
    assert forall|i: int| 0 <= i < q.len() - 1 implies g.step(#[trigger] q[i], q[i + 1]) by {
        if i < p.len() - 1 {
            assert(q[i] == p[i] && q[i + 1] == p[i + 1]);
            assert(g.step(p[i], p[i + 1]));
        } else {
            assert(q[i] == to);
            let _ = g.outgoing@[to]@[k];
        }
    }
    assert(is_walk(g, q, mask));
    assert forall|i: int| 0 <= i < c2.len() implies (#[trigger] c2[i]).state@ == g.states@[q[i]]@ by {
        if i < c.len() {
            assert(c2[i] == c[i] && q[i] == p[i]);
        }
    }
    assert forall|i: int| 0 < i < c2.len() implies (#[trigger] c2[i]).action is Some && g.edge(
        q[i - 1],
        c2[i].action->0@,
        q[i],
    ) by {
        if i < c.len() {
            assert(c2[i] == c[i] && q[i] == p[i] && q[i - 1] == p[i - 1]);
        } else {
            assert(q[i - 1] == to);
            let _ = g.outgoing@[to]@[k];
        }
    }
    if c2.len() > 0 {
        if c.len() > 0 {
            assert(c2[0] == c[0]);
        }
    }
    assert(trace_spells(g, c2, q));
}

/// Whether action `a` labels an edge leaving `v`.
pub(crate) fn action_enabled<S>(g: &ReachableGraph<S>, v: usize, a: &str) -> (r: bool)
    requires
        g.wf(),
        v < g.states.len(),
    ensures
        r == enabled(*g, v as int, a@),
{
    let edges = &g.outgoing[v];
    let mut k: usize = 0;
    while k < edges.len()
        invariant
            edges@ == g.outgoing@[v as int]@,
            k <= edges.len(),
            forall|j: int| 0 <= j < k ==> (#[trigger] edges@[j]).action@ != a@,
        decreases edges.len() - k,
    {
        if same_text(edges[k].action.as_str(), a) {
            assert(g.outgoing@[v as int]@[k as int].action@ == a@);
            return true;
        }
        k += 1;
    }
    false
}

/// The first member (by position) at which `a` is disabled in the full graph.
pub(crate) fn find_disabled<S>(full: &ReachableGraph<S>, to_full: &[usize], component: &[usize], a: &str) -> (r: Option<usize>)
    requires
        full.wf(),
        forall|i: int| 0 <= i < to_full@.len() ==> #[trigger] to_full@[i] < full.states.len(),
        forall|i: int| 0 <= i < component@.len() ==> #[trigger] component@[i] < to_full@.len(),
    ensures
        match r {
            Some(i) => i < component@.len() && !enabled(*full, to_full@[component@[i as int] as int] as int, a@),
            None => !disabled_member(*full, to_full@, component@, a@),
        },
{
    let mut i: usize = 0;
    while i < component.len()
        invariant
            full.wf(),
            forall|i: int| 0 <= i < to_full@.len() ==> #[trigger] to_full@[i] < full.states.len(),
            forall|i: int| 0 <= i < component@.len() ==> #[trigger] component@[i] < to_full@.len(),
            i <= component@.len(),
            forall|j: int| 0 <= j < i ==> enabled(*full, to_full@[#[trigger] component@[j] as int] as int, a@),
        decreases component.len() - i,
    {
        let v = component[i];
        if !action_enabled(full, to_full[v], a) {
            return Some(i);
        }
        i += 1;
    }
    None
}

/// The first edge (by member position, then edge position) labelled `a`
/// that stays inside the component.
pub(crate) fn find_internal<S>(residual: &ReachableGraph<S>, members: &Vec<bool>, component: &[usize], a: &str) -> (r: Option<
    (usize, usize),
>)
    requires
        residual.wf(),
        members@ == member_mask(component@, residual.states@.len()),
        forall|i: int| 0 <= i < component@.len() ==> #[trigger] component@[i] < residual.states.len(),
    ensures
        match r {
            Some((i, k)) => i < component@.len() && k < residual.outgoing@[component@[i as int] as int].len() && residual.outgoing@[
                component@[i as int] as int]@[k as int].action@ == a@ && component@.contains(
                residual.outgoing@[component@[i as int] as int]@[k as int].target,
            ),
            None => !internal_edge(*residual, component@, a@),
        },
{
    let mut i: usize = 0;
    while i < component.len()
        invariant
            residual.wf(),
            members@ == member_mask(component@, residual.states@.len()),
            forall|i: int| 0 <= i < component@.len() ==> #[trigger] component@[i] < residual.states.len(),
            i <= component@.len(),
            forall|x: int, k: int|
                0 <= x < i && 0 <= k < residual.outgoing@[component@[x] as int].len() ==> !((#[trigger] residual.outgoing@[
                    component@[x] as int]@[k]).action@ == a@ && component@.contains(
                    residual.outgoing@[component@[x] as int]@[k].target,
                )),
        decreases component.len() - i,
    {
        let v = component[i];
        let edges = &residual.outgoing[v];
        let mut k: usize = 0;
        while k < edges.len()
            invariant
                residual.wf(),
                v < residual.states.len(),
                v == component@[i as int],
                i < component@.len(),
                edges@ == residual.outgoing@[v as int]@,
                members@ == member_mask(component@, residual.states@.len()),
                k <= edges.len(),
                forall|j: int|
                    0 <= j < k ==> !((#[trigger] edges@[j]).action@ == a@ && component@.contains(edges@[j].target)),
            decreases edges.len() - k,
        {
            let t = edges[k].target;
            assert(residual.outgoing@[v as int]@[k as int].target < residual.states.len());
            if members[t] && same_text(edges[k].action.as_str(), a) {
                return Some((i, k));
            }
            k += 1;
        }
        proof {
            assert forall|x: int, k: int|
                0 <= x <= i && 0 <= k < residual.outgoing@[component@[x] as int].len() implies !((#[trigger] residual.outgoing@[
                    component@[x] as int]@[k]).action@ == a@ && component@.contains(
                    residual.outgoing@[component@[x] as int]@[k].target,
                )) by {
                if x == i {
                    assert(edges@[k] == residual.outgoing@[component@[x] as int]@[k]);
                }
            }
        }
        i += 1;
    }
    None
}

/// A deterministic closed recurrent walk through one cyclic residual
/// component that is weakly fair under every configured action, or `None`
/// when the component admits none.
///
/// `full_graph` supplies true action enablement: a fair action that is
/// enabled only through an edge leaving the residual still counts as
/// enabled. `residual_to_full` maps residual ids back to full-graph ids.
/// The walk starts at the component's entry; for each action in order it
/// visits the first member disabling it, else takes the first internal edge
/// labelled with it; it then returns to the entry along shortest paths
/// inside the component.
pub fn weakly_fair_cycle<S: StateValue>(
    full_graph: &ReachableGraph<S>,
    residual: &ReachableGraph<S>,
    residual_to_full: &[usize],
    component: &[usize],
    fairness: &WeakFairness,
) -> (r: Result<Option<Vec<TraceStep<S>>>, RecurrenceError>)
    requires
        full_graph.wf(),
        residual.wf(),
        whole_component(*residual, component@),
        cyclic(*residual, component@),
        forall|i: int| 0 <= i < residual_to_full@.len() ==> #[trigger] residual_to_full@[i] < full_graph.states.len(),
    ensures
        residual_to_full@.len() != residual.states.len() ==> r is Err,
        residual_to_full@.len() == residual.states.len() ==> (r matches Ok(found) && (found is Some <==> fair_component(
            *full_graph,
            *residual,
            residual_to_full@,
            component@,
            fairness.action_list(),
        ))),
        r matches Ok(Some(c)) ==> {
            &&& c@.len() >= 2
            &&& spells_walk(
                *residual,
                c@,
                member_mask(component@, residual.states@.len()),
                component@[0] as int,
                component@[0] as int,
            )
            &&& forall|j: int|
                0 <= j < fairness.action_list().len() ==> #[trigger] honours(
                    *full_graph,
                    *residual,
                    residual_to_full@,
                    component@,
                    c@,
                    fairness.action_list()[j]@,
                )
        },
{
    let entry = component[0];
    if residual_to_full.len() != residual.states.len() {
        return Err(RecurrenceError::CycleWitnessMissing);
    }
    let n = residual.states.len();
    let members = members_of(component, n);
    let ghost mask = members@;
    let ghost full = *full_graph;
    let ghost res = *residual;
    let ghost to_full = residual_to_full@;
    let ghost comp = component@;
    let mut cycle: Vec<TraceStep<S>> = Vec::new();
    cycle.push(TraceStep { action: None, state: residual.states[entry].copy_value() });
    proof {
        assert(comp.contains(entry));
        let p = seq![entry as int];
        assert(is_walk(res, p, mask));
        assert(trace_spells(res, cycle@, p));
    }
    let mut current = entry;
    let actions = fairness.actions();
    let mut j: usize = 0;
    while j < actions.len()
        invariant
            full_graph.wf(),
            residual.wf(),
            full == *full_graph,
            res == *residual,
            to_full == residual_to_full@,
            comp == component@,
            whole_component(res, comp),
            residual_to_full@.len() == residual.states.len(),
            forall|i: int| 0 <= i < residual_to_full@.len() ==> #[trigger] residual_to_full@[i] < full_graph.states.len(),
            n == residual.states.len(),
            mask == members@,
            members@ == member_mask(comp, n as nat),
            entry == comp[0],
            actions@ == fairness.action_list(),
            j <= actions@.len(),
            current < n,
            comp.contains(current),
            cycle@.len() >= 1,
            spells_walk(res, cycle@, mask, entry as int, current as int),
            forall|x: int| 0 <= x < j ==> #[trigger] honours(full, res, to_full, comp, cycle@, actions@[x]@),
            forall|x: int| 0 <= x < j ==> #[trigger] action_witnessed(full, res, to_full, comp, actions@[x]@),
        decreases actions.len() - j,
    {
        let a = actions[j].as_str();
        let ghost before = cycle@;
        match find_disabled(full_graph, residual_to_full, component, a) {
            Some(i) => {
                let d = component[i];
                match append_path(residual, members.as_slice(), current, d, &mut cycle, Ghost(entry as int)) {
                    Ok(()) => {},
                    Err(e) => {
                        proof {
                            assert(comp.contains(d));
                            crate::recurrence::lemma_member_reach(res, comp, current as int, d as int);
                        }
                        return Err(e);
                    },
                }
                proof {
                    let p = choose|p: Seq<int>| #[trigger] is_walk(res, p, mask) && p[0] == entry && p.last() == d && trace_spells(res, cycle@, p);
                    let last = cycle@.len() - 1;
                    assert(holds_member_state(res, cycle@[last], comp[i as int]));
                    assert(honours(full, res, to_full, comp, cycle@, a@));
                    assert forall|x: int| 0 <= x < j implies #[trigger] honours(full, res, to_full, comp, cycle@, actions@[x]@) by {
                        lemma_honours_extend(full, res, to_full, comp, before, cycle@, actions@[x]@);
                    }
                    assert(action_witnessed(full, res, to_full, comp, a@));
                    assert(comp.contains(d));
                }
                current = d;
            },
            None => {
                match find_internal(residual, &members, component, a) {
                    Some((i, k)) => {
                        let src = component[i];
                        match append_path(residual, members.as_slice(), current, src, &mut cycle, Ghost(entry as int)) {
                            Ok(()) => {},
                            Err(e) => {
                                proof {
                                    assert(comp.contains(src));
                                    crate::recurrence::lemma_member_reach(res, comp, current as int, src as int);
                                }
                                return Err(e);
                            },
                        }
                        let ghost mid = cycle@;
                        let edge = &residual.outgoing[src][k];
                        let t = edge.target;
                        let step = TraceStep { action: Some(edge.action.clone()), state: residual.states[t].copy_value() };
                        proof {
                            assert(mask[t as int]);
                            lemma_spells_push(res, mid, mask, entry as int, src as int, k as int, step);
                        }
                        cycle.push(step);
                        proof {
                            let last = cycle@.len() - 1;
                            assert(cycle@[last] == step);
                            assert(takes(cycle@[last], a@));
                            assert(honours(full, res, to_full, comp, cycle@, a@));
                            assert(mid.subrange(0, before.len() as int) == before);
                            assert(cycle@.subrange(0, before.len() as int) =~= before);
                            assert forall|x: int| 0 <= x < j implies #[trigger] honours(full, res, to_full, comp, cycle@, actions@[x]@) by {
                                lemma_honours_extend(full, res, to_full, comp, before, cycle@, actions@[x]@);
                            }
                            assert(action_witnessed(full, res, to_full, comp, a@));
                        }
                        current = t;
                    },
                    None => {
                        proof {
                            assert(!action_witnessed(full, res, to_full, comp, actions@[j as int]@));
                        }
                        return Ok(None);
                    },
                }
            },
        }
        j += 1;
    }
    if cycle.len() == 1 {
        let edges = &residual.outgoing[entry];
        let mut k: usize = 0;
        while k < edges.len() && !members[edges[k].target]
            invariant
                residual.wf(),
                entry < n,
                n == residual.states.len(),
                members@.len() == n,
                edges@ == residual.outgoing@[entry as int]@,
                k <= edges.len(),
                forall|x: int| 0 <= x < k ==> !members@[(#[trigger] edges@[x]).target as int],
            decreases edges.len() - k,
        {
            k += 1;
        }
        if k == edges.len() {
            proof {
                crate::recurrence::lemma_internal_edge_exists(res, comp);
                let x = choose|x: int| 0 <= x < res.outgoing@[entry as int].len() && comp.contains((#[trigger] res.outgoing@[entry as int]@[x]).target);
                assert(members@[edges@[x].target as int]);
            }
            return Err(RecurrenceError::CycleWitnessMissing);
        }
        let ghost mid = cycle@;
        let t = edges[k].target;
        let step = TraceStep { action: Some(edges[k].action.clone()), state: residual.states[t].copy_value() };
        proof {
            let p = choose|p: Seq<int>| #[trigger] is_walk(res, p, mask) && p[0] == entry && p.last() == current && trace_spells(res, mid, p);
            assert(p.len() == 1);
            assert(current == entry);
            lemma_spells_push(res, mid, mask, entry as int, entry as int, k as int, step);
        }
        cycle.push(step);
        proof {
            assert(cycle@.subrange(0, mid.len() as int) =~= mid);
            assert forall|x: int| 0 <= x < actions@.len() implies #[trigger] honours(full, res, to_full, comp, cycle@, actions@[x]@) by {
                lemma_honours_extend(full, res, to_full, comp, mid, cycle@, actions@[x]@);
            }
            assert(comp.contains(t));
        }
        current = t;
    }
    let ghost before = cycle@;
    match append_path(residual, members.as_slice(), current, entry, &mut cycle, Ghost(entry as int)) {
        Ok(()) => {},
        Err(e) => {
            proof {
                assert(comp.contains(entry));
                crate::recurrence::lemma_member_reach(res, comp, current as int, entry as int);
            }
            return Err(e);
        },
    }
    proof {
        assert forall|x: int| 0 <= x < actions@.len() implies #[trigger] honours(full, res, to_full, comp, cycle@, actions@[x]@) by {
            lemma_honours_extend(full, res, to_full, comp, before, cycle@, actions@[x]@);
        }
    }
    Ok(Some(cycle))
}

/// A violation found in a product graph, by acceptance-set index.
pub enum Violation<P> {
    /// A known terminal outside acceptance set `set`, reached by `trace`.
    Terminal { set: usize, node: usize, trace: Vec<TraceStep<P>> },
    /// A closed walk avoiding acceptance set `set` through `entry`, reached
    /// by `stem`.
    Lasso { set: usize, entry: usize, stem: Vec<TraceStep<P>>, cycle: Vec<TraceStep<P>> },
}

/// Under the strict policy, node `i` is a known terminal that misses some
/// acceptance set.
pub open spec fn terminal_violation(known_terminal: Seq<bool>, member: Seq<Vec<bool>>, i: int) -> bool {
    known_terminal[i] && exists|s: int| 0 <= s < member.len() && !(#[trigger] member[s]@[i])
}

/// Nodes outside acceptance set `s`.
pub open spec fn outside(member: Seq<Vec<bool>>, s: int, n: nat) -> Seq<bool> {
    Seq::new(n, |i: int| !member[s]@[i])
}

/// The walk spelled by `cycle` in `g` honours fair action `a`: a later step
/// takes `a`, or some step holds the state of a node at which `a` is
/// disabled according to the enablement graph `e`.
pub open spec fn honours_in<S: View>(
    e: ReachableGraph<S>,
    g: ReachableGraph<S>,
    cycle: Seq<TraceStep<S>>,
    a: Seq<char>,
) -> bool {
    ||| exists|i: int| 1 <= i < cycle.len() && #[trigger] takes(cycle[i], a)
    ||| exists|i: int, v: int|
        0 <= i < cycle.len() && 0 <= v < g.states.len() && #[trigger] holds_member_state(g, cycle[i], v as usize)
            && !enabled(e, v, a)
}

/// `cycle` is a closed walk of `g` of at least one edge, from `entry` back
/// to `entry`, staying inside `mask`, weakly fair for every action.
pub open spec fn fair_lasso_cycle<S: View>(
    e: ReachableGraph<S>,
    g: ReachableGraph<S>,
    cycle: Seq<TraceStep<S>>,
    mask: Seq<bool>,
    entry: int,
    actions: Seq<String>,
) -> bool {
    &&& cycle.len() >= 2
    &&& spells_walk(g, cycle, mask, entry, entry)
    &&& forall|j: int| 0 <= j < actions.len() ==> #[trigger] honours_in(e, g, cycle, actions[j]@)
}

/// A lasso avoiding acceptance set `set`: `stem` reaches `entry` from a root,
/// and `cycle` is a weakly fair closed walk through `entry` outside the set.
pub open spec fn lasso_ok<P: View>(
    e: ReachableGraph<P>,
    g: ReachableGraph<P>,
    member: Seq<Vec<bool>>,
    actions: Seq<String>,
    set: usize,
    entry: usize,
    stem: Seq<TraceStep<P>>,
    cycle: Seq<TraceStep<P>>,
) -> bool {
    let n = g.states.len();
    &&& entry < n && set < member.len()
    &&& !member[set as int]@[entry as int]
    &&& exists|root: int|
        0 <= root < g.initial_ids.len() && spells_walk(
            g,
            stem,
            everything(n as nat),
            #[trigger] g.initial_ids@[root] as int,
            entry as int,
        )
    &&& fair_lasso_cycle(e, g, cycle, outside(member, set as int, n as nat), entry as int, actions)
}

/// `res` is the subgraph of `g` induced by `included`, and `to_full` maps
/// its nodes back to the nodes of `g` they came from.
pub open spec fn induced_by<P: View>(
    g: ReachableGraph<P>,
    included: Seq<bool>,
    res: ReachableGraph<P>,
    to_full: Seq<usize>,
) -> bool {
    &&& res.wf()
    &&& res.states.len() == selected(included).len()
    &&& to_full.len() == selected(included).len()
    &&& forall|j: int| 0 <= j < to_full.len() ==> #[trigger] to_full[j] as int == selected(included)[j]
    &&& forall|j: int| 0 <= j < res.states.len() ==> (#[trigger] res.states@[j])@ == g.states@[selected(included)[j]]@
    &&& forall|j: int|
        0 <= j < res.outgoing.len() ==> (#[trigger] res.outgoing@[j])@ == crate::graph::kept_edges(
            g.outgoing@[selected(included)[j]]@,
            included,
        )
}

/// Outside acceptance set `s`, no cyclic strongly connected component
/// admits a walk that is weakly fair for `actions` (according to the
/// enablement graph `e`).
pub open spec fn unfair_outside<P: View>(
    e: ReachableGraph<P>,
    g: ReachableGraph<P>,
    member: Seq<Vec<bool>>,
    s: int,
    actions: Seq<String>,
) -> bool {
    exists|res: ReachableGraph<P>, comps: Seq<Vec<usize>>, to_full: Seq<usize>|
        #![trigger induced_by(g, outside(member, s, g.states.len() as nat), res, to_full), is_scc_partition(res, comps)]
        induced_by(g, outside(member, s, g.states.len() as nat), res, to_full) && is_scc_partition(res, comps)
            && forall|c: int|
            0 <= c < comps.len() && #[trigger] cyclic(res, comps[c]@) ==> !fair_component(
                e,
                res,
                to_full,
                comps[c]@,
                actions,
            )
}

/// What the counterexample search promises of its answer.
pub open spec fn violation_ok<P: View>(
    e: ReachableGraph<P>,
    g: ReachableGraph<P>,
    known_terminal: Seq<bool>,
    member: Seq<Vec<bool>>,
    strict: bool,
    actions: Seq<String>,
    r: Result<Option<Violation<P>>, BuchiError>,
) -> bool {
    let n = g.states.len();
    match r {
        Ok(None) => {
            &&& strict ==> forall|i: int| 0 <= i < n ==> !#[trigger] terminal_violation(known_terminal, member, i)
            &&& forall|s: int| 0 <= s < member.len() ==> #[trigger] unfair_outside(e, g, member, s, actions)
        },
        Ok(Some(Violation::Terminal { set, node, trace })) => {
            &&& strict
            &&& node < n && set < member.len()
            &&& known_terminal[node as int] && !member[set as int]@[node as int]
            &&& forall|i: int| 0 <= i < node ==> !#[trigger] terminal_violation(known_terminal, member, i)
            &&& forall|s: int| 0 <= s < set ==> #[trigger] member[s]@[node as int]
            &&& exists|root: int|
                0 <= root < g.initial_ids.len() && spells_walk(
                    g,
                    trace@,
                    everything(n as nat),
                    #[trigger] g.initial_ids@[root] as int,
                    node as int,
                )
        },
        Ok(Some(Violation::Lasso { set, entry, stem, cycle })) => {
            &&& strict ==> forall|i: int| 0 <= i < n ==> !#[trigger] terminal_violation(known_terminal, member, i)
            &&& lasso_ok(e, g, member, actions, set, entry, stem@, cycle@)
        },
        Err(_) => exists|i: int| 0 <= i < n && !reachable_from(g, g.initial_ids@, i, everything(n as nat)),
    }
}

/// The ids of the included nodes, in increasing order.
pub(crate) fn selected_ids(included: &Vec<bool>) -> (ids: Vec<usize>)
    ensures
        ids@.len() == selected(included@).len(),
        forall|j: int| 0 <= j < ids@.len() ==> ids@[j] as int == #[trigger] selected(included@)[j],
{
    let mut ids: Vec<usize> = Vec::new();
    let mut i: usize = 0;
    while i < included.len()
        invariant
            i <= included@.len(),
            ids@.len() == selected(included@.subrange(0, i as int)).len(),
            forall|j: int| 0 <= j < ids@.len() ==> ids@[j] as int == #[trigger] selected(included@.subrange(0, i as int))[j],
        decreases included.len() - i,
    {
        let ghost pre = included@.subrange(0, i as int);
        let ghost next = included@.subrange(0, i + 1);
        assert(next.drop_last() =~= pre);
        if included[i] {
            ids.push(i);
        }
        proof {
            assert forall|j: int| 0 <= j < ids@.len() implies ids@[j] as int == #[trigger] selected(next)[j] by {
                if j < selected(pre).len() {
                    assert(selected(next)[j] == selected(pre)[j]);
                }
            }
        }
        i += 1;
    }
    assert(included@.subrange(0, included@.len() as int) =~= included@);
    ids
}

pub(crate) proof fn lemma_lift_honours<S: View>(
    e: ReachableGraph<S>,
    g: ReachableGraph<S>,
    res: ReachableGraph<S>,
    included: Seq<bool>,
    to_full: Seq<usize>,
    comp: Seq<usize>,
    cycle: Seq<TraceStep<S>>,
    a: Seq<char>,
)
    requires
        res.states.len() == selected(included).len(),
        forall|j: int| 0 <= j < res.states.len() ==> (#[trigger] res.states@[j])@ == g.states@[selected(included)[j]]@,
        to_full.len() == res.states.len(),
        forall|j: int| 0 <= j < to_full.len() ==> to_full[j] as int == #[trigger] selected(included)[j],
        forall|j: int| 0 <= j < to_full.len() ==> #[trigger] to_full[j] < g.states.len(),
        forall|m: int| 0 <= m < comp.len() ==> #[trigger] comp[m] < res.states.len(),
        honours(e, res, to_full, comp, cycle, a),
    ensures
        honours_in(e, g, cycle, a),
{
    if exists|i: int| 1 <= i < cycle.len() && #[trigger] takes(cycle[i], a) {
    } else {
        let (i, m) = choose|i: int, m: int|
            0 <= i < cycle.len() && 0 <= m < comp.len() && #[trigger] holds_member_state(res, cycle[i], comp[m])
                && !enabled(e, to_full[comp[m] as int] as int, a);
        let v = to_full[comp[m] as int];
        assert(res.states@[comp[m] as int]@ == g.states@[selected(included)[comp[m] as int]]@);
        let vi = v as int;
        assert(0 <= vi < g.states.len());
        assert(holds_member_state(g, cycle[i], vi as usize) && !enabled(e, vi, a));
    }
}

/// A walk found by `shortest_path` from the roots starts at some root.
pub(crate) proof fn lemma_root_walk<P: View>(g: ReachableGraph<P>, t: Seq<TraceStep<P>>, goal: int)
    requires
        exists|p: Seq<int>|
            #[trigger] is_walk(g, p, everything(g.states@.len())) && g.initial_ids@.contains(p[0] as usize) && p.last()
                == goal && trace_spells(g, t, p),
    ensures
        exists|root: int|
            0 <= root < g.initial_ids.len() && spells_walk(
                g,
                t,
                everything(g.states@.len()),
                #[trigger] g.initial_ids@[root] as int,
                goal,
            ),
{
    let p = choose|p: Seq<int>|
        #[trigger] is_walk(g, p, everything(g.states@.len())) && g.initial_ids@.contains(p[0] as usize) && p.last() == goal
            && trace_spells(g, t, p);
    let root = g.initial_ids@.index_of(p[0] as usize);
    assert(spells_walk(g, t, everything(g.states@.len()), g.initial_ids@[root] as int, goal));
}

/// The first strict-policy terminal violation, with a shortest trace.
pub(crate) fn find_terminal_violation<P: StateValue>(
    g: &ReachableGraph<P>,
    known_terminal: &[bool],
    member: &Vec<Vec<bool>>,
) -> (r: Result<Option<Violation<P>>, BuchiError>)
    requires
        g.wf(),
        known_terminal@.len() == g.states.len(),
        forall|s: int| 0 <= s < member@.len() ==> (#[trigger] member@[s]).len() == g.states.len(),
    ensures
        match r {
            Ok(None) => forall|i: int| 0 <= i < g.states.len() ==> !#[trigger] terminal_violation(known_terminal@, member@, i),
            Ok(Some(v)) => v is Terminal && forall|e: ReachableGraph<P>| #[trigger] violation_ok(e, *g, known_terminal@, member@, true, Seq::empty(), r),
            Err(x) => x is MissingWitness && forall|e: ReachableGraph<P>| #[trigger] violation_ok(e, *g, known_terminal@, member@, true, Seq::empty(), r),
        },
{
    let n = g.states.len();
    let mut i: usize = 0;
    while i < n
        invariant
            g.wf(),
            n == g.states.len(),
            known_terminal@.len() == n,
            forall|s: int| 0 <= s < member@.len() ==> (#[trigger] member@[s]).len() == n,
            i <= n,
            forall|x: int| 0 <= x < i ==> !#[trigger] terminal_violation(known_terminal@, member@, x),
        decreases n - i,
    {
        if known_terminal[i] {
            let mut s: usize = 0;
            while s < member.len() && member[s][i]
                invariant
                    i < n,
                    forall|s: int| 0 <= s < member@.len() ==> (#[trigger] member@[s]).len() == n,
                    s <= member@.len(),
                    forall|x: int| 0 <= x < s ==> #[trigger] member@[x]@[i as int],
                decreases member.len() - s,
            {
                s += 1;
            }
            if s < member.len() {
                match shortest_path(g, g.initial_ids.as_slice(), i, None) {
                    Some(trace) => {
                        proof {
                            lemma_root_walk(*g, trace@, i as int);
                        }
                        return Ok(Some(Violation::Terminal { set: s, node: i, trace }));
                    },
                    None => {
                        return Err(BuchiError::MissingWitness);
                    },
                }
            }
            proof {
                assert forall|x: int| 0 <= x < member@.len() implies #[trigger] member@[x]@[i as int] by {}
            }
        }
        i += 1;
    }
    Ok(None)
}

/// Nodes outside acceptance set `s`, as a mask.
pub(crate) fn outside_mask(member: &Vec<Vec<bool>>, s: usize, n: usize) -> (mask: Vec<bool>)
    requires
        s < member@.len(),
        member@[s as int].len() == n,
    ensures
        mask@ == outside(member@, s as int, n as nat),
{
    let mut mask: Vec<bool> = Vec::new();
    let mut i: usize = 0;
    while i < n
        invariant
            s < member@.len(),
            member@[s as int].len() == n,
            i <= n,
            mask@ == outside(member@, s as int, n as nat).subrange(0, i as int),
        decreases n - i,
    {
        mask.push(!member[s][i]);
        i += 1;
        assert(mask@ =~= outside(member@, s as int, n as nat).subrange(0, i as int));
    }
    assert(mask@ =~= outside(member@, s as int, n as nat));
    mask
}

/// The search key of a lasso candidate: stem length, set index, entry.
pub(crate) open spec fn key_less(a: (int, int, int), b: (int, int, int)) -> bool {
    a.0 < b.0 || (a.0 == b.0 && (a.1 < b.1 || (a.1 == b.1 && a.2 < b.2)))
}

pub(crate) fn candidate_less(a: (usize, usize, usize), b: (usize, usize, usize)) -> (less: bool)
    ensures
        less == key_less((a.0 as int, a.1 as int, a.2 as int), (b.0 as int, b.1 as int, b.2 as int)),
{
    a.0 < b.0 || (a.0 == b.0 && (a.1 < b.1 || (a.1 == b.1 && a.2 < b.2)))
}

/// Search a product graph for a violation of generalized Büchi acceptance
/// under weak fairness.
///
/// Under the strict policy the first known terminal missing an acceptance
/// set (by node, then set) wins, with a shortest trace. Otherwise, for each
/// acceptance set in order, the graph is restricted to the nodes outside it
/// and every cyclic strongly connected component with a weakly fair closed
/// walk yields a candidate lasso; the candidate with the shortest stem, then
/// the lowest set index, then the lowest entry node is returned. With
/// `first_per_set`, only the first such component of each set (in component
/// order) is a candidate.
/// `member[s][i]` says whether node `i` lies in acceptance set `s`.
pub fn find_fair_counterexample<P: StateValue>(
    enablement: &ReachableGraph<P>,
    g: &ReachableGraph<P>,
    known_terminal: &[bool],
    member: &Vec<Vec<bool>>,
    strict: bool,
    fairness: &WeakFairness,
    first_per_set: bool,
) -> (r: Result<Option<Violation<P>>, BuchiError>)
    requires
        g.wf(),
        enablement.wf(),
        enablement.states.len() == g.states.len(),
        known_terminal@.len() == g.states.len(),
        forall|s: int| 0 <= s < member@.len() ==> (#[trigger] member@[s]).len() == g.states.len(),
    ensures
        violation_ok(*enablement, *g, known_terminal@, member@, strict, fairness.action_list(), r),
{
    let n = g.states.len();
    if strict {
        let found = find_terminal_violation(g, known_terminal, member);
        match found {
            Ok(Some(v)) => {
                proof {
                    assert(violation_ok(*enablement, *g, known_terminal@, member@, true, Seq::empty(), found));
                }
                return Ok(Some(v));
            },
            Err(e) => {
                proof {
                    assert(violation_ok(*enablement, *g, known_terminal@, member@, true, Seq::empty(), found));
                }
                return Err(e);
            },
            Ok(None) => {},
        }
    }
    let ghost actions = fairness.action_list();
    let ghost no_terminal = strict ==> forall|i: int| 0 <= i < n ==> !#[trigger] terminal_violation(known_terminal@, member@, i);
    let mut best: Option<(usize, usize, Vec<TraceStep<P>>, Vec<TraceStep<P>>)> = None;
    let mut s: usize = 0;
    while s < member.len()
        invariant
            g.wf(),
            enablement.wf(),
            enablement.states.len() == n,
            n == g.states.len(),
            known_terminal@.len() == n,
            forall|s: int| 0 <= s < member@.len() ==> (#[trigger] member@[s]).len() == n,
            actions == fairness.action_list(),
            no_terminal,
            no_terminal == (strict ==> forall|i: int| 0 <= i < n ==> !#[trigger] terminal_violation(known_terminal@, member@, i)),
            s <= member@.len(),
            best matches Some(b) ==> lasso_ok(*enablement, *g, member@, actions, b.0, b.1, b.2@, b.3@),
            best is None ==> forall|x: int| 0 <= x < s ==> #[trigger] unfair_outside(*enablement, *g, member@, x, actions),
        decreases member.len() - s,
    {
        let included = outside_mask(member, s, n);
        let old_ids = selected_ids(&included);
        {
            let residual = induced_graph(g, included.as_slice());
            let comps = strongly_connected_components(&residual);
            proof {
                crate::graph::lemma_selected_bounds(included@);
            }
            let mut c: usize = 0;
            let mut picked = false;
            while c < comps.len() && !(first_per_set && picked)
                invariant
                    picked ==> best is Some,
                    g.wf(),
                    enablement.wf(),
                    enablement.states.len() == n,
                    n == g.states.len(),
                    forall|s: int| 0 <= s < member@.len() ==> (#[trigger] member@[s]).len() == n,
                    actions == fairness.action_list(),
                    s < member@.len(),
                    included@ == outside(member@, s as int, n as nat),
                    old_ids@.len() == selected(included@).len(),
                    forall|j: int| 0 <= j < old_ids@.len() ==> old_ids@[j] as int == #[trigger] selected(included@)[j],
                    forall|j: int|
                        0 <= j < selected(included@).len() ==> 0 <= #[trigger] selected(included@)[j] < included@.len()
                            && included@[selected(included@)[j]],
                    residual.wf(),
                    residual.states.len() == selected(included@).len(),
                    forall|j: int|
                        0 <= j < residual.states.len() ==> (#[trigger] residual.states@[j])@ == g.states@[selected(
                            included@,
                        )[j]]@,
                    forall|j: int|
                        0 <= j < residual.outgoing.len() ==> (#[trigger] residual.outgoing@[j])@
                            == crate::graph::kept_edges(g.outgoing@[selected(included@)[j]]@, included@),
                    crate::recurrence::is_scc_partition(residual, comps@),
                    c <= comps@.len(),
                    best matches Some(b) ==> lasso_ok(*enablement, *g, member@, actions, b.0, b.1, b.2@, b.3@),
                    best is None ==> forall|x: int|
                        0 <= x < s ==> #[trigger] unfair_outside(*enablement, *g, member@, x, actions),
                    best is None ==> forall|x: int|
                        0 <= x < c && #[trigger] cyclic(residual, comps@[x]@) ==> !fair_component(
                            *enablement,
                            residual,
                            old_ids@,
                            comps@[x]@,
                            actions,
                        ),
                decreases comps.len() - c,
            {
                let comp = &comps[c];
                proof {
                    crate::recurrence::lemma_scc_whole(residual, comps@, c as int);
                    assert forall|j: int| 0 <= j < old_ids@.len() implies #[trigger] old_ids@[j] < g.states.len() by {
                        assert(old_ids@[j] as int == selected(included@)[j]);
                    }
                }
                if component_is_cyclic(&residual, comp.as_slice()) {
                    let found = weakly_fair_cycle(enablement, &residual, old_ids.as_slice(), comp.as_slice(), fairness);
                    match found {
                        Err(e) => {
                            return Err(BuchiError::Graph(e));
                        },
                        Ok(None) => {},
                        Ok(Some(cycle)) => {
                            let entry = comp[0];
                            let pe = old_ids[entry];
                            match shortest_path(g, g.initial_ids.as_slice(), pe, None) {
                                None => {
                                    return Err(BuchiError::MissingWitness);
                                },
                                Some(stem) => {
                                    proof {
                                        lemma_root_walk(*g, stem@, pe as int);
                                        let mask = member_mask(comp@, residual.states@.len());
                                        let p = choose|p: Seq<int>|
                                            #[trigger] is_walk(residual, p, mask) && p[0] == entry && p.last() == entry
                                                && trace_spells(residual, cycle@, p);
                                        crate::graph::lemma_induced_walk(*g, included@, residual, mask, p, cycle@);
                                        let q = p.map_values(|v: int| selected(included@)[v]);
                                        assert(q[0] == pe);
                                        assert(q.last() == pe);
                                        assert(spells_walk(*g, cycle@, outside(member@, s as int, n as nat), pe as int, pe as int));
                                        assert forall|j: int| 0 <= j < actions.len() implies #[trigger] honours_in(*enablement, *g, cycle@, actions[j]@) by {
                                            assert(honours(*enablement, residual, old_ids@, comp@, cycle@, actions[j]@));
                                            lemma_lift_honours(*enablement, *g, residual, included@, old_ids@, comp@, cycle@, actions[j]@);
                                        }
                                        assert(included@[selected(included@)[entry as int]]);
                                        assert(lasso_ok(*enablement, *g, member@, actions, s, pe, stem@, cycle@));
                                    }
                                    let len = if stem.len() > 0 { stem.len() - 1 } else { 0 };
                                    let better = match &best {
                                        None => true,
                                        Some(b) => {
                                            let blen = if b.2.len() > 0 { b.2.len() - 1 } else { 0 };
                                            candidate_less((len, s, pe), (blen, b.0, b.1))
                                        },
                                    };
                                    if better {
                                        best = Some((s, pe, stem, cycle));
                                    }
                                    picked = true;
                                },
                            }
                        },
                    }
                }
                c += 1;
            }
            proof {
                if best is None {
                    assert(induced_by(*g, outside(member@, s as int, n as nat), residual, old_ids@));
                    assert(unfair_outside(*enablement, *g, member@, s as int, actions));
                }
            }
        }
        s += 1;
    }
    match best {
        None => Ok(None),
        Some(b) => Ok(Some(Violation::Lasso { set: b.0, entry: b.1, stem: b.2, cycle: b.3 })),
    }
}

} // verus!
