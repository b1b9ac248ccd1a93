//! Universal eventuality: every maximal execution eventually reaches a
//! target state.
use crate::checker::TraceStep;
use crate::graph::{
    capture_reachable_graph, distinct_states, everything, induced_graph, is_walk, kept_roots, reachable_from,
    reachable_set, roots_of_initial, selected, shortest_path, trace_spells, ReachableGraph,
};
use crate::model::{StatePredicate, TransitionSystem};
use crate::recurrence::{
    component_is_cyclic, cycle_witness, member_mask, spells_walk, strongly_connected_components, RecurrenceError,
};
use crate::state::StateValue;
use crate::text::{is_blank, owned, trim};
use vstd::prelude::*;

verus! {

/// A named universal eventuality query: every maximal execution must
/// eventually reach a target state.
#[verifier::reject_recursive_types(S)]
pub struct EventualityProperty<S> {
    name: String,
    target: StatePredicate<S>,
}

impl<S> EventualityProperty<S> {
    pub closed spec fn name_text(&self) -> Seq<char> {
        self.name@
    }

    pub fn new<F: Fn(&S) -> bool + Send + Sync + 'static>(name: &str, target: F) -> (r: Result<Self, EventualityError>)
        ensures
            match r {
                Ok(p) => trim(name@).len() > 0 && p.name_text() == name@,
                Err(e) => trim(name@).len() == 0 && e == EventualityError::EmptyPropertyName,
            },
    {
        if is_blank(name) {
            return Err(EventualityError::EmptyPropertyName);
        }
        Ok(EventualityProperty { name: owned(name), target: StatePredicate::from_fn(target) })
    }

    pub fn name(&self) -> (name: &str)
        ensures
            name@ == self.name_text(),
    {
        self.name.as_str()
    }

    /// The same property, sharing its predicate.
    pub fn duplicate(&self) -> (p: Self)
        ensures
            p.name_text() == self.name_text(),
    {
        EventualityProperty { name: self.name.clone(), target: self.target.share() }
    }
}

#[derive(Debug, Clone, Copy, PartialEq, Eq, Structural)]
pub enum EventualityStatus {
    Satisfied,
    Violated,
}

#[derive(Debug, Clone, PartialEq, Eq)]
pub enum EventualityCounterexample<S> {
    /// A maximal finite execution terminates before the target is reached.
    Finite { trace: Vec<TraceStep<S>> },
    /// An execution can remain forever in a target-free recurrent region.
    Infinite { stem: Vec<TraceStep<S>>, cycle: Vec<TraceStep<S>> },
}

#[derive(Debug, Clone, PartialEq, Eq)]
pub struct EventualityResult<S> {
    pub property: String,
    pub status: EventualityStatus,
    pub discovered_states: usize,
    pub explored_transitions: usize,
    pub max_depth_reached: Option<usize>,
    pub counterexample: Option<EventualityCounterexample<S>>,
}

#[derive(Debug, Clone, PartialEq, Eq)]
pub enum EventualityError {
    EmptyPropertyName,
    Graph(RecurrenceError),
    MissingFiniteWitness,
    MissingCycleWitness,
}

/// What an eventuality failure's message says.
pub open spec fn eventuality_error_text(e: EventualityError) -> Seq<char> {
    match e {
        EventualityError::EmptyPropertyName => "eventuality property name must not be empty"@,
        EventualityError::Graph(g) => "eventuality graph analysis failed: "@ + crate::recurrence::recurrence_error_text(g),
        EventualityError::MissingFiniteWitness => "target-free terminal state did not yield a finite counterexample trace"@,
        EventualityError::MissingCycleWitness => "target-free cyclic component did not yield a stem-plus-cycle counterexample"@,
    }
}

impl EventualityError {
    pub fn message(&self) -> (text: String)
        ensures
            text@ == eventuality_error_text(*self),
    {
        let mut out = String::new();
        match self {
            EventualityError::EmptyPropertyName => crate::text::append(
                &mut out,
                "eventuality property name must not be empty",
            ),
            EventualityError::Graph(e) => {
                crate::text::append(&mut out, "eventuality graph analysis failed: ");
                let t = e.message();
                crate::text::append(&mut out, t.as_str());
            },
            EventualityError::MissingFiniteWitness => crate::text::append(
                &mut out,
                "target-free terminal state did not yield a finite counterexample trace",
            ),
            EventualityError::MissingCycleWitness => crate::text::append(
                &mut out,
                "target-free cyclic component did not yield a stem-plus-cycle counterexample",
            ),
        }
        assert(out@ =~= eventuality_error_text(*self));
        out
    }
}

/// Nodes outside the target set.
pub open spec fn target_free(target: Seq<bool>) -> Seq<bool> {
    Seq::new(target.len(), |v: int| !target[v])
}

/// Nodes reachable from a root through target-free nodes only.
pub open spec fn free_region<S>(c: ReachableGraph<S>, target: Seq<bool>) -> Seq<bool> {
    Seq::new(c.states.len() as nat, |v: int| reachable_from(c, c.initial_ids@, v, target_free(target)))
}

/// `res` answers the eventuality query on `c`, the captured reachable graph
/// of `model`, where `target[v]` is the property's answer on state `v`: a
/// finite counterexample walks from a root through the target-free region
/// to a terminal state, an infinite one is a stem from a root and a closed
/// walk inside that region, and a satisfied answer means the region has no
/// terminal state.
pub open spec fn eventuality_report_ok<S: View>(
    model: TransitionSystem<S>,
    name: Seq<char>,
    c: ReachableGraph<S>,
    target: Seq<bool>,
    res: EventualityResult<S>,
) -> bool {
    let free = free_region(c, target);
    let n = c.states.len();
    &&& c.wf() && distinct_states(c) && roots_of_initial(c, model.initial())
    &&& target.len() == n
    &&& res.property@ == name
    &&& res.discovered_states == n
    &&& (res.status == EventualityStatus::Violated <==> res.counterexample is Some)
    &&& match res.counterexample {
        None => forall|v: int| 0 <= v < n && #[trigger] free[v] ==> c.outgoing@[v].len() > 0,
        Some(EventualityCounterexample::Finite { trace }) => exists|p: Seq<int>|
            #[trigger] is_walk(c, p, free) && c.initial_ids@.contains(p[0] as usize) && c.outgoing@[p.last()].len() == 0
                && trace_spells(c, trace@, p),
        Some(EventualityCounterexample::Infinite { stem, cycle }) => {
            &&& cycle@.len() >= 2
            &&& exists|p: Seq<int>|
                #[trigger] is_walk(c, p, free) && p[0] == p.last() && trace_spells(c, cycle@, p)
            &&& exists|p: Seq<int>| #[trigger] is_walk(c, p, free) && trace_spells(c, stem@, p) && c.initial_ids@.contains(
                p[0] as usize,
            )
        },
    }
}

/// A node of the target-free region is reached from a root by a walk that
/// stays inside the region.
proof fn lemma_region_walk<S>(c: ReachableGraph<S>, target: Seq<bool>, v: int)
    requires
        target.len() == c.states.len(),
        0 <= v < c.states.len(),
        free_region(c, target)[v],
    ensures
        exists|p: Seq<int>|
            #[trigger] is_walk(c, p, free_region(c, target)) && c.initial_ids@.contains(p[0] as usize) && p.last() == v,
{
    let free = free_region(c, target);
    let p = choose|p: Seq<int>| #[trigger] is_walk(c, p, target_free(target)) && c.initial_ids@.contains(p[0] as usize) && p.last() == v;
    assert forall|j: int| 0 <= j < p.len() implies 0 <= #[trigger] p[j] < c.states.len() && free[p[j]] by {
        crate::graph::lemma_walk_prefix_reachable(c, c.initial_ids@, p, target_free(target), j);
    }
    assert(is_walk(c, p, free));
}

/// Check "on every maximal execution, eventually target" without fairness.
///
/// Target states are absorbing: the analysis keeps the nodes reachable from
/// target-free roots through target-free nodes. A terminal node there gives
/// a finite counterexample (preferred); otherwise the first cyclic strongly
/// connected component there gives a stem and a cycle.
pub fn check_eventuality<S: StateValue>(model: &TransitionSystem<S>, property: &EventualityProperty<S>) -> (r: Result<
    EventualityResult<S>,
    EventualityError,
>)
    ensures
        r matches Ok(res) ==> exists|c: ReachableGraph<S>, target: Seq<bool>|
            #[trigger] eventuality_report_ok(*model, property.name_text(), c, target, res),
        r matches Err(e) ==> e matches EventualityError::Graph(RecurrenceError::Graph(g)) && (g is Model || (
        g is UnexpectedInconclusive && crate::graph::capture_saturates(*model))),
{
    let captured = match capture_reachable_graph(model) {
        Ok(c) => c,
        Err(e) => {
            return Err(EventualityError::Graph(RecurrenceError::Graph(e)));
        },
    };
    let graph = &captured.graph;
    let n = graph.states.len();
    let mut is_target: Vec<bool> = Vec::new();
    let mut free_mask: Vec<bool> = Vec::new();
    let mut i: usize = 0;
    while i < n
        invariant
            n == graph.states.len(),
            i <= n,
            is_target@.len() == i,
            free_mask@ == target_free(is_target@),
        decreases n - i,
    {
        let t = property.target.evaluate(&graph.states[i]);
        is_target.push(t);
        free_mask.push(!t);
        i += 1;
        assert(free_mask@ =~= target_free(is_target@));
    }
    let reach = reachable_set(graph, graph.initial_ids.as_slice(), free_mask.as_slice());
    let ghost free = free_region(*graph, is_target@);
    assert(reach@ =~= free);
    let mut t: usize = 0;
    while t < n
        invariant
            graph.wf(),
            n == graph.states.len(),
            reach@ == free,
            free.len() == n,
            t <= n,
            forall|v: int| 0 <= v < t && #[trigger] free[v] ==> graph.outgoing@[v].len() > 0,
        ensures
            t <= n,
            reach@ == free,
            free.len() == n,
            forall|v: int| 0 <= v < t && #[trigger] free[v] ==> graph.outgoing@[v].len() > 0,
            t < n ==> free[t as int] && graph.outgoing@[t as int].len() == 0,
        decreases n - t,
    {
        if reach[t] && graph.outgoing[t].len() == 0 {
            break ;
        }
        t += 1;
    }
    if t < n {
        let reach_slice = reach.as_slice();
        let trace = match shortest_path(graph, graph.initial_ids.as_slice(), t, Some(reach_slice)) {
            Some(trace) => trace,
            None => {
                proof {
                    lemma_region_walk(*graph, is_target@, t as int);
                    let p = choose|p: Seq<int>|
                        #[trigger] is_walk(*graph, p, free) && graph.initial_ids@.contains(p[0] as usize) && p.last() == t;
                    assert(crate::graph::mask_of(Some(reach_slice), n as nat) == free);
                    assert(reachable_from(*graph, graph.initial_ids@, t as int, free));
                    assert(false);
                }
                return Err(EventualityError::MissingFiniteWitness);
            },
        };
        let res = EventualityResult {
            property: owned(property.name()),
            status: EventualityStatus::Violated,
            discovered_states: captured.discovered_states,
            explored_transitions: captured.explored_transitions,
            max_depth_reached: captured.max_depth_reached,
            counterexample: Some(EventualityCounterexample::Finite { trace }),
        };
        proof {
            let m = crate::graph::mask_of(Some(reach_slice), n as nat);
            assert(m == free);
            let p = choose|p: Seq<int>|
                #[trigger] is_walk(*graph, p, m) && graph.initial_ids@.contains(p[0] as usize) && p.last() == t
                    && trace_spells(*graph, trace@, p);
            assert(is_walk(*graph, p, free) && graph.initial_ids@.contains(p[0] as usize) && graph.outgoing@[p.last()].len()
                == 0 && trace_spells(*graph, trace@, p));
            assert(eventuality_report_ok(*model, property.name_text(), *graph, is_target@, res));
        }
        return Ok(res);
    }
    let residual = induced_graph(graph, reach.as_slice());
    let components = strongly_connected_components(&residual);
    let mut k: usize = 0;
    while k < components.len()
        invariant
            residual.wf(),
            crate::recurrence::is_scc_partition(residual, components@),
            k <= components@.len(),
        ensures
            k <= components@.len(),
            k < components@.len() ==> crate::recurrence::cyclic(residual, components@[k as int]@),
        decreases components.len() - k,
    {
        proof {
            crate::recurrence::lemma_scc_whole(residual, components@, k as int);
        }
        if component_is_cyclic(&residual, components[k].as_slice()) {
            break ;
        }
        k += 1;
    }
    if k < components.len() {
        proof {
            crate::recurrence::lemma_scc_whole(residual, components@, k as int);
        }
        let witness = match cycle_witness(&residual, k, components[k].as_slice()) {
            Ok(Some(w)) => w,
            Ok(None) => {
                return Err(EventualityError::MissingCycleWitness);
            },
            Err(e) => {
                proof {
                    let comp = components@[k as int]@;
                    let c0 = comp[0] as int;
                    crate::graph::lemma_selected_bounds(reach@);
                    let v = selected(reach@)[c0];
                    lemma_region_walk(*graph, is_target@, v);
                    let p = choose|p: Seq<int>|
                        #[trigger] is_walk(*graph, p, free) && graph.initial_ids@.contains(p[0] as usize) && p.last() == v;
                    crate::graph::lemma_walk_to_induced(*graph, reach@, residual, p);
                    crate::graph::lemma_rank_included(reach@, v);
                    let rk = crate::graph::rank(reach@, v);
                    if rk < c0 {
                        assert(selected(reach@)[rk] < selected(reach@)[c0]);
                    } else if rk > c0 {
                        assert(selected(reach@)[c0] < selected(reach@)[rk]);
                    }
                    assert(rk == c0);
                    assert(false);
                }
                return Err(EventualityError::Graph(e));
            },
        };
        let ghost stem = witness.stem;
        let ghost cycle = witness.cycle;
        proof {
            let comp = components@[k as int]@;
            let mask = member_mask(comp, residual.states@.len());
            let p = choose|p: Seq<int>|
                #[trigger] is_walk(residual, p, mask) && p[0] == comp[0] as int && p.last() == comp[0] as int
                    && trace_spells(residual, cycle@, p);
            crate::graph::lemma_induced_walk(*graph, reach@, residual, mask, p, cycle@);
            let q = p.map_values(|v: int| selected(reach@)[v]);
            assert(is_walk(*graph, q, free) && q[0] == q.last() && trace_spells(*graph, cycle@, q));
            let root = choose|root: int|
                #![trigger residual.initial_ids@[root]]
                0 <= root < residual.initial_ids.len() && spells_walk(
                    residual,
                    stem@,
                    everything(residual.states@.len()),
                    residual.initial_ids@[root] as int,
                    comp[0] as int,
                );
            let sp = choose|sp: Seq<int>|
                #[trigger] is_walk(residual, sp, everything(residual.states@.len())) && sp[0]
                    == residual.initial_ids@[root] as int && sp.last() == comp[0] as int && trace_spells(
                    residual,
                    stem@,
                    sp,
                );
            crate::graph::lemma_induced_walk(*graph, reach@, residual, everything(residual.states@.len()), sp, stem@);
            let sq = sp.map_values(|v: int| selected(reach@)[v]);
            crate::graph::lemma_kept_root_source(graph.initial_ids@, reach@, root);
            let j = choose|j: int|
                0 <= j < graph.initial_ids@.len() && reach@[(#[trigger] graph.initial_ids@[j]) as int] && crate::graph::rank(
                    reach@,
                    graph.initial_ids@[j] as int,
                ) == kept_roots(graph.initial_ids@, reach@)[root];
            crate::graph::lemma_rank_included(reach@, graph.initial_ids@[j] as int);
            assert(sq[0] == graph.initial_ids@[j] as int);
            assert(graph.initial_ids@.contains(sq[0] as usize));
            assert(is_walk(*graph, sq, free) && trace_spells(*graph, stem@, sq));
        }
        let res = EventualityResult {
            property: owned(property.name()),
            status: EventualityStatus::Violated,
            discovered_states: captured.discovered_states,
            explored_transitions: captured.explored_transitions,
            max_depth_reached: captured.max_depth_reached,
            counterexample: Some(EventualityCounterexample::Infinite { stem: witness.stem, cycle: witness.cycle }),
        };
        proof {
            assert(eventuality_report_ok(*model, property.name_text(), *graph, is_target@, res));
        }
        return Ok(res);
    }
    let res = EventualityResult {
        property: owned(property.name()),
        status: EventualityStatus::Satisfied,
        discovered_states: captured.discovered_states,
        explored_transitions: captured.explored_transitions,
        max_depth_reached: captured.max_depth_reached,
        counterexample: None,
    };
    proof {
        assert(eventuality_report_ok(*model, property.name_text(), *graph, is_target@, res));
    }
    Ok(res)
}

} // verus!
