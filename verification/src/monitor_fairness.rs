//! Finite-monitor verification whose progress cycles are quantified only
//! over executions that are weakly fair for given actions.
use crate::bounded::BoundedOutcome;
use crate::buchi::{count_edges, edge_total, enablement_of, model_enablement, product_complete};
use crate::checker::ExplorationLimits;
use crate::fairness::WeakFairness;
use crate::graph::{capture_reachable_graph, distinct_states, roots_of_initial, GraphCaptureError, ReachableGraph};
use crate::model::TransitionSystem;
use crate::monitor::{
    monitor_counterexample_ok, monitor_report_ok, monitor_search, FiniteMonitor, MonitorCounterexample, MonitorError,
    MonitorResult, MonitorStatus,
};
use crate::product::{
    build_action_product, build_action_product_with_limits, product_wf, terminal_marks, BoundedActionProduct,
    BuchiProductState,
};
use crate::recurrence::RecurrenceError;
use crate::state::StateValue;
use crate::text::owned;
use vstd::prelude::*;

verus! {

/// Verify a finite monitor while quantifying infinite progress obligations
/// only over executions that are weakly fair for `fairness`.
///
/// Fairness never changes immediate rejecting-state semantics or finite
/// progress-terminal semantics; it filters only recurrent progress cycles.
/// With no fair action this is exactly `check_monitor`.
pub fn check_monitor_with_weak_fairness<S: StateValue, M: StateValue>(
    model: &TransitionSystem<S>,
    monitor: &FiniteMonitor<M>,
    fairness: &WeakFairness,
) -> (r: Result<MonitorResult<S, M>, MonitorError>)
    ensures
        r matches Ok(res) ==> exists|
            c: ReachableGraph<S>,
            p: BoundedActionProduct<S, M>,
            e: ReachableGraph<BuchiProductState<S, M>>,
            reject: Seq<Vec<bool>>,
            outside: Seq<Vec<bool>>,
        | #[trigger] monitor_report_ok(*model, *monitor, fairness.action_list(), c, p, e, reject, outside, res),
        r matches Err(e) ==> e matches MonitorError::Graph(RecurrenceError::Graph(g)) && (g is Model || (
        g is UnexpectedInconclusive && (crate::graph::capture_saturates(*model)
            || crate::product::product_saturates::<S, M>(*model, monitor.initial_state()@)))),
{
    let captured = match capture_reachable_graph(model) {
        Ok(c) => c,
        Err(e) => {
            return Err(MonitorError::Graph(RecurrenceError::Graph(e)));
        },
    };
    let product = build_action_product(&captured.graph, monitor.initial(), monitor.step_fn());
    if product.completion.inconclusive_reason().is_some() {
        proof {
            assert(crate::product::product_wf(captured.graph, crate::product::terminal_marks(captured.graph), monitor.initial_state()@, product));
        }
        return Err(MonitorError::Graph(RecurrenceError::Graph(GraphCaptureError::UnexpectedInconclusive)));
    }
    let enablement = model_enablement(&captured.graph, &product);
    let product_transitions = count_edges(&product.graph.outgoing);
    let (found, Ghost(reject), Ghost(outside)) = monitor_search(
        &enablement,
        &product.graph,
        product.known_terminal.as_slice(),
        monitor,
        fairness,
    );
    let counterexample = match found {
        Ok(cx) => cx,
        Err(e) => {
            proof {
                let i = choose|i: int|
                    0 <= i < product.graph.states.len() && !crate::graph::reachable_from(
                        product.graph,
                        product.graph.initial_ids@,
                        i,
                        crate::graph::everything(product.graph.states.len() as nat),
                    );
                assert(crate::graph::reachable_from(
                    product.graph,
                    product.graph.initial_ids@,
                    i,
                    crate::graph::everything(product.graph.states@.len()),
                ));
                assert(false);
            }
            return Err(e);
        },
    };
    let status = if counterexample.is_some() {
        MonitorStatus::Violated
    } else {
        MonitorStatus::Satisfied
    };
    let res = MonitorResult {
        monitor: owned(monitor.name()),
        status,
        model_states: captured.discovered_states,
        model_transitions: captured.explored_transitions,
        product_states: product.graph.states.len(),
        product_transitions,
        counterexample,
    };
    proof {
        assert(monitor_report_ok(
            *model,
            *monitor,
            fairness.action_list(),
            captured.graph,
            product,
            enablement,
            reject,
            outside,
            res,
        ));
    }
    Ok(res)
}

/// The result of a monitor check whose product construction is bounded.
#[derive(Debug, Clone, PartialEq, Eq)]
pub struct BoundedMonitorResult<S, M> {
    pub monitor: String,
    pub outcome: BoundedOutcome<MonitorStatus>,
    pub model_states: usize,
    pub model_transitions: usize,
    pub product_states: usize,
    pub checked_product_states: usize,
    pub explored_product_transitions: usize,
    pub retained_product_transitions: usize,
    pub max_product_depth_reached: Option<usize>,
    pub counterexample: Option<MonitorCounterexample<S, M>>,
}

/// `res` reports the product-bounded weak-fair monitor check: `c` is the
/// complete model graph, `p` the retained product prefix under `limits`,
/// `e` the model's enablement on product states. A witness found among the
/// retained states is conclusive; otherwise the outcome is `Satisfied` only
/// when the product is complete, and names the limit that stopped it
/// otherwise.
pub open spec fn bounded_monitor_report_ok<S: View, M: View>(
    model: TransitionSystem<S>,
    monitor: FiniteMonitor<M>,
    actions: Seq<String>,
    limits: ExplorationLimits,
    c: ReachableGraph<S>,
    p: BoundedActionProduct<S, M>,
    e: ReachableGraph<BuchiProductState<S, M>>,
    reject: Seq<Vec<bool>>,
    outside: Seq<Vec<bool>>,
    res: BoundedMonitorResult<S, M>,
) -> bool {
    &&& c.wf() && distinct_states(c) && roots_of_initial(c, model.initial())
    &&& product_wf(c, terminal_marks(c), monitor.initial_state()@, p)
    &&& enablement_of(c, p, e)
    &&& p.completion is Conclusive ==> crate::product::roots_covered(c.initial_ids@, p.model_ids@, p.graph.initial_ids@)
    &&& limits.max_states matches Some(l) ==> p.graph.states.len() <= l
    &&& res.monitor@ == monitor.name_text()
    &&& res.model_states == c.states.len()
    &&& res.product_states == p.graph.states.len()
    &&& res.checked_product_states == p.checked_states
    &&& res.explored_product_transitions == p.explored_transitions
    &&& res.max_product_depth_reached == p.max_depth_reached
    &&& res.retained_product_transitions == if edge_total(p.graph.outgoing@) <= usize::MAX {
        edge_total(p.graph.outgoing@)
    } else {
        usize::MAX as int
    }
    &&& monitor_counterexample_ok(
        e,
        p.graph,
        p.known_terminal@,
        reject,
        outside,
        monitor.reject_list(),
        monitor.progress_list(),
        actions,
        res.counterexample,
    )
    &&& res.outcome == if res.counterexample is Some {
        BoundedOutcome::Conclusive(MonitorStatus::Violated)
    } else {
        match p.completion {
            BoundedOutcome::Conclusive(_) => BoundedOutcome::Conclusive(MonitorStatus::Satisfied),
            BoundedOutcome::Inconclusive(reason) => BoundedOutcome::Inconclusive(reason),
        }
    }
    &&& p.completion matches BoundedOutcome::Inconclusive(reason) ==> match reason {
        crate::checker::InconclusiveReason::StateLimitReached { limit } => limits.max_states == Some(limit)
            && p.graph.states.len() == limit,
        crate::checker::InconclusiveReason::TransitionLimitReached { limit } => p.explored_transitions == limit
            && (limits.max_transitions == Some(limit) || (limits.max_transitions is None && limit == usize::MAX)),
        crate::checker::InconclusiveReason::DepthLimitReached { limit } => limits.max_depth == Some(limit),
    }
}

/// Product-bounded weak-fair monitor verification after complete model
/// capture.
///
/// A retained rejecting state, true active terminal, or weakly fair active
/// cycle is conclusive even if later product work is cut off. If no such
/// witness is justified, an incomplete product remains inconclusive.
pub fn check_monitor_with_weak_fairness_and_product_limits<S: StateValue, M: StateValue>(
    model: &TransitionSystem<S>,
    monitor: &FiniteMonitor<M>,
    fairness: &WeakFairness,
    limits: ExplorationLimits,
) -> (r: Result<BoundedMonitorResult<S, M>, MonitorError>)
    ensures
        r matches Ok(res) ==> exists|
            c: ReachableGraph<S>,
            p: BoundedActionProduct<S, M>,
            e: ReachableGraph<BuchiProductState<S, M>>,
            reject: Seq<Vec<bool>>,
            outside: Seq<Vec<bool>>,
        | #[trigger] bounded_monitor_report_ok(
            *model,
            *monitor,
            fairness.action_list(),
            limits,
            c,
            p,
            e,
            reject,
            outside,
            res,
        ),
        r matches Err(e) ==> e matches MonitorError::Graph(RecurrenceError::Graph(g)) && (g is Model || (
        g is UnexpectedInconclusive && crate::graph::capture_saturates(*model))),
{
    let captured = match capture_reachable_graph(model) {
        Ok(c) => c,
        Err(e) => {
            return Err(MonitorError::Graph(RecurrenceError::Graph(e)));
        },
    };
    let product = build_action_product_with_limits(&captured.graph, monitor.initial(), monitor.step_fn(), limits);
    let enablement = model_enablement(&captured.graph, &product);
    let (found, Ghost(reject), Ghost(outside)) = monitor_search(
        &enablement,
        &product.graph,
        product.known_terminal.as_slice(),
        monitor,
        fairness,
    );
    let counterexample = match found {
        Ok(cx) => cx,
        Err(e) => {
            proof {
                let i = choose|i: int|
                    0 <= i < product.graph.states.len() && !crate::graph::reachable_from(
                        product.graph,
                        product.graph.initial_ids@,
                        i,
                        crate::graph::everything(product.graph.states.len() as nat),
                    );
                assert(crate::graph::reachable_from(
                    product.graph,
                    product.graph.initial_ids@,
                    i,
                    crate::graph::everything(product.graph.states@.len()),
                ));
                assert(false);
            }
            return Err(e);
        },
    };
    let retained = count_edges(&product.graph.outgoing);
    let outcome = if counterexample.is_some() {
        BoundedOutcome::Conclusive(MonitorStatus::Violated)
    } else {
        match product.completion {
            BoundedOutcome::Conclusive(()) => BoundedOutcome::Conclusive(MonitorStatus::Satisfied),
            BoundedOutcome::Inconclusive(reason) => BoundedOutcome::Inconclusive(reason),
        }
    };
    let res = BoundedMonitorResult {
        monitor: owned(monitor.name()),
        outcome,
        model_states: captured.discovered_states,
        model_transitions: captured.explored_transitions,
        product_states: product.graph.states.len(),
        checked_product_states: product.checked_states,
        explored_product_transitions: product.explored_transitions,
        retained_product_transitions: retained,
        max_product_depth_reached: product.max_depth_reached,
        counterexample,
    };
    proof {
        assert(bounded_monitor_report_ok(
            *model,
            *monitor,
            fairness.action_list(),
            limits,
            captured.graph,
            product,
            enablement,
            reject,
            outside,
            res,
        ));
    }
    Ok(res)
}

/// Product-bounded monitor verification with no fairness assumption.
pub fn check_monitor_with_product_limits<S: StateValue, M: StateValue>(
    model: &TransitionSystem<S>,
    monitor: &FiniteMonitor<M>,
    limits: ExplorationLimits,
) -> (r: Result<BoundedMonitorResult<S, M>, MonitorError>)
    ensures
        r matches Ok(res) ==> exists|
            c: ReachableGraph<S>,
            p: BoundedActionProduct<S, M>,
            e: ReachableGraph<BuchiProductState<S, M>>,
            reject: Seq<Vec<bool>>,
            outside: Seq<Vec<bool>>,
        | #[trigger] bounded_monitor_report_ok(*model, *monitor, Seq::empty(), limits, c, p, e, reject, outside, res),
        r matches Err(e) ==> e matches MonitorError::Graph(RecurrenceError::Graph(g)) && (g is Model || (
        g is UnexpectedInconclusive && crate::graph::capture_saturates(*model))),
{
    let none = WeakFairness::none();
    assert(none.action_list() =~= Seq::<String>::empty());
    check_monitor_with_weak_fairness_and_product_limits(model, monitor, &none, limits)
}

} // verus!
