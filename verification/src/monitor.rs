//! Deterministic finite monitors with rejecting and progress conditions,
//! checked over the product with a captured model graph.
use crate::buchi::{edge_total, enablement_of, product_complete, BuchiError};
use crate::checker::TraceStep;
use crate::fairness::{
    find_fair_counterexample, terminal_violation, unfair_outside, violation_ok, Violation, WeakFairness,
};
use crate::graph::{distinct_states, everything, roots_of_initial, shortest_path, ReachableGraph};
use crate::model::{StatePredicate, TransitionSystem};
use crate::product::{product_wf, terminal_marks, ActionStep, BoundedActionProduct, BuchiProductState};
use crate::recurrence::{spells_walk, RecurrenceError};
use crate::state::StateValue;
use crate::text::{is_blank, owned, trim};
use vstd::prelude::*;

verus! {

/// A named monitor-state predicate that represents an immediate violation.
#[verifier::reject_recursive_types(M)]
pub struct RejectCondition<M> {
    name: String,
    predicate: StatePredicate<M>,
}

impl<M> RejectCondition<M> {
    pub closed spec fn name_text(&self) -> Seq<char> {
        self.name@
    }

    /// `b` is an answer the condition's predicate may give on `state`.
    pub closed spec fn may_answer(&self, state: M, b: bool) -> bool {
        self.predicate.may_answer(state, b)
    }

    pub fn new<F: Fn(&M) -> bool + Send + Sync + 'static>(name: &str, predicate: F) -> (r: Result<Self, MonitorError>)
        ensures
            match r {
                Ok(c) => trim(name@).len() > 0 && c.name_text() == name@ && forall|m: M, b: bool|
                    #[trigger] c.may_answer(m, b) == crate::model::closure_answer(predicate, m, b),
                Err(e) => trim(name@).len() == 0 && e == MonitorError::EmptyConditionName,
            },
    {
        if is_blank(name) {
            return Err(MonitorError::EmptyConditionName);
        }
        Ok(RejectCondition { name: owned(name), predicate: StatePredicate::from_fn(predicate) })
    }

    pub fn name(&self) -> (name: &str)
        ensures
            name@ == self.name_text(),
    {
        self.name.as_str()
    }

    pub(crate) fn holds(&self, state: &M) -> (r: bool)
        ensures
            self.may_answer(*state, r),
    {
        self.predicate.evaluate(state)
    }
}

/// A named monitor region that may not hold a maximal suffix forever: an
/// execution that terminates while it is active, or can stay forever in a
/// cycle where it is active, violates it.
#[verifier::reject_recursive_types(M)]
pub struct ProgressCondition<M> {
    name: String,
    active: StatePredicate<M>,
}

impl<M> ProgressCondition<M> {
    pub closed spec fn name_text(&self) -> Seq<char> {
        self.name@
    }

    /// `b` is an answer the condition's activity predicate may give on
    /// `state`.
    pub closed spec fn may_answer(&self, state: M, b: bool) -> bool {
        self.active.may_answer(state, b)
    }

    pub fn new<F: Fn(&M) -> bool + Send + Sync + 'static>(name: &str, active: F) -> (r: Result<Self, MonitorError>)
        ensures
            match r {
                Ok(c) => trim(name@).len() > 0 && c.name_text() == name@ && forall|m: M, b: bool|
                    #[trigger] c.may_answer(m, b) == crate::model::closure_answer(active, m, b),
                Err(e) => trim(name@).len() == 0 && e == MonitorError::EmptyConditionName,
            },
    {
        if is_blank(name) {
            return Err(MonitorError::EmptyConditionName);
        }
        Ok(ProgressCondition { name: owned(name), active: StatePredicate::from_fn(active) })
    }

    pub fn name(&self) -> (name: &str)
        ensures
            name@ == self.name_text(),
    {
        self.name.as_str()
    }

    pub(crate) fn is_active(&self, state: &M) -> (r: bool)
        ensures
            self.may_answer(*state, r),
    {
        self.active.evaluate(state)
    }
}

/// A deterministic action-driven finite monitor plus its conditions.
#[verifier::reject_recursive_types(M)]
pub struct FiniteMonitor<M> {
    name: String,
    initial: M,
    step: ActionStep<M>,
    rejecting: Vec<RejectCondition<M>>,
    progress: Vec<ProgressCondition<M>>,
}

/// All condition names, rejecting conditions first.
pub open spec fn condition_names<M>(rejecting: Seq<RejectCondition<M>>, progress: Seq<ProgressCondition<M>>) -> Seq<
    Seq<char>,
> {
    rejecting.map_values(|c: RejectCondition<M>| c.name_text()) + progress.map_values(
        |c: ProgressCondition<M>| c.name_text(),
    )
}

/// The name at `j` repeats an earlier one.
pub open spec fn name_repeats_at(names: Seq<Seq<char>>, j: int) -> bool {
    exists|i: int| 0 <= i < j && names[i] == names[j]
}

impl<M> FiniteMonitor<M> {
    pub closed spec fn name_text(&self) -> Seq<char> {
        self.name@
    }

    pub closed spec fn initial_state(&self) -> M {
        self.initial
    }

    pub closed spec fn reject_list(&self) -> Seq<RejectCondition<M>> {
        self.rejecting@
    }

    pub closed spec fn progress_list(&self) -> Seq<ProgressCondition<M>> {
        self.progress@
    }

    /// A monitor; the name must not be blank, some condition is needed, and
    /// all condition names (rejecting, then progress) must be different.
    pub fn new<F: Fn(&M, &str) -> M + Send + Sync + 'static>(
        name: &str,
        initial: M,
        step: F,
        rejecting: Vec<RejectCondition<M>>,
        progress: Vec<ProgressCondition<M>>,
    ) -> (r: Result<Self, MonitorError>)
        ensures
            match r {
                Ok(m) => {
                    &&& trim(name@).len() > 0
                    &&& rejecting@.len() + progress@.len() > 0
                    &&& forall|j: int|
                        0 <= j < rejecting@.len() + progress@.len() ==> !#[trigger] name_repeats_at(
                            condition_names(rejecting@, progress@),
                            j,
                        )
                    &&& m.name_text() == name@
                    &&& m.initial_state() == initial
                    &&& m.reject_list() == rejecting@
                    &&& m.progress_list() == progress@
                },
                Err(e) => if trim(name@).len() == 0 {
                    e == MonitorError::EmptyMonitorName
                } else if rejecting@.len() + progress@.len() == 0 {
                    e == MonitorError::NoConditions
                } else {
                    exists|j: int|
                        0 <= j < rejecting@.len() + progress@.len() && #[trigger] name_repeats_at(
                            condition_names(rejecting@, progress@),
                            j,
                        ) && (forall|k: int|
                            0 <= k < j ==> !#[trigger] name_repeats_at(condition_names(rejecting@, progress@), k)) && (e
                            matches MonitorError::DuplicateConditionName { name } && name@ == condition_names(
                            rejecting@,
                            progress@,
                        )[j])
                },
            },
    {
        if is_blank(name) {
            return Err(MonitorError::EmptyMonitorName);
        }
        if rejecting.len() == 0 && progress.len() == 0 {
            return Err(MonitorError::NoConditions);
        }
        let mut names: Vec<String> = Vec::new();
        let mut i: usize = 0;
        while i < rejecting.len()
            invariant
                i <= rejecting@.len(),
                names@.len() == i,
                forall|k: int| 0 <= k < i ==> #[trigger] names@[k]@ == rejecting@[k].name_text(),
            decreases rejecting.len() - i,
        {
            names.push(owned(rejecting[i].name()));
            i += 1;
        }
        let mut i: usize = 0;
        while i < progress.len()
            invariant
                i <= progress@.len(),
                names@.len() == rejecting@.len() + i,
                forall|k: int| 0 <= k < rejecting@.len() ==> #[trigger] names@[k]@ == rejecting@[k].name_text(),
                forall|k: int| 0 <= k < i ==> #[trigger] names@[rejecting@.len() + k]@ == progress@[k].name_text(),
            decreases progress.len() - i,
        {
            names.push(owned(progress[i].name()));
            i += 1;
        }
        let ghost all = condition_names(rejecting@, progress@);
        assert forall|k: int| 0 <= k < names@.len() implies #[trigger] names@[k]@ == all[k] by {
            if k >= rejecting@.len() {
                assert(names@[rejecting@.len() + (k - rejecting@.len())]@ == progress@[k - rejecting@.len()].name_text());
            }
        }
        let mut j: usize = 0;
        while j < names.len()
            invariant
                trim(name@).len() > 0,
                rejecting@.len() + progress@.len() > 0,
                all == condition_names(rejecting@, progress@),
                names@.len() == all.len(),
                forall|k: int| 0 <= k < names@.len() ==> #[trigger] names@[k]@ == all[k],
                j <= names@.len(),
                forall|k: int| 0 <= k < j ==> !#[trigger] name_repeats_at(all, k),
            decreases names.len() - j,
        {
            let mut i: usize = 0;
            while i < j
                invariant
                    trim(name@).len() > 0,
                    rejecting@.len() + progress@.len() > 0,
                    all == condition_names(rejecting@, progress@),
                    names@.len() == all.len(),
                    forall|k: int| 0 <= k < names@.len() ==> #[trigger] names@[k]@ == all[k],
                    forall|k: int| 0 <= k < j ==> !#[trigger] name_repeats_at(all, k),
                    j < names@.len(),
                    i <= j,
                    forall|k: int| 0 <= k < i ==> all[k] != all[j as int],
                decreases j - i,
            {
                if crate::text::same_text(names[i].as_str(), names[j].as_str()) {
                    assert(all[i as int] == all[j as int]);
                    assert(name_repeats_at(all, j as int));
                    return Err(MonitorError::DuplicateConditionName { name: owned(names[j].as_str()) });
                }
                i += 1;
            }
            assert(!name_repeats_at(all, j as int));
            j += 1;
        }
        Ok(FiniteMonitor { name: owned(name), initial, step: ActionStep::from_fn(step), rejecting, progress })
    }

    pub fn name(&self) -> (name: &str)
        ensures
            name@ == self.name_text(),
    {
        self.name.as_str()
    }

    pub(crate) fn step_fn(&self) -> &ActionStep<M> {
        &self.step
    }

    pub fn initial(&self) -> (initial: &M)
        ensures
            *initial == self.initial_state(),
    {
        &self.initial
    }

    pub fn rejecting(&self) -> (r: &[RejectCondition<M>])
        ensures
            r@ == self.reject_list(),
    {
        self.rejecting.as_slice()
    }

    pub fn progress(&self) -> (p: &[ProgressCondition<M>])
        ensures
            p@ == self.progress_list(),
    {
        self.progress.as_slice()
    }
}

#[derive(Debug, Clone, PartialEq, Eq)]
pub struct MonitorProductState<S, M> {
    pub state: S,
    pub monitor: M,
}

impl<S: View, M: View> View for MonitorProductState<S, M> {
    type V = (S::V, M::V);

    open spec fn view(&self) -> (S::V, M::V) {
        (self.state@, self.monitor@)
    }
}

#[derive(Debug, Clone, Copy, PartialEq, Eq, Structural)]
pub enum MonitorStatus {
    Satisfied,
    Violated,
}

#[derive(Debug, Clone, PartialEq, Eq)]
pub enum MonitorCounterexample<S, M> {
    Rejecting { condition: String, trace: Vec<TraceStep<MonitorProductState<S, M>>> },
    ProgressTerminal { condition: String, trace: Vec<TraceStep<MonitorProductState<S, M>>> },
    ProgressCycle {
        condition: String,
        stem: Vec<TraceStep<MonitorProductState<S, M>>>,
        cycle: Vec<TraceStep<MonitorProductState<S, M>>>,
    },
}

#[derive(Debug, Clone, PartialEq, Eq)]
pub struct MonitorResult<S, M> {
    pub monitor: String,
    pub status: MonitorStatus,
    pub model_states: usize,
    pub model_transitions: usize,
    pub product_states: usize,
    pub product_transitions: usize,
    pub counterexample: Option<MonitorCounterexample<S, M>>,
}

#[derive(Debug, Clone, PartialEq, Eq)]
pub enum MonitorError {
    EmptyMonitorName,
    NoConditions,
    EmptyConditionName,
    DuplicateConditionName { name: String },
    Graph(RecurrenceError),
    MissingWitness,
}

/// What a monitor failure's message says.
pub open spec fn monitor_error_text(e: MonitorError) -> Seq<char> {
    match e {
        MonitorError::EmptyMonitorName => "finite monitor name must not be empty"@,
        MonitorError::NoConditions => "finite monitor requires at least one rejecting or progress condition"@,
        MonitorError::EmptyConditionName => "monitor condition name must not be empty"@,
        MonitorError::DuplicateConditionName { name } => "duplicate monitor condition name '"@ + name@ + "'"@,
        MonitorError::Graph(g) => "monitor product analysis failed: "@ + crate::recurrence::recurrence_error_text(g),
        MonitorError::MissingWitness => "monitor violation did not yield a witness"@,
    }
}

impl MonitorError {
    pub fn message(&self) -> (text: String)
        ensures
            text@ == monitor_error_text(*self),
    {
        let mut out = String::new();
        match self {
            MonitorError::EmptyMonitorName => crate::text::append(&mut out, "finite monitor name must not be empty"),
            MonitorError::NoConditions => crate::text::append(
                &mut out,
                "finite monitor requires at least one rejecting or progress condition",
            ),
            MonitorError::EmptyConditionName => crate::text::append(&mut out, "monitor condition name must not be empty"),
            MonitorError::DuplicateConditionName { name } => {
                crate::text::append(&mut out, "duplicate monitor condition name '");
                crate::text::append(&mut out, name.as_str());
                crate::text::append(&mut out, "'");
            },
            MonitorError::Graph(e) => {
                crate::text::append(&mut out, "monitor product analysis failed: ");
                let t = e.message();
                crate::text::append(&mut out, t.as_str());
            },
            MonitorError::MissingWitness => crate::text::append(&mut out, "monitor violation did not yield a witness"),
        }
        assert(out@ =~= monitor_error_text(*self));
        out
    }
}

/// A monitor trace agrees step by step with a product trace.
pub open spec fn as_monitor_steps<S: View, M: View>(
    mt: Seq<TraceStep<MonitorProductState<S, M>>>,
    bt: Seq<TraceStep<BuchiProductState<S, M>>>,
) -> bool {
    &&& mt.len() == bt.len()
    &&& forall|k: int| 0 <= k < mt.len() ==> (#[trigger] mt[k]).action == bt[k].action && mt[k].state@ == bt[k].state@
}

pub(crate) fn to_monitor_trace<S: StateValue, M: StateValue>(bt: &Vec<TraceStep<BuchiProductState<S, M>>>) -> (mt: Vec<
    TraceStep<MonitorProductState<S, M>>,
>)
    ensures
        as_monitor_steps(mt@, bt@),
{
    let mut mt: Vec<TraceStep<MonitorProductState<S, M>>> = Vec::new();
    let mut k: usize = 0;
    while k < bt.len()
        invariant
            k <= bt@.len(),
            mt@.len() == k,
            forall|j: int| 0 <= j < k ==> (#[trigger] mt@[j]).action == bt@[j].action && mt@[j].state@ == bt@[j].state@,
        decreases bt.len() - k,
    {
        let step = &bt[k];
        let action = match &step.action {
            Some(a) => Some(a.clone()),
            None => None,
        };
        mt.push(
            TraceStep {
                action,
                state: MonitorProductState {
                    state: step.state.state.copy_value(),
                    monitor: step.state.automaton.copy_value(),
                },
            },
        );
        k += 1;
    }
    mt
}

/// Each rejecting condition's answer on each product state.
pub(crate) fn reject_table<S, M>(conds: &[RejectCondition<M>], states: &Vec<BuchiProductState<S, M>>) -> (t: Vec<Vec<bool>>)
    ensures
        t@.len() == conds@.len(),
        forall|r: int| 0 <= r < t@.len() ==> (#[trigger] t@[r])@.len() == states@.len(),
        reject_answers(t@, conds@, states@),
{
    let mut t: Vec<Vec<bool>> = Vec::new();
    let mut r: usize = 0;
    while r < conds.len()
        invariant
            r <= conds@.len(),
            t@.len() == r,
            forall|x: int| 0 <= x < t@.len() ==> (#[trigger] t@[x])@.len() == states@.len(),
            reject_answers(t@, conds@, states@),
        decreases conds.len() - r,
    {
        let mut row: Vec<bool> = Vec::new();
        let mut i: usize = 0;
        while i < states.len()
            invariant
                r < conds@.len(),
                i <= states@.len(),
                row@.len() == i,
                forall|k: int| 0 <= k < i ==> conds@[r as int].may_answer(states@[k].automaton, #[trigger] row@[k]),
            decreases states.len() - i,
        {
            let b = conds[r].holds(&states[i].automaton);
            row.push(b);
            i += 1;
        }
        let ghost before = t@;
        t.push(row);
        proof {
            assert forall|x: int, k: int| 0 <= x < t@.len() && 0 <= k < states@.len() implies conds@[x].may_answer(
                states@[k].automaton,
                #[trigger] t@[x]@[k],
            ) by {
                if x < before.len() {
                    assert(t@[x] == before[x]);
                }
            }
        }
        r += 1;
    }
    t
}

/// `reject[r][i]` is an answer rejecting condition `r` gives on the
/// monitor state of product state `i`.
pub open spec fn reject_answers<S, M>(
    reject: Seq<Vec<bool>>,
    rejecting: Seq<RejectCondition<M>>,
    states: Seq<BuchiProductState<S, M>>,
) -> bool {
    forall|r: int, i: int|
        0 <= r < reject.len() && 0 <= i < states.len() ==> rejecting[r].may_answer(
            states[i].automaton,
            #[trigger] reject[r]@[i],
        )
}

/// `outside[s][i]` is the negation of an answer progress condition `s`
/// gives on the monitor state of product state `i`.
pub open spec fn progress_answers<S, M>(
    outside: Seq<Vec<bool>>,
    progress: Seq<ProgressCondition<M>>,
    states: Seq<BuchiProductState<S, M>>,
) -> bool {
    forall|s: int, i: int|
        0 <= s < outside.len() && 0 <= i < states.len() ==> progress[s].may_answer(
            states[i].automaton,
            !#[trigger] outside[s]@[i],
        )
}

/// For each progress condition, whether each product state is outside its
/// active region.
pub(crate) fn progress_table<S, M>(conds: &[ProgressCondition<M>], states: &Vec<BuchiProductState<S, M>>) -> (t: Vec<Vec<bool>>)
    ensures
        t@.len() == conds@.len(),
        forall|r: int| 0 <= r < t@.len() ==> (#[trigger] t@[r])@.len() == states@.len(),
        progress_answers(t@, conds@, states@),
{
    let mut t: Vec<Vec<bool>> = Vec::new();
    let mut r: usize = 0;
    while r < conds.len()
        invariant
            r <= conds@.len(),
            t@.len() == r,
            forall|x: int| 0 <= x < t@.len() ==> (#[trigger] t@[x])@.len() == states@.len(),
            progress_answers(t@, conds@, states@),
        decreases conds.len() - r,
    {
        let mut row: Vec<bool> = Vec::new();
        let mut i: usize = 0;
        while i < states.len()
            invariant
                r < conds@.len(),
                i <= states@.len(),
                row@.len() == i,
                forall|k: int| 0 <= k < i ==> conds@[r as int].may_answer(states@[k].automaton, !#[trigger] row@[k]),
            decreases states.len() - i,
        {
            let a = conds[r].is_active(&states[i].automaton);
            row.push(!a);
            i += 1;
        }
        let ghost before = t@;
        t.push(row);
        proof {
            assert forall|x: int, k: int| 0 <= x < t@.len() && 0 <= k < states@.len() implies conds@[x].may_answer(
                states@[k].automaton,
                !#[trigger] t@[x]@[k],
            ) by {
                if x < before.len() {
                    assert(t@[x] == before[x]);
                }
            }
        }
        r += 1;
    }
    t
}

/// Rejecting condition `r` holds at product state `i`, named `condition`,
/// and `trace` follows the product walk `bt` from a root to `i`.
pub open spec fn rejection_witness<S: View, M: View>(
    g: ReachableGraph<BuchiProductState<S, M>>,
    reject: Seq<Vec<bool>>,
    rejecting: Seq<RejectCondition<M>>,
    condition: Seq<char>,
    trace: Seq<TraceStep<MonitorProductState<S, M>>>,
    r: int,
    i: int,
    bt: Seq<TraceStep<BuchiProductState<S, M>>>,
) -> bool {
    &&& 0 <= r < reject.len() && 0 <= i < g.states.len() && reject[r]@[i]
    &&& condition == rejecting[r].name_text()
    &&& as_monitor_steps(trace, bt)
    &&& exists|root: int|
        0 <= root < g.initial_ids.len() && spells_walk(
            g,
            bt,
            everything(g.states.len() as nat),
            #[trigger] g.initial_ids@[root] as int,
            i,
        )
}

/// `res` reports the monitor check of `model` under weak fairness for
/// `actions`: `c` is the captured model graph, `p` the complete product with
/// the monitor, `e` the model's action enablement on product states,
/// `reject[r][i]` the answer of rejecting condition `r` on product state
/// `i`, and `outside[s][i]` whether state `i` is outside progress condition
/// `s`. Rejections come first (first state, then first condition), then
/// progress terminals, then fair progress cycles.
pub open spec fn monitor_report_ok<S: View, M: View>(
    model: TransitionSystem<S>,
    monitor: FiniteMonitor<M>,
    actions: Seq<String>,
    c: ReachableGraph<S>,
    p: BoundedActionProduct<S, M>,
    e: ReachableGraph<BuchiProductState<S, M>>,
    reject: Seq<Vec<bool>>,
    outside: Seq<Vec<bool>>,
    res: MonitorResult<S, M>,
) -> bool {
    let g = p.graph;
    &&& c.wf() && distinct_states(c) && roots_of_initial(c, model.initial())
    &&& product_wf(c, terminal_marks(c), monitor.initial_state()@, p)
    &&& product_complete(p)
    &&& enablement_of(c, p, e)
    &&& res.monitor@ == monitor.name_text()
    &&& res.model_states == c.states.len()
    &&& res.product_states == g.states.len()
    &&& res.product_transitions == if edge_total(g.outgoing@) <= usize::MAX {
        edge_total(g.outgoing@)
    } else {
        usize::MAX as int
    }
    &&& (res.status == MonitorStatus::Violated <==> res.counterexample is Some)
    &&& monitor_counterexample_ok(
        e,
        g,
        p.known_terminal@,
        reject,
        outside,
        monitor.reject_list(),
        monitor.progress_list(),
        actions,
        res.counterexample,
    )
}

/// The counterexample, if any, is what the check promises: the first
/// rejecting product state and its shortest trace; else the first progress
/// terminal; else a progress cycle that is weakly fair for `actions`
/// according to the enablement graph `e`. `None` means no rejecting state
/// and no progress terminal exist.
pub open spec fn monitor_counterexample_ok<S: View, M: View>(
    e: ReachableGraph<BuchiProductState<S, M>>,
    g: ReachableGraph<BuchiProductState<S, M>>,
    known_terminal: Seq<bool>,
    reject: Seq<Vec<bool>>,
    outside: Seq<Vec<bool>>,
    rejecting: Seq<RejectCondition<M>>,
    progress: Seq<ProgressCondition<M>>,
    actions: Seq<String>,
    cx: Option<MonitorCounterexample<S, M>>,
) -> bool {
    let n = g.states.len();
    let no_reject = forall|r: int, i: int| 0 <= r < reject.len() && 0 <= i < n ==> !(#[trigger] reject[r]@[i]);
    let tables = {
        &&& reject.len() == rejecting.len()
        &&& forall|r: int| 0 <= r < reject.len() ==> (#[trigger] reject[r])@.len() == n
        &&& reject_answers(reject, rejecting, g.states@)
    };
    let progress_tables = {
        &&& outside.len() == progress.len()
        &&& forall|s: int| 0 <= s < outside.len() ==> (#[trigger] outside[s])@.len() == n
        &&& progress_answers(outside, progress, g.states@)
    };
    let no_terminal = forall|i: int| 0 <= i < n ==> !#[trigger] terminal_violation(known_terminal, outside, i);
    &&& tables
    &&& match cx {
        None => no_reject && progress_tables && no_terminal && forall|s: int|
            0 <= s < outside.len() ==> #[trigger] unfair_outside(e, g, outside, s, actions),
        Some(MonitorCounterexample::Rejecting { condition, trace }) => exists|
            r: int,
            i: int,
            bt: Seq<TraceStep<BuchiProductState<S, M>>>,
        | #[trigger] rejection_witness(g, reject, rejecting, condition@, trace@, r, i, bt),
        Some(MonitorCounterexample::ProgressTerminal { condition, trace }) => no_reject && progress_tables && exists|
            set: usize,
            node: usize,
            bv: Vec<TraceStep<BuchiProductState<S, M>>>,
        |
            set < progress.len() && condition@ == progress[set as int].name_text() && as_monitor_steps(trace@, bv@)
                && #[trigger] violation_ok(e, g, known_terminal, outside, true, actions, Ok(Some(Violation::Terminal { set, node, trace: bv }))),
        Some(MonitorCounterexample::ProgressCycle { condition, stem, cycle }) => no_reject && progress_tables && exists|
            set: usize,
            entry: usize,
            sv: Vec<TraceStep<BuchiProductState<S, M>>>,
            cv: Vec<TraceStep<BuchiProductState<S, M>>>,
        |
            set < progress.len() && condition@ == progress[set as int].name_text() && as_monitor_steps(stem@, sv@)
                && as_monitor_steps(cycle@, cv@) && #[trigger] violation_ok(
                e,
                g,
                known_terminal,
                outside,
                true,
                actions,
                Ok(Some(Violation::Lasso { set, entry, stem: sv, cycle: cv })),
            ),
    }
}

/// When the monitor check reports no counterexample, every rejecting
/// condition answered false on the monitor state of every reachable
/// product state.
pub proof fn lemma_no_counterexample_no_rejection<S: View, M: View>(
    e: ReachableGraph<BuchiProductState<S, M>>,
    g: ReachableGraph<BuchiProductState<S, M>>,
    known_terminal: Seq<bool>,
    reject: Seq<Vec<bool>>,
    outside: Seq<Vec<bool>>,
    rejecting: Seq<RejectCondition<M>>,
    progress: Seq<ProgressCondition<M>>,
    actions: Seq<String>,
)
    requires
        monitor_counterexample_ok(e, g, known_terminal, reject, outside, rejecting, progress, actions, None),
    ensures
        forall|r: int, i: int|
            0 <= r < rejecting.len() && 0 <= i < g.states.len() ==> #[trigger] rejecting[r].may_answer(
                g.states@[i].automaton,
                false,
            ),
{
    assert forall|r: int, i: int| 0 <= r < rejecting.len() && 0 <= i < g.states.len() implies #[trigger] rejecting[r].may_answer(
        g.states@[i].automaton,
        false,
    ) by {
        assert(!reject[r]@[i]);
    }
}

/// A rejecting counterexample names a condition that answered true on the
/// monitor state of a reachable product state.
pub proof fn lemma_rejection_answered<S: View, M: View>(
    g: ReachableGraph<BuchiProductState<S, M>>,
    reject: Seq<Vec<bool>>,
    rejecting: Seq<RejectCondition<M>>,
    condition: Seq<char>,
    trace: Seq<TraceStep<MonitorProductState<S, M>>>,
    r: int,
    i: int,
    bt: Seq<TraceStep<BuchiProductState<S, M>>>,
)
    requires
        reject.len() == rejecting.len(),
        reject_answers(reject, rejecting, g.states@),
        rejection_witness(g, reject, rejecting, condition, trace, r, i, bt),
    ensures
        0 <= r < rejecting.len(),
        condition == rejecting[r].name_text(),
        rejecting[r].may_answer(g.states@[i].automaton, true),
{
    assert(rejecting[r].may_answer(g.states@[i].automaton, reject[r]@[i]));
}

pub(crate) fn map_buchi_error(e: BuchiError) -> (m: MonitorError)
    ensures
        m == match e {
            BuchiError::Graph(g) => MonitorError::Graph(g),
            _ => MonitorError::MissingWitness,
        },
{
    match e {
        BuchiError::Graph(g) => MonitorError::Graph(g),
        _ => MonitorError::MissingWitness,
    }
}

/// Search the retained product `g` for the monitor's counterexample under
/// weak fairness for `fairness`, with enablement graph `e`; also hands back
/// the rejecting and progress tables it evaluated.
pub(crate) fn monitor_search<S: StateValue, M: StateValue>(
    e: &ReachableGraph<BuchiProductState<S, M>>,
    g: &ReachableGraph<BuchiProductState<S, M>>,
    known_terminal: &[bool],
    monitor: &FiniteMonitor<M>,
    fairness: &WeakFairness,
) -> (r: (Result<Option<MonitorCounterexample<S, M>>, MonitorError>, Ghost<Seq<Vec<bool>>>, Ghost<Seq<Vec<bool>>>))
    requires
        g.wf(),
        e.wf(),
        e.states.len() == g.states.len(),
        known_terminal@.len() == g.states.len(),
    ensures
        r.0 matches Ok(cx) ==> monitor_counterexample_ok(
            *e,
            *g,
            known_terminal@,
            r.1@,
            r.2@,
            monitor.reject_list(),
            monitor.progress_list(),
            fairness.action_list(),
            cx,
        ),
        r.0 is Err ==> exists|i: int|
            0 <= i < g.states.len() && !crate::graph::reachable_from(
                *g,
                g.initial_ids@,
                i,
                crate::graph::everything(g.states.len() as nat),
            ),
{
    let n = g.states.len();
    let reject = reject_table(monitor.rejecting(), &g.states);
    match first_reject(&reject, n) {
        Some((i, r)) => {
            let bt = match shortest_path(g, g.initial_ids.as_slice(), i, None) {
                Some(t) => t,
                None => {
                    proof {
                        assert(i < g.states.len());
                        assert(crate::graph::mask_of(None, g.states@.len()) == crate::graph::everything(g.states.len() as nat));
                    }
                    return (Err(MonitorError::MissingWitness), Ghost(reject@), Ghost(Seq::empty()));
                },
            };
            let trace = to_monitor_trace(&bt);
            let cx = Some(
                MonitorCounterexample::Rejecting { condition: owned(monitor.rejecting()[r].name()), trace },
            );
            proof {
                crate::fairness::lemma_root_walk(*g, bt@, i as int);
                assert(as_monitor_steps(trace@, bt@));
                assert(reject@[r as int]@[i as int]);
                assert(rejection_witness(*g, reject@, monitor.reject_list(), cx->Some_0->Rejecting_condition@, cx->Some_0->Rejecting_trace@, r as int, i as int, bt@));
            }
            return (Ok(cx), Ghost(reject@), Ghost(Seq::empty()));
        },
        None => {},
    }
    let outside = progress_table(monitor.progress(), &g.states);
    let found = match find_fair_counterexample(e, g, known_terminal, &outside, true, fairness, false) {
        Ok(f) => f,
        Err(err) => {
            return (Err(map_buchi_error(err)), Ghost(reject@), Ghost(outside@));
        },
    };
    let ghost actions = fairness.action_list();
    let counterexample = match found {
        None => None,
        Some(Violation::Terminal { set, node, trace }) => {
            let mt = to_monitor_trace(&trace);
            proof {
                assert(violation_ok(*e, *g, known_terminal@, outside@, true, actions, Ok(Some(Violation::Terminal { set, node, trace }))));
                assert(as_monitor_steps(mt@, trace@));
            }
            Some(MonitorCounterexample::ProgressTerminal { condition: owned(monitor.progress()[set].name()), trace: mt })
        },
        Some(Violation::Lasso { set, entry, stem, cycle }) => {
            let ms = to_monitor_trace(&stem);
            let mc = to_monitor_trace(&cycle);
            proof {
                assert(violation_ok(*e, *g, known_terminal@, outside@, true, actions, Ok(Some(Violation::Lasso { set, entry, stem, cycle }))));
                assert(as_monitor_steps(ms@, stem@));
                assert(as_monitor_steps(mc@, cycle@));
            }
            Some(MonitorCounterexample::ProgressCycle { condition: owned(monitor.progress()[set].name()), stem: ms, cycle: mc })
        },
    };
    (Ok(counterexample), Ghost(reject@), Ghost(outside@))
}

/// Compose a deterministic finite monitor with a captured model graph.
///
/// Rejecting conditions are immediate failures; a progress condition fails
/// when some maximal execution terminates while it is active or can stay
/// forever in a cycle where it is active. Rejections take precedence, then
/// progress terminals, then progress cycles; within a class, product
/// discovery order and declaration order decide. No fairness is assumed.
pub fn check_monitor<S: StateValue, M: StateValue>(model: &TransitionSystem<S>, monitor: &FiniteMonitor<M>) -> (r: Result<
    MonitorResult<S, M>,
    MonitorError,
>)
    ensures
        r matches Ok(res) ==> exists|
            c: ReachableGraph<S>,
            p: BoundedActionProduct<S, M>,
            e: ReachableGraph<BuchiProductState<S, M>>,
            reject: Seq<Vec<bool>>,
            outside: Seq<Vec<bool>>,
        | #[trigger] monitor_report_ok(*model, *monitor, Seq::empty(), c, p, e, reject, outside, res),
        r matches Err(e) ==> e matches MonitorError::Graph(RecurrenceError::Graph(g)) && (g is Model || (
        g is UnexpectedInconclusive && (crate::graph::capture_saturates(*model)
            || crate::product::product_saturates::<S, M>(*model, monitor.initial_state()@)))),
{
    let none = WeakFairness::none();
    assert(none.action_list() =~= Seq::<String>::empty());
    crate::monitor_fairness::check_monitor_with_weak_fairness(model, monitor, &none)
}

/// The first (state, condition) pair, by state then condition, with a
/// true entry in the table.
pub(crate) fn first_reject(reject: &Vec<Vec<bool>>, n: usize) -> (r: Option<(usize, usize)>)
    requires
        forall|r: int| 0 <= r < reject@.len() ==> (#[trigger] reject@[r])@.len() == n,
    ensures
        match r {
            Some((i, c)) => i < n && c < reject@.len() && reject@[c as int]@[i as int],
            None => forall|c: int, x: int| 0 <= c < reject@.len() && 0 <= x < n ==> !(#[trigger] reject@[c]@[x]),
        },
{
    let mut i: usize = 0;
    while i < n
        invariant
            forall|r: int| 0 <= r < reject@.len() ==> (#[trigger] reject@[r])@.len() == n,
            i <= n,
            forall|c: int, x: int| 0 <= c < reject@.len() && 0 <= x < i ==> !(#[trigger] reject@[c]@[x]),
        decreases n - i,
    {
        let mut c: usize = 0;
        while c < reject.len()
            invariant
                forall|r: int| 0 <= r < reject@.len() ==> (#[trigger] reject@[r])@.len() == n,
                i < n,
                c <= reject@.len(),
                forall|x: int| 0 <= x < c ==> !(#[trigger] reject@[x]@[i as int]),
            decreases reject.len() - c,
        {
            if reject[c][i] {
                return Some((i, c));
            }
            c += 1;
        }
        i += 1;
    }
    None
}

} // verus!
