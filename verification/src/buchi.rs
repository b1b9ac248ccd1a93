//! Generalized Büchi acceptance checked over the product of a captured model
//! with a deterministic action-driven automaton.
use crate::bounded::BoundedOutcome;
use crate::checker::TraceStep;
use crate::checker::ExplorationLimits;
use crate::fairness::{
    find_fair_counterexample, lasso_ok, terminal_violation, unfair_outside, violation_ok, Violation, WeakFairness,
};
use crate::graph::{capture_reachable_graph, distinct_states, everything, roots_of_initial, ReachableGraph};
use crate::model::{StatePredicate, TransitionSystem};
use crate::product::{
    build_action_product, build_action_product_with_limits, product_wf, terminal_marks, ActionStep,
    BoundedActionProduct, BuchiProductState,
};
use crate::recurrence::{spells_walk, RecurrenceError};
use crate::state::StateValue;
use crate::text::{is_blank, owned, trim};
use vstd::prelude::*;

verus! {

/// One named generalized Büchi acceptance set over automaton states.
#[verifier::reject_recursive_types(A)]
pub struct AcceptanceSet<A> {
    name: String,
    predicate: StatePredicate<A>,
}

impl<A> AcceptanceSet<A> {
    pub closed spec fn name_text(&self) -> Seq<char> {
        self.name@
    }

    /// A named set; the name must not be blank.
    pub fn new<F: Fn(&A) -> bool + Send + Sync + 'static>(name: &str, predicate: F) -> (r: Result<
        Self,
        BuchiError,
    >)
        ensures
            match r {
                Ok(set) => trim(name@).len() > 0 && set.name_text() == name@,
                Err(e) => trim(name@).len() == 0 && e == BuchiError::EmptyAcceptanceName,
            },
    {
        if is_blank(name) {
            return Err(BuchiError::EmptyAcceptanceName);
        }
        Ok(AcceptanceSet { name: owned(name), predicate: StatePredicate::from_fn(predicate) })
    }

    pub fn name(&self) -> (name: &str)
        ensures
            name@ == self.name_text(),
    {
        self.name.as_str()
    }

    /// Whether the automaton state belongs to this set (the caller's
    /// predicate decides).
    pub(crate) fn contains(&self, state: &A) -> bool {
        self.predicate.evaluate(state)
    }

    /// The same set, sharing its predicate.
    pub fn duplicate(&self) -> (set: Self)
        ensures
            set.name_text() == self.name_text(),
    {
        AcceptanceSet { name: self.name.clone(), predicate: self.predicate.share() }
    }
}

/// Policy for finite maximal model executions.
///
/// `IgnoreTerminals` checks only infinite executions.
/// `RequireAcceptingTerminal` additionally requires every finite product
/// terminal to satisfy every named acceptance set.
#[derive(Debug, Clone, Copy, PartialEq, Eq, Structural)]
pub enum FiniteRunPolicy {
    IgnoreTerminals,
    RequireAcceptingTerminal,
}

/// A deterministic automaton with generalized Büchi acceptance sets and an
/// explicit finite-run policy.
#[verifier::reject_recursive_types(A)]
pub struct BuchiAutomaton<A> {
    name: String,
    initial: A,
    step: ActionStep<A>,
    acceptance: Vec<AcceptanceSet<A>>,
    finite_policy: FiniteRunPolicy,
}

impl<A> BuchiAutomaton<A> {
    pub closed spec fn name_text(&self) -> Seq<char> {
        self.name@
    }

    pub closed spec fn initial_state(&self) -> A {
        self.initial
    }

    pub closed spec fn sets(&self) -> Seq<AcceptanceSet<A>> {
        self.acceptance@
    }

    pub closed spec fn policy(&self) -> FiniteRunPolicy {
        self.finite_policy
    }

    /// An automaton; its name must not be blank, it needs at least one
    /// acceptance set, and set names must be pairwise different.
    pub fn new<F: Fn(&A, &str) -> A + Send + Sync + 'static>(
        name: &str,
        initial: A,
        step: F,
        acceptance: Vec<AcceptanceSet<A>>,
        finite_policy: FiniteRunPolicy,
    ) -> (r: Result<Self, BuchiError>)
        ensures
            match r {
                Ok(a) => {
                    &&& trim(name@).len() > 0
                    &&& acceptance@.len() > 0
                    &&& forall|j: int| 0 <= j < acceptance@.len() ==> !#[trigger] name_repeats(acceptance@, j)
                    &&& a.name_text() == name@
                    &&& a.initial_state() == initial
                    &&& a.sets() == acceptance@
                    &&& a.policy() == finite_policy
                },
                Err(e) => if trim(name@).len() == 0 {
                    e == BuchiError::EmptyAutomatonName
                } else if acceptance@.len() == 0 {
                    e == BuchiError::NoAcceptanceSets
                } else {
                    exists|j: int|
                        0 <= j < acceptance@.len() && #[trigger] name_repeats(acceptance@, j) && (forall|k: int|
                            0 <= k < j ==> !#[trigger] name_repeats(acceptance@, k)) && (e
                            matches BuchiError::DuplicateAcceptanceName { name } && name@ == acceptance@[j].name_text())
                },
            },
    {
        if is_blank(name) {
            return Err(BuchiError::EmptyAutomatonName);
        }
        if acceptance.len() == 0 {
            return Err(BuchiError::NoAcceptanceSets);
        }
        let mut j: usize = 0;
        while j < acceptance.len()
            invariant
                trim(name@).len() > 0,
                acceptance@.len() > 0,
                j <= acceptance@.len(),
                forall|k: int| 0 <= k < j ==> !#[trigger] name_repeats(acceptance@, k),
            decreases acceptance.len() - j,
        {
            let mut i: usize = 0;
            while i < j
                invariant
                    trim(name@).len() > 0,
                    acceptance@.len() > 0,
                    forall|k: int| 0 <= k < j ==> !#[trigger] name_repeats(acceptance@, k),
                    j < acceptance@.len(),
                    i <= j,
                    forall|k: int| 0 <= k < i ==> (#[trigger] acceptance@[k]).name_text() != acceptance@[j as int].name_text(),
                decreases j - i,
            {
                if crate::text::same_text(acceptance[i].name(), acceptance[j].name()) {
                    assert(name_repeats(acceptance@, j as int));
                    return Err(BuchiError::DuplicateAcceptanceName { name: owned(acceptance[j].name()) });
                }
                i += 1;
            }
            j += 1;
        }
        Ok(
            BuchiAutomaton {
                name: owned(name),
                initial,
                step: ActionStep::from_fn(step),
                acceptance,
                finite_policy,
            },
        )
    }

    pub fn name(&self) -> (name: &str)
        ensures
            name@ == self.name_text(),
    {
        self.name.as_str()
    }

    pub fn initial(&self) -> (initial: &A)
        ensures
            *initial == self.initial_state(),
    {
        &self.initial
    }

    pub fn acceptance_sets(&self) -> (sets: &[AcceptanceSet<A>])
        ensures
            sets@ == self.sets(),
    {
        self.acceptance.as_slice()
    }

    pub fn finite_policy(&self) -> (policy: FiniteRunPolicy)
        ensures
            policy == self.policy(),
    {
        self.finite_policy
    }

    /// The automaton's step on an action label (the caller's closure).
    pub(crate) fn step_fn(&self) -> (step: &ActionStep<A>) {
        &self.step
    }
}

/// The acceptance set at `j` has the same name as an earlier one.
pub open spec fn name_repeats<A>(sets: Seq<AcceptanceSet<A>>, j: int) -> bool {
    exists|i: int| 0 <= i < j && (#[trigger] sets[i]).name_text() == sets[j].name_text()
}

#[derive(Debug, Clone, Copy, PartialEq, Eq, Structural)]
pub enum BuchiStatus {
    Satisfied,
    Violated,
}

#[derive(Debug, Clone, PartialEq, Eq)]
pub enum BuchiCounterexample<S, A> {
    /// A finite maximal run violates the strict terminal policy.
    FiniteTerminal { missing_acceptance: String, trace: Vec<TraceStep<BuchiProductState<S, A>>> },
    /// An infinite lasso can remain forever outside one acceptance set.
    AcceptanceAvoidingCycle {
        acceptance: String,
        stem: Vec<TraceStep<BuchiProductState<S, A>>>,
        cycle: Vec<TraceStep<BuchiProductState<S, A>>>,
    },
}

#[derive(Debug, Clone, PartialEq, Eq)]
pub struct BuchiResult<S, A> {
    pub automaton: String,
    pub status: BuchiStatus,
    pub finite_policy: FiniteRunPolicy,
    pub acceptance_sets: usize,
    pub model_states: usize,
    pub model_transitions: usize,
    pub product_states: usize,
    pub product_transitions: usize,
    pub counterexample: Option<BuchiCounterexample<S, A>>,
}

/// Büchi verification under product-space limits; model capture stays
/// exhaustive.
#[derive(Debug, Clone, PartialEq, Eq)]
pub struct BoundedBuchiResult<S, A> {
    pub automaton: String,
    pub outcome: BoundedOutcome<BuchiStatus>,
    pub finite_policy: FiniteRunPolicy,
    pub acceptance_sets: usize,
    pub model_states: usize,
    pub model_transitions: usize,
    pub product_states: usize,
    pub checked_product_states: usize,
    pub explored_product_transitions: usize,
    pub retained_product_transitions: usize,
    pub max_product_depth_reached: Option<usize>,
    pub counterexample: Option<BuchiCounterexample<S, A>>,
}

#[derive(Debug, Clone, PartialEq, Eq)]
pub enum BuchiError {
    EmptyAutomatonName,
    NoAcceptanceSets,
    EmptyAcceptanceName,
    DuplicateAcceptanceName { name: String },
    Graph(RecurrenceError),
    MissingWitness,
}

/// What a Büchi failure's message says.
pub open spec fn buchi_error_text(e: BuchiError) -> Seq<char> {
    match e {
        BuchiError::EmptyAutomatonName => "Buchi automaton name must not be empty"@,
        BuchiError::NoAcceptanceSets => "Buchi automaton requires at least one acceptance set"@,
        BuchiError::EmptyAcceptanceName => "Buchi acceptance-set name must not be empty"@,
        BuchiError::DuplicateAcceptanceName { name } => "duplicate Buchi acceptance-set name '"@ + name@ + "'"@,
        BuchiError::Graph(g) => "Buchi product analysis failed: "@ + crate::recurrence::recurrence_error_text(g),
        BuchiError::MissingWitness => "Buchi violation did not yield a witness"@,
    }
}

impl BuchiError {
    pub fn message(&self) -> (text: String)
        ensures
            text@ == buchi_error_text(*self),
    {
        let mut out = String::new();
        match self {
            BuchiError::EmptyAutomatonName => crate::text::append(&mut out, "Buchi automaton name must not be empty"),
            BuchiError::NoAcceptanceSets => crate::text::append(
                &mut out,
                "Buchi automaton requires at least one acceptance set",
            ),
            BuchiError::EmptyAcceptanceName => crate::text::append(
                &mut out,
                "Buchi acceptance-set name must not be empty",
            ),
            BuchiError::DuplicateAcceptanceName { name } => {
                crate::text::append(&mut out, "duplicate Buchi acceptance-set name '");
                crate::text::append(&mut out, name.as_str());
                crate::text::append(&mut out, "'");
            },
            BuchiError::Graph(e) => {
                crate::text::append(&mut out, "Buchi product analysis failed: ");
                let t = e.message();
                crate::text::append(&mut out, t.as_str());
            },
            BuchiError::MissingWitness => crate::text::append(&mut out, "Buchi violation did not yield a witness"),
        }
        assert(out@ =~= buchi_error_text(*self));
        out
    }
}

/// The names of the acceptance sets.
pub open spec fn set_names<A>(sets: Seq<AcceptanceSet<A>>) -> Seq<Seq<char>> {
    sets.map_values(|set: AcceptanceSet<A>| set.name_text())
}

/// Membership of each product state's automaton state in each acceptance
/// set: `m[s][i]` is the answer of set `s`'s predicate on state `i`.
pub(crate) fn acceptance_membership<S, A>(
    sets: &[AcceptanceSet<A>],
    states: &Vec<BuchiProductState<S, A>>,
) -> (m: Vec<Vec<bool>>)
    ensures
        m@.len() == sets@.len(),
        forall|s: int| 0 <= s < m@.len() ==> (#[trigger] m@[s]).len() == states@.len(),
{
    let mut m: Vec<Vec<bool>> = Vec::new();
    let mut s: usize = 0;
    while s < sets.len()
        invariant
            s <= sets@.len(),
            m@.len() == s,
            forall|x: int| 0 <= x < m@.len() ==> (#[trigger] m@[x]).len() == states@.len(),
        decreases sets.len() - s,
    {
        let mut row: Vec<bool> = Vec::new();
        let mut i: usize = 0;
        while i < states.len()
            invariant
                s < sets@.len(),
                i <= states@.len(),
                row@.len() == i,
            decreases states.len() - i,
        {
            row.push(sets[s].contains(&states[i].automaton));
            i += 1;
        }
        m.push(row);
        s += 1;
    }
    m
}

/// The number of edges, capped at `usize::MAX`.
pub open spec fn edge_total(out: Seq<Vec<crate::graph::SnapshotEdge>>) -> int
    decreases out.len(),
{
    if out.len() == 0 {
        0
    } else {
        edge_total(out.drop_last()) + out.last().len()
    }
}

pub(crate) fn count_edges(out: &Vec<Vec<crate::graph::SnapshotEdge>>) -> (total: usize)
    ensures
        total as int == if edge_total(out@) <= usize::MAX { edge_total(out@) } else { usize::MAX as int },
{
    let mut total: usize = 0;
    let mut i: usize = 0;
    let ghost mut capped = false;
    while i < out.len()
        invariant
            i <= out@.len(),
            total as int == if edge_total(out@.subrange(0, i as int)) <= usize::MAX {
                edge_total(out@.subrange(0, i as int))
            } else {
                usize::MAX as int
            },
        decreases out.len() - i,
    {
        assert(out@.subrange(0, i + 1).drop_last() =~= out@.subrange(0, i as int));
        let len = out[i].len();
        if total > usize::MAX - len {
            total = usize::MAX;
        } else {
            total = total + len;
        }
        i += 1;
    }
    assert(out@.subrange(0, out@.len() as int) =~= out@);
    total
}

/// The counterexample, if any, is the violation described with set names.
pub open spec fn counterexample_ok<S: View, A: View>(
    e: ReachableGraph<BuchiProductState<S, A>>,
    g: ReachableGraph<BuchiProductState<S, A>>,
    known_terminal: Seq<bool>,
    member: Seq<Vec<bool>>,
    strict: bool,
    actions: Seq<String>,
    names: Seq<Seq<char>>,
    cx: Option<BuchiCounterexample<S, A>>,
) -> bool {
    let n = g.states.len();
    match cx {
        None => {
            &&& strict ==> forall|i: int| 0 <= i < n ==> !#[trigger] terminal_violation(known_terminal, member, i)
            &&& forall|s: int| 0 <= s < member.len() ==> #[trigger] unfair_outside(e, g, member, s, actions)
        },
        Some(BuchiCounterexample::FiniteTerminal { missing_acceptance, trace }) => exists|set: usize, node: usize|
            set < member.len() && node < n && missing_acceptance@ == names[set as int] && #[trigger] violation_ok(
                e,
                g,
                known_terminal,
                member,
                strict,
                actions,
                Ok(Some(Violation::Terminal { set, node, trace })),
            ),
        Some(BuchiCounterexample::AcceptanceAvoidingCycle { acceptance, stem, cycle }) => exists|set: usize, entry: usize|
            set < member.len() && entry < n && acceptance@ == names[set as int] && #[trigger] violation_ok(
                e,
                g,
                known_terminal,
                member,
                strict,
                actions,
                Ok(Some(Violation::Lasso { set, entry, stem, cycle })),
            ),
    }
}

/// Describe a violation with the automaton's set names.
pub(crate) fn describe_violation<S: StateValue, A: StateValue>(
    e: &ReachableGraph<BuchiProductState<S, A>>,
    g: &ReachableGraph<BuchiProductState<S, A>>,
    known_terminal: &[bool],
    member: &Vec<Vec<bool>>,
    strict: bool,
    fairness: &WeakFairness,
    sets: &[AcceptanceSet<A>],
    found: Option<Violation<BuchiProductState<S, A>>>,
) -> (cx: Option<BuchiCounterexample<S, A>>)
    requires
        sets@.len() == member@.len(),
        violation_ok(*e, *g, known_terminal@, member@, strict, fairness.action_list(), Ok(found)),
    ensures
        counterexample_ok(*e, *g, known_terminal@, member@, strict, fairness.action_list(), set_names(sets@), cx),
{
    match found {
        None => {
            proof {
                let r: Result<Option<Violation<BuchiProductState<S, A>>>, BuchiError> = Ok(None);
                assert(violation_ok(*e, *g, known_terminal@, member@, strict, fairness.action_list(), r));
            }
            None
        },
        Some(Violation::Terminal { set, node, trace }) => {
            let ghost t = trace;
            let name = owned(sets[set].name());
            let cx = BuchiCounterexample::FiniteTerminal { missing_acceptance: name, trace };
            proof {
                assert(violation_ok(
                    *e,
                    *g,
                    known_terminal@,
                    member@,
                    strict,
                    fairness.action_list(),
                    Ok(Some(Violation::Terminal { set, node, trace: t })),
                ));
                assert(set_names(sets@)[set as int] == sets@[set as int].name_text());
                assert(set < member@.len());
                assert(node < g.states.len());
                assert(cx->missing_acceptance@ == set_names(sets@)[set as int]);
                assert(cx->trace == t);
                assert(counterexample_ok(*e, *g, known_terminal@, member@, strict, fairness.action_list(), set_names(sets@), Some(cx)));
            }
            Some(cx)
        },
        Some(Violation::Lasso { set, entry, stem, cycle }) => {
            let ghost st = stem;
            let ghost cy = cycle;
            let name = owned(sets[set].name());
            let cx = BuchiCounterexample::AcceptanceAvoidingCycle { acceptance: name, stem, cycle };
            proof {
                assert(violation_ok(
                    *e,
                    *g,
                    known_terminal@,
                    member@,
                    strict,
                    fairness.action_list(),
                    Ok(Some(Violation::Lasso { set, entry, stem: st, cycle: cy })),
                ));
                assert(set_names(sets@)[set as int] == sets@[set as int].name_text());
                assert(set < member@.len());
                assert(entry < g.states.len());
                assert(cx->acceptance@ == set_names(sets@)[set as int]);
                assert(cx->stem == st && cx->cycle == cy);
                assert(counterexample_ok(*e, *g, known_terminal@, member@, strict, fairness.action_list(), set_names(sets@), Some(cx)));
            }
            Some(cx)
        },
    }
}

/// The product graph is complete: every product state was expanded and the
/// known terminals are exactly the states without successors.
pub open spec fn product_complete<S, A>(p: BoundedActionProduct<S, A>) -> bool {
    &&& p.completion is Conclusive
    &&& p.checked_states == p.graph.states.len()
    &&& forall|i: int|
        0 <= i < p.checked_states ==> (#[trigger] p.known_terminal@[i] <==> p.graph.outgoing@[i].len() == 0)
}

/// `res` reports the fair Büchi check of `model` against `automaton`:
/// `c` is the model's captured reachable graph, `p` the complete product of
/// `c` with the automaton, and `member[s][i]` the answer of acceptance set
/// `s`'s predicate on product state `i`.
pub open spec fn buchi_report_ok<S: View, A: View>(
    model: TransitionSystem<S>,
    automaton: BuchiAutomaton<A>,
    actions: Seq<String>,
    c: ReachableGraph<S>,
    p: BoundedActionProduct<S, A>,
    member: Seq<Vec<bool>>,
    res: BuchiResult<S, A>,
) -> bool {
    &&& c.wf() && distinct_states(c) && roots_of_initial(c, model.initial())
    &&& product_wf(c, terminal_marks(c), automaton.initial_state()@, p)
    &&& product_complete(p)
    &&& member.len() == automaton.sets().len()
    &&& forall|s: int| 0 <= s < member.len() ==> (#[trigger] member[s]).len() == p.graph.states.len()
    &&& res.automaton@ == automaton.name_text()
    &&& res.finite_policy == automaton.policy()
    &&& res.acceptance_sets == automaton.sets().len()
    &&& res.model_states == c.states.len()
    &&& res.product_states == p.graph.states.len()
    &&& res.product_transitions == if edge_total(p.graph.outgoing@) <= usize::MAX {
        edge_total(p.graph.outgoing@)
    } else {
        usize::MAX as int
    }
    &&& (res.status == BuchiStatus::Violated <==> res.counterexample is Some)
    &&& counterexample_ok(
        p.graph,
        p.graph,
        p.known_terminal@,
        member,
        automaton.policy() == FiniteRunPolicy::RequireAcceptingTerminal,
        actions,
        set_names(automaton.sets()),
        res.counterexample,
    )
}

/// The error reported when exhaustive exploration stops early.
pub open spec fn stopped_early() -> BuchiError {
    BuchiError::Graph(RecurrenceError::Graph(crate::graph::GraphCaptureError::UnexpectedInconclusive))
}

/// Universally verify generalized Büchi acceptance over the infinite
/// maximal executions of a finite model, counting only executions that are
/// weakly fair for `fairness`; finite terminals follow the automaton's
/// policy.
///
/// The model is captured once; the automaton consumes captured action
/// labels to form a finite product. A violation is a known terminal missing
/// an acceptance set (strict policy only, checked first) or a reachable
/// weakly fair cycle that stays outside one acceptance set.
pub fn check_buchi_with_weak_fairness<S: StateValue, A: StateValue>(
    model: &TransitionSystem<S>,
    automaton: &BuchiAutomaton<A>,
    fairness: &WeakFairness,
) -> (r: Result<BuchiResult<S, A>, BuchiError>)
    ensures
        r matches Ok(res) ==> exists|c: ReachableGraph<S>, p: BoundedActionProduct<S, A>, member: Seq<Vec<bool>>|
            #[trigger] buchi_report_ok(*model, *automaton, fairness.action_list(), c, p, member, res),
        r matches Err(e) ==> e matches BuchiError::Graph(RecurrenceError::Graph(g)) && (g is Model || (
        g is UnexpectedInconclusive && (crate::graph::capture_saturates(*model)
            || crate::product::product_saturates::<S, A>(*model, automaton.initial_state()@)))),
{
    let captured = match capture_reachable_graph(model) {
        Ok(c) => c,
        Err(e) => {
            return Err(BuchiError::Graph(RecurrenceError::Graph(e)));
        },
    };
    let product = build_action_product(&captured.graph, automaton.initial(), automaton.step_fn());
    if product.completion.inconclusive_reason().is_some() {
        proof {
            assert(crate::product::product_wf(captured.graph, crate::product::terminal_marks(captured.graph), automaton.initial_state()@, product));
        }
        return Err(BuchiError::Graph(RecurrenceError::Graph(crate::graph::GraphCaptureError::UnexpectedInconclusive)));
    }
    let member = acceptance_membership(automaton.acceptance_sets(), &product.graph.states);
    let strict = match automaton.finite_policy() {
        FiniteRunPolicy::RequireAcceptingTerminal => true,
        FiniteRunPolicy::IgnoreTerminals => false,
    };
    let found = match find_fair_counterexample(
        &product.graph,
        &product.graph,
        product.known_terminal.as_slice(),
        &member,
        strict,
        fairness,
        false,
    ) {
        Ok(f) => f,
        Err(e) => {
            proof {
                let i = choose|i: int|
                    0 <= i < product.graph.states.len() && !crate::graph::reachable_from(
                        product.graph,
                        product.graph.initial_ids@,
                        i,
                        crate::graph::everything(product.graph.states.len() as nat),
                    );
                assert(crate::graph::reachable_from(
                    product.graph,
                    product.graph.initial_ids@,
                    i,
                    crate::graph::everything(product.graph.states@.len()),
                ));
                assert(false);
            }
            return Err(e);
        },
    };
    let counterexample = describe_violation(
        &product.graph,
        &product.graph,
        product.known_terminal.as_slice(),
        &member,
        strict,
        fairness,
        automaton.acceptance_sets(),
        found,
    );
    let product_transitions = count_edges(&product.graph.outgoing);
    let status = if counterexample.is_some() {
        BuchiStatus::Violated
    } else {
        BuchiStatus::Satisfied
    };
    let res = BuchiResult {
        automaton: owned(automaton.name()),
        status,
        finite_policy: automaton.finite_policy(),
        acceptance_sets: automaton.acceptance_sets().len(),
        model_states: captured.discovered_states,
        model_transitions: captured.explored_transitions,
        product_states: product.graph.states.len(),
        product_transitions,
        counterexample,
    };
    proof {
        assert(buchi_report_ok(*model, *automaton, fairness.action_list(), captured.graph, product, member@, res));
    }
    Ok(res)
}

/// Universally verify generalized Büchi acceptance with no fairness
/// assumption: the weakly fair check with no fair actions.
pub fn check_buchi<S: StateValue, A: StateValue>(model: &TransitionSystem<S>, automaton: &BuchiAutomaton<A>) -> (r:
    Result<BuchiResult<S, A>, BuchiError>)
    ensures
        r matches Ok(res) ==> exists|c: ReachableGraph<S>, p: BoundedActionProduct<S, A>, member: Seq<Vec<bool>>|
            #[trigger] buchi_report_ok(*model, *automaton, Seq::empty(), c, p, member, res),
        r matches Err(e) ==> e matches BuchiError::Graph(RecurrenceError::Graph(g)) && (g is Model || (
        g is UnexpectedInconclusive && (crate::graph::capture_saturates(*model)
            || crate::product::product_saturates::<S, A>(*model, automaton.initial_state()@)))),
{
    let none = WeakFairness::none();
    assert(none.action_list() =~= Seq::<String>::empty());
    check_buchi_with_weak_fairness(model, automaton, &none)
}

/// `e` has the product's state ids and, at each product state, exactly the
/// action labels enabled at its model state in the captured model graph.
pub open spec fn enablement_of<S, A>(c: ReachableGraph<S>, p: BoundedActionProduct<S, A>, e: ReachableGraph<BuchiProductState<S, A>>) -> bool {
    &&& e.wf()
    &&& e.states.len() == p.graph.states.len()
    &&& forall|i: int, a: Seq<char>|
        0 <= i < e.states.len() ==> (#[trigger] crate::fairness::enabled(e, i, a) <==> crate::fairness::enabled(
            c,
            p.model_ids@[i] as int,
            a,
        ))
}

/// Project the model's action enablement onto the product's state ids;
/// edges point back at their own state, since only labels matter.
pub(crate) fn model_enablement<S: StateValue, A: StateValue>(
    c: &ReachableGraph<S>,
    p: &BoundedActionProduct<S, A>,
) -> (e: ReachableGraph<BuchiProductState<S, A>>)
    requires
        c.wf(),
        p.model_ids@.len() == p.graph.states.len(),
        forall|i: int| 0 <= i < p.model_ids@.len() ==> #[trigger] p.model_ids@[i] < c.states.len(),
    ensures
        enablement_of(*c, *p, e),
{
    let n = p.graph.states.len();
    let mut states: Vec<BuchiProductState<S, A>> = Vec::new();
    let mut outgoing: Vec<Vec<crate::graph::SnapshotEdge>> = Vec::new();
    let mut i: usize = 0;
    while i < n
        invariant
            c.wf(),
            n == p.graph.states.len(),
            p.model_ids@.len() == n,
            forall|i: int| 0 <= i < p.model_ids@.len() ==> #[trigger] p.model_ids@[i] < c.states.len(),
            i <= n,
            states@.len() == i,
            outgoing@.len() == i,
            forall|x: int, k: int|
                0 <= x < i && 0 <= k < outgoing@[x].len() ==> (#[trigger] outgoing@[x]@[k]).target == x,
            forall|x: int| 0 <= x < i ==> (#[trigger] outgoing@[x]).len() == c.outgoing@[p.model_ids@[x] as int].len(),
            forall|x: int, k: int|
                0 <= x < i && 0 <= k < outgoing@[x].len() ==> (#[trigger] outgoing@[x]@[k]).action
                    == c.outgoing@[p.model_ids@[x] as int]@[k].action,
        decreases n - i,
    {
        let m = p.model_ids[i];
        let edges = &c.outgoing[m];
        let mut row: Vec<crate::graph::SnapshotEdge> = Vec::new();
        let mut k: usize = 0;
        while k < edges.len()
            invariant
                edges@ == c.outgoing@[m as int]@,
                k <= edges.len(),
                row@.len() == k,
                forall|j: int| 0 <= j < k ==> (#[trigger] row@[j]).target == i && row@[j].action == edges@[j].action,
            decreases edges.len() - k,
        {
            row.push(crate::graph::SnapshotEdge { action: edges[k].action.clone(), target: i });
            k += 1;
        }
        states.push(p.graph.states[i].copy_value());
        outgoing.push(row);
        i += 1;
    }
    let mut roots: Vec<usize> = Vec::new();
    let e = ReachableGraph { states, outgoing, initial_ids: roots };
    proof {
        assert forall|i: int, a: Seq<char>|
            0 <= i < e.states.len() implies (#[trigger] crate::fairness::enabled(e, i, a) <==> crate::fairness::enabled(
                *c,
                p.model_ids@[i] as int,
                a,
            )) by {
            if crate::fairness::enabled(e, i, a) {
                let k = choose|k: int| 0 <= k < e.outgoing@[i].len() && (#[trigger] e.outgoing@[i]@[k]).action@ == a;
                let _ = c.outgoing@[p.model_ids@[i] as int]@[k];
            }
            if crate::fairness::enabled(*c, p.model_ids@[i] as int, a) {
                let k = choose|k: int| 0 <= k < c.outgoing@[p.model_ids@[i] as int].len() && (#[trigger] c.outgoing@[p.model_ids@[i] as int]@[k]).action@ == a;
                let _ = e.outgoing@[i]@[k];
            }
        }
    }
    e
}

/// `res` reports the bounded fair Büchi check: `c` is the model's captured
/// reachable graph, `p` the product prefix built within `limits`, `e` the
/// model-side enablement on product ids, and `member[s][i]` the answer of
/// acceptance set `s`'s predicate on product state `i`. A retained
/// violation is conclusive; otherwise satisfaction needs a complete product.
pub open spec fn bounded_report_ok<S: View, A: View>(
    model: TransitionSystem<S>,
    automaton: BuchiAutomaton<A>,
    actions: Seq<String>,
    limits: ExplorationLimits,
    c: ReachableGraph<S>,
    p: BoundedActionProduct<S, A>,
    e: ReachableGraph<BuchiProductState<S, A>>,
    member: Seq<Vec<bool>>,
    res: BoundedBuchiResult<S, A>,
) -> bool {
    &&& c.wf() && distinct_states(c) && roots_of_initial(c, model.initial())
    &&& product_wf(c, terminal_marks(c), automaton.initial_state()@, p)
    &&& enablement_of(c, p, e)
    &&& p.completion is Conclusive ==> crate::product::roots_covered(c.initial_ids@, p.model_ids@, p.graph.initial_ids@)
    &&& limits.max_states matches Some(l) ==> p.graph.states.len() <= l
    &&& member.len() == automaton.sets().len()
    &&& forall|s: int| 0 <= s < member.len() ==> (#[trigger] member[s]).len() == p.graph.states.len()
    &&& res.automaton@ == automaton.name_text()
    &&& res.finite_policy == automaton.policy()
    &&& res.acceptance_sets == automaton.sets().len()
    &&& res.model_states == c.states.len()
    &&& res.product_states == p.graph.states.len()
    &&& res.checked_product_states == p.checked_states
    &&& res.explored_product_transitions == p.explored_transitions
    &&& res.max_product_depth_reached == p.max_depth_reached
    &&& res.retained_product_transitions == if edge_total(p.graph.outgoing@) <= usize::MAX {
        edge_total(p.graph.outgoing@)
    } else {
        usize::MAX as int
    }
    &&& counterexample_ok(
        e,
        p.graph,
        p.known_terminal@,
        member,
        automaton.policy() == FiniteRunPolicy::RequireAcceptingTerminal,
        actions,
        set_names(automaton.sets()),
        res.counterexample,
    )
    &&& res.outcome == if res.counterexample is Some {
        BoundedOutcome::Conclusive(BuchiStatus::Violated)
    } else {
        match p.completion {
            BoundedOutcome::Conclusive(_) => BoundedOutcome::Conclusive(BuchiStatus::Satisfied),
            BoundedOutcome::Inconclusive(reason) => BoundedOutcome::Inconclusive(reason),
        }
    }
    &&& p.completion matches BoundedOutcome::Inconclusive(reason) ==> match reason {
        crate::checker::InconclusiveReason::StateLimitReached { limit } => limits.max_states == Some(limit)
            && p.graph.states.len() == limit,
        crate::checker::InconclusiveReason::TransitionLimitReached { limit } => p.explored_transitions == limit
            && (limits.max_transitions == Some(limit) || (limits.max_transitions is None && limit == usize::MAX)),
        crate::checker::InconclusiveReason::DepthLimitReached { limit } => limits.max_depth == Some(limit),
    }
}

/// Generalized Büchi verification under weak fairness, bounding only the
/// product construction after complete model capture.
///
/// The complete model snapshot decides action enablement, so a product
/// cutoff that drops an enabled fair-action edge cannot make that action
/// look disabled. A retained violation is conclusive; with none retained an
/// incomplete product stays inconclusive.
pub fn check_buchi_with_weak_fairness_and_product_limits<S: StateValue, A: StateValue>(
    model: &TransitionSystem<S>,
    automaton: &BuchiAutomaton<A>,
    fairness: &WeakFairness,
    limits: ExplorationLimits,
) -> (r: Result<BoundedBuchiResult<S, A>, BuchiError>)
    ensures
        r matches Ok(res) ==> exists|
            c: ReachableGraph<S>,
            p: BoundedActionProduct<S, A>,
            e: ReachableGraph<BuchiProductState<S, A>>,
            member: Seq<Vec<bool>>,
        | #[trigger] bounded_report_ok(*model, *automaton, fairness.action_list(), limits, c, p, e, member, res),
        r matches Err(e) ==> e matches BuchiError::Graph(RecurrenceError::Graph(g)) && (g is Model || (
        g is UnexpectedInconclusive && crate::graph::capture_saturates(*model))),
{
    let captured = match capture_reachable_graph(model) {
        Ok(c) => c,
        Err(e) => {
            return Err(BuchiError::Graph(RecurrenceError::Graph(e)));
        },
    };
    let product = build_action_product_with_limits(&captured.graph, automaton.initial(), automaton.step_fn(), limits);
    let enablement = model_enablement(&captured.graph, &product);
    let member = acceptance_membership(automaton.acceptance_sets(), &product.graph.states);
    let strict = match automaton.finite_policy() {
        FiniteRunPolicy::RequireAcceptingTerminal => true,
        FiniteRunPolicy::IgnoreTerminals => false,
    };
    let found = match find_fair_counterexample(
        &enablement,
        &product.graph,
        product.known_terminal.as_slice(),
        &member,
        strict,
        fairness,
        false,
    ) {
        Ok(f) => f,
        Err(e) => {
            proof {
                let i = choose|i: int|
                    0 <= i < product.graph.states.len() && !crate::graph::reachable_from(
                        product.graph,
                        product.graph.initial_ids@,
                        i,
                        crate::graph::everything(product.graph.states.len() as nat),
                    );
                assert(crate::graph::reachable_from(
                    product.graph,
                    product.graph.initial_ids@,
                    i,
                    crate::graph::everything(product.graph.states@.len()),
                ));
                assert(false);
            }
            return Err(e);
        },
    };
    let counterexample = describe_violation(
        &enablement,
        &product.graph,
        product.known_terminal.as_slice(),
        &member,
        strict,
        fairness,
        automaton.acceptance_sets(),
        found,
    );
    let retained = count_edges(&product.graph.outgoing);
    let outcome = if counterexample.is_some() {
        BoundedOutcome::Conclusive(BuchiStatus::Violated)
    } else {
        match product.completion {
            BoundedOutcome::Conclusive(()) => BoundedOutcome::Conclusive(BuchiStatus::Satisfied),
            BoundedOutcome::Inconclusive(reason) => BoundedOutcome::Inconclusive(reason),
        }
    };
    let res = BoundedBuchiResult {
        automaton: owned(automaton.name()),
        outcome,
        finite_policy: automaton.finite_policy(),
        acceptance_sets: automaton.acceptance_sets().len(),
        model_states: captured.discovered_states,
        model_transitions: captured.explored_transitions,
        product_states: product.graph.states.len(),
        checked_product_states: product.checked_states,
        explored_product_transitions: product.explored_transitions,
        retained_product_transitions: retained,
        max_product_depth_reached: product.max_depth_reached,
        counterexample,
    };
    proof {
        assert(bounded_report_ok(*model, *automaton, fairness.action_list(), limits, captured.graph, product, enablement, member@, res));
    }
    Ok(res)
}

/// Generalized Büchi verification bounding only the product construction,
/// with no fairness assumption.
pub fn check_buchi_with_product_limits<S: StateValue, A: StateValue>(
    model: &TransitionSystem<S>,
    automaton: &BuchiAutomaton<A>,
    limits: ExplorationLimits,
) -> (r: Result<BoundedBuchiResult<S, A>, BuchiError>)
    ensures
        r matches Ok(res) ==> exists|
            c: ReachableGraph<S>,
            p: BoundedActionProduct<S, A>,
            e: ReachableGraph<BuchiProductState<S, A>>,
            member: Seq<Vec<bool>>,
        | #[trigger] bounded_report_ok(*model, *automaton, Seq::empty(), limits, c, p, e, member, res),
        r matches Err(e) ==> e matches BuchiError::Graph(RecurrenceError::Graph(g)) && (g is Model || (
        g is UnexpectedInconclusive && crate::graph::capture_saturates(*model))),
{
    let none = WeakFairness::none();
    assert(none.action_list() =~= Seq::<String>::empty());
    check_buchi_with_weak_fairness_and_product_limits(model, automaton, &none, limits)
}

} // verus!
