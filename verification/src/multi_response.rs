//! Conjunctions of independently tracked action-response obligations,
//! checked over the product of a captured model graph with one pending bit
//! per clause.
use crate::bounded::BoundedOutcome;
use crate::buchi::{count_edges, edge_total, enablement_of, model_enablement, product_complete, BuchiError};
use crate::checker::{ExplorationLimits, TraceStep};
use crate::fairness::{
    find_fair_counterexample, find_terminal_violation, violation_ok, Violation, WeakFairness,
};
use crate::graph::{capture_reachable_graph, distinct_states, roots_of_initial, GraphCaptureError, ReachableGraph};
use crate::model::TransitionSystem;
use crate::monitor::name_repeats_at;
use crate::product::{
    build_action_product, build_action_product_with_limits, product_wf, terminal_marks, ActionStep,
    BoundedActionProduct, BuchiProductState,
};
use crate::recurrence::RecurrenceError;
use crate::state::StateValue;
use crate::text::{is_blank, owned, trim};
use std::sync::Arc;
use vstd::prelude::*;

verus! {

/// The caller's action-label closure, held behind a shared pointer.
#[verifier::external_body]
pub struct ActionClosure {
    test: Arc<dyn Fn(&str) -> bool + Send + Sync>,
}

impl ActionClosure {
    /// Boxes the closure with `Arc::new`; nothing is claimed of the closure.
    #[verifier::external_body]
    pub(crate) fn from_fn<F: Fn(&str) -> bool + Send + Sync + 'static>(test: F) -> Self {
        ActionClosure { test: Arc::new(test) }
    }

    /// Shares the same closure (`Arc::clone`).
    #[verifier::external_body]
    pub(crate) fn share(&self) -> Self {
        ActionClosure { test: Arc::clone(&self.test) }
    }
}

/// `b` is an answer `f` may give on some label text equal to `a`: when `f`
/// may be called there, its contract admits `b`.
pub open spec fn label_answer<F: Fn(&str) -> bool>(f: F, a: Seq<char>, b: bool) -> bool {
    exists|x: &str| x@ == a && (call_requires(f, (x,)) ==> call_ensures(f, (x,), b))
}

/// A caller-supplied predicate on action labels: the closure, and the
/// answers it may give, as its own contract states them.
///
/// Only `from_fn` and `share` build one, so the recorded answers are always
/// those of the closure held.
pub struct ActionPredicate {
    closure: ActionClosure,
    answers: Ghost<spec_fn(Seq<char>, bool) -> bool>,
}

impl ActionPredicate {
    /// `b` is an answer the predicate may give on the label `a`.
    pub closed spec fn may_answer(&self, a: Seq<char>, b: bool) -> bool {
        (self.answers@)(a, b)
    }

    pub(crate) fn from_fn<F: Fn(&str) -> bool + Send + Sync + 'static>(test: F) -> (p: Self)
        ensures
            forall|a: Seq<char>, b: bool| #[trigger] p.may_answer(a, b) == label_answer(test, a, b),
    {
        let ghost answers = |a: Seq<char>, b: bool| label_answer(test, a, b);
        ActionPredicate { closure: ActionClosure::from_fn(test), answers: Ghost(answers) }
    }

    /// Calls the caller's closure on `action`. What it answers is the
    /// caller's code; the contract claims only that the answer is one the
    /// closure's own contract admits on that label, which holds of the
    /// closure that `from_fn` stored.
    #[verifier::external_body]
    pub(crate) fn holds(&self, action: &str) -> (r: bool)
        ensures
            self.may_answer(action@, r),
    {
        (self.closure.test)(action)
    }

    /// Shares the same closure.
    pub(crate) fn share(&self) -> (p: Self)
        ensures
            forall|a: Seq<char>, b: bool| #[trigger] p.may_answer(a, b) == self.may_answer(a, b),
    {
        ActionPredicate { closure: self.closure.share(), answers: Ghost(self.answers@) }
    }
}

/// One independently tracked action-response obligation class: a trigger
/// action opens it, a response action discharges it.
pub struct ResponseClause {
    name: String,
    trigger: ActionPredicate,
    response: ActionPredicate,
}

impl ResponseClause {
    pub closed spec fn name_text(&self) -> Seq<char> {
        self.name@
    }

    /// `b` is an answer the clause's trigger predicate may give on `a`.
    pub closed spec fn trigger_answer(&self, a: Seq<char>, b: bool) -> bool {
        self.trigger.may_answer(a, b)
    }

    /// `b` is an answer the clause's response predicate may give on `a`.
    pub closed spec fn response_answer(&self, a: Seq<char>, b: bool) -> bool {
        self.response.may_answer(a, b)
    }

    /// A clause; its name must not be blank.
    pub fn new<F: Fn(&str) -> bool + Send + Sync + 'static, G: Fn(&str) -> bool + Send + Sync + 'static>(
        name: &str,
        trigger: F,
        response: G,
    ) -> (r: Result<Self, MultiResponseError>)
        ensures
            match r {
                Ok(c) => {
                    &&& trim(name@).len() > 0 && c.name_text() == name@
                    &&& forall|a: Seq<char>, b: bool| #[trigger] c.trigger_answer(a, b) == label_answer(trigger, a, b)
                    &&& forall|a: Seq<char>, b: bool| #[trigger] c.response_answer(a, b) == label_answer(response, a, b)
                },
                Err(e) => trim(name@).len() == 0 && e == MultiResponseError::EmptyClauseName,
            },
    {
        if is_blank(name) {
            return Err(MultiResponseError::EmptyClauseName);
        }
        Ok(
            ResponseClause {
                name: owned(name),
                trigger: ActionPredicate::from_fn(trigger),
                response: ActionPredicate::from_fn(response),
            },
        )
    }

    pub fn name(&self) -> (name: &str)
        ensures
            name@ == self.name_text(),
    {
        self.name.as_str()
    }

    pub(crate) fn share(&self) -> (c: Self)
        ensures
            c.name_text() == self.name_text(),
            forall|a: Seq<char>, b: bool| #[trigger] c.trigger_answer(a, b) == self.trigger_answer(a, b),
            forall|a: Seq<char>, b: bool| #[trigger] c.response_answer(a, b) == self.response_answer(a, b),
    {
        ResponseClause { name: owned(self.name.as_str()), trigger: self.trigger.share(), response: self.response.share() }
    }
}

/// The names of the clauses, in declaration order.
pub open spec fn clause_names(clauses: Seq<ResponseClause>) -> Seq<Seq<char>> {
    clauses.map_values(|c: ResponseClause| c.name_text())
}

/// A conjunction of independently tracked response clauses.
pub struct MultiResponseProperty {
    name: String,
    clauses: Vec<ResponseClause>,
}

impl MultiResponseProperty {
    pub closed spec fn name_text(&self) -> Seq<char> {
        self.name@
    }

    pub closed spec fn clause_list(&self) -> Seq<ResponseClause> {
        self.clauses@
    }

    /// A property; its name must not be blank, it needs a clause, and the
    /// clause names must be different.
    pub fn new(name: &str, clauses: Vec<ResponseClause>) -> (r: Result<Self, MultiResponseError>)
        ensures
            match r {
                Ok(p) => {
                    &&& trim(name@).len() > 0
                    &&& clauses@.len() > 0
                    &&& forall|j: int| 0 <= j < clauses@.len() ==> !#[trigger] name_repeats_at(clause_names(clauses@), j)
                    &&& p.name_text() == name@
                    &&& p.clause_list() == clauses@
                },
                Err(e) => if trim(name@).len() == 0 {
                    e == MultiResponseError::EmptyPropertyName
                } else if clauses@.len() == 0 {
                    e == MultiResponseError::NoClauses
                } else {
                    exists|j: int|
                        0 <= j < clauses@.len() && #[trigger] name_repeats_at(clause_names(clauses@), j) && (forall|k: int|
                            0 <= k < j ==> !#[trigger] name_repeats_at(clause_names(clauses@), k)) && (e
                            matches MultiResponseError::DuplicateClauseName { name } && name@ == clause_names(clauses@)[j])
                },
            },
    {
        if is_blank(name) {
            return Err(MultiResponseError::EmptyPropertyName);
        }
        if clauses.len() == 0 {
            return Err(MultiResponseError::NoClauses);
        }
        let ghost all = clause_names(clauses@);
        let mut j: usize = 0;
        while j < clauses.len()
            invariant
                trim(name@).len() > 0,
                clauses@.len() > 0,
                all == clause_names(clauses@),
                j <= clauses@.len(),
                forall|k: int| 0 <= k < j ==> !#[trigger] name_repeats_at(all, k),
            decreases clauses.len() - j,
        {
            let mut i: usize = 0;
            while i < j
                invariant
                    trim(name@).len() > 0,
                    clauses@.len() > 0,
                    all == clause_names(clauses@),
                    forall|k: int| 0 <= k < j ==> !#[trigger] name_repeats_at(all, k),
                    j < clauses@.len(),
                    i <= j,
                    forall|k: int| 0 <= k < i ==> all[k] != all[j as int],
                decreases j - i,
            {
                if crate::text::same_text(clauses[i].name(), clauses[j].name()) {
                    assert(all[i as int] == all[j as int]);
                    assert(name_repeats_at(all, j as int));
                    return Err(MultiResponseError::DuplicateClauseName { name: owned(clauses[j].name()) });
                }
                i += 1;
            }
            assert(!name_repeats_at(all, j as int));
            j += 1;
        }
        Ok(MultiResponseProperty { name: owned(name), clauses })
    }

    pub fn name(&self) -> (name: &str)
        ensures
            name@ == self.name_text(),
    {
        self.name.as_str()
    }

    pub fn clauses(&self) -> (c: &[ResponseClause])
        ensures
            c@ == self.clause_list(),
    {
        self.clauses.as_slice()
    }
}

/// Explicit product state: the model state plus one pending bit per clause.
#[derive(Debug, Clone, PartialEq, Eq)]
pub struct MultiObligationState<S> {
    pub state: S,
    pub pending: Vec<bool>,
}

impl<S: View> View for MultiObligationState<S> {
    type V = (S::V, Seq<bool>);

    open spec fn view(&self) -> (S::V, Seq<bool>) {
        (self.state@, self.pending@)
    }
}

#[derive(Debug, Clone, Copy, PartialEq, Eq, Structural)]
pub enum MultiResponseStatus {
    Satisfied,
    Violated,
}

#[derive(Debug, Clone, PartialEq, Eq)]
pub enum MultiResponseCounterexample<S> {
    Finite { clause: String, trace: Vec<TraceStep<MultiObligationState<S>>> },
    Infinite {
        clause: String,
        stem: Vec<TraceStep<MultiObligationState<S>>>,
        cycle: Vec<TraceStep<MultiObligationState<S>>>,
    },
}

#[derive(Debug, Clone, PartialEq, Eq)]
pub struct MultiResponseResult<S> {
    pub property: String,
    pub status: MultiResponseStatus,
    pub model_states: usize,
    pub model_transitions: usize,
    pub product_states: usize,
    pub product_transitions: usize,
    pub clause_count: usize,
    pub counterexample: Option<MultiResponseCounterexample<S>>,
}

/// Multi-response verification under deterministic product-space limits,
/// after complete model capture.
#[derive(Debug, Clone, PartialEq, Eq)]
pub struct BoundedMultiResponseResult<S> {
    pub property: String,
    pub outcome: BoundedOutcome<MultiResponseStatus>,
    pub model_states: usize,
    pub model_transitions: usize,
    pub product_states: usize,
    pub checked_product_states: usize,
    pub explored_product_transitions: usize,
    pub retained_product_transitions: usize,
    pub max_product_depth_reached: Option<usize>,
    pub clause_count: usize,
    pub counterexample: Option<MultiResponseCounterexample<S>>,
}

#[derive(Debug, Clone, PartialEq, Eq)]
pub enum MultiResponseError {
    EmptyPropertyName,
    NoClauses,
    EmptyClauseName,
    DuplicateClauseName { name: String },
    Graph(RecurrenceError),
    Buchi(BuchiError),
    MissingFiniteWitness,
    MissingCycleWitness,
    FairnessAdapterInvariant,
}

/// What a multi-response failure's message says.
pub open spec fn multi_response_error_text(e: MultiResponseError) -> Seq<char> {
    match e {
        MultiResponseError::EmptyPropertyName => "multi-response property name must not be empty"@,
        MultiResponseError::NoClauses => "multi-response property requires at least one clause"@,
        MultiResponseError::EmptyClauseName => "response clause name must not be empty"@,
        MultiResponseError::DuplicateClauseName { name } => "duplicate response clause name '"@ + name@ + "'"@,
        MultiResponseError::Graph(g) => "multi-response graph analysis failed: "@
            + crate::recurrence::recurrence_error_text(g),
        MultiResponseError::Buchi(b) => "fair multi-response analysis failed: "@ + crate::buchi::buchi_error_text(b),
        MultiResponseError::MissingFiniteWitness => "pending terminal product state did not yield a counterexample trace"@,
        MultiResponseError::MissingCycleWitness => "pending cyclic product component did not yield a stem-plus-cycle counterexample"@,
        MultiResponseError::FairnessAdapterInvariant => "fair multi-response adapter observed inconsistent clause state"@,
    }
}

impl MultiResponseError {
    pub fn message(&self) -> (text: String)
        ensures
            text@ == multi_response_error_text(*self),
    {
        let mut out = String::new();
        match self {
            MultiResponseError::EmptyPropertyName => crate::text::append(
                &mut out,
                "multi-response property name must not be empty",
            ),
            MultiResponseError::NoClauses => crate::text::append(
                &mut out,
                "multi-response property requires at least one clause",
            ),
            MultiResponseError::EmptyClauseName => crate::text::append(&mut out, "response clause name must not be empty"),
            MultiResponseError::DuplicateClauseName { name } => {
                crate::text::append(&mut out, "duplicate response clause name '");
                crate::text::append(&mut out, name.as_str());
                crate::text::append(&mut out, "'");
            },
            MultiResponseError::Graph(e) => {
                crate::text::append(&mut out, "multi-response graph analysis failed: ");
                let t = e.message();
                crate::text::append(&mut out, t.as_str());
            },
            MultiResponseError::Buchi(e) => {
                crate::text::append(&mut out, "fair multi-response analysis failed: ");
                let t = e.message();
                crate::text::append(&mut out, t.as_str());
            },
            MultiResponseError::MissingFiniteWitness => crate::text::append(
                &mut out,
                "pending terminal product state did not yield a counterexample trace",
            ),
            MultiResponseError::MissingCycleWitness => crate::text::append(
                &mut out,
                "pending cyclic product component did not yield a stem-plus-cycle counterexample",
            ),
            MultiResponseError::FairnessAdapterInvariant => crate::text::append(
                &mut out,
                "fair multi-response adapter observed inconsistent clause state",
            ),
        }
        assert(out@ =~= multi_response_error_text(*self));
        out
    }
}

/// The pending bits after `action`: for each clause, a response clears its
/// bit, otherwise a trigger sets it, otherwise it stays.
fn next_pending(clauses: &Vec<ResponseClause>, pending: &Vec<bool>, action: &str) -> (next: Vec<bool>)
    ensures
        next@.len() == pending@.len(),
        forall|i: int| 0 <= i < pending@.len() ==> #[trigger] pending_updated(clauses@, pending@, action@, next@[i], i),
{
    let mut next: Vec<bool> = Vec::new();
    let mut i: usize = 0;
    while i < pending.len()
        invariant
            i <= pending@.len(),
            next@.len() == i,
            forall|k: int| 0 <= k < i ==> #[trigger] pending_updated(clauses@, pending@, action@, next@[k], k),
        decreases pending.len() - i,
    {
        let bit = if i < clauses.len() {
            let responded = clauses[i].response.holds(action);
            assert(clauses@[i as int].response_answer(action@, responded));
            if responded {
                false
            } else {
                let triggered = clauses[i].trigger.holds(action);
                assert(clauses@[i as int].trigger_answer(action@, triggered));
                if triggered {
                    true
                } else {
                    pending[i]
                }
            }
        } else {
            pending[i]
        };
        next.push(bit);
        proof {
            assert(next@[i as int] == bit);
            assert(pending_updated(clauses@, pending@, action@, bit, i as int));
        }
        i += 1;
    }
    next
}

/// `bit` is clause `i`'s pending bit after `action`, given answers its own
/// predicates may give on `action`: cleared when its response answered
/// true, else set when its trigger answered true, else unchanged. Bits
/// without a clause stay.
pub open spec fn pending_updated(
    clauses: Seq<ResponseClause>,
    pending: Seq<bool>,
    action: Seq<char>,
    bit: bool,
    i: int,
) -> bool {
    if 0 <= i < clauses.len() {
        exists|responded: bool|
            #[trigger] clauses[i].response_answer(action, responded) && if responded {
                !bit
            } else {
                exists|triggered: bool|
                    #[trigger] clauses[i].trigger_answer(action, triggered) && bit == (triggered || pending[i])
            }
    } else {
        bit == pending[i]
    }
}

/// Law: a pending bit moves by its own clause alone. When the clause's
/// response cannot answer false on the action, the bit is cleared; when the
/// response cannot answer true and the trigger cannot answer false, it is
/// set; when neither can answer true, it keeps its value. A bit past the
/// last clause keeps its value.
pub proof fn lemma_pending_bit_own_clause(
    clauses: Seq<ResponseClause>,
    pending: Seq<bool>,
    action: Seq<char>,
    bit: bool,
    i: int,
)
    requires
        0 <= i,
        pending_updated(clauses, pending, action, bit, i),
    ensures
        i < clauses.len() && !clauses[i].response_answer(action, false) ==> !bit,
        i < clauses.len() && !clauses[i].response_answer(action, true) && !clauses[i].trigger_answer(action, false)
            ==> bit,
        i < clauses.len() && !clauses[i].response_answer(action, true) && !clauses[i].trigger_answer(action, true)
            ==> bit == pending[i],
        i >= clauses.len() ==> bit == pending[i],
{
}

/// The automaton step that updates the pending bits of `clauses`.
fn pending_step(clauses: Vec<ResponseClause>) -> ActionStep<Vec<bool>> {
    ActionStep::from_fn(move |pending: &Vec<bool>, action: &str| next_pending(&clauses, pending, action))
}

/// No clause is pending.
fn no_pending(k: usize) -> (v: Vec<bool>)
    ensures
        v@ == initial_pending(k as nat),
{
    let mut v: Vec<bool> = Vec::new();
    let mut i: usize = 0;
    while i < k
        invariant
            i <= k,
            v@ == initial_pending(i as nat),
        decreases k - i,
    {
        v.push(false);
        i += 1;
        assert(v@ =~= initial_pending(i as nat));
    }
    v
}

/// `k` clear pending bits.
pub open spec fn initial_pending(k: nat) -> Seq<bool> {
    Seq::new(k, |i: int| false)
}

/// `member[s][i]` holds exactly when clause `s` is not pending at product
/// state `i`: acceptance set `s` is where clause `s` is settled.
pub open spec fn settled_table<S: View>(
    member: Seq<Vec<bool>>,
    states: Seq<BuchiProductState<S, Vec<bool>>>,
    k: nat,
) -> bool {
    &&& member.len() == k
    &&& forall|s: int| 0 <= s < k ==> (#[trigger] member[s])@.len() == states.len()
    &&& forall|s: int, i: int|
        0 <= s < k && 0 <= i < states.len() ==> (#[trigger] member[s]@[i]) == !states[i].automaton@[s]
}

/// Every product state carries exactly `k` pending bits.
pub open spec fn pending_widths<S: View>(states: Seq<BuchiProductState<S, Vec<bool>>>, k: nat) -> bool {
    forall|i: int| 0 <= i < states.len() ==> (#[trigger] states[i]).automaton@.len() == k
}

/// The pending-bit step can hand back a vector of another width than the
/// `k` clauses over a product of a captured graph of `model`: the step is
/// held as an opaque closure, so this is the adapter check that guards it.
pub open spec fn step_breaks_width<S: View>(model: TransitionSystem<S>, k: nat) -> bool {
    exists|c: ReachableGraph<S>, p: BoundedActionProduct<S, Vec<bool>>|
        #[trigger] product_wf(c, terminal_marks(c), initial_pending(k), p) && c.wf() && distinct_states(c)
            && roots_of_initial(c, model.initial()) && !pending_widths(p.graph.states@, k)
}

/// The errors a multi-response check can give: a failure of the model's
/// relation or a saturated counter while capturing (the bounded check does
/// not build an unbounded product, so only the capture can saturate), or
/// the width guard. The fair path wraps analysis errors as Büchi errors.
pub open spec fn multi_error_ok<S: View>(
    model: TransitionSystem<S>,
    property: MultiResponseProperty,
    fair: bool,
    bounded: bool,
    e: MultiResponseError,
) -> bool {
    let k = property.clause_list().len();
    let analysis = |g: GraphCaptureError|
        g is Model || (g is UnexpectedInconclusive && (crate::graph::capture_saturates(model) || (!bounded
            && crate::product::product_saturates::<S, Vec<bool>>(model, initial_pending(k)))));
    match e {
        MultiResponseError::FairnessAdapterInvariant => step_breaks_width(model, k),
        MultiResponseError::Graph(RecurrenceError::Graph(g)) => !fair && analysis(g),
        MultiResponseError::Buchi(BuchiError::Graph(RecurrenceError::Graph(g))) => fair && analysis(g),
        _ => false,
    }
}

fn widths_agree<S: View>(states: &Vec<BuchiProductState<S, Vec<bool>>>, k: usize) -> (ok: bool)
    ensures
        ok == pending_widths(states@, k as nat),
{
    let mut i: usize = 0;
    while i < states.len()
        invariant
            i <= states@.len(),
            forall|j: int| 0 <= j < i ==> (#[trigger] states@[j]).automaton@.len() == k,
        decreases states.len() - i,
    {
        if states[i].automaton.len() != k {
            return false;
        }
        i += 1;
    }
    true
}

fn settled_rows<S: View>(states: &Vec<BuchiProductState<S, Vec<bool>>>, k: usize) -> (t: Vec<Vec<bool>>)
    requires
        pending_widths(states@, k as nat),
    ensures
        settled_table(t@, states@, k as nat),
{
    let mut t: Vec<Vec<bool>> = Vec::new();
    let mut s: usize = 0;
    while s < k
        invariant
            pending_widths(states@, k as nat),
            s <= k,
            t@.len() == s,
            forall|x: int| 0 <= x < s ==> (#[trigger] t@[x])@.len() == states@.len(),
            forall|x: int, i: int|
                0 <= x < s && 0 <= i < states@.len() ==> (#[trigger] t@[x]@[i]) == !states@[i].automaton@[x],
        decreases k - s,
    {
        let mut row: Vec<bool> = Vec::new();
        let mut i: usize = 0;
        while i < states.len()
            invariant
                pending_widths(states@, k as nat),
                s < k,
                i <= states@.len(),
                row@.len() == i,
                forall|j: int| 0 <= j < i ==> row@[j] == !states@[j].automaton@[s as int],
            decreases states.len() - i,
        {
            assert(states@[i as int].automaton@.len() == k);
            row.push(!states[i].automaton[s]);
            i += 1;
        }
        t.push(row);
        s += 1;
    }
    t
}

/// An obligation trace agrees step by step with a product trace.
pub open spec fn as_obligation_steps<S: View>(
    mt: Seq<TraceStep<MultiObligationState<S>>>,
    bt: Seq<TraceStep<BuchiProductState<S, Vec<bool>>>>,
) -> bool {
    &&& mt.len() == bt.len()
    &&& forall|k: int| 0 <= k < mt.len() ==> (#[trigger] mt[k]).action == bt[k].action && mt[k].state@ == bt[k].state@
}

fn to_obligation_trace<S: StateValue>(bt: &Vec<TraceStep<BuchiProductState<S, Vec<bool>>>>) -> (mt: Vec<
    TraceStep<MultiObligationState<S>>,
>)
    ensures
        as_obligation_steps(mt@, bt@),
{
    let mut mt: Vec<TraceStep<MultiObligationState<S>>> = Vec::new();
    let mut k: usize = 0;
    while k < bt.len()
        invariant
            k <= bt@.len(),
            mt@.len() == k,
            forall|j: int| 0 <= j < k ==> (#[trigger] mt@[j]).action == bt@[j].action && mt@[j].state@ == bt@[j].state@,
        decreases bt.len() - k,
    {
        let step = &bt[k];
        let action = match &step.action {
            Some(a) => Some(a.clone()),
            None => None,
        };
        mt.push(
            TraceStep {
                action,
                state: MultiObligationState {
                    state: step.state.state.copy_value(),
                    pending: step.state.automaton.copy_value(),
                },
            },
        );
        k += 1;
    }
    mt
}

/// The counterexample, if any, is what the check promises: a known
/// terminal with a pending clause (the first such state, then its first
/// pending clause) reached by a shortest trace; else a stem plus a closed
/// walk, weakly fair for `actions` according to `e`, along which one
/// clause stays pending. `None` means no pending terminal exists and, for
/// every clause, no cyclic component of the states where it is pending
/// admits a weakly fair walk.
pub open spec fn multi_counterexample_ok<S: View>(
    e: ReachableGraph<BuchiProductState<S, Vec<bool>>>,
    g: ReachableGraph<BuchiProductState<S, Vec<bool>>>,
    known_terminal: Seq<bool>,
    member: Seq<Vec<bool>>,
    names: Seq<Seq<char>>,
    actions: Seq<String>,
    cx: Option<MultiResponseCounterexample<S>>,
) -> bool {
    match cx {
        None => violation_ok(e, g, known_terminal, member, true, actions, Ok(None)),
        Some(MultiResponseCounterexample::Finite { clause, trace }) => exists|
            set: usize,
            node: usize,
            bv: Vec<TraceStep<BuchiProductState<S, Vec<bool>>>>,
        |
            set < names.len() && clause@ == names[set as int] && as_obligation_steps(trace@, bv@) && #[trigger] violation_ok(
                e,
                g,
                known_terminal,
                member,
                true,
                actions,
                Ok(Some(Violation::Terminal { set, node, trace: bv })),
            ),
        Some(MultiResponseCounterexample::Infinite { clause, stem, cycle }) => exists|
            set: usize,
            entry: usize,
            sv: Vec<TraceStep<BuchiProductState<S, Vec<bool>>>>,
            cv: Vec<TraceStep<BuchiProductState<S, Vec<bool>>>>,
        |
            set < names.len() && clause@ == names[set as int] && as_obligation_steps(stem@, sv@) && as_obligation_steps(
                cycle@,
                cv@,
            ) && #[trigger] violation_ok(
                e,
                g,
                known_terminal,
                member,
                true,
                actions,
                Ok(Some(Violation::Lasso { set, entry, stem: sv, cycle: cv })),
            ),
    }
}

/// Search the product `g` (enablement graph `e`) for a violated clause:
/// pending terminals first, then pending cycles that are weakly fair for
/// `fairness`. With no fair action, each clause contributes only the first
/// cyclic component of its pending states. Also hands back the settled
/// table it evaluated.
fn multi_search<S: StateValue>(
    e: &ReachableGraph<BuchiProductState<S, Vec<bool>>>,
    g: &ReachableGraph<BuchiProductState<S, Vec<bool>>>,
    known_terminal: &[bool],
    property: &MultiResponseProperty,
    fairness: &WeakFairness,
) -> (r: (Result<Option<MultiResponseCounterexample<S>>, MultiResponseError>, Ghost<Seq<Vec<bool>>>))
    requires
        g.wf(),
        e.wf(),
        e.states.len() == g.states.len(),
        known_terminal@.len() == g.states.len(),
    ensures
        r.0 matches Ok(cx) ==> settled_table(r.1@, g.states@, property.clause_list().len()) && multi_counterexample_ok(
            *e,
            *g,
            known_terminal@,
            r.1@,
            clause_names(property.clause_list()),
            fairness.action_list(),
            cx,
        ),
        r.0 matches Err(MultiResponseError::FairnessAdapterInvariant) ==> !pending_widths(
            g.states@,
            property.clause_list().len(),
        ),
        r.0 matches Err(x) ==> x == MultiResponseError::FairnessAdapterInvariant || exists|i: int|
            0 <= i < g.states.len() && !crate::graph::reachable_from(
                *g,
                g.initial_ids@,
                i,
                crate::graph::everything(g.states.len() as nat),
            ),
{
    let k = property.clauses.len();
    let fair = !fairness.is_empty();
    if !widths_agree(&g.states, k) {
        return (Err(MultiResponseError::FairnessAdapterInvariant), Ghost(Seq::empty()));
    }
    let member = settled_rows(&g.states, k);
    let ghost names = clause_names(property.clause_list());
    let ghost actions = fairness.action_list();
    let terminal = find_terminal_violation(g, known_terminal, &member);
    match terminal {
        Err(err) => {
            proof {
                assert(violation_ok(*e, *g, known_terminal@, member@, true, Seq::empty(), terminal));
            }
            let mapped = if fair {
                MultiResponseError::Buchi(err)
            } else {
                MultiResponseError::MissingFiniteWitness
            };
            return (Err(mapped), Ghost(member@));
        },
        Ok(Some(Violation::Terminal { set, node, trace })) => {
            proof {
                assert(violation_ok(*e, *g, known_terminal@, member@, true, Seq::empty(), terminal));
            }
            let mt = to_obligation_trace(&trace);
            let cx = Some(MultiResponseCounterexample::Finite { clause: owned(property.clauses[set].name()), trace: mt });
            proof {
                assert(violation_ok(*e, *g, known_terminal@, member@, true, actions, Ok(Some(Violation::Terminal { set, node, trace }))));
                assert(names[set as int] == property.clause_list()[set as int].name_text());
            }
            return (Ok(cx), Ghost(member@));
        },
        Ok(Some(Violation::Lasso { .. })) => {
            proof {
                assert(false);
            }
            return (Err(MultiResponseError::MissingFiniteWitness), Ghost(member@));
        },
        Ok(None) => {},
    }
    let cycles = find_fair_counterexample(e, g, known_terminal, &member, false, fairness, !fair);
    match cycles {
        Err(err) => {
            let mapped = if fair {
                MultiResponseError::Buchi(err)
            } else {
                match err {
                    BuchiError::Graph(x) => MultiResponseError::Graph(x),
                    _ => MultiResponseError::MissingCycleWitness,
                }
            };
            (Err(mapped), Ghost(member@))
        },
        Ok(None) => {
            proof {
                assert(violation_ok(*e, *g, known_terminal@, member@, false, actions, cycles));
                assert(violation_ok(*e, *g, known_terminal@, member@, true, actions, Ok(None)));
            }
            (Ok(None), Ghost(member@))
        },
        Ok(Some(Violation::Lasso { set, entry, stem, cycle })) => {
            let ms = to_obligation_trace(&stem);
            let mc = to_obligation_trace(&cycle);
            let cx = Some(
                MultiResponseCounterexample::Infinite { clause: owned(property.clauses[set].name()), stem: ms, cycle: mc },
            );
            proof {
                assert(violation_ok(*e, *g, known_terminal@, member@, false, actions, cycles));
                assert(violation_ok(*e, *g, known_terminal@, member@, true, actions, Ok(Some(Violation::Lasso { set, entry, stem, cycle }))));
                assert(names[set as int] == property.clause_list()[set as int].name_text());
            }
            (Ok(cx), Ghost(member@))
        },
        Ok(Some(Violation::Terminal { .. })) => {
            proof {
                assert(violation_ok(*e, *g, known_terminal@, member@, false, actions, cycles));
            }
            proof {
                assert(false);
            }
            (Err(MultiResponseError::MissingCycleWitness), Ghost(member@))
        },
    }
}

/// A fresh handle on every clause, sharing the caller's closures.
fn share_clauses(clauses: &Vec<ResponseClause>) -> (out: Vec<ResponseClause>)
    ensures
        out@.len() == clauses@.len(),
{
    let mut out: Vec<ResponseClause> = Vec::new();
    let mut i: usize = 0;
    while i < clauses.len()
        invariant
            i <= clauses@.len(),
            out@.len() == i,
        decreases clauses.len() - i,
    {
        out.push(clauses[i].share());
        i += 1;
    }
    out
}

/// An analysis error, wrapped as the fair path (through generalized Büchi
/// acceptance) or the plain path reports it.
fn analysis_error(fair: bool, e: RecurrenceError) -> (m: MultiResponseError)
    ensures
        m == if fair {
            MultiResponseError::Buchi(BuchiError::Graph(e))
        } else {
            MultiResponseError::Graph(e)
        },
{
    if fair {
        MultiResponseError::Buchi(BuchiError::Graph(e))
    } else {
        MultiResponseError::Graph(e)
    }
}

/// `res` reports the multi-response check of `model` under weak fairness
/// for `actions`: `c` is the captured model graph, `p` the complete product
/// with the pending-bit automaton (no clause pending at first), `e` the
/// model's action enablement on product states, and `member` the settled
/// table of the product states.
pub open spec fn multi_report_ok<S: View>(
    model: TransitionSystem<S>,
    property: MultiResponseProperty,
    actions: Seq<String>,
    c: ReachableGraph<S>,
    p: BoundedActionProduct<S, Vec<bool>>,
    e: ReachableGraph<BuchiProductState<S, Vec<bool>>>,
    member: Seq<Vec<bool>>,
    res: MultiResponseResult<S>,
) -> bool {
    let k = property.clause_list().len();
    &&& c.wf() && distinct_states(c) && roots_of_initial(c, model.initial())
    &&& product_wf(c, terminal_marks(c), initial_pending(k), p)
    &&& product_complete(p)
    &&& enablement_of(c, p, e)
    &&& settled_table(member, p.graph.states@, k)
    &&& res.property@ == property.name_text()
    &&& res.model_states == c.states.len()
    &&& res.product_states == p.graph.states.len()
    &&& res.product_transitions == if edge_total(p.graph.outgoing@) <= usize::MAX {
        edge_total(p.graph.outgoing@)
    } else {
        usize::MAX as int
    }
    &&& res.clause_count == k
    &&& (res.status == MultiResponseStatus::Violated <==> res.counterexample is Some)
    &&& multi_counterexample_ok(
        e,
        p.graph,
        p.known_terminal@,
        member,
        clause_names(property.clause_list()),
        actions,
        res.counterexample,
    )
}

/// Verify the conjunction of response clauses over executions that are
/// weakly fair for `fairness`.
///
/// Each clause keeps its own pending bit, and its infinite failure is
/// judged over the states where its own bit stays pending, so a cycle in
/// which different clauses alternate being pending is no violation. A
/// finite terminal with a pending clause is always a violation. With no
/// fair action this is exactly `check_multi_response`.
pub fn check_multi_response_with_weak_fairness<S: StateValue>(
    model: &TransitionSystem<S>,
    property: &MultiResponseProperty,
    fairness: &WeakFairness,
) -> (r: Result<MultiResponseResult<S>, MultiResponseError>)
    ensures
        r matches Ok(res) ==> exists|
            c: ReachableGraph<S>,
            p: BoundedActionProduct<S, Vec<bool>>,
            e: ReachableGraph<BuchiProductState<S, Vec<bool>>>,
            member: Seq<Vec<bool>>,
        | #[trigger] multi_report_ok(*model, *property, fairness.action_list(), c, p, e, member, res),
        r matches Err(e) ==> multi_error_ok(*model, *property, fairness.action_list().len() > 0, false, e),
{
    let fair = !fairness.is_empty();
    let captured = match capture_reachable_graph(model) {
        Ok(c) => c,
        Err(e) => {
            return Err(analysis_error(fair, RecurrenceError::Graph(e)));
        },
    };
    let k = property.clauses.len();
    let initial = no_pending(k);
    let step = pending_step(share_clauses(&property.clauses));
    let product = build_action_product(&captured.graph, &initial, &step);
    if product.completion.inconclusive_reason().is_some() {
        proof {
            assert(product_wf(captured.graph, terminal_marks(captured.graph), initial_pending(k as nat), product));
        }
        return Err(analysis_error(fair, RecurrenceError::Graph(GraphCaptureError::UnexpectedInconclusive)));
    }
    let enablement = model_enablement(&captured.graph, &product);
    let product_transitions = count_edges(&product.graph.outgoing);
    let (found, Ghost(member)) = multi_search(
        &enablement,
        &product.graph,
        product.known_terminal.as_slice(),
        property,
        fairness,
    );
    let counterexample = match found {
        Ok(cx) => cx,
        Err(e) => {
            proof {
                if e != MultiResponseError::FairnessAdapterInvariant {
                    let i = choose|i: int|
                        0 <= i < product.graph.states.len() && !crate::graph::reachable_from(
                            product.graph,
                            product.graph.initial_ids@,
                            i,
                            crate::graph::everything(product.graph.states.len() as nat),
                        );
                    assert(crate::graph::reachable_from(
                        product.graph,
                        product.graph.initial_ids@,
                        i,
                        crate::graph::everything(product.graph.states@.len()),
                    ));
                    assert(false);
                }
                assert(product_wf(captured.graph, terminal_marks(captured.graph), initial_pending(k as nat), product));
            }
            return Err(e);
        },
    };
    let status = if counterexample.is_some() {
        MultiResponseStatus::Violated
    } else {
        MultiResponseStatus::Satisfied
    };
    let res = MultiResponseResult {
        property: owned(property.name()),
        status,
        model_states: captured.discovered_states,
        model_transitions: captured.explored_transitions,
        product_states: product.graph.states.len(),
        product_transitions,
        clause_count: k,
        counterexample,
    };
    proof {
        assert(multi_report_ok(*model, *property, fairness.action_list(), captured.graph, product, enablement, member, res));
    }
    Ok(res)
}

/// Verify a conjunction of action-response clauses over every maximal
/// execution, with no fairness assumption.
///
/// The model is captured once; the product pairs each model state with one
/// pending bit per clause. On every action each clause updates on its own:
/// a response clears its bit, otherwise a trigger sets it. A terminal with
/// a pending clause violates the first such clause; otherwise, for each
/// clause, the first cyclic component of the states where it is pending
/// yields a candidate, and the one with the shortest stem, then the first
/// clause, then the first entry state, is reported.
pub fn check_multi_response<S: StateValue>(model: &TransitionSystem<S>, property: &MultiResponseProperty) -> (r: Result<
    MultiResponseResult<S>,
    MultiResponseError,
>)
    ensures
        r matches Ok(res) ==> exists|
            c: ReachableGraph<S>,
            p: BoundedActionProduct<S, Vec<bool>>,
            e: ReachableGraph<BuchiProductState<S, Vec<bool>>>,
            member: Seq<Vec<bool>>,
        | #[trigger] multi_report_ok(*model, *property, Seq::empty(), c, p, e, member, res),
        r matches Err(e) ==> multi_error_ok(*model, *property, false, false, e),
{
    let none = WeakFairness::none();
    assert(none.action_list() =~= Seq::<String>::empty());
    check_multi_response_with_weak_fairness(model, property, &none)
}

/// `res` reports the product-bounded weak-fair multi-response check: `c`
/// is the complete model graph, `p` the retained product prefix under
/// `limits`, `e` the model's enablement on product states and `member` the
/// settled table. A witness among the retained states is conclusive;
/// otherwise the outcome is `Satisfied` only when the product is complete,
/// and names the limit that stopped it otherwise.
pub open spec fn bounded_multi_report_ok<S: View>(
    model: TransitionSystem<S>,
    property: MultiResponseProperty,
    actions: Seq<String>,
    limits: ExplorationLimits,
    c: ReachableGraph<S>,
    p: BoundedActionProduct<S, Vec<bool>>,
    e: ReachableGraph<BuchiProductState<S, Vec<bool>>>,
    member: Seq<Vec<bool>>,
    res: BoundedMultiResponseResult<S>,
) -> bool {
    let k = property.clause_list().len();
    &&& c.wf() && distinct_states(c) && roots_of_initial(c, model.initial())
    &&& product_wf(c, terminal_marks(c), initial_pending(k), p)
    &&& enablement_of(c, p, e)
    &&& p.completion is Conclusive ==> crate::product::roots_covered(c.initial_ids@, p.model_ids@, p.graph.initial_ids@)
    &&& limits.max_states matches Some(l) ==> p.graph.states.len() <= l
    &&& settled_table(member, p.graph.states@, k)
    &&& res.property@ == property.name_text()
    &&& res.model_states == c.states.len()
    &&& res.product_states == p.graph.states.len()
    &&& res.checked_product_states == p.checked_states
    &&& res.explored_product_transitions == p.explored_transitions
    &&& res.max_product_depth_reached == p.max_depth_reached
    &&& res.retained_product_transitions == if edge_total(p.graph.outgoing@) <= usize::MAX {
        edge_total(p.graph.outgoing@)
    } else {
        usize::MAX as int
    }
    &&& res.clause_count == k
    &&& multi_counterexample_ok(
        e,
        p.graph,
        p.known_terminal@,
        member,
        clause_names(property.clause_list()),
        actions,
        res.counterexample,
    )
    &&& res.outcome == if res.counterexample is Some {
        BoundedOutcome::Conclusive(MultiResponseStatus::Violated)
    } else {
        match p.completion {
            BoundedOutcome::Conclusive(_) => BoundedOutcome::Conclusive(MultiResponseStatus::Satisfied),
            BoundedOutcome::Inconclusive(reason) => BoundedOutcome::Inconclusive(reason),
        }
    }
    &&& p.completion matches BoundedOutcome::Inconclusive(reason) ==> match reason {
        crate::checker::InconclusiveReason::StateLimitReached { limit } => limits.max_states == Some(limit)
            && p.graph.states.len() == limit,
        crate::checker::InconclusiveReason::TransitionLimitReached { limit } => p.explored_transitions == limit
            && (limits.max_transitions == Some(limit) || (limits.max_transitions is None && limit == usize::MAX)),
        crate::checker::InconclusiveReason::DepthLimitReached { limit } => limits.max_depth == Some(limit),
    }
}

/// Product-bounded weak-fair multi-response verification after complete
/// model capture.
///
/// A pending terminal or weakly fair pending cycle contained in the retained
/// prefix proves `Violated` even if the product build later reaches a
/// limit. Without such a witness, `Satisfied` is returned only when the
/// product is complete; otherwise the cutoff is reported as inconclusive.
pub fn check_multi_response_with_weak_fairness_and_product_limits<S: StateValue>(
    model: &TransitionSystem<S>,
    property: &MultiResponseProperty,
    fairness: &WeakFairness,
    limits: ExplorationLimits,
) -> (r: Result<BoundedMultiResponseResult<S>, MultiResponseError>)
    ensures
        r matches Ok(res) ==> exists|
            c: ReachableGraph<S>,
            p: BoundedActionProduct<S, Vec<bool>>,
            e: ReachableGraph<BuchiProductState<S, Vec<bool>>>,
            member: Seq<Vec<bool>>,
        | #[trigger] bounded_multi_report_ok(*model, *property, fairness.action_list(), limits, c, p, e, member, res),
        r matches Err(e) ==> multi_error_ok(*model, *property, fairness.action_list().len() > 0, true, e),
{
    let fair = !fairness.is_empty();
    let captured = match capture_reachable_graph(model) {
        Ok(c) => c,
        Err(e) => {
            return Err(analysis_error(fair, RecurrenceError::Graph(e)));
        },
    };
    let k = property.clauses.len();
    let initial = no_pending(k);
    let step = pending_step(share_clauses(&property.clauses));
    let product = build_action_product_with_limits(&captured.graph, &initial, &step, limits);
    let enablement = model_enablement(&captured.graph, &product);
    let (found, Ghost(member)) = multi_search(
        &enablement,
        &product.graph,
        product.known_terminal.as_slice(),
        property,
        fairness,
    );
    let counterexample = match found {
        Ok(cx) => cx,
        Err(e) => {
            proof {
                if e != MultiResponseError::FairnessAdapterInvariant {
                    let i = choose|i: int|
                        0 <= i < product.graph.states.len() && !crate::graph::reachable_from(
                            product.graph,
                            product.graph.initial_ids@,
                            i,
                            crate::graph::everything(product.graph.states.len() as nat),
                        );
                    assert(crate::graph::reachable_from(
                        product.graph,
                        product.graph.initial_ids@,
                        i,
                        crate::graph::everything(product.graph.states@.len()),
                    ));
                    assert(false);
                }
                assert(product_wf(captured.graph, terminal_marks(captured.graph), initial_pending(k as nat), product));
            }
            return Err(e);
        },
    };
    let retained = count_edges(&product.graph.outgoing);
    let outcome = if counterexample.is_some() {
        BoundedOutcome::Conclusive(MultiResponseStatus::Violated)
    } else {
        match product.completion {
            BoundedOutcome::Conclusive(()) => BoundedOutcome::Conclusive(MultiResponseStatus::Satisfied),
            BoundedOutcome::Inconclusive(reason) => BoundedOutcome::Inconclusive(reason),
        }
    };
    let res = BoundedMultiResponseResult {
        property: owned(property.name()),
        outcome,
        model_states: captured.discovered_states,
        model_transitions: captured.explored_transitions,
        product_states: product.graph.states.len(),
        checked_product_states: product.checked_states,
        explored_product_transitions: product.explored_transitions,
        retained_product_transitions: retained,
        max_product_depth_reached: product.max_depth_reached,
        clause_count: k,
        counterexample,
    };
    proof {
        assert(bounded_multi_report_ok(
            *model,
            *property,
            fairness.action_list(),
            limits,
            captured.graph,
            product,
            enablement,
            member,
            res,
        ));
    }
    Ok(res)
}

/// Product-bounded multi-response verification with no fairness assumption.
pub fn check_multi_response_with_product_limits<S: StateValue>(
    model: &TransitionSystem<S>,
    property: &MultiResponseProperty,
    limits: ExplorationLimits,
) -> (r: Result<BoundedMultiResponseResult<S>, MultiResponseError>)
    ensures
        r matches Ok(res) ==> exists|
            c: ReachableGraph<S>,
            p: BoundedActionProduct<S, Vec<bool>>,
            e: ReachableGraph<BuchiProductState<S, Vec<bool>>>,
            member: Seq<Vec<bool>>,
        | #[trigger] bounded_multi_report_ok(*model, *property, Seq::empty(), limits, c, p, e, member, res),
        r matches Err(e) ==> multi_error_ok(*model, *property, false, true, e),
{
    let none = WeakFairness::none();
    assert(none.action_list() =~= Seq::<String>::empty());
    check_multi_response_with_weak_fairness_and_product_limits(model, property, &none, limits)
}

} // verus!
