//! Finite-state transition systems: named variables, initial states, a
//! caller-supplied transition relation and named safety invariants.
use crate::state::{views_of, StateValue};
use crate::text::{
    all_space, append, append_usize, decimal, is_blank, is_space, lemma_trim_empty, lemma_trim_start_suffix,
    owned, same_text, trim, trim_end, trim_start, trimmed,
};
use std::sync::Arc;
use vstd::prelude::*;

verus! {

/// Metadata describing one logical state variable in a finite-state model.
#[derive(Debug, Clone, PartialEq, Eq)]
pub struct StateVariable {
    pub name: String,
    pub description: String,
}

impl StateVariable {
    /// A field-by-field copy.
    pub fn copy(&self) -> (v: Self)
        ensures
            v == *self,
    {
        StateVariable { name: self.name.clone(), description: self.description.clone() }
    }

    pub fn new(name: &str, description: &str) -> (v: Self)
        ensures
            v.name@ == name@,
            v.description@ == description@,
    {
        StateVariable { name: owned(name), description: owned(description) }
    }
}

/// The caller's state-predicate closure, held behind a shared pointer so
/// that models and invariants can be cloned cheaply.
#[verifier::external_body]
#[verifier::reject_recursive_types(S)]
pub struct PredicateClosure<S> {
    predicate: Arc<dyn Fn(&S) -> bool + Send + Sync>,
}

impl<S> PredicateClosure<S> {
    /// Boxes the closure with `Arc::new`; nothing is claimed of the closure.
    #[verifier::external_body]
    pub(crate) fn from_fn<F: Fn(&S) -> bool + Send + Sync + 'static>(predicate: F) -> Self {
        PredicateClosure { predicate: Arc::new(predicate) }
    }

    /// Shares the same closure (`Arc::clone`).
    #[verifier::external_body]
    pub(crate) fn share(&self) -> Self {
        PredicateClosure { predicate: Arc::clone(&self.predicate) }
    }
}

/// A caller-supplied state predicate: the closure, and the answers it may
/// give, as its own contract (`call_requires` / `call_ensures`) states them.
///
/// Only `from_fn` and `share` build one, so the recorded answers are always
/// those of the closure held.
#[verifier::reject_recursive_types(S)]
pub struct StatePredicate<S> {
    closure: PredicateClosure<S>,
    answers: Ghost<spec_fn(S, bool) -> bool>,
}

/// `b` is an answer `f` may give on `s`: when `f` may be called on `s`, its
/// contract admits `b`.
pub open spec fn closure_answer<S, F: Fn(&S) -> bool>(f: F, s: S, b: bool) -> bool {
    call_requires(f, (&s,)) ==> call_ensures(f, (&s,), b)
}

impl<S> StatePredicate<S> {
    /// `b` is an answer the predicate may give on `s`.
    pub closed spec fn may_answer(&self, s: S, b: bool) -> bool {
        (self.answers@)(s, b)
    }

    pub(crate) fn from_fn<F: Fn(&S) -> bool + Send + Sync + 'static>(predicate: F) -> (p: Self)
        ensures
            forall|s: S, b: bool| #[trigger] p.may_answer(s, b) == closure_answer(predicate, s, b),
    {
        let ghost answers = |s: S, b: bool| closure_answer(predicate, s, b);
        StatePredicate { closure: PredicateClosure::from_fn(predicate), answers: Ghost(answers) }
    }

    /// Calls the caller's closure on `state`. What it answers is the
    /// caller's code; the contract claims only that the answer is one the
    /// closure's own contract admits, which holds of the closure that
    /// `from_fn` stored.
    #[verifier::external_body]
    pub(crate) fn evaluate(&self, state: &S) -> (r: bool)
        ensures
            self.may_answer(*state, r),
    {
        (self.closure.predicate)(state)
    }

    /// Shares the same closure.
    pub(crate) fn share(&self) -> (p: Self)
        ensures
            forall|s: S, b: bool| #[trigger] p.may_answer(s, b) == self.may_answer(s, b),
    {
        StatePredicate { closure: self.closure.share(), answers: Ghost(self.answers@) }
    }
}

/// A named safety invariant checked in every reachable state.
#[verifier::reject_recursive_types(S)]
pub struct Invariant<S> {
    name: String,
    predicate: StatePredicate<S>,
}

impl<S> Invariant<S> {
    pub closed spec fn name_text(&self) -> Seq<char> {
        self.name@
    }

    /// `b` is an answer the invariant's predicate may give on `s`.
    pub closed spec fn may_answer(&self, s: S, b: bool) -> bool {
        self.predicate.may_answer(s, b)
    }

    pub fn new<F: Fn(&S) -> bool + Send + Sync + 'static>(name: &str, predicate: F) -> (inv: Self)
        ensures
            inv.name_text() == name@,
            forall|s: S, b: bool| #[trigger] inv.may_answer(s, b) == closure_answer(predicate, s, b),
    {
        Invariant { name: owned(name), predicate: StatePredicate::from_fn(predicate) }
    }

    pub fn name(&self) -> (name: &str)
        ensures
            name@ == self.name_text(),
    {
        self.name.as_str()
    }

    /// Evaluates the caller's predicate on `state`.
    pub fn holds(&self, state: &S) -> (r: bool)
        ensures
            self.may_answer(*state, r),
    {
        self.predicate.evaluate(state)
    }

    /// Another handle on the same invariant.
    pub fn duplicate(&self) -> (inv: Self)
        ensures
            inv.name_text() == self.name_text(),
            forall|s: S, b: bool| #[trigger] inv.may_answer(s, b) == self.may_answer(s, b),
    {
        Invariant { name: self.name.clone(), predicate: self.predicate.share() }
    }
}

/// One labeled edge in the transition relation.
#[derive(Debug, Clone, PartialEq, Eq)]
pub struct Transition<S> {
    pub action: String,
    pub next: S,
}

impl<S> Transition<S> {
    pub fn new(action: &str, next: S) -> (t: Self)
        ensures
            t.action@ == action@,
            t.next == next,
    {
        Transition { action: owned(action), next }
    }
}

/// Validation or transition-generation error for a model.
#[derive(Debug, Clone, PartialEq, Eq)]
pub enum ModelError {
    EmptyModelName,
    NoStateVariables,
    EmptyStateVariableName { index: usize },
    DuplicateStateVariable { name: String },
    NoInitialStates,
    NoInvariants,
    EmptyInvariantName { index: usize },
    DuplicateInvariant { name: String },
    EmptyTransitionAction,
    TransitionGeneration { message: String },
}

/// The human-readable description of a model error.
pub open spec fn model_error_text(e: ModelError) -> Seq<char> {
    match e {
        ModelError::EmptyModelName => "model name must not be empty"@,
        ModelError::NoStateVariables => "model must declare at least one state variable"@,
        ModelError::EmptyStateVariableName { index } => "state variable at index "@ + decimal(index as nat)
            + " has an empty name"@,
        ModelError::DuplicateStateVariable { name } => "duplicate state variable name: "@ + name@,
        ModelError::NoInitialStates => "model must contain at least one initial state"@,
        ModelError::NoInvariants => "model must contain at least one safety invariant"@,
        ModelError::EmptyInvariantName { index } => "invariant at index "@ + decimal(index as nat)
            + " has an empty name"@,
        ModelError::DuplicateInvariant { name } => "duplicate invariant name: "@ + name@,
        ModelError::EmptyTransitionAction => "transition action labels must not be empty"@,
        ModelError::TransitionGeneration { message } => "transition generation failed: "@ + message@,
    }
}

impl ModelError {
    /// The human-readable description of the error.
    pub fn message(&self) -> (text: String)
        ensures
            text@ == model_error_text(*self),
    {
        let mut out = String::new();
        match self {
            ModelError::EmptyModelName => append(&mut out, "model name must not be empty"),
            ModelError::NoStateVariables => append(
                &mut out,
                "model must declare at least one state variable",
            ),
            ModelError::EmptyStateVariableName { index } => {
                append(&mut out, "state variable at index ");
                append_usize(&mut out, *index);
                append(&mut out, " has an empty name");
            },
            ModelError::DuplicateStateVariable { name } => {
                append(&mut out, "duplicate state variable name: ");
                append(&mut out, name.as_str());
            },
            ModelError::NoInitialStates => append(
                &mut out,
                "model must contain at least one initial state",
            ),
            ModelError::NoInvariants => append(
                &mut out,
                "model must contain at least one safety invariant",
            ),
            ModelError::EmptyInvariantName { index } => {
                append(&mut out, "invariant at index ");
                append_usize(&mut out, *index);
                append(&mut out, " has an empty name");
            },
            ModelError::DuplicateInvariant { name } => {
                append(&mut out, "duplicate invariant name: ");
                append(&mut out, name.as_str());
            },
            ModelError::EmptyTransitionAction => append(
                &mut out,
                "transition action labels must not be empty",
            ),
            ModelError::TransitionGeneration { message } => {
                append(&mut out, "transition generation failed: ");
                append(&mut out, message.as_str());
            },
        }
        assert(out@ =~= model_error_text(*self));
        out
    }
}

/// The caller-supplied transition relation of a model.
#[verifier::external_body]
#[verifier::reject_recursive_types(S)]
pub struct TransitionRelation<S> {
    relation: Arc<dyn Fn(&S) -> Result<Vec<Transition<S>>, ModelError> + Send + Sync>,
}

impl<S> TransitionRelation<S> {
    /// Boxes the closure with `Arc::new`; nothing is claimed of the closure.
    #[verifier::external_body]
    pub(crate) fn from_fn<F: Fn(&S) -> Result<Vec<Transition<S>>, ModelError> + Send + Sync + 'static>(
        relation: F,
    ) -> Self {
        TransitionRelation { relation: Arc::new(relation) }
    }

    /// Calls the caller's closure. Its result is the caller's code, so no
    /// clause states it: every search is verified for every result.
    #[verifier::external_body]
    pub(crate) fn successors_of(&self, state: &S) -> Result<Vec<Transition<S>>, ModelError> {
        (self.relation)(state)
    }

    /// Shares the same closure (`Arc::clone`).
    #[verifier::external_body]
    pub(crate) fn share(&self) -> Self {
        TransitionRelation { relation: Arc::clone(&self.relation) }
    }
}

/// Some transition of `ts` has a blank action label.
pub open spec fn has_blank_action<S>(ts: Seq<Transition<S>>) -> bool {
    exists|i: int| 0 <= i < ts.len() && trim((#[trigger] ts[i]).action@).len() == 0
}

/// A relation's successor list, refused when an action label is blank and
/// otherwise returned unchanged.
pub fn checked_transitions<S>(ts: Vec<Transition<S>>) -> (r: Result<Vec<Transition<S>>, ModelError>)
    ensures
        r == if has_blank_action(ts@) {
            Err::<Vec<Transition<S>>, ModelError>(ModelError::EmptyTransitionAction)
        } else {
            Ok::<Vec<Transition<S>>, ModelError>(ts)
        },
{
    let mut i: usize = 0;
    while i < ts.len()
        invariant
            i <= ts.len(),
            forall|j: int| 0 <= j < i ==> trim(#[trigger] ts@[j].action@).len() > 0,
        decreases ts.len() - i,
    {
        if is_blank(ts[i].action.as_str()) {
            return Err(ModelError::EmptyTransitionAction);
        }
        i += 1;
    }
    Ok(ts)
}

/// Index of the first name that is blank or repeats an earlier name, both
/// compared after trimming.
pub open spec fn first_bad_name(names: Seq<Seq<char>>) -> Option<int>
    decreases names.len(),
{
    if names.len() == 0 {
        None
    } else {
        match first_bad_name(names.drop_last()) {
            Some(i) => Some(i),
            None => {
                let j = names.len() - 1;
                if trim(names[j]).len() == 0 || exists|i: int|
                    0 <= i < j && trim(#[trigger] names[i]) == trim(names[j]) {
                    Some(j)
                } else {
                    None
                }
            },
        }
    }
}

/// The character views of a sequence of strings.
pub open spec fn text_views(v: Seq<String>) -> Seq<Seq<char>> {
    v.map_values(|s: String| s@)
}

pub open spec fn variable_names(vars: Seq<StateVariable>) -> Seq<Seq<char>> {
    vars.map_values(|v: StateVariable| v.name@)
}

pub open spec fn invariant_names<S>(invs: Seq<Invariant<S>>) -> Seq<Seq<char>> {
    invs.map_values(|v: Invariant<S>| v.name_text())
}

/// The error that model validation reports for `names` at the first bad
/// index `j`: an empty-name error when the trimmed name is empty, else a
/// duplicate-name error carrying the trimmed name.
pub open spec fn name_error_at(
    e: ModelError,
    names: Seq<Seq<char>>,
    j: int,
    for_variables: bool,
) -> bool {
    if trim(names[j]).len() == 0 {
        if for_variables {
            e == ModelError::EmptyStateVariableName { index: j as usize }
        } else {
            e == ModelError::EmptyInvariantName { index: j as usize }
        }
    } else if for_variables {
        e matches ModelError::DuplicateStateVariable { name } && name@ == trim(names[j])
    } else {
        e matches ModelError::DuplicateInvariant { name } && name@ == trim(names[j])
    }
}

/// Model metadata is valid: a non-blank name, at least one variable, one
/// initial state and one invariant, and variable and invariant names that
/// are non-blank and distinct once trimmed.
pub open spec fn metadata_valid(
    name: Seq<char>,
    vars: Seq<Seq<char>>,
    initial_count: nat,
    invs: Seq<Seq<char>>,
) -> bool {
    &&& trim(name).len() > 0
    &&& vars.len() > 0
    &&& initial_count > 0
    &&& invs.len() > 0
    &&& first_bad_name(vars) is None
    &&& first_bad_name(invs) is None
}

/// `e` is the error that validation reports first for this metadata.
pub open spec fn metadata_error(
    e: ModelError,
    name: Seq<char>,
    vars: Seq<Seq<char>>,
    initial_count: nat,
    invs: Seq<Seq<char>>,
) -> bool {
    if trim(name).len() == 0 {
        e == ModelError::EmptyModelName
    } else if vars.len() == 0 {
        e == ModelError::NoStateVariables
    } else if initial_count == 0 {
        e == ModelError::NoInitialStates
    } else if invs.len() == 0 {
        e == ModelError::NoInvariants
    } else if first_bad_name(vars) is Some {
        name_error_at(e, vars, first_bad_name(vars)->0, true)
    } else {
        first_bad_name(invs) is Some && name_error_at(e, invs, first_bad_name(invs)->0, false)
    }
}

/// Names that are their own trims, non-empty and pairwise different form a
/// valid name list.
pub proof fn lemma_plain_names(names: Seq<Seq<char>>)
    requires
        forall|i: int| 0 <= i < names.len() ==> trim(#[trigger] names[i]) == names[i] && names[i].len() > 0,
        forall|i: int, j: int| 0 <= i < j < names.len() ==> #[trigger] names[i] != #[trigger] names[j],
    ensures
        first_bad_name(names) is None,
    decreases names.len(),
{
    if names.len() > 0 {
        let d = names.drop_last();
        assert forall|i: int| 0 <= i < d.len() implies trim(#[trigger] d[i]) == d[i] && d[i].len() > 0 by {
            assert(d[i] == names[i]);
        }
        assert forall|i: int, j: int| 0 <= i < j < d.len() implies #[trigger] d[i] != #[trigger] d[j] by {
            assert(d[i] == names[i] && d[j] == names[j]);
        }
        lemma_plain_names(d);
        let j = names.len() - 1;
        assert(trim(names[j]) == names[j]);
        assert forall|i: int| 0 <= i < j implies trim(#[trigger] names[i]) != trim(names[j]) by {
            assert(trim(names[i]) == names[i]);
        }
    }
}

proof fn lemma_first_bad_name_prefix(names: Seq<Seq<char>>, k: int)
    requires
        0 <= k <= names.len(),
    ensures
        first_bad_name(names.subrange(0, k)) is None ==> (first_bad_name(names) is None
            || first_bad_name(names)->0 >= k),
        first_bad_name(names.subrange(0, k)) is Some ==> first_bad_name(names) == first_bad_name(
            names.subrange(0, k),
        ),
    decreases names.len() - k,
{
    if k < names.len() {
        lemma_first_bad_name_prefix(names, k + 1);
        assert(names.subrange(0, k + 1).drop_last() =~= names.subrange(0, k));
    } else {
        assert(names.subrange(0, k) =~= names);
    }
}

/// Checks one list of names in order; the result is the first bad index.
#[verifier::loop_isolation(false)]
fn check_names(names: &Vec<String>, for_variables: bool) -> (r: Result<(), ModelError>)
    ensures
        match r {
            Ok(()) => first_bad_name(text_views(names@)) is None,
            Err(e) => first_bad_name(text_views(names@)) is Some && name_error_at(
                e,
                text_views(names@),
                first_bad_name(text_views(names@))->0,
                for_variables,
            ),
        },
{
    let ghost all = text_views(names@);
    let mut seen: Vec<String> = Vec::new();
    let mut index: usize = 0;
    assert(all.subrange(0, 0) =~= Seq::<Seq<char>>::empty());
    while index < names.len()
        invariant
            all == text_views(names@),
            index <= names.len(),
            seen.len() == index,
            forall|i: int| 0 <= i < index ==> #[trigger] seen@[i]@ == trim(all[i]),
            first_bad_name(all.subrange(0, index as int)) is None,
        decreases names.len() - index,
    {
        let t = trimmed(names[index].as_str());
        let ghost prefix = all.subrange(0, index + 1);
        assert(prefix.drop_last() =~= all.subrange(0, index as int));
        assert(prefix[index as int] == all[index as int]);
        assert(forall|i: int| 0 <= i < index ==> prefix[i] == all[i]);
        if is_blank(t.as_str()) {
            proof {
                lemma_trim_idempotent_empty(all[index as int]);
                lemma_first_bad_name_prefix(all, index + 1);
            }
            return if for_variables {
                Err(ModelError::EmptyStateVariableName { index })
            } else {
                Err(ModelError::EmptyInvariantName { index })
            };
        }
        proof {
            lemma_trim_idempotent_empty(all[index as int]);
        }
        let mut k: usize = 0;
        while k < seen.len()
            invariant
                k <= seen.len(),
                forall|i: int| 0 <= i < k ==> seen@[i]@ != t@,
            decreases seen.len() - k,
        {
            if same_text(seen[k].as_str(), t.as_str()) {
                proof {
                    assert(trim(prefix[k as int]) == trim(prefix[index as int]));
                    lemma_first_bad_name_prefix(all, index + 1);
                }
                return if for_variables {
                    Err(ModelError::DuplicateStateVariable { name: t })
                } else {
                    Err(ModelError::DuplicateInvariant { name: t })
                };
            }
            k += 1;
        }
        proof {
            assert forall|i: int| 0 <= i < index implies trim(#[trigger] prefix[i]) != trim(
                prefix[index as int],
            ) by {
                assert(seen@[i]@ == trim(all[i]));
            }
        }
        seen.push(t);
        index += 1;
    }
    proof {
        assert(all.subrange(0, names.len() as int) =~= all);
    }
    Ok(())
}

/// An empty trim result is a blank name.
proof fn lemma_trim_idempotent_empty(s: Seq<char>)
    ensures
        (trim(trim(s)).len() == 0) == (trim(s).len() == 0),
{
    lemma_trim_empty(trim(s));
    lemma_trim_empty(s);
    lemma_trim_all_space(s);
}

proof fn lemma_trim_all_space(s: Seq<char>)
    ensures
        all_space(trim(s)) == (trim(s).len() == 0),
{
    lemma_trim_start_suffix(s);
    lemma_trim_end_keeps_last(trim_start(s));
    lemma_trim_empty(s);
    if trim(s).len() > 0 {
        assert(!is_space(trim(s).last()));
    }
}

proof fn lemma_trim_end_keeps_last(s: Seq<char>)
    ensures
        trim_end(s).len() > 0 ==> !is_space(trim_end(s).last()),
    decreases s.len(),
{
    if s.len() > 0 && is_space(s.last()) {
        lemma_trim_end_keeps_last(s.drop_last());
    }
}

fn copy_variables(vars: &Vec<StateVariable>) -> (r: Vec<StateVariable>)
    ensures
        r@ == vars@,
{
    let mut out: Vec<StateVariable> = Vec::new();
    let mut i: usize = 0;
    while i < vars.len()
        invariant
            i <= vars.len(),
            out@ == vars@.subrange(0, i as int),
        decreases vars.len() - i,
    {
        out.push(vars[i].copy());
        assert(out@ =~= vars@.subrange(0, i + 1));
        i += 1;
    }
    assert(vars@.subrange(0, i as int) =~= vars@);
    out
}

fn validate_metadata<S>(
    name: &str,
    state_variables: &Vec<StateVariable>,
    initial_count: usize,
    invariants: &Vec<Invariant<S>>,
) -> (r: Result<(), ModelError>)
    ensures
        r is Ok <==> metadata_valid(
            name@,
            variable_names(state_variables@),
            initial_count as nat,
            invariant_names(invariants@),
        ),
        r matches Err(e) ==> metadata_error(
            e,
            name@,
            variable_names(state_variables@),
            initial_count as nat,
            invariant_names(invariants@),
        ),
{
    if is_blank(name) {
        return Err(ModelError::EmptyModelName);
    }
    if state_variables.len() == 0 {
        return Err(ModelError::NoStateVariables);
    }
    if initial_count == 0 {
        return Err(ModelError::NoInitialStates);
    }
    if invariants.len() == 0 {
        return Err(ModelError::NoInvariants);
    }
    let mut var_names: Vec<String> = Vec::new();
    let mut i: usize = 0;
    while i < state_variables.len()
        invariant
            i <= state_variables.len(),
            var_names.len() == i,
            text_views(var_names@) =~= variable_names(state_variables@).subrange(
                0,
                i as int,
            ),
        decreases state_variables.len() - i,
    {
        let nm = state_variables[i].name.clone();
        assert(nm@ == variable_names(state_variables@)[i as int]);
        var_names.push(nm);
        assert(var_names@[i as int] == nm);
        assert(text_views(var_names@)[i as int] == variable_names(state_variables@)[i as int]);
        assert(text_views(var_names@) =~= variable_names(state_variables@).subrange(
            0,
            i + 1,
        ));
        i += 1;
    }
    assert(variable_names(state_variables@).subrange(0, i as int) =~= variable_names(
        state_variables@,
    ));
    check_names(&var_names, true)?;
    let mut inv_names: Vec<String> = Vec::new();
    let mut i: usize = 0;
    while i < invariants.len()
        invariant
            i <= invariants.len(),
            inv_names.len() == i,
            text_views(inv_names@) =~= invariant_names(invariants@).subrange(
                0,
                i as int,
            ),
        decreases invariants.len() - i,
    {
        let nm = owned(invariants[i].name());
        assert(nm@ == invariant_names(invariants@)[i as int]);
        inv_names.push(nm);
        assert(inv_names@[i as int] == nm);
        assert(text_views(inv_names@)[i as int] == invariant_names(invariants@)[i as int]);
        assert(text_views(inv_names@) =~= invariant_names(invariants@).subrange(
            0,
            i + 1,
        ));
        i += 1;
    }
    assert(invariant_names(invariants@).subrange(0, i as int) =~= invariant_names(invariants@));
    check_names(&inv_names, false)?;
    Ok(())
}

/// A finite-state transition system with named variables, initial states,
/// transition relation, and safety invariants.
///
/// The model is responsible for returning successors in a deterministic
/// order when reproducible traces are desired.
#[verifier::reject_recursive_types(S)]
pub struct TransitionSystem<S> {
    name: String,
    state_variables: Vec<StateVariable>,
    initial_states: Vec<S>,
    transition_relation: TransitionRelation<S>,
    invariants: Vec<Invariant<S>>,
}

impl<S> TransitionSystem<S> {
    pub closed spec fn name_text(&self) -> Seq<char> {
        self.name@
    }

    pub closed spec fn variables(&self) -> Seq<StateVariable> {
        self.state_variables@
    }

    pub closed spec fn initial(&self) -> Seq<S> {
        self.initial_states@
    }

    pub closed spec fn invariant_list(&self) -> Seq<Invariant<S>> {
        self.invariants@
    }

    /// The validity every constructed model has.
    pub open spec fn wf(&self) -> bool {
        metadata_valid(
            self.name_text(),
            variable_names(self.variables()),
            self.initial().len(),
            invariant_names(self.invariant_list()),
        )
    }

    pub fn new<F: Fn(&S) -> Result<Vec<Transition<S>>, ModelError> + Send + Sync + 'static>(
        name: &str,
        state_variables: Vec<StateVariable>,
        initial_states: Vec<S>,
        transition_relation: F,
        invariants: Vec<Invariant<S>>,
    ) -> (r: Result<Self, ModelError>)
        ensures
            r is Ok <==> metadata_valid(
                name@,
                variable_names(state_variables@),
                initial_states@.len(),
                invariant_names(invariants@),
            ),
            r matches Err(e) ==> metadata_error(
                e,
                name@,
                variable_names(state_variables@),
                initial_states@.len(),
                invariant_names(invariants@),
            ),
            r matches Ok(m) ==> {
                &&& m.wf()
                &&& m.name_text() == name@
                &&& m.variables() == state_variables@
                &&& m.initial() == initial_states@
                &&& m.invariant_list() == invariants@
            },
    {
        validate_metadata(name, &state_variables, initial_states.len(), &invariants)?;
        Ok(
            TransitionSystem {
                name: owned(name),
                state_variables,
                initial_states,
                transition_relation: TransitionRelation::from_fn(transition_relation),
                invariants,
            },
        )
    }

    /// Assembles a model from an already boxed relation.
    pub(crate) fn from_relation(
        name: &str,
        state_variables: Vec<StateVariable>,
        initial_states: Vec<S>,
        transition_relation: TransitionRelation<S>,
        invariants: Vec<Invariant<S>>,
    ) -> (r: Result<Self, ModelError>)
        ensures
            r is Ok <==> metadata_valid(
                name@,
                variable_names(state_variables@),
                initial_states@.len(),
                invariant_names(invariants@),
            ),
            r matches Err(e) ==> metadata_error(
                e,
                name@,
                variable_names(state_variables@),
                initial_states@.len(),
                invariant_names(invariants@),
            ),
            r matches Ok(m) ==> {
                &&& m.wf()
                &&& m.name_text() == name@
                &&& m.variables() == state_variables@
                &&& m.initial() == initial_states@
                &&& m.invariant_list() == invariants@
            },
    {
        validate_metadata(name, &state_variables, initial_states.len(), &invariants)?;
        Ok(
            TransitionSystem {
                name: owned(name),
                state_variables,
                initial_states,
                transition_relation,
                invariants,
            },
        )
    }

    pub fn name(&self) -> (name: &str)
        ensures
            name@ == self.name_text(),
    {
        self.name.as_str()
    }

    pub fn state_variables(&self) -> (vars: &[StateVariable])
        ensures
            vars@ == self.variables(),
    {
        self.state_variables.as_slice()
    }

    pub fn initial_states(&self) -> (states: &[S])
        ensures
            states@ == self.initial(),
    {
        self.initial_states.as_slice()
    }

    pub fn invariants(&self) -> (invs: &[Invariant<S>])
        ensures
            invs@ == self.invariant_list(),
    {
        self.invariants.as_slice()
    }

    /// The successors the model's relation gives for `state`: the relation's
    /// own error is passed on, and its list goes through
    /// `checked_transitions`.
    pub fn successors(&self, state: &S) -> (r: Result<Vec<Transition<S>>, ModelError>)
        ensures
            r matches Ok(ts) ==> forall|i: int|
                0 <= i < ts.len() ==> trim(#[trigger] ts@[i].action@).len() > 0,
    {
        let transitions = self.transition_relation.successors_of(state)?;
        checked_transitions(transitions)
    }
}

impl<S: StateValue> TransitionSystem<S> {
    /// A view over the same transition graph with a different invariant set.
    pub(crate) fn with_replaced_invariants(&self, name: &str, invariants: Vec<Invariant<S>>) -> (r:
        Result<Self, ModelError>)
        ensures
            r is Ok <==> metadata_valid(
                name@,
                variable_names(self.variables()),
                self.initial().len(),
                invariant_names(invariants@),
            ),
            r matches Ok(m) ==> {
                &&& m.wf()
                &&& m.name_text() == name@
                &&& m.variables() == self.variables()
                &&& views_of(m.initial()) == views_of(self.initial())
                &&& m.invariant_list() == invariants@
            },
    {
        let mut initial: Vec<S> = Vec::new();
        let mut i: usize = 0;
        while i < self.initial_states.len()
            invariant
                i <= self.initial_states.len(),
                initial.len() == i,
                forall|j: int| 0 <= j < i ==> #[trigger] initial@[j]@ == self.initial_states@[j]@,
            decreases self.initial_states.len() - i,
        {
            initial.push(self.initial_states[i].copy_value());
            i += 1;
        }
        assert(views_of(initial@) =~= views_of(self.initial_states@));
        TransitionSystem::from_relation(
            name,
            copy_variables(&self.state_variables),
            initial,
            self.transition_relation.share(),
            invariants,
        )
    }
}

} // verus!
