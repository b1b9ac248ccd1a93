//! Fluent construction of typed transition systems.
use crate::model::{
    invariant_names, metadata_error, metadata_valid, variable_names, Invariant, ModelError, StateVariable, Transition,
    TransitionRelation, TransitionSystem,
};
use crate::text::owned;
use vstd::prelude::*;

verus! {

/// Fluent construction layer for typed transition systems.
///
/// The builder is thin: `build` assembles the model exactly as
/// `TransitionSystem::new` does, so validation has a single source of truth.
#[verifier::reject_recursive_types(S)]
pub struct TransitionSystemBuilder<S> {
    name: String,
    state_variables: Vec<StateVariable>,
    initial_states: Vec<S>,
    transition_relation: TransitionRelation<S>,
    invariants: Vec<Invariant<S>>,
}

impl<S> TransitionSystemBuilder<S> {
    pub closed spec fn name_text(&self) -> Seq<char> {
        self.name@
    }

    pub closed spec fn variables(&self) -> Seq<StateVariable> {
        self.state_variables@
    }

    pub closed spec fn initial(&self) -> Seq<S> {
        self.initial_states@
    }

    pub closed spec fn invariant_list(&self) -> Seq<Invariant<S>> {
        self.invariants@
    }

    /// Start a typed model with its single transition relation.
    pub fn new<F: Fn(&S) -> Result<Vec<Transition<S>>, ModelError> + Send + Sync + 'static>(
        name: &str,
        transition_relation: F,
    ) -> (b: Self)
        ensures
            b.name_text() == name@,
            b.variables().len() == 0,
            b.initial().len() == 0,
            b.invariant_list().len() == 0,
    {
        TransitionSystemBuilder {
            name: owned(name),
            state_variables: Vec::new(),
            initial_states: Vec::new(),
            transition_relation: TransitionRelation::from_fn(transition_relation),
            invariants: Vec::new(),
        }
    }

    pub fn state_variable(self, name: &str, description: &str) -> (b: Self)
        ensures
            b.name_text() == self.name_text(),
            b.variables().len() == self.variables().len() + 1,
            b.variables().drop_last() == self.variables(),
            b.variables().last().name@ == name@,
            b.variables().last().description@ == description@,
            b.initial() == self.initial(),
            b.invariant_list() == self.invariant_list(),
    {
        let mut b = self;
        b.state_variables.push(StateVariable::new(name, description));
        assert(b.state_variables@.drop_last() =~= self.state_variables@);
        b
    }

    pub fn initial_state(self, state: S) -> (b: Self)
        ensures
            b.name_text() == self.name_text(),
            b.variables() == self.variables(),
            b.initial() == self.initial().push(state),
            b.invariant_list() == self.invariant_list(),
    {
        let mut b = self;
        b.initial_states.push(state);
        b
    }

    pub fn safety_invariant<F: Fn(&S) -> bool + Send + Sync + 'static>(self, name: &str, predicate: F) -> (b: Self)
        ensures
            b.name_text() == self.name_text(),
            b.variables() == self.variables(),
            b.initial() == self.initial(),
            b.invariant_list().len() == self.invariant_list().len() + 1,
            b.invariant_list().drop_last() == self.invariant_list(),
            b.invariant_list().last().name_text() == name@,
    {
        let mut b = self;
        b.invariants.push(Invariant::new(name, predicate));
        assert(b.invariants@.drop_last() =~= self.invariants@);
        b
    }

    /// Materialize the transition system and run its normal validation, so
    /// invalid builder input fails exactly like `TransitionSystem::new`.
    pub fn build(self) -> (r: Result<TransitionSystem<S>, ModelError>)
        ensures
            r is Ok <==> metadata_valid(
                self.name_text(),
                variable_names(self.variables()),
                self.initial().len(),
                invariant_names(self.invariant_list()),
            ),
            r matches Err(e) ==> metadata_error(
                e,
                self.name_text(),
                variable_names(self.variables()),
                self.initial().len(),
                invariant_names(self.invariant_list()),
            ),
            r matches Ok(m) ==> {
                &&& m.wf()
                &&& m.name_text() == self.name_text()
                &&& m.variables() == self.variables()
                &&& m.initial() == self.initial()
                &&& m.invariant_list() == self.invariant_list()
            },
    {
        TransitionSystem::from_relation(
            self.name.as_str(),
            self.state_variables,
            self.initial_states,
            self.transition_relation,
            self.invariants,
        )
    }
}

} // verus!
