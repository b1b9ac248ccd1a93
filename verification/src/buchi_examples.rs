//! Pulse models and a pulse-observing Büchi automaton.
use crate::buchi::{set_names, AcceptanceSet, BuchiAutomaton, BuchiError, FiniteRunPolicy};
use crate::model::{Invariant, ModelError, StateVariable, Transition, TransitionSystem};
use crate::state::StateValue;
use crate::text::same_text;
use vstd::prelude::*;

verus! {

#[derive(Debug, Clone, Copy, PartialEq, Eq, Hash, Structural)]
pub enum PulseModelState {
    First,
    Second,
    Done,
}

impl View for PulseModelState {
    type V = PulseModelState;

    open spec fn view(&self) -> PulseModelState {
        *self
    }
}

impl StateValue for PulseModelState {
    fn same_value(&self, other: &Self) -> (same: bool) {
        *self == *other
    }

    fn copy_value(&self) -> (copy: Self) {
        *self
    }
}

/// A pulse-phase model named `name` that starts in `First` and moves by
/// `successors`.
fn pulse_model<F: Fn(&PulseModelState) -> Result<Vec<Transition<PulseModelState>>, ModelError> + Send + Sync + 'static>(
    name: &str,
    description: &str,
    successors: F,
) -> (r: Result<TransitionSystem<PulseModelState>, ModelError>)
    requires
        name@.len() > 0,
        !crate::text::is_space(name@[0]),
        !crate::text::is_space(name@.last()),
    ensures
        r matches Ok(m) && m.wf() && m.initial() == seq![PulseModelState::First] && m.name_text() == name@,
{
    let vars = vec![StateVariable::new("phase", description)];
    let recognized = Invariant::new("recognized-phase", |_state: &PulseModelState| -> (r: bool) { true });
    let invs = vec![recognized];
    proof {
        crate::text::lemma_trim_plain(name@);
        reveal_strlit("phase");
        crate::text::lemma_trim_plain("phase"@);
        reveal_strlit("recognized-phase");
        crate::text::lemma_trim_plain("recognized-phase"@);
        crate::model::lemma_plain_names(crate::model::variable_names(vars@));
        crate::model::lemma_plain_names(crate::model::invariant_names(invs@));
    }
    TransitionSystem::new(name, vars, vec![PulseModelState::First], successors, invs)
}

/// `First` and `Second` alternate forever with `pulse-a` and `pulse-b`.
pub fn alternating_pulses() -> (r: Result<TransitionSystem<PulseModelState>, ModelError>)
    ensures
        r matches Ok(m) && m.initial() == seq![PulseModelState::First] && m.wf(),
{
    proof {
        reveal_strlit("alternating-pulses");
    }
    pulse_model(
        "alternating-pulses",
        "alternating A/B pulse phase",
        |state: &PulseModelState| -> (r: Result<Vec<Transition<PulseModelState>>, ModelError>)
            {
                match state {
                    PulseModelState::First => Ok(vec![Transition::new("pulse-a", PulseModelState::Second)]),
                    PulseModelState::Second => Ok(vec![Transition::new("pulse-b", PulseModelState::First)]),
                    PulseModelState::Done => Ok(Vec::new()),
                }
            },
    )
}

/// Like `alternating_pulses`, but `Second` may repeat `pulse-a` forever.
pub fn unfair_second_pulse() -> (r: Result<TransitionSystem<PulseModelState>, ModelError>)
    ensures
        r matches Ok(m) && m.initial() == seq![PulseModelState::First] && m.wf(),
{
    proof {
        reveal_strlit("unfair-second-pulse");
    }
    pulse_model(
        "unfair-second-pulse",
        "pulse phase with an optional forever-A execution",
        |state: &PulseModelState| -> (r: Result<Vec<Transition<PulseModelState>>, ModelError>)
            {
                match state {
                    PulseModelState::First => Ok(vec![Transition::new("pulse-a", PulseModelState::Second)]),
                    PulseModelState::Second => Ok(
                        vec![
                            Transition::new("pulse-a", PulseModelState::Second),
                            Transition::new("pulse-b", PulseModelState::First),
                        ],
                    ),
                    PulseModelState::Done => Ok(Vec::new()),
                }
            },
    )
}

/// One `quiet` step from `First` to the terminal `Done`.
pub fn finite_quiet_run() -> (r: Result<TransitionSystem<PulseModelState>, ModelError>)
    ensures
        r matches Ok(m) && m.initial() == seq![PulseModelState::First] && m.wf(),
{
    proof {
        reveal_strlit("finite-quiet-run");
    }
    pulse_model(
        "finite-quiet-run",
        "finite pulse example",
        |state: &PulseModelState| -> (r: Result<Vec<Transition<PulseModelState>>, ModelError>)
            {
                match state {
                    PulseModelState::First => Ok(vec![Transition::new("quiet", PulseModelState::Done)]),
                    PulseModelState::Second | PulseModelState::Done => Ok(Vec::new()),
                }
            },
    )
}

#[derive(Debug, Clone, Copy, PartialEq, Eq, Hash, Structural)]
pub enum PulseAutomatonState {
    Idle,
    A,
    B,
    Both,
}

impl View for PulseAutomatonState {
    type V = PulseAutomatonState;

    open spec fn view(&self) -> PulseAutomatonState {
        *self
    }
}

impl StateValue for PulseAutomatonState {
    fn same_value(&self, other: &Self) -> (same: bool) {
        *self == *other
    }

    fn copy_value(&self) -> (copy: Self) {
        *self
    }
}

/// The automaton state after an action: the pulse just observed.
pub fn pulse_step(action: &str) -> (next: PulseAutomatonState)
    ensures
        next == if action@ == "pulse-a"@ {
            PulseAutomatonState::A
        } else if action@ == "pulse-b"@ {
            PulseAutomatonState::B
        } else if action@ == "pulse-both"@ {
            PulseAutomatonState::Both
        } else {
            PulseAutomatonState::Idle
        },
{
    if same_text(action, "pulse-a") {
        PulseAutomatonState::A
    } else if same_text(action, "pulse-b") {
        PulseAutomatonState::B
    } else if same_text(action, "pulse-both") {
        PulseAutomatonState::Both
    } else {
        PulseAutomatonState::Idle
    }
}

/// "Infinitely often A and infinitely often B": two acceptance sets, one
/// for each observed pulse (`Both` counts for both).
pub fn pulse_automaton(finite_policy: FiniteRunPolicy) -> (r: Result<BuchiAutomaton<PulseAutomatonState>, BuchiError>)
    ensures
        r matches Ok(a) && {
            &&& a.initial_state() == PulseAutomatonState::Idle
            &&& a.policy() == finite_policy
            &&& set_names(a.sets()) == seq!["pulse-a-observed"@, "pulse-b-observed"@]
        },
{
    proof {
        reveal_strlit("pulse-a-observed");
        reveal_strlit("pulse-b-observed");
        crate::text::lemma_trim_plain("pulse-a-observed"@);
        crate::text::lemma_trim_plain("pulse-b-observed"@);
    }
    let a_set = AcceptanceSet::new(
        "pulse-a-observed",
        |state: &PulseAutomatonState| -> (r: bool)
            {
                match state {
                    PulseAutomatonState::A | PulseAutomatonState::Both => true,
                    _ => false,
                }
            },
    )?;
    let b_set = AcceptanceSet::new(
        "pulse-b-observed",
        |state: &PulseAutomatonState| -> (r: bool)
            {
                match state {
                    PulseAutomatonState::B | PulseAutomatonState::Both => true,
                    _ => false,
                }
            },
    )?;
    let sets = vec![a_set, b_set];
    let ghost v = sets@;
    proof {
        reveal_strlit("pulse-a-observed");
        reveal_strlit("pulse-b-observed");
        reveal_strlit("infinitely-often-a-and-b");
        crate::text::lemma_trim_plain("infinitely-often-a-and-b"@);
        assert(v[0].name_text() == "pulse-a-observed"@);
        assert(v[1].name_text() == "pulse-b-observed"@);
        assert(v[0].name_text()[6] != v[1].name_text()[6]);
        assert forall|j: int| 0 <= j < v.len() implies !#[trigger] crate::buchi::name_repeats(v, j) by {
            if j == 1 {
                assert(v[0].name_text() != v[1].name_text());
            }
        }
    }
    let r = BuchiAutomaton::new(
        "infinitely-often-a-and-b",
        PulseAutomatonState::Idle,
        |_state: &PulseAutomatonState, action: &str| -> (r: PulseAutomatonState) { pulse_step(action) },
        sets,
        finite_policy,
    );
    proof {
        assert(set_names(v) =~= seq!["pulse-a-observed"@, "pulse-b-observed"@]);
    }
    r
}

} // verus!
