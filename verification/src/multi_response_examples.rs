//! A protocol that repeatedly requests and grants two response classes.
use crate::builder::TransitionSystemBuilder;
use crate::model::{ModelError, Transition, TransitionSystem};
use crate::state::StateValue;
use vstd::prelude::*;

verus! {

#[derive(Debug, Clone, Copy, PartialEq, Eq, Hash, Structural)]
pub enum DualResponsePhase {
    Idle,
    AwaitA,
    ReadyB,
    AwaitB,
}

#[derive(Debug, Clone, Copy, PartialEq, Eq, Hash, Structural)]
pub struct DualResponseState {
    pub phase: DualResponsePhase,
}

impl View for DualResponseState {
    type V = DualResponseState;

    open spec fn view(&self) -> DualResponseState {
        *self
    }
}

impl StateValue for DualResponseState {
    fn same_value(&self, other: &Self) -> (same: bool) {
        *self == *other
    }

    fn copy_value(&self) -> (copy: Self) {
        *self
    }
}

/// What both protocols promise: a well-formed model named `name` whose single
/// initial state is `Idle`.
pub open spec fn dual_model(r: Result<TransitionSystem<DualResponseState>, ModelError>, name: Seq<char>) -> bool {
    r matches Ok(m) && m.wf() && m.initial() == seq![DualResponseState { phase: DualResponsePhase::Idle }]
        && m.name_text() == name
}

/// The successors of `state`: request A, grant A, request B, then grant B
/// (preceded by a `wait-b` self-loop when B may stutter).
pub fn dual_successors(state: &DualResponseState, allow_b_stutter: bool) -> (r: Result<
    Vec<Transition<DualResponseState>>,
    ModelError,
>)
    ensures
        r matches Ok(v) && match state.phase {
            DualResponsePhase::Idle => v@.len() == 1 && v@[0].action@ == "request-a"@ && v@[0].next.phase
                == DualResponsePhase::AwaitA,
            DualResponsePhase::AwaitA => v@.len() == 1 && v@[0].action@ == "grant-a"@ && v@[0].next.phase
                == DualResponsePhase::ReadyB,
            DualResponsePhase::ReadyB => v@.len() == 1 && v@[0].action@ == "request-b"@ && v@[0].next.phase
                == DualResponsePhase::AwaitB,
            DualResponsePhase::AwaitB => if allow_b_stutter {
                &&& v@.len() == 2
                &&& v@[0].action@ == "wait-b"@ && v@[0].next.phase == DualResponsePhase::AwaitB
                &&& v@[1].action@ == "grant-b"@ && v@[1].next.phase == DualResponsePhase::Idle
            } else {
                v@.len() == 1 && v@[0].action@ == "grant-b"@ && v@[0].next.phase == DualResponsePhase::Idle
            },
        },
{
    match state.phase {
        DualResponsePhase::Idle => Ok(
            vec![Transition::new("request-a", DualResponseState { phase: DualResponsePhase::AwaitA })],
        ),
        DualResponsePhase::AwaitA => Ok(
            vec![Transition::new("grant-a", DualResponseState { phase: DualResponsePhase::ReadyB })],
        ),
        DualResponsePhase::ReadyB => Ok(
            vec![Transition::new("request-b", DualResponseState { phase: DualResponsePhase::AwaitB })],
        ),
        DualResponsePhase::AwaitB => {
            let mut next: Vec<Transition<DualResponseState>> = Vec::new();
            if allow_b_stutter {
                next.push(Transition::new("wait-b", DualResponseState { phase: DualResponsePhase::AwaitB }));
            }
            next.push(Transition::new("grant-b", DualResponseState { phase: DualResponsePhase::Idle }));
            Ok(next)
        },
    }
}

fn dual_response_model(name: &str, allow_b_stutter: bool) -> (r: Result<
    TransitionSystem<DualResponseState>,
    ModelError,
>)
    requires
        name@.len() > 0,
        !crate::text::is_space(name@[0]),
        !crate::text::is_space(name@.last()),
    ensures
        dual_model(r, name@),
{
    let b = TransitionSystemBuilder::new(
        name,
        move |state: &DualResponseState| -> (r: Result<Vec<Transition<DualResponseState>>, ModelError>)
            { dual_successors(state, allow_b_stutter) },
    );
    let b = b.state_variable("phase", "dual response protocol phase");
    let b = b.initial_state(DualResponseState { phase: DualResponsePhase::Idle });
    let b = b.safety_invariant("recognized-phase", |_state: &DualResponseState| true);
    proof {
        reveal_strlit("phase");
        reveal_strlit("recognized-phase");
        crate::text::lemma_trim_plain(name@);
        crate::text::lemma_trim_plain("phase"@);
        crate::text::lemma_trim_plain("recognized-phase"@);
        assert(crate::model::variable_names(b.variables()) =~= seq!["phase"@]);
        assert(crate::model::invariant_names(b.invariant_list()) =~= seq!["recognized-phase"@]);
        crate::model::lemma_plain_names(seq!["phase"@]);
        crate::model::lemma_plain_names(seq!["recognized-phase"@]);
        assert(b.initial() =~= seq![DualResponseState { phase: DualResponsePhase::Idle }]);
    }
    b.build()
}

/// Deterministic protocol that repeatedly discharges class A and class B.
pub fn dual_response_protocol() -> (r: Result<TransitionSystem<DualResponseState>, ModelError>)
    ensures
        dual_model(r, "dual-response"@),
{
    proof {
        reveal_strlit("dual-response");
    }
    dual_response_model("dual-response", false)
}

/// Class B may stutter forever while its response is enabled; without a
/// fairness assumption the class-B response obligation is violated.
pub fn unfair_dual_response_protocol() -> (r: Result<TransitionSystem<DualResponseState>, ModelError>)
    ensures
        dual_model(r, "dual-response-unfair-b"@),
{
    proof {
        reveal_strlit("dual-response-unfair-b");
    }
    dual_response_model("dual-response-unfair-b", true)
}

} // verus!
