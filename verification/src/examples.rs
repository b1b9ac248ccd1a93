//! Small example models: a bounded counter, a deliberately broken mutex and
//! a traffic light.
use crate::model::{Invariant, ModelError, StateVariable, Transition, TransitionSystem};
use crate::state::StateValue;
use vstd::prelude::*;

verus! {

#[derive(Debug, Clone, Copy, PartialEq, Eq, Hash, Structural)]
pub struct CounterState {
    pub value: u8,
}

impl View for CounterState {
    type V = CounterState;

    open spec fn view(&self) -> CounterState {
        *self
    }
}

impl StateValue for CounterState {
    fn same_value(&self, other: &Self) -> (same: bool) {
        *self == *other
    }

    fn copy_value(&self) -> (copy: Self) {
        *self
    }
}

/// The counter's successors: one `increment` below 3, none at 3.
pub fn counter_successors(state: &CounterState) -> (r: Result<Vec<Transition<CounterState>>, ModelError>)
    ensures
        r matches Ok(v) && (if state.value < 3 {
            v@.len() == 1 && v@[0].action@ == "increment"@ && v@[0].next.value == state.value + 1
        } else {
            v@.len() == 0
        }),
{
    if state.value < 3 {
        Ok(vec![Transition::new("increment", CounterState { value: state.value + 1 })])
    } else {
        Ok(Vec::new())
    }
}

/// A counter from 0 up to 3 that must stay within its bound.
pub fn bounded_counter() -> (r: Result<TransitionSystem<CounterState>, ModelError>)
    ensures
        r matches Ok(m) && m.wf() && m.initial() == seq![CounterState { value: 0 }],
{
    let vars = vec![StateVariable::new("value", "counter value in the range 0..=3")];
    let within = Invariant::new("within-bound", |state: &CounterState| -> (r: bool) { state.value <= 3 });
    let invs = vec![within];
    proof {
        reveal_strlit("bounded-counter");
        reveal_strlit("value");
        reveal_strlit("within-bound");
        reveal_strlit("bounded-counter");
        crate::text::lemma_trim_plain("bounded-counter"@);
        reveal_strlit("value");
        crate::text::lemma_trim_plain("value"@);
        reveal_strlit("within-bound");
        crate::text::lemma_trim_plain("within-bound"@);
        crate::model::lemma_plain_names(crate::model::variable_names(vars@));
        crate::model::lemma_plain_names(crate::model::invariant_names(invs@));
    }
    TransitionSystem::new(
        "bounded-counter",
        vars,
        vec![CounterState { value: 0 }],
        |state: &CounterState| -> (r: Result<Vec<Transition<CounterState>>, ModelError>) { counter_successors(state) },
        invs,
    )
}

#[derive(Debug, Clone, Copy, PartialEq, Eq, Hash, Structural)]
pub enum Phase {
    Idle,
    Trying,
    Critical,
}

#[derive(Debug, Clone, Copy, PartialEq, Eq, Hash, Structural)]
pub struct MutexState {
    pub p1: Phase,
    pub p2: Phase,
}

impl View for MutexState {
    type V = MutexState;

    open spec fn view(&self) -> MutexState {
        *self
    }
}

impl StateValue for MutexState {
    fn same_value(&self, other: &Self) -> (same: bool) {
        *self == *other
    }

    fn copy_value(&self) -> (copy: Self) {
        *self
    }
}

/// The phase a process moves to from `p`: request, enter, exit.
pub open spec fn next_phase(p: Phase) -> Phase {
    match p {
        Phase::Idle => Phase::Trying,
        Phase::Trying => Phase::Critical,
        Phase::Critical => Phase::Idle,
    }
}

/// The buggy mutex's successors: process 1 moves, then process 2 moves;
/// entering never checks the other process.
pub fn mutex_successors(state: &MutexState) -> (r: Result<Vec<Transition<MutexState>>, ModelError>)
    ensures
        r matches Ok(v) && v@.len() == 2 && v@[0].next == (MutexState { p1: next_phase(state.p1), p2: state.p2 })
            && v@[1].next == (MutexState { p1: state.p1, p2: next_phase(state.p2) }) && v@[0].action@ == match state.p1 {
            Phase::Idle => "p1:request"@,
            Phase::Trying => "p1:enter"@,
            Phase::Critical => "p1:exit"@,
        } && v@[1].action@ == match state.p2 {
            Phase::Idle => "p2:request"@,
            Phase::Trying => "p2:enter"@,
            Phase::Critical => "p2:exit"@,
        },
{
    let mut next: Vec<Transition<MutexState>> = Vec::new();
    match state.p1 {
        Phase::Idle => next.push(Transition::new("p1:request", MutexState { p1: Phase::Trying, p2: state.p2 })),
        Phase::Trying => next.push(Transition::new("p1:enter", MutexState { p1: Phase::Critical, p2: state.p2 })),
        Phase::Critical => next.push(Transition::new("p1:exit", MutexState { p1: Phase::Idle, p2: state.p2 })),
    }
    match state.p2 {
        Phase::Idle => next.push(Transition::new("p2:request", MutexState { p1: state.p1, p2: Phase::Trying })),
        Phase::Trying => next.push(Transition::new("p2:enter", MutexState { p1: state.p1, p2: Phase::Critical })),
        Phase::Critical => next.push(Transition::new("p2:exit", MutexState { p1: state.p1, p2: Phase::Idle })),
    }
    Ok(next)
}

/// Deliberately incorrect protocol: each process can enter its critical
/// section after trying without checking the other process.
pub fn buggy_mutex() -> (r: Result<TransitionSystem<MutexState>, ModelError>)
    ensures
        r matches Ok(m) && m.wf() && m.initial() == seq![MutexState { p1: Phase::Idle, p2: Phase::Idle }],
{
    let vars = vec![StateVariable::new("p1", "phase of process 1"), StateVariable::new("p2", "phase of process 2")];
    let exclusion = Invariant::new(
        "mutual-exclusion",
        |state: &MutexState| -> (r: bool) { !(state.p1 == Phase::Critical && state.p2 == Phase::Critical) },
    );
    let invs = vec![exclusion];
    proof {
        reveal_strlit("buggy-mutex");
        crate::text::lemma_trim_plain("buggy-mutex"@);
        reveal_strlit("p1");
        crate::text::lemma_trim_plain("p1"@);
        reveal_strlit("p2");
        crate::text::lemma_trim_plain("p2"@);
        reveal_strlit("mutual-exclusion");
        crate::text::lemma_trim_plain("mutual-exclusion"@);
        reveal_strlit("p1");
        reveal_strlit("p2");
        assert("p1"@ != "p2"@) by {
            assert("p1"@[1] != "p2"@[1]);
        }
        crate::model::lemma_plain_names(crate::model::variable_names(vars@));
        crate::model::lemma_plain_names(crate::model::invariant_names(invs@));
    }
    TransitionSystem::new(
        "buggy-mutex",
        vars,
        vec![MutexState { p1: Phase::Idle, p2: Phase::Idle }],
        |state: &MutexState| -> (r: Result<Vec<Transition<MutexState>>, ModelError>) { mutex_successors(state) },
        invs,
    )
}

#[derive(Debug, Clone, Copy, PartialEq, Eq, Hash, Structural)]
pub enum Light {
    Red,
    Green,
    Yellow,
}

#[derive(Debug, Clone, Copy, PartialEq, Eq, Hash, Structural)]
pub struct TrafficLightState {
    pub light: Light,
}

impl View for TrafficLightState {
    type V = TrafficLightState;

    open spec fn view(&self) -> TrafficLightState {
        *self
    }
}

impl StateValue for TrafficLightState {
    fn same_value(&self, other: &Self) -> (same: bool) {
        *self == *other
    }

    fn copy_value(&self) -> (copy: Self) {
        *self
    }
}

/// Red, then green, then yellow, then red again.
pub open spec fn next_light(l: Light) -> Light {
    match l {
        Light::Red => Light::Green,
        Light::Green => Light::Yellow,
        Light::Yellow => Light::Red,
    }
}

/// The light's single `advance` successor.
pub fn light_successors(state: &TrafficLightState) -> (r: Result<Vec<Transition<TrafficLightState>>, ModelError>)
    ensures
        r matches Ok(v) && v@.len() == 1 && v@[0].action@ == "advance"@ && v@[0].next.light == next_light(state.light),
{
    let light = match state.light {
        Light::Red => Light::Green,
        Light::Green => Light::Yellow,
        Light::Yellow => Light::Red,
    };
    Ok(vec![Transition::new("advance", TrafficLightState { light })])
}

pub fn traffic_light() -> (r: Result<TransitionSystem<TrafficLightState>, ModelError>)
    ensures
        r matches Ok(m) && m.wf() && m.initial() == seq![TrafficLightState { light: Light::Red }],
{
    let vars = vec![StateVariable::new("light", "current traffic-light phase")];
    let recognized = Invariant::new("recognized-phase", |_state: &TrafficLightState| -> (r: bool) { true });
    let invs = vec![recognized];
    proof {
        reveal_strlit("traffic-light");
        crate::text::lemma_trim_plain("traffic-light"@);
        reveal_strlit("light");
        crate::text::lemma_trim_plain("light"@);
        reveal_strlit("recognized-phase");
        crate::text::lemma_trim_plain("recognized-phase"@);
        crate::model::lemma_plain_names(crate::model::variable_names(vars@));
        crate::model::lemma_plain_names(crate::model::invariant_names(invs@));
    }
    TransitionSystem::new(
        "traffic-light",
        vars,
        vec![TrafficLightState { light: Light::Red }],
        |state: &TrafficLightState| -> (r: Result<Vec<Transition<TrafficLightState>>, ModelError>) { light_successors(state) },
        invs,
    )
}

} // verus!
