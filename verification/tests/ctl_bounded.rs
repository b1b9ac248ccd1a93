use formal_verification_lab::bounded::BoundedOutcome;
use formal_verification_lab::checker::{ExplorationLimits, InconclusiveReason};
use formal_verification_lab::ctl::{CtlEvidence, CtlFormula};
use formal_verification_lab::ctl_bounded::{evaluate_ctl_with_limits, BoundedCtlStatus, BoundedCtlTruth};
use formal_verification_lab::monitor_examples::{session_protocol, SessionState};

fn atom(name: &str) -> CtlFormula<String> {
    CtlFormula::Atom(name.to_string())
}

fn holds(atom: &String, state: &SessionState) -> bool {
    match state {
        SessionState::Closed => atom == "closed",
        SessionState::Open => atom == "open",
        SessionState::Committed => atom == "committed",
    }
}

fn two_states() -> ExplorationLimits {
    ExplorationLimits { max_states: Some(2), max_transitions: None, max_depth: None }
}

#[test]
fn complete_capture_is_judged_exactly() {
    let model = session_protocol().unwrap();
    let formula = CtlFormula::Ag(Box::new(CtlFormula::Ef(Box::new(atom("closed")))));
    let ev = evaluate_ctl_with_limits(&model, &formula, holds, ExplorationLimits::unbounded()).unwrap();
    assert_eq!(ev.outcome, BoundedOutcome::Conclusive(BoundedCtlStatus::Satisfied));
    assert_eq!(ev.definitely_satisfying_state_indices, vec![0, 1, 2]);
    assert_eq!(ev.possibly_satisfying_state_indices, vec![0, 1, 2]);
    assert!(ev.initial_states_complete);
    assert_eq!(ev.initial.len(), 1);
    assert_eq!(ev.initial[0].truth, BoundedCtlTruth::True);
    assert_eq!(ev.memoized_subformulas, 3);
}

#[test]
fn cut_off_successors_leave_eventualities_unknown() {
    let model = session_protocol().unwrap();
    let formula = CtlFormula::Ef(Box::new(atom("committed")));
    let ev = evaluate_ctl_with_limits(&model, &formula, holds, two_states()).unwrap();
    assert_eq!(ev.outcome, BoundedOutcome::Inconclusive(InconclusiveReason::StateLimitReached { limit: 2 }));
    assert_eq!(ev.reachable_states, vec![SessionState::Closed, SessionState::Open]);
    assert!(ev.definitely_satisfying_state_indices.is_empty());
    assert_eq!(ev.possibly_satisfying_state_indices, vec![0, 1]);
    assert_eq!(ev.initial[0].truth, BoundedCtlTruth::Unknown);
    assert!(ev.initial[0].evidence.is_none());
}

#[test]
fn a_retained_witness_is_conclusive_despite_the_cutoff() {
    let model = session_protocol().unwrap();
    let formula = CtlFormula::Ex(Box::new(atom("open")));
    let ev = evaluate_ctl_with_limits(&model, &formula, holds, two_states()).unwrap();
    assert_eq!(ev.outcome, BoundedOutcome::Conclusive(BoundedCtlStatus::Satisfied));
    assert_eq!(ev.initial[0].truth, BoundedCtlTruth::True);
    match &ev.initial[0].evidence {
        Some(CtlEvidence::Finite { trace }) => {
            assert_eq!(trace.len(), 2);
            assert_eq!(trace[1].state, SessionState::Open);
        },
        other => panic!("unexpected {other:?}"),
    }
    assert_eq!(ev.memoized_subformulas, 2);
}

#[test]
fn a_refuted_universal_step_is_explained_through_its_dual() {
    let model = session_protocol().unwrap();
    let formula = CtlFormula::Ax(Box::new(atom("committed")));
    let ev = evaluate_ctl_with_limits(&model, &formula, holds, two_states()).unwrap();
    assert_eq!(ev.outcome, BoundedOutcome::Conclusive(BoundedCtlStatus::Violated));
    assert_eq!(ev.initial[0].truth, BoundedCtlTruth::False);
    match &ev.initial[0].evidence {
        Some(CtlEvidence::Finite { trace }) => assert_eq!(trace[1].state, SessionState::Open),
        other => panic!("unexpected {other:?}"),
    }
    assert_eq!(ev.memoized_subformulas, 3);
}

#[test]
fn definitely_satisfying_states_are_possibly_satisfying() {
    let model = session_protocol().unwrap();
    let formulas = vec![
        CtlFormula::Ag(Box::new(atom("closed"))),
        CtlFormula::Af(Box::new(atom("open"))),
        CtlFormula::Not(Box::new(CtlFormula::Eg(Box::new(atom("closed"))))),
        CtlFormula::Au(Box::new(atom("closed")), Box::new(atom("open"))),
    ];
    for formula in formulas {
        let ev = evaluate_ctl_with_limits(&model, &formula, holds, two_states()).unwrap();
        for index in &ev.definitely_satisfying_state_indices {
            assert!(ev.possibly_satisfying_state_indices.contains(index));
        }
    }
}
