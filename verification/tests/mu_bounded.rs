use formal_verification_lab::bounded::BoundedOutcome;
use formal_verification_lab::checker::{ExplorationLimits, InconclusiveReason};
use formal_verification_lab::monitor_examples::{session_protocol, SessionState};
use formal_verification_lab::mu_bounded::{evaluate_mu_with_limits, BoundedMuError, BoundedMuStatus, BoundedMuTruth};
use formal_verification_lab::mu_parse::parse_mu_formula;

fn holds(atom: &String, state: &SessionState) -> bool {
    match state {
        SessionState::Closed => atom == "closed",
        SessionState::Open => atom == "open",
        SessionState::Committed => atom == "committed",
    }
}

fn two_states() -> ExplorationLimits {
    ExplorationLimits { max_states: Some(2), max_transitions: None, max_depth: None }
}

#[test]
fn complete_capture_is_judged_exactly_for_mu() {
    let model = session_protocol().unwrap();
    let formula = parse_mu_formula("nu X. (mu Y. \"closed\" or diamond $Y) and box $X").unwrap();
    let ev = evaluate_mu_with_limits(&model, &formula, holds, ExplorationLimits::unbounded()).unwrap();
    assert_eq!(ev.outcome, BoundedOutcome::Conclusive(BoundedMuStatus::Satisfied));
    assert_eq!(ev.definitely_satisfying_state_indices, vec![0, 1, 2]);
    assert_eq!(ev.possibly_satisfying_state_indices, vec![0, 1, 2]);
    assert_eq!(ev.initial[0].truth, BoundedMuTruth::True);
}

#[test]
fn cut_off_successors_leave_reachability_unknown() {
    let model = session_protocol().unwrap();
    let formula = parse_mu_formula("mu X. \"committed\" or diamond $X").unwrap();
    let ev = evaluate_mu_with_limits(&model, &formula, holds, two_states()).unwrap();
    assert_eq!(ev.outcome, BoundedOutcome::Inconclusive(InconclusiveReason::StateLimitReached { limit: 2 }));
    assert!(ev.definitely_satisfying_state_indices.is_empty());
    assert_eq!(ev.possibly_satisfying_state_indices, vec![0, 1]);
    assert_eq!(ev.initial[0].truth, BoundedMuTruth::Unknown);
    assert!(ev.fixpoint_iterations >= 1);
}

#[test]
fn retained_evidence_decides_despite_the_cutoff() {
    let model = session_protocol().unwrap();
    let yes = parse_mu_formula("diamond \"open\"").unwrap();
    let ev = evaluate_mu_with_limits(&model, &yes, holds, two_states()).unwrap();
    assert_eq!(ev.outcome, BoundedOutcome::Conclusive(BoundedMuStatus::Satisfied));
    let no = parse_mu_formula("box \"committed\"").unwrap();
    let ev = evaluate_mu_with_limits(&model, &no, holds, two_states()).unwrap();
    assert_eq!(ev.outcome, BoundedOutcome::Conclusive(BoundedMuStatus::Violated));
    assert_eq!(ev.initial[0].truth, BoundedMuTruth::False);
}

#[test]
fn unbound_variables_are_rejected_before_capture() {
    let model = session_protocol().unwrap();
    let formula = parse_mu_formula("diamond $Z").unwrap();
    match evaluate_mu_with_limits(&model, &formula, holds, two_states()) {
        Err(BoundedMuError::Validation(_)) => {},
        other => panic!("unexpected {other:?}"),
    }
}

#[test]
fn mu_definitely_satisfying_states_are_possibly_satisfying() {
    let model = session_protocol().unwrap();
    for text in ["not (mu X. \"open\" or box $X)", "nu X. \"closed\" and diamond $X", "\"closed\" or not \"open\""] {
        let formula = parse_mu_formula(text).unwrap();
        let ev = evaluate_mu_with_limits(&model, &formula, holds, two_states()).unwrap();
        for index in &ev.definitely_satisfying_state_indices {
            assert!(ev.possibly_satisfying_state_indices.contains(index));
        }
    }
}
