use formal_verification_lab::bounded::BoundedOutcome;
use formal_verification_lab::checker::ExplorationLimits;
use formal_verification_lab::fairness::WeakFairness;
use formal_verification_lab::monitor::{check_monitor, MonitorCounterexample, MonitorStatus};
use formal_verification_lab::monitor_examples::{
    invalid_double_open_protocol, open_terminal_protocol, session_monitor, session_protocol, step_session_monitor,
    stuck_committed_protocol, unfair_close_enabled_protocol, SessionMonitorState, SessionState,
};
use formal_verification_lab::monitor_fairness::{
    check_monitor_with_product_limits, check_monitor_with_weak_fairness,
    check_monitor_with_weak_fairness_and_product_limits,
};
use formal_verification_lab::multi_response_examples::{
    dual_response_protocol, dual_successors, unfair_dual_response_protocol, DualResponsePhase, DualResponseState,
};

#[test]
fn session_monitor_steps_follow_the_lifecycle() {
    assert_eq!(step_session_monitor(SessionMonitorState::Idle, "open"), SessionMonitorState::Open);
    assert_eq!(step_session_monitor(SessionMonitorState::Open, "tick"), SessionMonitorState::Open);
    assert_eq!(step_session_monitor(SessionMonitorState::Open, "commit"), SessionMonitorState::Committed);
    assert_eq!(step_session_monitor(SessionMonitorState::Committed, "close"), SessionMonitorState::Idle);
    assert_eq!(step_session_monitor(SessionMonitorState::Idle, "close"), SessionMonitorState::Rejected);
    assert_eq!(step_session_monitor(SessionMonitorState::Rejected, "open"), SessionMonitorState::Rejected);
}

#[test]
fn well_ordered_session_satisfies_the_monitor() {
    let model = session_protocol().unwrap();
    let monitor = session_monitor().unwrap();
    let result = check_monitor(&model, &monitor).unwrap();
    assert_eq!(result.status, MonitorStatus::Satisfied);
    assert_eq!(result.monitor, "ordered-session-lifecycle");
    assert_eq!(result.model_states, 3);
    assert_eq!(result.product_states, 3);
    assert_eq!(result.product_transitions, 3);
    assert!(result.counterexample.is_none());
}

#[test]
fn double_open_is_rejected_with_a_shortest_trace() {
    let model = invalid_double_open_protocol().unwrap();
    let monitor = session_monitor().unwrap();
    let result = check_monitor(&model, &monitor).unwrap();
    assert_eq!(result.status, MonitorStatus::Violated);
    match result.counterexample {
        Some(MonitorCounterexample::Rejecting { condition, trace }) => {
            assert_eq!(condition, "legal-action-order");
            assert_eq!(trace.len(), 3);
            assert_eq!(trace[0].action, None);
            assert_eq!(trace[1].action.as_deref(), Some("open"));
            assert_eq!(trace[2].action.as_deref(), Some("open"));
            assert_eq!(trace[2].state.state, SessionState::Committed);
            assert_eq!(trace[2].state.monitor, SessionMonitorState::Rejected);
        },
        other => panic!("unexpected {other:?}"),
    }
}

#[test]
fn stuck_commit_is_a_progress_cycle() {
    let model = stuck_committed_protocol().unwrap();
    let monitor = session_monitor().unwrap();
    let result = check_monitor(&model, &monitor).unwrap();
    match result.counterexample {
        Some(MonitorCounterexample::ProgressCycle { condition, stem, cycle }) => {
            assert_eq!(condition, "opened-session-eventually-closes");
            assert!(!stem.is_empty());
            assert!(cycle.len() >= 2);
        },
        other => panic!("unexpected {other:?}"),
    }
}

#[test]
fn weak_fairness_on_close_excuses_only_the_unfair_stutter() {
    let model = unfair_close_enabled_protocol().unwrap();
    let monitor = session_monitor().unwrap();
    let unfair = check_monitor(&model, &monitor).unwrap();
    assert_eq!(unfair.status, MonitorStatus::Violated);
    assert!(matches!(unfair.counterexample, Some(MonitorCounterexample::ProgressCycle { .. })));
    let fairness = WeakFairness::new(&["close"]).unwrap();
    let fair = check_monitor_with_weak_fairness(&model, &monitor, &fairness).unwrap();
    assert_eq!(fair.status, MonitorStatus::Satisfied);
    assert!(fair.counterexample.is_none());
}

#[test]
fn weak_fairness_does_not_excuse_a_true_terminal() {
    let model = open_terminal_protocol().unwrap();
    let monitor = session_monitor().unwrap();
    let fairness = WeakFairness::new(&["close", "commit"]).unwrap();
    let result = check_monitor_with_weak_fairness(&model, &monitor, &fairness).unwrap();
    match result.counterexample {
        Some(MonitorCounterexample::ProgressTerminal { condition, trace }) => {
            assert_eq!(condition, "opened-session-eventually-closes");
            assert_eq!(trace.last().unwrap().state.state, SessionState::Open);
        },
        other => panic!("unexpected {other:?}"),
    }
}

#[test]
fn empty_fairness_is_the_plain_monitor_check() {
    let model = stuck_committed_protocol().unwrap();
    let monitor = session_monitor().unwrap();
    let plain = check_monitor(&model, &monitor).unwrap();
    let fair = check_monitor_with_weak_fairness(&model, &monitor, &WeakFairness::none()).unwrap();
    assert_eq!(plain, fair);
}

#[test]
fn product_limits_leave_an_unfinished_check_inconclusive() {
    let model = session_protocol().unwrap();
    let monitor = session_monitor().unwrap();
    let limits = ExplorationLimits { max_states: Some(2), max_transitions: None, max_depth: None };
    let result = check_monitor_with_product_limits(&model, &monitor, limits).unwrap();
    assert!(matches!(result.outcome, BoundedOutcome::Inconclusive(_)));
    assert!(result.counterexample.is_none());
    let unbounded = ExplorationLimits { max_states: None, max_transitions: None, max_depth: None };
    let result = check_monitor_with_product_limits(&model, &monitor, unbounded).unwrap();
    assert_eq!(result.outcome, BoundedOutcome::Conclusive(MonitorStatus::Satisfied));
}

#[test]
fn a_retained_rejection_is_conclusive_under_limits() {
    let model = invalid_double_open_protocol().unwrap();
    let monitor = session_monitor().unwrap();
    let fairness = WeakFairness::new(&["close"]).unwrap();
    let limits = ExplorationLimits { max_states: Some(3), max_transitions: None, max_depth: None };
    let result = check_monitor_with_weak_fairness_and_product_limits(&model, &monitor, &fairness, limits).unwrap();
    assert_eq!(result.outcome, BoundedOutcome::Conclusive(MonitorStatus::Violated));
}

#[test]
fn dual_response_protocols_differ_only_in_b_stutter() {
    let fair = dual_response_protocol().unwrap();
    let unfair = unfair_dual_response_protocol().unwrap();
    assert_eq!(fair.name(), "dual-response");
    assert_eq!(unfair.name(), "dual-response-unfair-b");
    let await_b = DualResponseState { phase: DualResponsePhase::AwaitB };
    let fair_next = fair.successors(&await_b).unwrap();
    let unfair_next = unfair.successors(&await_b).unwrap();
    assert_eq!(fair_next.len(), 1);
    assert_eq!(fair_next[0].action, "grant-b");
    assert_eq!(unfair_next.len(), 2);
    assert_eq!(unfair_next[0].action, "wait-b");
    assert_eq!(unfair_next[0].next, await_b);
    let idle = dual_successors(&DualResponseState { phase: DualResponsePhase::Idle }, true).unwrap();
    assert_eq!(idle[0].action, "request-a");
}
