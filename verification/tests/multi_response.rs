use formal_verification_lab::bounded::BoundedOutcome;
use formal_verification_lab::checker::{ExplorationLimits, InconclusiveReason};
use formal_verification_lab::fairness::WeakFairness;
use formal_verification_lab::monitor_examples::{open_terminal_protocol, SessionState};
use formal_verification_lab::multi_response::{
    check_multi_response, check_multi_response_with_product_limits, check_multi_response_with_weak_fairness,
    check_multi_response_with_weak_fairness_and_product_limits, MultiResponseCounterexample, MultiResponseError,
    MultiResponseProperty, MultiResponseStatus, ResponseClause,
};
use formal_verification_lab::multi_response_examples::{
    dual_response_protocol, unfair_dual_response_protocol, DualResponsePhase,
};

fn dual_property() -> MultiResponseProperty {
    MultiResponseProperty::new(
        "dual-request-response",
        vec![
            ResponseClause::new("class-a", |action| action == "request-a", |action| action == "grant-a").unwrap(),
            ResponseClause::new("class-b", |action| action == "request-b", |action| action == "grant-b").unwrap(),
        ],
    )
    .unwrap()
}

#[test]
fn alternating_pending_clauses_are_each_discharged() {
    let model = dual_response_protocol().unwrap();
    let result = check_multi_response(&model, &dual_property()).unwrap();
    assert_eq!(result.status, MultiResponseStatus::Satisfied);
    assert_eq!(result.property, "dual-request-response");
    assert_eq!(result.model_states, 4);
    assert_eq!(result.product_states, 4);
    assert_eq!(result.product_transitions, 4);
    assert_eq!(result.clause_count, 2);
    assert!(result.counterexample.is_none());
}

#[test]
fn stuttering_class_b_violates_its_own_clause() {
    let model = unfair_dual_response_protocol().unwrap();
    let result = check_multi_response(&model, &dual_property()).unwrap();
    assert_eq!(result.status, MultiResponseStatus::Violated);
    match result.counterexample {
        Some(MultiResponseCounterexample::Infinite { clause, stem, cycle }) => {
            assert_eq!(clause, "class-b");
            assert_eq!(stem.len(), 4);
            assert_eq!(stem[3].state.state.phase, DualResponsePhase::AwaitB);
            assert_eq!(stem[3].state.pending, vec![false, true]);
            assert_eq!(cycle.len(), 2);
            assert_eq!(cycle[1].action.as_deref(), Some("wait-b"));
            assert_eq!(cycle[1].state.pending, vec![false, true]);
        },
        other => panic!("unexpected {other:?}"),
    }
}

#[test]
fn weak_fairness_on_the_grant_excuses_the_stutter() {
    let model = unfair_dual_response_protocol().unwrap();
    let fairness = WeakFairness::new(&["grant-b"]).unwrap();
    let result = check_multi_response_with_weak_fairness(&model, &dual_property(), &fairness).unwrap();
    assert_eq!(result.status, MultiResponseStatus::Satisfied);
    assert!(result.counterexample.is_none());
}

#[test]
fn unrelated_fairness_keeps_the_violation() {
    let model = unfair_dual_response_protocol().unwrap();
    let fairness = WeakFairness::new(&["grant-a"]).unwrap();
    let result = check_multi_response_with_weak_fairness(&model, &dual_property(), &fairness).unwrap();
    assert_eq!(result.status, MultiResponseStatus::Violated);
    match result.counterexample {
        Some(MultiResponseCounterexample::Infinite { clause, .. }) => assert_eq!(clause, "class-b"),
        other => panic!("unexpected {other:?}"),
    }
}

#[test]
fn empty_fairness_matches_the_plain_multi_response_check() {
    let model = unfair_dual_response_protocol().unwrap();
    let plain = check_multi_response(&model, &dual_property()).unwrap();
    let fair = check_multi_response_with_weak_fairness(&model, &dual_property(), &WeakFairness::none()).unwrap();
    assert_eq!(plain, fair);
}

#[test]
fn pending_terminal_is_a_finite_violation_even_under_fairness() {
    let model = open_terminal_protocol().unwrap();
    let property = MultiResponseProperty::new(
        "open-close",
        vec![ResponseClause::new("closed-after-open", |action| action == "open", |action| action == "close").unwrap()],
    )
    .unwrap();
    let fairness = WeakFairness::new(&["close"]).unwrap();
    let result = check_multi_response_with_weak_fairness(&model, &property, &fairness).unwrap();
    assert_eq!(result.status, MultiResponseStatus::Violated);
    match result.counterexample {
        Some(MultiResponseCounterexample::Finite { clause, trace }) => {
            assert_eq!(clause, "closed-after-open");
            assert_eq!(trace.len(), 2);
            assert_eq!(trace[1].action.as_deref(), Some("open"));
            assert_eq!(trace[1].state.state, SessionState::Open);
            assert_eq!(trace[1].state.pending, vec![true]);
        },
        other => panic!("unexpected {other:?}"),
    }
}

#[test]
fn product_limits_leave_an_unfinished_product_inconclusive() {
    let model = dual_response_protocol().unwrap();
    let limits = ExplorationLimits { max_states: Some(2), max_transitions: None, max_depth: None };
    let result = check_multi_response_with_product_limits(&model, &dual_property(), limits).unwrap();
    assert_eq!(result.outcome, BoundedOutcome::Inconclusive(InconclusiveReason::StateLimitReached { limit: 2 }));
    assert_eq!(result.product_states, 2);
    assert!(result.counterexample.is_none());
    let complete = check_multi_response_with_product_limits(&model, &dual_property(), ExplorationLimits::unbounded())
        .unwrap();
    assert_eq!(complete.outcome, BoundedOutcome::Conclusive(MultiResponseStatus::Satisfied));
    assert_eq!(complete.checked_product_states, 4);
}

#[test]
fn retained_pending_cycle_is_conclusive_under_product_limits() {
    let model = unfair_dual_response_protocol().unwrap();
    let limits = ExplorationLimits { max_states: Some(4), max_transitions: None, max_depth: None };
    let fairness = WeakFairness::new(&["grant-a"]).unwrap();
    let result =
        check_multi_response_with_weak_fairness_and_product_limits(&model, &dual_property(), &fairness, limits).unwrap();
    assert_eq!(result.outcome, BoundedOutcome::Conclusive(MultiResponseStatus::Violated));
    assert_eq!(result.clause_count, 2);
}

#[test]
fn property_and_clause_names_are_validated() {
    assert_eq!(ResponseClause::new("  ", |_action| true, |_action| false).err(), Some(MultiResponseError::EmptyClauseName));
    assert_eq!(MultiResponseProperty::new("", Vec::new()).err(), Some(MultiResponseError::EmptyPropertyName));
    assert_eq!(MultiResponseProperty::new("p", Vec::new()).err(), Some(MultiResponseError::NoClauses));
    let clauses = vec![
        ResponseClause::new("x", |_action| true, |_action| false).unwrap(),
        ResponseClause::new("y", |_action| true, |_action| false).unwrap(),
        ResponseClause::new("x", |_action| true, |_action| false).unwrap(),
    ];
    let error = MultiResponseProperty::new("p", clauses).err().unwrap();
    assert_eq!(error, MultiResponseError::DuplicateClauseName { name: "x".to_string() });
    assert_eq!(error.message(), "duplicate response clause name 'x'");
    assert_eq!(MultiResponseError::NoClauses.message(), "multi-response property requires at least one clause");
    let property = dual_property();
    assert_eq!(property.name(), "dual-request-response");
    let names: Vec<&str> = property.clauses().iter().map(|c| c.name()).collect();
    assert_eq!(names, vec!["class-a", "class-b"]);
}
