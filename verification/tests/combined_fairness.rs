use formal_verification_lab::buchi::{
    check_buchi, check_buchi_with_weak_fairness, BuchiCounterexample, BuchiStatus, FiniteRunPolicy,
};
use formal_verification_lab::buchi_examples::{finite_quiet_run, pulse_automaton, unfair_second_pulse};
use formal_verification_lab::checker::ExplorationLimits;
use formal_verification_lab::combined_fairness::{
    check_buchi_with_fairness_profile, check_buchi_with_fairness_profile_and_product_limits,
    find_profile_buchi_counterexample, FairnessProfile, FairnessProfileError, StrongFairness,
    StrongFairnessError,
};
use formal_verification_lab::fairness::{FairnessError, Violation, WeakFairness};
use formal_verification_lab::graph::{ReachableGraph, SnapshotEdge};

fn edge(action: &str, target: usize) -> SnapshotEdge {
    SnapshotEdge {
        action: action.to_owned(),
        target,
    }
}

/// 0 and 1 alternate with `t`; `f` leaves 0 for the accepting sink 2.
fn intermittent_graph() -> ReachableGraph<usize> {
    ReachableGraph {
        states: vec![0, 1, 2],
        outgoing: vec![
            vec![edge("t", 1), edge("f", 2)],
            vec![edge("t", 0)],
            vec![edge("z", 2)],
        ],
        initial_ids: vec![0],
    }
}

fn sink_accepting() -> Vec<Vec<bool>> {
    vec![vec![false, false, true]]
}

fn names(actions: &[String]) -> Vec<&str> {
    actions.iter().map(String::as_str).collect()
}

#[test]
fn profile_keeps_declaration_order_and_overlap_only_as_strong() {
    let profile = FairnessProfile::new(&["c", "a", "b"], &["b", "d"]).unwrap();
    assert_eq!(names(profile.weak_actions()), vec!["c", "a"]);
    assert_eq!(names(profile.strong_actions()), vec!["b", "d"]);
    assert!(!profile.is_empty());
    assert!(FairnessProfile::none().is_empty());
    assert!(FairnessProfile::new(&[], &[]).unwrap().is_empty());
    let only_strong = FairnessProfile::new(&["x"], &["x"]).unwrap();
    assert!(only_strong.weak_actions().is_empty());
    assert_eq!(names(only_strong.strong_actions()), vec!["x"]);
}

#[test]
fn profile_reports_the_first_bad_declaration_of_each_class() {
    assert_eq!(
        FairnessProfile::new(&["a", " "], &["b"]).unwrap_err(),
        FairnessProfileError::Weak(FairnessError::EmptyActionName)
    );
    assert_eq!(
        FairnessProfile::new(&["a", "a"], &[""]).unwrap_err(),
        FairnessProfileError::Weak(FairnessError::DuplicateAction {
            action: "a".to_owned()
        })
    );
    assert_eq!(
        FairnessProfile::new(&["a"], &["\t"]).unwrap_err(),
        FairnessProfileError::Strong(StrongFairnessError::EmptyActionName)
    );
    assert_eq!(
        FairnessProfile::new(&["a"], &["b", "c", "b"]).unwrap_err(),
        FairnessProfileError::Strong(StrongFairnessError::DuplicateAction {
            action: "b".to_owned()
        })
    );
    assert_eq!(
        FairnessProfile::new(&["a"], &["b", "b"]).unwrap_err().message(),
        "invalid strong-fair assumption: duplicate strong-fair action 'b'"
    );
    assert_eq!(
        FairnessProfile::new(&[""], &[]).unwrap_err().message(),
        "invalid weak-fair assumption: weak-fair action name must not be empty"
    );
}

#[test]
fn strong_fairness_validates_like_weak_fairness() {
    assert_eq!(
        names(StrongFairness::new(&["b", "a"]).unwrap().actions()),
        vec!["b", "a"]
    );
    assert!(StrongFairness::none().is_empty());
    assert_eq!(
        StrongFairness::new(&[" "]).unwrap_err().message(),
        "strong-fair action name must not be empty"
    );
}

#[test]
fn intermittently_enabled_action_separates_weak_from_strong_fairness() {
    let g = intermittent_graph();
    let member = sink_accepting();
    let known_terminal = vec![false, false, false];

    let none = FairnessProfile::none();
    let plain = find_profile_buchi_counterexample(&g, &g, &known_terminal, &member, false, &none).unwrap();
    assert!(matches!(plain, Some(Violation::Lasso { set: 0, entry: 0, .. })));

    let weak = FairnessProfile::new(&["f"], &[]).unwrap();
    let weak_result = find_profile_buchi_counterexample(&g, &g, &known_terminal, &member, false, &weak).unwrap();
    assert!(matches!(weak_result, Some(Violation::Lasso { set: 0, .. })));

    let strong = FairnessProfile::new(&[], &["f"]).unwrap();
    let strong_result =
        find_profile_buchi_counterexample(&g, &g, &known_terminal, &member, false, &strong).unwrap();
    assert!(strong_result.is_none());
}

#[test]
fn strong_fair_cycle_takes_the_enabled_strong_action() {
    let g = intermittent_graph();
    let member = sink_accepting();
    let known_terminal = vec![false, false, false];
    let profile = FairnessProfile::new(&["f"], &["t"]).unwrap();
    let found = find_profile_buchi_counterexample(&g, &g, &known_terminal, &member, false, &profile).unwrap();
    let Some(Violation::Lasso { set, entry, stem, cycle }) = found else {
        panic!("expected a mixed-fair lasso");
    };
    assert_eq!((set, entry), (0, 0));
    assert_eq!(stem.len(), 1);
    assert_eq!(stem[0].state, 0);
    assert!(cycle.len() >= 2);
    assert_eq!(cycle.first().unwrap().state, cycle.last().unwrap().state);
    assert!(cycle.iter().skip(1).any(|step| step.action.as_deref() == Some("t")));
    assert!(cycle.iter().all(|step| step.state != 2));
}

#[test]
fn strict_policy_reports_terminals_before_cycles() {
    let g = ReachableGraph {
        states: vec![0usize, 1],
        outgoing: vec![vec![edge("go", 1)], vec![]],
        initial_ids: vec![0],
    };
    let member = vec![vec![true, false]];
    let profile = FairnessProfile::new(&["go"], &["go2"]).unwrap();
    let found = find_profile_buchi_counterexample(&g, &g, &[false, true], &member, true, &profile).unwrap();
    let Some(Violation::Terminal { set, node, trace }) = found else {
        panic!("expected a terminal violation");
    };
    assert_eq!((set, node), (0, 1));
    assert_eq!(trace.len(), 2);
    assert!(find_profile_buchi_counterexample(&g, &g, &[false, true], &member, false, &profile)
        .unwrap()
        .is_none());
}

#[test]
fn mismatched_frames_are_refused() {
    let g = intermittent_graph();
    let profile = FairnessProfile::new(&[], &["f"]).unwrap();
    assert!(find_profile_buchi_counterexample(&g, &g, &[false], &sink_accepting(), false, &profile).is_err());
}

#[test]
fn profile_without_strong_actions_is_the_weak_check() {
    let model = unfair_second_pulse().unwrap();
    for policy in [
        FiniteRunPolicy::IgnoreTerminals,
        FiniteRunPolicy::RequireAcceptingTerminal,
    ] {
        let automaton = pulse_automaton(policy).unwrap();
        for weak in [&[][..], &["pulse-a"][..], &["pulse-b"][..]] {
            let profile = FairnessProfile::new(weak, &[]).unwrap();
            let fairness = WeakFairness::new(weak).unwrap();
            assert_eq!(
                check_buchi_with_fairness_profile(&model, &automaton, &profile).unwrap(),
                check_buchi_with_weak_fairness(&model, &automaton, &fairness).unwrap()
            );
        }
        assert_eq!(
            check_buchi_with_fairness_profile(&model, &automaton, &FairnessProfile::none()).unwrap(),
            check_buchi(&model, &automaton).unwrap()
        );
    }
}

#[test]
fn strong_pulse_b_excludes_the_forever_a_loop() {
    let model = unfair_second_pulse().unwrap();
    let automaton = pulse_automaton(FiniteRunPolicy::IgnoreTerminals).unwrap();
    let strong = FairnessProfile::new(&[], &["pulse-b"]).unwrap();
    let result = check_buchi_with_fairness_profile(&model, &automaton, &strong).unwrap();
    assert_eq!(result.status, BuchiStatus::Satisfied);
    assert!(result.counterexample.is_none());

    let mixed = FairnessProfile::new(&["pulse-a"], &["pulse-b"]).unwrap();
    let result = check_buchi_with_fairness_profile(&model, &automaton, &mixed).unwrap();
    assert_eq!(result.status, BuchiStatus::Satisfied);
}

#[test]
fn strong_pulse_a_keeps_the_violation_and_takes_pulse_a() {
    let model = unfair_second_pulse().unwrap();
    let automaton = pulse_automaton(FiniteRunPolicy::IgnoreTerminals).unwrap();
    let profile = FairnessProfile::new(&[], &["pulse-a"]).unwrap();
    let result = check_buchi_with_fairness_profile(&model, &automaton, &profile).unwrap();
    assert_eq!(result.status, BuchiStatus::Violated);
    let Some(BuchiCounterexample::AcceptanceAvoidingCycle { cycle, .. }) = result.counterexample else {
        panic!("expected an acceptance-avoiding cycle");
    };
    assert!(cycle
        .iter()
        .skip(1)
        .any(|step| step.action.as_deref() == Some("pulse-a")));
    assert_eq!(cycle.first().unwrap().state, cycle.last().unwrap().state);
}

#[test]
fn profile_keeps_the_strict_finite_terminal_policy() {
    let model = finite_quiet_run().unwrap();
    let automaton = pulse_automaton(FiniteRunPolicy::RequireAcceptingTerminal).unwrap();
    let profile = FairnessProfile::new(&["pulse-a"], &["pulse-b"]).unwrap();
    let result = check_buchi_with_fairness_profile(&model, &automaton, &profile).unwrap();
    assert_eq!(result.status, BuchiStatus::Violated);
    assert!(matches!(
        result.counterexample,
        Some(BuchiCounterexample::FiniteTerminal { .. })
    ));
}

#[test]
fn product_limits_keep_retained_violations_and_stay_inconclusive_otherwise() {
    let model = unfair_second_pulse().unwrap();
    let automaton = pulse_automaton(FiniteRunPolicy::IgnoreTerminals).unwrap();
    let strong_a = FairnessProfile::new(&[], &["pulse-a"]).unwrap();
    let unbounded = check_buchi_with_fairness_profile_and_product_limits(
        &model,
        &automaton,
        &strong_a,
        ExplorationLimits::unbounded(),
    )
    .unwrap();
    assert!(unbounded.counterexample.is_some());

    let strong_b = FairnessProfile::new(&[], &["pulse-b"]).unwrap();
    let cut = check_buchi_with_fairness_profile_and_product_limits(
        &model,
        &automaton,
        &strong_b,
        ExplorationLimits {
            max_states: Some(1),
            ..ExplorationLimits::unbounded()
        },
    )
    .unwrap();
    assert!(cut.counterexample.is_none());
    assert!(cut.outcome.inconclusive_reason().is_some());
}
