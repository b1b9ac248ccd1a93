use formal_verification_lab::buchi::{check_buchi, BuchiCounterexample, BuchiStatus, FiniteRunPolicy};
use formal_verification_lab::buchi_examples::{finite_quiet_run, pulse_automaton, unfair_second_pulse};
use formal_verification_lab::checker::TraceStep;
use formal_verification_lab::fairness::{
    check_buchi_with_weak_fairness, weakly_fair_cycle, FairnessError, WeakFairness,
};
use formal_verification_lab::graph::{induced_graph, ReachableGraph, SnapshotEdge};
use formal_verification_lab::recurrence::{component_is_cyclic, strongly_connected_components};
use std::collections::HashSet;

const N: usize = 2;
const EDGE_COUNT: usize = N * N;
const CODE_COUNT: usize = 4; // absent, fair-a, fair-b, other

fn decode(mut assignment: usize) -> [u8; EDGE_COUNT] {
    let mut codes = [0; EDGE_COUNT];
    for code in &mut codes {
        *code = (assignment % CODE_COUNT) as u8;
        assignment /= CODE_COUNT;
    }
    codes
}

fn action(code: u8) -> &'static str {
    match code {
        1 => "a",
        2 => "b",
        3 => "other",
        _ => unreachable!("absent edges have no action"),
    }
}

fn graph(codes: [u8; EDGE_COUNT]) -> ReachableGraph<usize> {
    let mut outgoing = vec![Vec::new(); N];
    for (from, edges) in outgoing.iter_mut().enumerate() {
        for to in 0..N {
            let code = codes[from * N + to];
            if code != 0 {
                edges.push(SnapshotEdge {
                    action: action(code).to_owned(),
                    target: to,
                });
            }
        }
    }
    ReachableGraph {
        states: (0..N).collect(),
        outgoing,
        initial_ids: vec![0],
    }
}

fn oracle_component_is_fair(
    full: &ReachableGraph<usize>,
    residual: &ReachableGraph<usize>,
    old_ids: &[usize],
    component: &[usize],
    fair_actions: &[&str],
) -> bool {
    let members = component.iter().copied().collect::<HashSet<_>>();
    fair_actions.iter().all(|action| {
        let has_disabled_state = component.iter().copied().any(|residual_id| {
            !full.outgoing[old_ids[residual_id]]
                .iter()
                .any(|edge| edge.action == *action)
        });
        let has_internal_taken_edge = component.iter().copied().any(|source| {
            residual.outgoing[source]
                .iter()
                .any(|edge| edge.action == *action && members.contains(&edge.target))
        });
        has_disabled_state || has_internal_taken_edge
    })
}

fn assert_real_closed_fair_cycle(
    full: &ReachableGraph<usize>,
    cycle: &[TraceStep<usize>],
    fair_actions: &[&str],
) {
    assert!(cycle.len() >= 2);
    assert_eq!(cycle.first().unwrap().state, cycle.last().unwrap().state);
    for pair in cycle.windows(2) {
        let action = pair[1].action.as_deref().expect("cycle edge action");
        assert!(full.outgoing[pair[0].state]
            .iter()
            .any(|edge| edge.action == action && edge.target == pair[1].state));
    }
    for action in fair_actions {
        let taken = cycle
            .iter()
            .skip(1)
            .any(|step| step.action.as_deref() == Some(*action));
        let disabled = cycle.iter().take(cycle.len() - 1).any(|step| {
            !full.outgoing[step.state]
                .iter()
                .any(|edge| edge.action == *action)
        });
        assert!(taken || disabled, "fair action {action} lacks a witness");
    }
}

#[test]
fn validates_exact_action_declarations_deterministically() {
    assert_eq!(
        WeakFairness::new(&[" "]).unwrap_err(),
        FairnessError::EmptyActionName
    );
    assert_eq!(
        WeakFairness::new(&["a", "b", "a"]).unwrap_err(),
        FairnessError::DuplicateAction {
            action: "a".to_owned()
        }
    );
    assert!(WeakFairness::none().is_empty());
    assert_eq!(
        WeakFairness::new(&["b", "a"]).unwrap().actions(),
        &["b".to_owned(), "a".to_owned()]
    );
}

#[test]
fn enabled_edge_leaving_residual_makes_stay_cycle_unfair() {
    let full = ReachableGraph {
        states: vec![0usize, 1],
        outgoing: vec![
            vec![
                SnapshotEdge {
                    action: "stay".to_owned(),
                    target: 0,
                },
                SnapshotEdge {
                    action: "fair".to_owned(),
                    target: 1,
                },
            ],
            vec![],
        ],
        initial_ids: vec![0],
    };
    let included = vec![true, false];
    let residual = induced_graph(&full, &included);
    let fairness = WeakFairness::new(&["fair"]).unwrap();
    assert!(weakly_fair_cycle(&full, &residual, &[0], &[0], &fairness)
        .unwrap()
        .is_none());
}

#[test]
fn disabled_recurrent_state_and_internal_fair_edge_both_admit_witnesses() {
    let disabled = ReachableGraph {
        states: vec![0usize, 1],
        outgoing: vec![
            vec![SnapshotEdge {
                action: "other".to_owned(),
                target: 1,
            }],
            vec![SnapshotEdge {
                action: "back".to_owned(),
                target: 0,
            }],
        ],
        initial_ids: vec![0],
    };
    let fairness = WeakFairness::new(&["fair"]).unwrap();
    let cycle = weakly_fair_cycle(&disabled, &disabled, &[0, 1], &[0, 1], &fairness)
        .unwrap()
        .unwrap();
    assert_real_closed_fair_cycle(&disabled, &cycle, &["fair"]);

    let taken = ReachableGraph {
        states: vec![0usize],
        outgoing: vec![vec![SnapshotEdge {
            action: "fair".to_owned(),
            target: 0,
        }]],
        initial_ids: vec![0],
    };
    let cycle = weakly_fair_cycle(&taken, &taken, &[0], &[0], &fairness)
        .unwrap()
        .unwrap();
    assert_real_closed_fair_cycle(&taken, &cycle, &["fair"]);
}

#[test]
fn generated_two_node_residuals_match_independent_weak_fairness_oracle() {
    let fair_configs: &[&[&str]] = &[&[], &["a"], &["b"], &["a", "b"]];
    for assignment in 0..CODE_COUNT.pow(EDGE_COUNT as u32) {
        let full = graph(decode(assignment));
        for subset in 1usize..(1usize << N) {
            let included = (0..N)
                .map(|node| subset & (1usize << node) != 0)
                .collect::<Vec<_>>();
            let old_ids = included
                .iter()
                .enumerate()
                .filter_map(|(id, included)| included.then_some(id))
                .collect::<Vec<_>>();
            let residual = induced_graph(&full, &included);
            for component in strongly_connected_components(&residual) {
                if !component_is_cyclic(&residual, &component) {
                    continue;
                }
                for fair_actions in fair_configs {
                    let fairness = WeakFairness::new(fair_actions).unwrap();
                    let witness =
                        weakly_fair_cycle(&full, &residual, &old_ids, &component, &fairness).unwrap();
                    let expected = oracle_component_is_fair(
                        &full,
                        &residual,
                        &old_ids,
                        &component,
                        fair_actions,
                    );
                    assert_eq!(
                        witness.is_some(),
                        expected,
                        "assignment={assignment} subset={subset} component={component:?} fairness={fair_actions:?}"
                    );
                    if let Some(cycle) = witness {
                        assert_real_closed_fair_cycle(&full, &cycle, fair_actions);
                    }
                }
            }
        }
    }
}

#[test]
fn empty_fairness_exactly_preserves_existing_buchi_results() {
    let fairness = WeakFairness::none();
    for model in [unfair_second_pulse().unwrap(), finite_quiet_run().unwrap()] {
        for policy in [
            FiniteRunPolicy::IgnoreTerminals,
            FiniteRunPolicy::RequireAcceptingTerminal,
        ] {
            let automaton = pulse_automaton(policy).unwrap();
            assert_eq!(
                check_buchi_with_weak_fairness(&model, &automaton, &fairness).unwrap(),
                check_buchi(&model, &automaton).unwrap()
            );
        }
    }
}

#[test]
fn weak_fair_pulse_b_excludes_the_unfair_acceptance_avoiding_loop() {
    let model = unfair_second_pulse().unwrap();
    let automaton = pulse_automaton(FiniteRunPolicy::IgnoreTerminals).unwrap();
    let ordinary = check_buchi(&model, &automaton).unwrap();
    assert_eq!(ordinary.status, BuchiStatus::Violated);

    let fairness = WeakFairness::new(&["pulse-b"]).unwrap();
    let fair = check_buchi_with_weak_fairness(&model, &automaton, &fairness).unwrap();
    assert_eq!(fair.status, BuchiStatus::Satisfied);
    assert!(fair.counterexample.is_none());
}

#[test]
fn fair_counterexample_itself_carries_the_required_taken_action() {
    let model = unfair_second_pulse().unwrap();
    let automaton = pulse_automaton(FiniteRunPolicy::IgnoreTerminals).unwrap();
    let fairness = WeakFairness::new(&["pulse-a"]).unwrap();
    let result = check_buchi_with_weak_fairness(&model, &automaton, &fairness).unwrap();
    assert_eq!(result.status, BuchiStatus::Violated);
    let Some(BuchiCounterexample::AcceptanceAvoidingCycle { cycle, .. }) = result.counterexample
    else {
        panic!("expected fair acceptance-avoiding cycle");
    };
    assert!(cycle
        .iter()
        .skip(1)
        .any(|step| step.action.as_deref() == Some("pulse-a")));
    assert_eq!(cycle.first().unwrap().state, cycle.last().unwrap().state);
}

#[test]
fn weak_fairness_does_not_change_strict_finite_terminal_policy() {
    let model = finite_quiet_run().unwrap();
    let automaton = pulse_automaton(FiniteRunPolicy::RequireAcceptingTerminal).unwrap();
    let fairness = WeakFairness::new(&["pulse-a", "pulse-b"]).unwrap();
    let result = check_buchi_with_weak_fairness(&model, &automaton, &fairness).unwrap();
    assert_eq!(result.status, BuchiStatus::Violated);
    assert!(matches!(
        result.counterexample,
        Some(BuchiCounterexample::FiniteTerminal { .. })
    ));
}
