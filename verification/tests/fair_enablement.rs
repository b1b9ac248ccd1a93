use formal_verification_lab::fair_enablement::{bounded_enablement_graph, complete_enablement_graph};
use formal_verification_lab::fairness::WeakFairness;
use formal_verification_lab::graph::{ReachableGraph, SnapshotEdge};

#[derive(Debug, Clone, PartialEq, Eq)]
struct ProductState {
    model: usize,
}

fn model_graph() -> ReachableGraph<usize> {
    ReachableGraph {
        states: vec![0, 1],
        outgoing: vec![vec![SnapshotEdge { action: "fair".to_owned(), target: 1 }], Vec::new()],
        initial_ids: vec![0],
    }
}

fn product_graph() -> ReachableGraph<ProductState> {
    ReachableGraph {
        states: vec![ProductState { model: 0 }, ProductState { model: 1 }],
        outgoing: vec![Vec::new(), Vec::new()],
        initial_ids: vec![0],
    }
}

#[test]
fn complete_projection_uses_model_enablement_not_retained_product_edges() {
    let projected = complete_enablement_graph(&model_graph(), &product_graph(), |state| &state.model).unwrap();

    assert_eq!(projected.outgoing[0].len(), 1);
    assert_eq!(projected.outgoing[0][0].action, "fair");
    assert!(projected.outgoing[1].is_empty());
}

#[test]
fn unknown_bounded_enablement_conservatively_keeps_every_fair_action_enabled() {
    let fairness = WeakFairness::new(&["fair", "other"]).unwrap();
    let projected = bounded_enablement_graph(
        &model_graph(),
        &[None, Some(Vec::new())],
        &product_graph(),
        &fairness,
        |state| &state.model,
    )
    .unwrap();

    assert_eq!(
        projected.outgoing[0].iter().map(|edge| edge.action.as_str()).collect::<Vec<_>>(),
        vec!["fair", "other"]
    );
    assert!(projected.outgoing[1].is_empty());
}

#[test]
fn projection_keeps_product_states_roots_and_self_targets() {
    let projected = complete_enablement_graph(&model_graph(), &product_graph(), |state| &state.model).unwrap();
    assert_eq!(projected.states, product_graph().states);
    assert_eq!(projected.initial_ids, vec![0]);
    assert_eq!(projected.outgoing[0][0].target, 0);
}

#[test]
fn known_bounded_enablement_is_used_as_is() {
    let fairness = WeakFairness::new(&["fair"]).unwrap();
    let projected = bounded_enablement_graph(
        &model_graph(),
        &[Some(vec!["step".to_owned()]), None],
        &product_graph(),
        &fairness,
        |state| &state.model,
    )
    .unwrap();
    assert_eq!(projected.outgoing[0].len(), 1);
    assert_eq!(projected.outgoing[0][0].action, "step");
    assert_eq!(projected.outgoing[0][0].target, 0);
    assert_eq!(projected.outgoing[1].len(), 1);
    assert_eq!(projected.outgoing[1][0].action, "fair");
    assert_eq!(projected.outgoing[1][0].target, 1);
}

#[test]
fn unmatched_projection_or_short_table_gives_nothing() {
    let fairness = WeakFairness::new(&["fair"]).unwrap();
    let stray = ReachableGraph {
        states: vec![ProductState { model: 7 }],
        outgoing: vec![Vec::new()],
        initial_ids: vec![0],
    };
    assert!(complete_enablement_graph(&model_graph(), &stray, |state| &state.model).is_none());
    assert!(bounded_enablement_graph(&model_graph(), &[None], &product_graph(), &fairness, |state| &state.model)
        .is_none());
}
