use formal_verification_lab::ctl::{
    CtlEvaluation, CtlEvidence, CtlEvidenceAction, CtlEvidenceStep, CtlInitialEvaluation, CtlTerminalPolicy,
};
use formal_verification_lab::declarative_ctl::{DeclarativeCtlResult, DeclarativeCtlStatus};
use formal_verification_lab::declarative_ctl_report::render_declarative_ctl_report;
use formal_verification_lab::declarative_mu::{DeclarativeMuResult, DeclarativeMuStatus};
use formal_verification_lab::declarative_mu_report::render_declarative_mu_report;
use formal_verification_lab::mu_calculus::{MuEvaluation, MuInitialEvaluation, MuTerminalPolicy};

fn mu_result(max_depth: Option<usize>) -> DeclarativeMuResult {
    DeclarativeMuResult {
        formula: "\"lit\"".to_owned(),
        status: DeclarativeMuStatus::Violated,
        evaluation: MuEvaluation {
            terminal_policy: MuTerminalPolicy::TotalizeWithSelfLoop,
            reachable_states: vec!["off".to_owned(), "on".to_owned()],
            satisfying_state_indices: vec![1],
            initial: vec![MuInitialEvaluation { state_index: 0, state: "off".to_owned(), satisfied: false }],
            discovered_states: 2,
            explored_transitions: 3,
            max_depth_reached: max_depth,
            fixpoint_iterations: 4,
        },
    }
}

#[test]
fn mu_report_lists_counts_and_initial_verdicts() {
    assert_eq!(
        render_declarative_mu_report("toggle", &mu_result(Some(1))),
        "model: toggle\n\
         formula: \"lit\"\n\
         MU: VIOLATED\n\
         initial semantics: all initial states must satisfy the formula\n\
         terminal policy: totalize reachable terminals with synthetic self-loops\n\
         discovered states: 2\n\
         explored transitions: 3\n\
         max depth reached: 1\n\
         fixpoint iterations: 4\n\
         satisfying states: 1/2\n\
         initial state 0: VIOLATED \"off\"\n"
    );
}

#[test]
fn mu_report_writes_none_for_an_unknown_depth() {
    let text = render_declarative_mu_report("toggle", &mu_result(None));
    assert!(text.contains("max depth reached: none\n"));
}

#[test]
fn ctl_report_renders_lasso_and_finite_evidence() {
    let result = DeclarativeCtlResult {
        formula: "EG (\"lit\")".to_owned(),
        status: DeclarativeCtlStatus::Satisfied,
        evaluation: CtlEvaluation {
            terminal_policy: CtlTerminalPolicy::TotalizeWithSelfLoop,
            reachable_states: vec!["a\"b".to_owned(), "end".to_owned()],
            satisfying_state_indices: vec![0, 1],
            initial: vec![
                CtlInitialEvaluation {
                    state_index: 0,
                    state: "a\"b".to_owned(),
                    satisfied: true,
                    evidence: Some(CtlEvidence::Lasso {
                        trace: vec![
                            CtlEvidenceStep { action: None, state: "a\"b".to_owned() },
                            CtlEvidenceStep {
                                action: Some(CtlEvidenceAction::Model("go".to_owned())),
                                state: "end".to_owned(),
                            },
                            CtlEvidenceStep { action: Some(CtlEvidenceAction::TerminalSelfLoop), state: "end".to_owned() },
                        ],
                        cycle_start: 1,
                    }),
                },
                CtlInitialEvaluation { state_index: 1, state: "end".to_owned(), satisfied: true, evidence: None },
            ],
            discovered_states: 2,
            explored_transitions: 1,
            max_depth_reached: None,
            memoized_subformulas: 2,
        },
    };
    assert_eq!(
        render_declarative_ctl_report("door", &result),
        "model: door\n\
         formula: EG (\"lit\")\n\
         CTL: SATISFIED\n\
         initial semantics: all initial states must satisfy the formula\n\
         terminal policy: totalize reachable terminals with synthetic self-loops\n\
         discovered states: 2\n\
         explored transitions: 1\n\
         max depth reached: none\n\
         memoized subformulas: 2\n\
         satisfying states: 2/2\n\
         initial state 0: SATISFIED \"a\\\"b\"\n  \
         evidence: LASSO\n  \
         cycle start trace index: 1\n    \
         [0] \"a\\\"b\" [initial]\n    \
         [1] --\"go\"--> \"end\"\n    \
         [2] --<terminal-self-loop>--> \"end\"\n\
         initial state 1: SATISFIED \"end\"\n  \
         evidence: none\n"
    );
}

#[test]
fn ctl_report_renders_finite_evidence() {
    let result = DeclarativeCtlResult {
        formula: "AX (\"lit\")".to_owned(),
        status: DeclarativeCtlStatus::Violated,
        evaluation: CtlEvaluation {
            terminal_policy: CtlTerminalPolicy::TotalizeWithSelfLoop,
            reachable_states: vec!["off".to_owned()],
            satisfying_state_indices: vec![],
            initial: vec![CtlInitialEvaluation {
                state_index: 0,
                state: "off".to_owned(),
                satisfied: false,
                evidence: Some(CtlEvidence::Finite {
                    trace: vec![CtlEvidenceStep { action: None, state: "off".to_owned() }],
                }),
            }],
            discovered_states: 1,
            explored_transitions: 0,
            max_depth_reached: Some(0),
            memoized_subformulas: 1,
        },
    };
    let text = render_declarative_ctl_report("lamp", &result);
    assert!(text.ends_with("initial state 0: VIOLATED \"off\"\n  evidence: FINITE\n    [0] \"off\" [initial]\n"));
    assert!(text.contains("CTL: VIOLATED\n"));
    assert!(text.contains("max depth reached: 0\n"));
}
