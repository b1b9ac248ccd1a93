use formal_verification_lab::declarative::{parse_declarative_document, parse_declarative_model, DeclarativeModelError};
use formal_verification_lab::declarative_ctl::{check_declarative_ctl_text, DeclarativeCtlError, DeclarativeCtlStatus};
use formal_verification_lab::declarative_mu::{check_declarative_mu_text, DeclarativeMuError, DeclarativeMuStatus};
use formal_verification_lab::model::{checked_transitions, ModelError, Transition};
use formal_verification_lab::mu_calculus::MuValidationError;

const TOGGLE: &str = "\
# a lamp with a switch
model \"toggle\"
state \"off\"
state \"on\"
initial \"off\"
edge \"off\" \"flip\" \"on\"
edge \"on\" \"flip\" \"off\"
edge \"on\" \"hold\" \"on\"
label \"on\" \"lit\"
label \"off\" \"dark\"
label \"on\" \"powered\"
label \"off\" \"powered\"
";

#[test]
fn document_keeps_model_metadata_and_declaration_order() {
    let doc = parse_declarative_document(TOGGLE).unwrap();
    assert_eq!(doc.model().name(), "toggle");
    assert_eq!(doc.model().initial_states(), &["off".to_owned()]);
    let next = doc.model().successors(&"on".to_owned()).unwrap();
    let pairs: Vec<(String, String)> = next.iter().map(|t| (t.action.clone(), t.next.clone())).collect();
    assert_eq!(pairs, vec![("flip".to_owned(), "off".to_owned()), ("hold".to_owned(), "on".to_owned())]);
    assert_eq!(doc.proposition_states("powered").unwrap(), &["on".to_owned(), "off".to_owned()]);
    assert!(doc.proposition_states("missing").is_none());
    assert!(doc.state_has_proposition("on", "lit"));
    assert!(!doc.state_has_proposition("off", "lit"));
}

#[test]
fn undeclared_state_has_no_successors() {
    let model = parse_declarative_model(TOGGLE).unwrap();
    let error = model.successors(&"dim".to_owned()).unwrap_err();
    assert_eq!(
        error,
        ModelError::TransitionGeneration { message: "state 'dim' is outside the declared model domain".to_owned() }
    );
}

#[test]
fn document_errors_name_line_and_culprit() {
    let base = "model \"m\"\nstate \"a\"\ninitial \"a\"\n";
    let cases: Vec<(String, DeclarativeModelError)> = vec![
        ("state \"a\"\ninitial \"a\"".to_owned(), DeclarativeModelError::MissingModel),
        (format!("{base}model \"n\""), DeclarativeModelError::DuplicateModel { line: 4 }),
        ("model \"  \"".to_owned(), DeclarativeModelError::EmptyModelName { line: 1 }),
        ("model \"m\"".to_owned(), DeclarativeModelError::NoStates),
        ("model \"m\"\nstate \"a\"".to_owned(), DeclarativeModelError::NoInitialStates),
        (format!("{base}state \"\""), DeclarativeModelError::EmptyStateName { line: 4 }),
        (format!("{base}state \"a\""), DeclarativeModelError::DuplicateState { line: 4, state: "a".to_owned() }),
        (format!("{base}initial \"a\""), DeclarativeModelError::DuplicateInitial { line: 4, state: "a".to_owned() }),
        (format!("{base}initial \"b\""), DeclarativeModelError::UnknownInitialState { line: 4, state: "b".to_owned() }),
        (format!("{base}edge \"a\" \" \" \"a\""), DeclarativeModelError::EmptyAction { line: 4 }),
        (
            format!("{base}edge \"a\" \"go\" \"a\"\nedge \"a\" \"go\" \"a\""),
            DeclarativeModelError::DuplicateEdge {
                line: 5,
                from: "a".to_owned(),
                action: "go".to_owned(),
                to: "a".to_owned(),
            },
        ),
        (format!("{base}edge \"x\" \"go\" \"a\""), DeclarativeModelError::UnknownEdgeSource { line: 4, state: "x".to_owned() }),
        (format!("{base}edge \"a\" \"go\" \"y\""), DeclarativeModelError::UnknownEdgeTarget { line: 4, state: "y".to_owned() }),
        (format!("{base}label \"a\" \"\""), DeclarativeModelError::EmptyProposition { line: 4 }),
        (format!("{base}label \"z\" \"p\""), DeclarativeModelError::UnknownLabelState { line: 4, state: "z".to_owned() }),
        (
            format!("{base}label \"a\" \"p\"\nlabel \"a\" \"p\""),
            DeclarativeModelError::DuplicateLabel { line: 5, state: "a".to_owned(), proposition: "p".to_owned() },
        ),
        (format!("{base}  \"a\""), DeclarativeModelError::ExpectedDirective { line: 4, column: 3 }),
        (format!("{base}bogus \"a\""), DeclarativeModelError::UnknownDirective { line: 4, directive: "bogus".to_owned() }),
        (format!("{base}state a"), DeclarativeModelError::ExpectedString { line: 4, column: 7 }),
        (format!("{base}state \"a"), DeclarativeModelError::UnterminatedString { line: 4, column: 7 }),
        (
            format!("{base}state \"a\\z\""),
            DeclarativeModelError::InvalidEscape { line: 4, column: 9, escape: "z".to_owned() },
        ),
        (
            format!("{base}edge \"a\" \"go\""),
            DeclarativeModelError::WrongArity { line: 4, directive: "edge".to_owned(), expected: 3, actual: 2 },
        ),
    ];
    for (input, expected) in cases {
        match parse_declarative_document(&input) {
            Err(error) => assert_eq!(error, expected, "{input}"),
            Ok(_) => panic!("accepted {input}"),
        }
    }
}

#[test]
fn document_error_messages_read_as_sentences() {
    let error = DeclarativeModelError::DuplicateEdge {
        line: 5,
        from: "a".to_owned(),
        action: "go".to_owned(),
        to: "b".to_owned(),
    };
    assert_eq!(error.message(), "duplicate edge 'a' --go--> 'b' at line 5");
    let error = DeclarativeModelError::WrongArity { line: 4, directive: "edge".to_owned(), expected: 3, actual: 2 };
    assert_eq!(error.message(), "directive 'edge' at line 4 expects 3 arguments but received 2");
    let error = DeclarativeModelError::InvalidEscape { line: 2, column: 9, escape: "z".to_owned() };
    assert_eq!(error.message(), "unsupported string escape '\\z' at line 2, column 9");
}

#[test]
fn ctl_queries_use_document_propositions() {
    let doc = parse_declarative_document(TOGGLE).unwrap();
    let result = check_declarative_ctl_text(&doc, "AG (\"lit\" or \"dark\")").unwrap();
    assert_eq!(result.status, DeclarativeCtlStatus::Satisfied);
    assert_eq!(result.formula, "AG ((\"lit\" or \"dark\"))");
    let result = check_declarative_ctl_text(&doc, "AG \"lit\"").unwrap();
    assert_eq!(result.status, DeclarativeCtlStatus::Violated);
    let result = check_declarative_ctl_text(&doc, "EF \"lit\" and AG \"powered\"").unwrap();
    assert_eq!(result.status, DeclarativeCtlStatus::Satisfied);
}

#[test]
fn ctl_queries_refuse_unknown_propositions_and_bad_text() {
    let doc = parse_declarative_document(TOGGLE).unwrap();
    match check_declarative_ctl_text(&doc, "EF \"lit\" or EF \"missing\"") {
        Err(DeclarativeCtlError::UnknownProposition { proposition }) => assert_eq!(proposition, "missing"),
        other => panic!("unexpected {other:?}"),
    }
    let error = check_declarative_ctl_text(&doc, "EF").unwrap_err();
    assert_eq!(error.message(), "CTL parse error at byte 2: expected a quoted proposition, true, false, not, CTL unary operator, until formula, or '('");
}

#[test]
fn mu_queries_use_document_propositions() {
    let doc = parse_declarative_document(TOGGLE).unwrap();
    let result = check_declarative_mu_text(&doc, "nu X. (\"powered\" and box ($X))").unwrap();
    assert_eq!(result.status, DeclarativeMuStatus::Satisfied);
    let result = check_declarative_mu_text(&doc, "mu X. (\"lit\" or diamond ($X))").unwrap();
    assert_eq!(result.status, DeclarativeMuStatus::Satisfied);
    let result = check_declarative_mu_text(&doc, "\"lit\"").unwrap();
    assert_eq!(result.status, DeclarativeMuStatus::Violated);
}

#[test]
fn mu_queries_refuse_invalid_formulas() {
    let doc = parse_declarative_document(TOGGLE).unwrap();
    match check_declarative_mu_text(&doc, "$Z") {
        Err(DeclarativeMuError::Validation(MuValidationError::UnboundVariable { variable })) => assert_eq!(variable, "Z"),
        other => panic!("unexpected {other:?}"),
    }
    match check_declarative_mu_text(&doc, "mu X. not $X") {
        Err(DeclarativeMuError::Validation(MuValidationError::NonMonotoneVariable { variable })) => {
            assert_eq!(variable, "X")
        },
        other => panic!("unexpected {other:?}"),
    }
    match check_declarative_mu_text(&doc, "diamond \"nowhere\"") {
        Err(DeclarativeMuError::UnknownProposition { proposition }) => assert_eq!(proposition, "nowhere"),
        other => panic!("unexpected {other:?}"),
    }
}

#[test]
fn declared_graph_gives_successors_in_line_order() {
    let input = "model \"m\"\ninitial \"a\"\nedge \"a\" \"go\" \"b\"\nstate \"a\"\nstate \"b\"";
    let doc = parse_declarative_document(input).unwrap();
    assert_eq!(doc.model().name(), "m");
    assert_eq!(doc.model().initial_states(), &["a".to_owned()]);
    assert_eq!(
        doc.model().successors(&"a".to_owned()).unwrap(),
        vec![Transition::new("go", "b".to_owned())]
    );
    assert_eq!(doc.model().successors(&"b".to_owned()).unwrap(), vec![]);
    assert_eq!(
        doc.successors(&"a".to_owned()).unwrap(),
        vec![Transition::new("go", "b".to_owned())]
    );
    assert_eq!(doc.successors(&"b".to_owned()).unwrap(), vec![]);
    assert!(matches!(
        doc.successors(&"c".to_owned()),
        Err(ModelError::TransitionGeneration { .. })
    ));
    assert!(matches!(
        doc.model().successors(&"c".to_owned()),
        Err(ModelError::TransitionGeneration { .. })
    ));
}

#[test]
fn declared_edges_keep_order_and_direction() {
    let input = "model \"m\"\nstate \"a\"\nstate \"b\"\nstate \"c\"\ninitial \"a\"\nedge \"a\" \"x\" \"c\"\nedge \"b\" \"y\" \"a\"\nedge \"a\" \"z\" \"b\"";
    let doc = parse_declarative_document(input).unwrap();
    assert_eq!(
        doc.successors(&"a".to_owned()).unwrap(),
        vec![
            Transition::new("x", "c".to_owned()),
            Transition::new("z", "b".to_owned())
        ]
    );
    assert_eq!(
        doc.successors(&"b".to_owned()).unwrap(),
        vec![Transition::new("y", "a".to_owned())]
    );
    assert_eq!(doc.successors(&"c".to_owned()).unwrap(), vec![]);
}

#[test]
fn checked_transitions_refuse_a_blank_action_and_keep_the_rest() {
    let ok = vec![
        Transition::new("a", 1u8),
        Transition::new("b", 2u8),
        Transition::new("a", 3u8),
    ];
    assert_eq!(checked_transitions(ok.clone()).unwrap(), ok);
    assert_eq!(
        checked_transitions(vec![Transition::new("a", 1u8), Transition::new("  ", 2u8)]),
        Err(ModelError::EmptyTransitionAction)
    );
    assert_eq!(checked_transitions(Vec::<Transition<u8>>::new()).unwrap(), vec![]);
}
