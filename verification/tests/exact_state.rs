use formal_verification_lab::exact_state::{
    parse_exact_state_property, ExactStateError, ExactStateParseErrorKind, ExactStatePropertySpec,
};

fn fault(input: &str) -> (usize, ExactStateParseErrorKind) {
    let error = parse_exact_state_property("p", input).err().unwrap();
    (error.position(), error.kind().clone())
}

#[test]
fn parses_both_exact_state_forms() {
    let spec = parse_exact_state_property("goal", "reachable(\"s1\")").unwrap();
    assert_eq!(spec.name(), "goal");
    assert_eq!(spec.target(), "s1");
    assert_eq!(spec.canonical_expression(), "reachable(\"s1\")");
    let spec = parse_exact_state_property("done", "  all-eventually ( \"a\\\"b\\n\" )  ").unwrap();
    assert_eq!(spec.target(), "a\"b\n");
    assert_eq!(spec.canonical_expression(), "all-eventually(\"a\\\"b\\n\")");
    assert_eq!(spec, ExactStatePropertySpec::all_eventually("done", "a\"b\n").unwrap());
}

#[test]
fn canonical_expressions_parse_back_to_the_same_property() {
    let specs = vec![
        ExactStatePropertySpec::reachable("r", "idle").unwrap(),
        ExactStatePropertySpec::all_eventually("e", "tab\there \\ \"quoted\"\r").unwrap(),
        ExactStatePropertySpec::reachable("u", "état").unwrap(),
    ];
    for spec in specs {
        let text = spec.canonical_expression();
        assert_eq!(parse_exact_state_property(spec.name(), &text).unwrap(), spec);
    }
}

#[test]
fn constructors_reject_blank_fields() {
    assert_eq!(ExactStatePropertySpec::reachable(" ", "x").err(), Some(ExactStateError::EmptyPropertyName));
    assert_eq!(ExactStatePropertySpec::all_eventually("p", "\t").err(), Some(ExactStateError::EmptyTargetState));
    assert_eq!(ExactStateError::EmptyTargetState.message(), "exact-state target must not be empty");
}

#[test]
fn malformed_expressions_report_the_fault_and_its_byte_offset() {
    assert_eq!(fault(""), (0, ExactStateParseErrorKind::ExpectedOperator));
    assert_eq!(fault("  7"), (2, ExactStateParseErrorKind::ExpectedOperator));
    assert_eq!(
        fault("reach(\"x\")"),
        (0, ExactStateParseErrorKind::UnknownOperator { operator: "reach".to_string() })
    );
    assert_eq!(fault("reachable \"x\""), (10, ExactStateParseErrorKind::ExpectedOpenParen));
    assert_eq!(fault("reachable(x)"), (10, ExactStateParseErrorKind::ExpectedString));
    assert_eq!(fault("reachable(\"x"), (10, ExactStateParseErrorKind::UnterminatedString));
    assert_eq!(fault("reachable(\"x\\"), (10, ExactStateParseErrorKind::UnterminatedString));
    assert_eq!(
        fault("reachable(\"a\\qb\")"),
        (12, ExactStateParseErrorKind::InvalidEscape { escape: "q".to_string() })
    );
    assert_eq!(fault("reachable(\"a\" \"b\")"), (14, ExactStateParseErrorKind::ExpectedCommaOrClose));
    assert_eq!(
        fault("reachable(\"a\",\"b\")"),
        (17, ExactStateParseErrorKind::WrongArity { operator: "reachable".to_string(), expected: 1, actual: 2 })
    );
    assert_eq!(
        fault("all-eventually( )"),
        (16, ExactStateParseErrorKind::WrongArity { operator: "all-eventually".to_string(), expected: 1, actual: 0 })
    );
    assert_eq!(fault("reachable(\"a\") x"), (15, ExactStateParseErrorKind::TrailingInput));
    assert_eq!(fault("reachable(\"é\" x)"), (15, ExactStateParseErrorKind::ExpectedCommaOrClose));
    assert_eq!(fault("reachable(\" \")"), (0, ExactStateParseErrorKind::Semantic(ExactStateError::EmptyTargetState)));
    let error = parse_exact_state_property("", " reachable(\"x\")").err().unwrap();
    assert_eq!(error.position(), 1);
    assert_eq!(error.kind(), &ExactStateParseErrorKind::Semantic(ExactStateError::EmptyPropertyName));
}

#[test]
fn parse_error_messages_name_the_fault() {
    let error = parse_exact_state_property("p", "reachable(\"a\",\"b\")").err().unwrap();
    assert_eq!(
        error.message(),
        "exact-state parse error at byte 17: operator 'reachable' expects 1 arguments but received 2"
    );
    let error = parse_exact_state_property("p", "reachable(\"a\\qb\")").err().unwrap();
    assert_eq!(error.message(), "exact-state parse error at byte 12: unsupported string escape '\\q'");
    let error = parse_exact_state_property("p", "nope").err().unwrap();
    assert_eq!(error.message(), "exact-state parse error at byte 0: unsupported exact-state operator 'nope'");
}
