use formal_verification_lab::multi_response::MultiResponseStatus;
use formal_verification_lab::multi_response::MultiResponseCounterexample;
use formal_verification_lab::multi_response_examples::{dual_response_protocol, unfair_dual_response_protocol};
use formal_verification_lab::multi_temporal::{
    check_multi_response_temporal, parse_multi_response_temporal, ExactResponseClause,
    MultiResponseTemporalParseErrorKind, MultiResponseTemporalSpec, MultiResponseTemporalSpecError,
    ResponseActionRole,
};

const DUAL: &str = "# two independent request classes\nresponse(\"class-a\",\"request-a\",\"grant-a\")\n\n  response( \"class-b\" , \"request-b\" , \"grant-b\" )\n";

fn parse_error(input: &str) -> (usize, usize, MultiResponseTemporalParseErrorKind) {
    let error = parse_multi_response_temporal("p", input).unwrap_err();
    (error.line(), error.column(), error.kind().clone())
}

#[test]
fn document_with_comments_and_blank_lines_parses_in_order() {
    let spec = parse_multi_response_temporal("dual", DUAL).unwrap();
    assert_eq!(spec.name(), "dual");
    assert_eq!(spec.clauses().len(), 2);
    assert_eq!(spec.clauses()[0].name(), "class-a");
    assert_eq!(spec.clauses()[0].trigger(), "request-a");
    assert_eq!(spec.clauses()[0].response(), "grant-a");
    assert_eq!(spec.clauses()[1].name(), "class-b");
    assert_eq!(spec.clauses()[1].trigger(), "request-b");
    assert_eq!(spec.clauses()[1].response(), "grant-b");
    assert_eq!(
        spec.canonical_document(),
        "response(\"class-a\",\"request-a\",\"grant-a\")\nresponse(\"class-b\",\"request-b\",\"grant-b\")"
    );
}

#[test]
fn canonical_document_with_escapes_reads_back_unchanged() {
    let clauses = vec![
        ExactResponseClause::new("quote\"and\\slash", "tab\there", "line\nfeed").unwrap(),
        ExactResponseClause::new("plain", "go", "done").unwrap(),
    ];
    let spec = MultiResponseTemporalSpec::new("escaped", clauses).unwrap();
    let text = spec.canonical_document();
    assert_eq!(
        text,
        "response(\"quote\\\"and\\\\slash\",\"tab\\there\",\"line\\nfeed\")\nresponse(\"plain\",\"go\",\"done\")"
    );
    let back = parse_multi_response_temporal("escaped", &text).unwrap();
    assert_eq!(back, spec);
    assert_eq!(back.clone(), spec);
}

#[test]
fn syntax_errors_carry_line_and_byte_column() {
    assert_eq!(
        parse_error("  respond(\"a\",\"b\",\"c\")"),
        (1, 3, MultiResponseTemporalParseErrorKind::UnknownDirective { directive: "respond".to_string() })
    );
    assert_eq!(parse_error("response \"a\""), (1, 10, MultiResponseTemporalParseErrorKind::ExpectedOpenParen));
    assert_eq!(
        parse_error("response(\"a\",\"b\")"),
        (1, 17, MultiResponseTemporalParseErrorKind::WrongArity { expected: 3, actual: 2 })
    );
    assert_eq!(parse_error("response(\"a\",\"b\",\"c\") x"), (1, 23, MultiResponseTemporalParseErrorKind::TrailingInput));
    assert_eq!(
        parse_error("response(\"a\\q\",\"b\",\"c\")"),
        (1, 12, MultiResponseTemporalParseErrorKind::InvalidEscape { escape: "q".to_string() })
    );
    assert_eq!(parse_error("response(\"abc"), (1, 10, MultiResponseTemporalParseErrorKind::UnterminatedString));
    assert_eq!(parse_error("response(a)"), (1, 10, MultiResponseTemporalParseErrorKind::ExpectedString));
    assert_eq!(parse_error("response(\"a\" \"b\")"), (1, 14, MultiResponseTemporalParseErrorKind::ExpectedCommaOrClose));
    assert_eq!(parse_error("\n# c\n  (x"), (3, 3, MultiResponseTemporalParseErrorKind::ExpectedDirective));
}

#[test]
fn blank_parts_are_reported_at_their_argument() {
    assert_eq!(
        parse_error("response(\" \",\"b\",\"c\")"),
        (1, 10, MultiResponseTemporalParseErrorKind::Semantic(MultiResponseTemporalSpecError::EmptyClauseName))
    );
    assert_eq!(
        parse_error("response(\"a\",\"\",\"c\")"),
        (
            1,
            14,
            MultiResponseTemporalParseErrorKind::Semantic(MultiResponseTemporalSpecError::EmptyActionName {
                clause: "a".to_string(),
                role: ResponseActionRole::Trigger,
            })
        )
    );
}

#[test]
fn whole_specification_faults_are_reported_at_line_one() {
    assert_eq!(
        parse_error("# nothing here\n"),
        (1, 1, MultiResponseTemporalParseErrorKind::Semantic(MultiResponseTemporalSpecError::NoClauses))
    );
    assert_eq!(
        parse_error("response(\"a\",\"x\",\"y\")\nresponse(\"a\",\"z\",\"w\")"),
        (
            1,
            1,
            MultiResponseTemporalParseErrorKind::Semantic(MultiResponseTemporalSpecError::DuplicateClauseName {
                name: "a".to_string(),
            })
        )
    );
    let error = parse_multi_response_temporal(" ", "response(\"a\",\"x\",\"y\")").unwrap_err();
    assert_eq!(
        error.kind(),
        &MultiResponseTemporalParseErrorKind::Semantic(MultiResponseTemporalSpecError::EmptyPropertyName)
    );
}

#[test]
fn parse_error_messages_name_the_position_and_the_fault() {
    let error = parse_multi_response_temporal("p", "response(\"a\",\"b\")").unwrap_err();
    assert_eq!(
        error.message(),
        "multi-response temporal parse error at line 1, byte column 17: response directive expects 3 arguments but received 2"
    );
    let error = parse_multi_response_temporal("p", "response(\"a\",\"x\",\"y\")\nresponse(\"a\",\"z\",\"w\")").unwrap_err();
    assert_eq!(
        error.message(),
        "multi-response temporal parse error at line 1, byte column 1: duplicate response clause name 'a'"
    );
    let error = parse_multi_response_temporal("p", "response(\"a\\q\",\"b\",\"c\")").unwrap_err();
    assert_eq!(
        error.message(),
        "multi-response temporal parse error at line 1, byte column 12: unsupported string escape '\\q'"
    );
}

#[test]
fn compiled_property_keeps_the_names_in_order() {
    let spec = parse_multi_response_temporal("dual", DUAL).unwrap();
    let property = spec.to_property().unwrap();
    assert_eq!(property.name(), "dual");
    assert_eq!(property.clauses().len(), 2);
    assert_eq!(property.clauses()[0].name(), "class-a");
    assert_eq!(property.clauses()[1].name(), "class-b");
}

#[test]
fn textual_dual_response_is_satisfied_on_the_alternating_protocol() {
    let model = dual_response_protocol().unwrap();
    let spec = parse_multi_response_temporal("dual-request-response", DUAL).unwrap();
    let result = check_multi_response_temporal(&model, &spec).unwrap();
    assert_eq!(result.status, MultiResponseStatus::Satisfied);
    assert_eq!(result.property, "dual-request-response");
    assert_eq!(result.model_states, 4);
    assert_eq!(result.product_states, 4);
    assert_eq!(result.clause_count, 2);
}

#[test]
fn textual_dual_response_finds_the_stuttering_class() {
    let model = unfair_dual_response_protocol().unwrap();
    let spec = parse_multi_response_temporal("dual-request-response", DUAL).unwrap();
    let result = check_multi_response_temporal(&model, &spec).unwrap();
    assert_eq!(result.status, MultiResponseStatus::Violated);
    match result.counterexample {
        Some(MultiResponseCounterexample::Infinite { clause, .. }) => assert_eq!(clause, "class-b"),
        other => panic!("unexpected {other:?}"),
    }
}
