use formal_verification_lab::certificate_verification_job::{
    parse_certificate_verification_job, CertificateVerificationJobParseErrorKind,
};
use formal_verification_lab::ctl::CtlFormula;
use formal_verification_lab::ctl_parse::{parse_ctl_formula, render_ctl_formula, CtlParseErrorKind};
use formal_verification_lab::mu_calculus::MuFormula;
use formal_verification_lab::mu_parse::{parse_mu_formula, render_mu_formula, MuParseErrorKind};

fn atom(name: &str) -> CtlFormula<String> {
    CtlFormula::atom(name.to_owned())
}

#[test]
fn ctl_precedence_binds_not_then_and_then_or() {
    let parsed = parse_ctl_formula("\"a\" or \"b\" and not \"c\"").unwrap();
    let expected = CtlFormula::or(atom("a"), CtlFormula::and(atom("b"), CtlFormula::negate(atom("c"))));
    assert_eq!(parsed, expected);
}

#[test]
fn ctl_unary_operators_and_until_parse() {
    let parsed = parse_ctl_formula("AG (EF \"ready\") and E[\"a\" U \"b\"] or A[true U false]").unwrap();
    let expected = CtlFormula::or(
        CtlFormula::and(
            CtlFormula::ag(CtlFormula::ef(atom("ready"))),
            CtlFormula::eu(atom("a"), atom("b")),
        ),
        CtlFormula::au(CtlFormula::True, CtlFormula::False),
    );
    assert_eq!(parsed, expected);
}

#[test]
fn ctl_render_is_fully_parenthesized_and_parses_back() {
    let formula = CtlFormula::and(
        CtlFormula::ex(atom("quote\"d")),
        CtlFormula::eu(CtlFormula::negate(atom("a")), CtlFormula::ax(atom("b"))),
    );
    let text = render_ctl_formula(&formula);
    assert_eq!(text, "(EX (\"quote\\\"d\") and E[(not (\"a\")) U (AX (\"b\"))])");
    assert_eq!(parse_ctl_formula(&text).unwrap(), formula);
}

#[test]
fn ctl_errors_report_kind_and_byte_position() {
    let cases: Vec<(&str, usize, CtlParseErrorKind)> = vec![
        ("", 0, CtlParseErrorKind::ExpectedExpression),
        ("(\"a\"", 4, CtlParseErrorKind::ExpectedCloseParen),
        ("E \"a\"", 2, CtlParseErrorKind::ExpectedOpenBracket { quantifier: 'E' }),
        ("A[\"a\" X", 6, CtlParseErrorKind::ExpectedUntil),
        ("E[\"a\" U \"b\"", 11, CtlParseErrorKind::ExpectedCloseBracket),
        ("\"abc", 0, CtlParseErrorKind::UnterminatedString),
        ("\"a\\q\"", 2, CtlParseErrorKind::InvalidEscape { escape: "q".to_owned() }),
        ("\"  \"", 0, CtlParseErrorKind::EmptyProposition),
        ("true false", 5, CtlParseErrorKind::TrailingInput),
        ("\"\u{e9}\" x", 5, CtlParseErrorKind::TrailingInput),
    ];
    for (input, position, kind) in cases {
        let error = parse_ctl_formula(input).unwrap_err();
        assert_eq!(error.position(), position, "{input}");
        assert_eq!(error.kind(), &kind, "{input}");
    }
}

#[test]
fn ctl_keyword_needs_an_identifier_boundary() {
    let error = parse_ctl_formula("trueish").unwrap_err();
    assert_eq!(error.kind(), &CtlParseErrorKind::ExpectedExpression);
    assert_eq!(error.position(), 0);
}

#[test]
fn ctl_error_message_names_position_and_fault() {
    let error = parse_ctl_formula("true false").unwrap_err();
    assert_eq!(error.message(), "CTL parse error at byte 5: unexpected trailing input after CTL expression");
    let error = parse_ctl_formula("E \"a\"").unwrap_err();
    assert_eq!(error.message(), "CTL parse error at byte 2: expected '[' after 'E'");
}

#[test]
fn mu_binder_body_extends_as_far_as_possible() {
    let parsed = parse_mu_formula("mu X. \"p\" or diamond $X").unwrap();
    let expected = MuFormula::mu(
        "X".to_owned(),
        MuFormula::or(MuFormula::atom("p".to_owned()), MuFormula::diamond(MuFormula::var("X".to_owned()))),
    );
    assert_eq!(parsed, expected);
}

#[test]
fn mu_render_parses_back() {
    let formula = MuFormula::nu(
        "Y".to_owned(),
        MuFormula::and(MuFormula::boxed(MuFormula::var("Y".to_owned())), MuFormula::negate(MuFormula::atom("q".to_owned()))),
    );
    let text = render_mu_formula(&formula);
    assert_eq!(text, "nu Y. ((box ($Y) and not (\"q\")))");
    assert_eq!(parse_mu_formula(&text).unwrap(), formula);
}

#[test]
fn mu_errors_report_kind_and_byte_position() {
    let cases: Vec<(&str, usize, MuParseErrorKind)> = vec![
        ("", 0, MuParseErrorKind::ExpectedExpression),
        ("mu 1", 3, MuParseErrorKind::ExpectedVariable),
        ("mu X (", 5, MuParseErrorKind::ExpectedDot),
        ("$", 1, MuParseErrorKind::ExpectedVariable),
        ("(true", 5, MuParseErrorKind::ExpectedCloseParen),
        ("\"a", 0, MuParseErrorKind::UnterminatedString),
        ("\"\\x\"", 1, MuParseErrorKind::InvalidEscape { escape: "x".to_owned() }),
        ("\"\"", 0, MuParseErrorKind::EmptyProposition),
        ("true )", 5, MuParseErrorKind::TrailingInput),
    ];
    for (input, position, kind) in cases {
        let error = parse_mu_formula(input).unwrap_err();
        assert_eq!(error.position(), position, "{input}");
        assert_eq!(error.kind(), &kind, "{input}");
    }
}

#[test]
fn mu_error_message_names_position_and_fault() {
    let error = parse_mu_formula("mu X (").unwrap_err();
    assert_eq!(error.message(), "mu-calculus parse error at byte 5: expected '.' after fixpoint binder");
}

#[test]
fn job_manifest_parses_in_any_order_with_comments() {
    let job = parse_certificate_verification_job(
        "# a job\r\n  certificate \"c.json\"\r\n\nproperty \"p\\\\q.mu\"\nmodel   \"m\\\"x.fvl\"  \n",
    )
    .unwrap();
    assert_eq!(job.model_path(), "m\"x.fvl");
    assert_eq!(job.property_path(), "p\\q.mu");
    assert_eq!(job.certificate_path(), "c.json");
    assert_eq!(
        job.canonical_document(),
        "model \"m\\\"x.fvl\"\nproperty \"p\\\\q.mu\"\ncertificate \"c.json\""
    );
}

#[test]
fn job_canonical_document_parses_back_to_the_same_job() {
    let job = parse_certificate_verification_job("model \"a\\tb\"\nproperty \"\u{e9}\"\ncertificate \"x\\ny\"").unwrap();
    let again = parse_certificate_verification_job(&job.canonical_document()).unwrap();
    assert_eq!(again, job);
}

#[test]
fn job_errors_carry_line_column_and_kind() {
    let cases: Vec<(&str, usize, usize, CertificateVerificationJobParseErrorKind)> = vec![
        (
            "proof \"x\"",
            1,
            1,
            CertificateVerificationJobParseErrorKind::UnknownDirective { directive: "proof".to_owned() },
        ),
        (
            "model \"a\"\n  model \"b\"",
            2,
            3,
            CertificateVerificationJobParseErrorKind::DuplicateDirective { directive: "model".to_owned() },
        ),
        ("model a", 1, 7, CertificateVerificationJobParseErrorKind::ExpectedString),
        ("model \"a", 1, 7, CertificateVerificationJobParseErrorKind::UnterminatedString),
        ("model \"a\\q\"", 1, 10, CertificateVerificationJobParseErrorKind::InvalidEscape { escape: "q".to_owned() }),
        (
            "model \"\"",
            1,
            7,
            CertificateVerificationJobParseErrorKind::EmptyPath { directive: "model".to_owned() },
        ),
        ("model \"a\" x", 1, 11, CertificateVerificationJobParseErrorKind::TrailingInput),
        (
            "model \"a\"\nproperty \"b\"",
            1,
            1,
            CertificateVerificationJobParseErrorKind::MissingDirective { directive: "certificate".to_owned() },
        ),
        (
            "",
            1,
            1,
            CertificateVerificationJobParseErrorKind::MissingDirective { directive: "model".to_owned() },
        ),
        ("model \"\u{e9}\" x", 1, 12, CertificateVerificationJobParseErrorKind::TrailingInput),
    ];
    for (input, line, column, kind) in cases {
        let error = parse_certificate_verification_job(input).unwrap_err();
        assert_eq!(error.line(), line, "{input}");
        assert_eq!(error.column(), column, "{input}");
        assert_eq!(error.kind(), &kind, "{input}");
    }
}

#[test]
fn job_error_message_names_line_column_and_fault() {
    let error = parse_certificate_verification_job("model \"a\"\n  model \"b\"").unwrap_err();
    assert_eq!(
        error.message(),
        "certificate verification job parse error at line 2, byte column 3: duplicate singleton directive 'model'"
    );
}
