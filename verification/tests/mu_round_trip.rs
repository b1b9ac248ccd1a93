use formal_verification_lab::mu_calculus::MuFormula;
use formal_verification_lab::mu_parse::{parse_mu_formula, render_mu_formula};

fn atom(a: &str) -> MuFormula<String, String> {
    MuFormula::Atom(a.to_owned())
}

fn var(x: &str) -> MuFormula<String, String> {
    MuFormula::Var(x.to_owned())
}

#[test]
fn nested_binders_read_back_unchanged() {
    let formula = MuFormula::nu(
        "X".to_owned(),
        MuFormula::and(
            atom("safe \"zone\""),
            MuFormula::boxed(MuFormula::mu(
                "Y_2".to_owned(),
                MuFormula::or(atom("goal"), MuFormula::diamond(MuFormula::negate(var("Y_2")))),
            )),
        ),
    );
    let text = render_mu_formula(&formula);
    assert_eq!(text, "nu X. ((\"safe \\\"zone\\\"\" and box (mu Y_2. ((\"goal\" or diamond (not ($Y_2)))))))");
    assert_eq!(parse_mu_formula(&text).unwrap(), formula);
}

#[test]
fn binder_on_the_right_of_a_conjunction_reads_back() {
    let formula = MuFormula::and(MuFormula::True, MuFormula::mu("X".to_owned(), var("X")));
    let text = render_mu_formula(&formula);
    assert_eq!(text, "(true and mu X. ($X))");
    assert_eq!(parse_mu_formula(&text).unwrap(), formula);
}

#[test]
fn binder_on_the_left_of_a_conjunction_takes_in_the_right_operand() {
    let formula = MuFormula::and(MuFormula::mu("X".to_owned(), var("X")), MuFormula::True);
    let text = render_mu_formula(&formula);
    assert_eq!(text, "(mu X. ($X) and true)");
    assert_eq!(
        parse_mu_formula(&text).unwrap(),
        MuFormula::mu("X".to_owned(), MuFormula::and(var("X"), MuFormula::True))
    );
}
