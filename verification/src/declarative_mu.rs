//! Modal mu-calculus formulas over the named propositions of a declarative
//! document.
use crate::declarative::{group_index, DeclarativeDocument};
use crate::graph::ReachableGraph;
use crate::model::model_error_text;
use crate::mu_calculus::{
    evaluate_mu, first_problem, mu_report_ok, mview, mview_vars, validate_mu_formula, MuError, MuEvaluation,
    MuFormula, MuValidationError,
};
use crate::mu_parse::{mu_fault_text, mu_parse, parse_mu_formula, render_mu, render_mu_formula, MuParseError, MuTerm};
use crate::syntax::byte_len;
use crate::text::{append, decimal};
use vstd::prelude::*;

verus! {

#[derive(Debug, Clone, Copy, PartialEq, Eq, Structural)]
pub enum DeclarativeMuStatus {
    Satisfied,
    Violated,
}

#[derive(Debug, Clone, PartialEq, Eq)]
pub struct DeclarativeMuResult {
    pub formula: String,
    pub status: DeclarativeMuStatus,
    pub evaluation: MuEvaluation<String>,
}

#[derive(Debug)]
pub enum DeclarativeMuError {
    Parse(MuParseError),
    Validation(MuValidationError<String>),
    UnknownProposition { proposition: String },
    Backend(MuError<String>),
}

/// The first atom of `f`, left to right, that names no proposition of
/// the groups `g`.
pub open spec fn first_unknown_mu_atom(f: MuTerm, g: Seq<(Seq<char>, Seq<Seq<char>>)>) -> Option<Seq<char>>
    decreases f,
{
    match f {
        MuFormula::True | MuFormula::False | MuFormula::Var(_) => None,
        MuFormula::Atom(a) => if group_index(g, a) is None {
            Some(a)
        } else {
            None
        },
        MuFormula::Not(i) | MuFormula::Diamond(i) | MuFormula::Box(i) => first_unknown_mu_atom(*i, g),
        MuFormula::Mu { body, .. } | MuFormula::Nu { body, .. } => first_unknown_mu_atom(*body, g),
        MuFormula::And(l, r) | MuFormula::Or(l, r) => match first_unknown_mu_atom(*l, g) {
            Some(x) => Some(x),
            None => first_unknown_mu_atom(*r, g),
        },
    }
}

fn find_unknown_mu_atom(document: &DeclarativeDocument, f: &MuFormula<String, String>) -> (r: Option<String>)
    ensures
        match first_unknown_mu_atom(mview(*f), document.groups()) {
            Some(a) => r matches Some(x) && x@ == a,
            None => r is None,
        },
    decreases f,
{
    match f {
        MuFormula::True | MuFormula::False | MuFormula::Var(_) => None,
        MuFormula::Atom(a) => if document.proposition_states(a.as_str()).is_none() {
            Some(a.clone())
        } else {
            None
        },
        MuFormula::Not(i) | MuFormula::Diamond(i) | MuFormula::Box(i) => find_unknown_mu_atom(document, i),
        MuFormula::Mu { body, .. } | MuFormula::Nu { body, .. } => find_unknown_mu_atom(document, body),
        MuFormula::And(l, r) | MuFormula::Or(l, r) => match find_unknown_mu_atom(document, l) {
            Some(x) => Some(x),
            None => find_unknown_mu_atom(document, r),
        },
    }
}

/// `res` reports `formula` on the document's model: the evaluation is the
/// backend's, with each atom interpreted as "the state carries this
/// proposition"; the query is satisfied when every initial state is.
pub open spec fn declarative_mu_ok(
    document: DeclarativeDocument,
    formula: MuFormula<String, String>,
    res: DeclarativeMuResult,
) -> bool {
    &&& exists|c: ReachableGraph<String>, atoms: Seq<String>, table: Seq<Vec<bool>>, v: Seq<bool>|
        #[trigger] mu_report_ok(document.model_spec(), formula, c, atoms, table, v, res.evaluation)
            && crate::declarative_ctl::labels_table(document, c, atoms, table)
    &&& res.formula@ == render_mu(mview(formula))
    &&& (res.status == DeclarativeMuStatus::Satisfied <==> forall|i: int|
        0 <= i < res.evaluation.initial@.len() ==> (#[trigger] res.evaluation.initial@[i]).satisfied)
}

/// What checking `formula` against `document` gives: the validation error
/// of the formula, else the first unknown proposition, else the backend's
/// evaluation (or its error).
pub open spec fn mu_check_outcome(
    document: DeclarativeDocument,
    formula: MuFormula<String, String>,
    r: Result<DeclarativeMuResult, DeclarativeMuError>,
) -> bool {
    match first_problem(mview_vars(formula), true, Seq::empty()) {
        Some(p) => r matches Err(DeclarativeMuError::Validation(e)) && match p {
            MuValidationError::UnboundVariable { variable } => e matches MuValidationError::UnboundVariable {
                variable: v,
            } && v@ == variable,
            MuValidationError::NonMonotoneVariable { variable } => e matches MuValidationError::NonMonotoneVariable {
                variable: v,
            } && v@ == variable,
        },
        None => match first_unknown_mu_atom(mview(formula), document.groups()) {
            Some(a) => r matches Err(DeclarativeMuError::UnknownProposition { proposition }) && proposition@ == a,
            None => match r {
                Ok(res) => declarative_mu_ok(document, formula, res),
                Err(e) => e matches DeclarativeMuError::Backend(b) && !(b is Validation),
            },
        },
    }
}

/// Validate a typed formula, resolve its named propositions, then evaluate
/// it with `evaluate_mu`; the query succeeds when every initial state
/// satisfies the formula.
pub fn check_declarative_mu(document: &DeclarativeDocument, formula: &MuFormula<String, String>) -> (r: Result<
    DeclarativeMuResult,
    DeclarativeMuError,
>)
    ensures
        mu_check_outcome(*document, *formula, r),
{
    match validate_mu_formula(formula) {
        Ok(()) => {},
        Err(e) => {
            return Err(DeclarativeMuError::Validation(e));
        },
    }
    match find_unknown_mu_atom(document, formula) {
        Some(proposition) => {
            return Err(DeclarativeMuError::UnknownProposition { proposition });
        },
        None => {},
    }
    let holds = |atom: &String, state: &String| -> (r: bool)
        ensures
            r == crate::declarative_ctl::has_proposition(*document, state@, atom@),
        { document.state_has_proposition(state.as_str(), atom.as_str()) };
    let evaluation = match evaluate_mu(document.model(), formula, holds) {
        Ok(ev) => ev,
        Err(e) => {
            return Err(DeclarativeMuError::Backend(e));
        },
    };
    proof {
        let (c, atoms, table, v) = choose|c: ReachableGraph<String>, atoms: Seq<String>, table: Seq<Vec<bool>>, v: Seq<bool>|
            #[trigger] mu_report_ok(document.model_spec(), *formula, c, atoms, table, v, evaluation)
                && crate::ctl::table_answers(holds, c, atoms, table);
        assert(crate::declarative_ctl::labels_table(*document, c, atoms, table)) by {
            assert forall|i: int, k: int| 0 <= i < atoms.len() && 0 <= k < c.states.len() implies #[trigger] table[i]@[k]
                == crate::declarative_ctl::has_proposition(*document, c.states@[k]@, atoms[i]@) by {
                assert(call_ensures(holds, (&atoms[i], &c.states@[k]), table[i]@[k]));
            }
        }
        assert(mu_report_ok(document.model_spec(), *formula, c, atoms, table, v, evaluation));
    }
    let status = if evaluation.all_initial_states_satisfy() {
        DeclarativeMuStatus::Satisfied
    } else {
        DeclarativeMuStatus::Violated
    };
    Ok(DeclarativeMuResult { formula: render_mu_formula(formula), status, evaluation })
}

/// Parse, validate and evaluate one textual mu-calculus formula.
pub fn check_declarative_mu_text(document: &DeclarativeDocument, input: &str) -> (r: Result<
    DeclarativeMuResult,
    DeclarativeMuError,
>)
    requires
        byte_len(input@) < usize::MAX,
    ensures
        match mu_parse(input@) {
            Err((p, k)) => r matches Err(DeclarativeMuError::Parse(e)) && e@ == (byte_len(input@.take(p)), k),
            Ok(f) => exists|g: MuFormula<String, String>| mview(g) == f && #[trigger] mu_check_outcome(*document, g, r),
        },
{
    let formula = match parse_mu_formula(input) {
        Ok(f) => f,
        Err(e) => {
            return Err(DeclarativeMuError::Parse(e));
        },
    };
    let r = check_declarative_mu(document, &formula);
    assert(mu_check_outcome(*document, formula, r));
    r
}

} // verus!
