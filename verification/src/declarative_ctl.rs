//! CTL formulas over the named propositions of a declarative document.
use crate::ctl::{ctl_error_text, ctl_report_ok, evaluate_ctl, fview, CtlError, CtlEvaluation, CtlFormula};
use crate::ctl_parse::{
    ctl_fault_text, ctl_parse, parse_ctl_formula, render_ctl, render_ctl_formula, CtlParseError, CtlTerm,
};
use crate::declarative::{group_index, DeclarativeDocument};
use crate::graph::ReachableGraph;
use crate::syntax::byte_len;
use crate::text::{append, decimal};
use vstd::prelude::*;

verus! {

#[derive(Debug, Clone, Copy, PartialEq, Eq, Structural)]
pub enum DeclarativeCtlStatus {
    Satisfied,
    Violated,
}

#[derive(Debug, Clone, PartialEq, Eq)]
pub struct DeclarativeCtlResult {
    pub formula: String,
    pub status: DeclarativeCtlStatus,
    pub evaluation: CtlEvaluation<String>,
}

#[derive(Debug, Clone, PartialEq, Eq)]
pub enum DeclarativeCtlError {
    Parse(CtlParseError),
    UnknownProposition { proposition: String },
    Backend(CtlError),
}

/// The first atom of `f`, left to right, that names no proposition of
/// the groups `g`.
pub open spec fn first_unknown_atom(f: CtlTerm, g: Seq<(Seq<char>, Seq<Seq<char>>)>) -> Option<Seq<char>>
    decreases f,
{
    match f {
        CtlFormula::True | CtlFormula::False => None,
        CtlFormula::Atom(a) => if group_index(g, a) is None {
            Some(a)
        } else {
            None
        },
        CtlFormula::Not(i) | CtlFormula::Ex(i) | CtlFormula::Ax(i) | CtlFormula::Ef(i) | CtlFormula::Af(i)
        | CtlFormula::Eg(i) | CtlFormula::Ag(i) => first_unknown_atom(*i, g),
        CtlFormula::And(l, r) | CtlFormula::Or(l, r) | CtlFormula::Eu(l, r) | CtlFormula::Au(l, r) => match first_unknown_atom(*l, g) {
            Some(x) => Some(x),
            None => first_unknown_atom(*r, g),
        },
    }
}

fn find_unknown_atom(document: &DeclarativeDocument, f: &CtlFormula<String>) -> (r: Option<String>)
    ensures
        match first_unknown_atom(fview(*f), document.groups()) {
            Some(a) => r matches Some(x) && x@ == a,
            None => r is None,
        },
    decreases f,
{
    match f {
        CtlFormula::True | CtlFormula::False => None,
        CtlFormula::Atom(a) => if document.proposition_states(a.as_str()).is_none() {
            Some(a.clone())
        } else {
            None
        },
        CtlFormula::Not(i) | CtlFormula::Ex(i) | CtlFormula::Ax(i) | CtlFormula::Ef(i) | CtlFormula::Af(i)
        | CtlFormula::Eg(i) | CtlFormula::Ag(i) => find_unknown_atom(document, i),
        CtlFormula::And(l, r) | CtlFormula::Or(l, r) | CtlFormula::Eu(l, r) | CtlFormula::Au(l, r) => {
            match find_unknown_atom(document, l) {
                Some(x) => Some(x),
                None => find_unknown_atom(document, r),
            }
        },
    }
}

/// Whether the document labels `state` with `proposition`.
pub open spec fn has_proposition(document: DeclarativeDocument, state: Seq<char>, proposition: Seq<char>) -> bool {
    group_index(document.groups(), proposition) matches Some(j) && document.groups()[j].1.contains(state)
}

/// `table[i][k]` says whether state `k` of `c` carries proposition
/// `atoms[i]`.
pub open spec fn labels_table(
    document: DeclarativeDocument,
    c: ReachableGraph<String>,
    atoms: Seq<String>,
    table: Seq<Vec<bool>>,
) -> bool {
    forall|i: int, k: int|
        0 <= i < atoms.len() && 0 <= k < c.states.len() ==> #[trigger] table[i]@[k] == has_proposition(
            document,
            c.states@[k]@,
            atoms[i]@,
        )
}

/// `res` reports `formula` on the document's model: the evaluation is the
/// backend's, with each atom interpreted as "the state carries this
/// proposition"; the query is satisfied when every initial state is.
pub open spec fn declarative_ctl_ok(
    document: DeclarativeDocument,
    formula: CtlFormula<String>,
    res: DeclarativeCtlResult,
) -> bool {
    &&& exists|c: ReachableGraph<String>, atoms: Seq<String>, table: Seq<Vec<bool>>|
        #[trigger] ctl_report_ok(document.model_spec(), formula, c, atoms, table, res.evaluation) && labels_table(
            document,
            c,
            atoms,
            table,
        )
    &&& res.formula@ == render_ctl(fview(formula))
    &&& (res.status == DeclarativeCtlStatus::Satisfied <==> forall|i: int|
        0 <= i < res.evaluation.initial@.len() ==> (#[trigger] res.evaluation.initial@[i]).satisfied)
}

/// Evaluate one typed CTL formula against the document's proposition
/// metadata.
///
/// Every atom must name a proposition of the document; the first that does
/// not (left to right) is reported before the model is explored. The
/// semantics is `evaluate_ctl`'s; the query succeeds when every initial
/// state satisfies the formula.
pub fn check_declarative_ctl(document: &DeclarativeDocument, formula: &CtlFormula<String>) -> (r: Result<
    DeclarativeCtlResult,
    DeclarativeCtlError,
>)
    ensures
        match first_unknown_atom(fview(*formula), document.groups()) {
            Some(a) => r matches Err(DeclarativeCtlError::UnknownProposition { proposition }) && proposition@ == a,
            None => match r {
                Ok(res) => declarative_ctl_ok(*document, *formula, res),
                Err(e) => e matches DeclarativeCtlError::Backend(b) && (b is Model || (b is SnapshotInvariant
                    && crate::graph::capture_saturates(document.model_spec()))),
            },
        },
{
    match find_unknown_atom(document, formula) {
        Some(proposition) => {
            return Err(DeclarativeCtlError::UnknownProposition { proposition });
        },
        None => {},
    }
    let holds = |atom: &String, state: &String| -> (r: bool)
        ensures
            r == has_proposition(*document, state@, atom@),
        { document.state_has_proposition(state.as_str(), atom.as_str()) };
    let evaluation = match evaluate_ctl(document.model(), formula, holds) {
        Ok(ev) => ev,
        Err(e) => {
            return Err(DeclarativeCtlError::Backend(e));
        },
    };
    proof {
        let (c, atoms, table) = choose|c: ReachableGraph<String>, atoms: Seq<String>, table: Seq<Vec<bool>>|
            #[trigger] ctl_report_ok(document.model_spec(), *formula, c, atoms, table, evaluation)
                && crate::ctl::table_answers(holds, c, atoms, table);
        assert(labels_table(*document, c, atoms, table)) by {
            assert forall|i: int, k: int| 0 <= i < atoms.len() && 0 <= k < c.states.len() implies #[trigger] table[i]@[k]
                == has_proposition(*document, c.states@[k]@, atoms[i]@) by {
                assert(call_ensures(holds, (&atoms[i], &c.states@[k]), table[i]@[k]));
            }
        }
        assert(ctl_report_ok(document.model_spec(), *formula, c, atoms, table, evaluation));
    }
    let status = if evaluation.all_initial_states_satisfy() {
        DeclarativeCtlStatus::Satisfied
    } else {
        DeclarativeCtlStatus::Violated
    };
    Ok(DeclarativeCtlResult { formula: render_ctl_formula(formula), status, evaluation })
}

/// Parse and evaluate one textual CTL formula.
pub fn check_declarative_ctl_text(document: &DeclarativeDocument, input: &str) -> (r: Result<
    DeclarativeCtlResult,
    DeclarativeCtlError,
>)
    requires
        byte_len(input@) < usize::MAX,
    ensures
        match ctl_parse(input@) {
            Err((p, k)) => r matches Err(DeclarativeCtlError::Parse(e)) && e@ == (byte_len(input@.take(p)), k),
            Ok(f) => match first_unknown_atom(f, document.groups()) {
                Some(a) => r matches Err(DeclarativeCtlError::UnknownProposition { proposition }) && proposition@ == a,
                None => match r {
                    Ok(res) => exists|g: CtlFormula<String>| fview(g) == f && #[trigger] declarative_ctl_ok(
                        *document,
                        g,
                        res,
                    ),
                    Err(e) => e matches DeclarativeCtlError::Backend(b) && (b is Model || (b is SnapshotInvariant
                        && crate::graph::capture_saturates(document.model_spec()))),
                },
            },
        },
{
    let formula = match parse_ctl_formula(input) {
        Ok(f) => f,
        Err(e) => {
            return Err(DeclarativeCtlError::Parse(e));
        },
    };
    let r = check_declarative_ctl(document, &formula);
    proof {
        if r is Ok {
            assert(declarative_ctl_ok(*document, formula, r->Ok_0));
        }
    }
    r
}

/// The human-readable message of an error.
pub open spec fn declarative_ctl_error_text(e: DeclarativeCtlError) -> Seq<char> {
    match e {
        DeclarativeCtlError::Parse(p) => "CTL parse error at byte "@ + decimal(p@.0) + ": "@ + ctl_fault_text(p@.1),
        DeclarativeCtlError::UnknownProposition { proposition } => "unknown CTL proposition '"@ + proposition@ + "'"@,
        DeclarativeCtlError::Backend(b) => "CTL backend failed: "@ + ctl_error_text(b),
    }
}

impl DeclarativeCtlError {
    pub fn message(&self) -> (text: String)
        ensures
            text@ == declarative_ctl_error_text(*self),
    {
        match self {
            DeclarativeCtlError::Parse(p) => p.message(),
            DeclarativeCtlError::UnknownProposition { proposition } => {
                let mut out = String::new();
                append(&mut out, "unknown CTL proposition '");
                append(&mut out, proposition.as_str());
                append(&mut out, "'");
                assert(out@ =~= declarative_ctl_error_text(*self));
                out
            },
            DeclarativeCtlError::Backend(b) => {
                let mut out = String::new();
                append(&mut out, "CTL backend failed: ");
                let t = b.message();
                append(&mut out, t.as_str());
                assert(out@ =~= declarative_ctl_error_text(*self));
                out
            },
        }
    }
}

} // verus!
