//! Plain-text reports of declarative mu-calculus results.
use crate::declarative_mu::{DeclarativeMuResult, DeclarativeMuStatus};
use crate::mu_calculus::MuInitialEvaluation;
use crate::text::{append, append_depth, append_usize, debug_form, debug_text, decimal, depth_text};
use vstd::prelude::*;

verus! {

/// One report line for an initial state.
pub open spec fn mu_initial_line(i: MuInitialEvaluation<String>) -> Seq<char> {
    "initial state "@ + decimal(i.state_index as nat) + ": "@ + (if i.satisfied {
        "SATISFIED"@
    } else {
        "VIOLATED"@
    }) + " "@ + debug_form(i.state@) + "\n"@
}

/// The report lines for the initial states, in order.
pub open spec fn mu_initial_lines(s: Seq<MuInitialEvaluation<String>>) -> Seq<char>
    decreases s.len(),
{
    if s.len() == 0 {
        Seq::empty()
    } else {
        mu_initial_lines(s.drop_last()) + mu_initial_line(s.last())
    }
}

/// The report's lines before the initial states.
pub open spec fn mu_report_head(model_name: Seq<char>, r: DeclarativeMuResult) -> Seq<char> {
    let e = r.evaluation;
    "model: "@ + model_name + "\n"@ + "formula: "@ + r.formula@ + "\n"@ + "MU: "@ + (match r.status {
        DeclarativeMuStatus::Satisfied => "SATISFIED"@,
        DeclarativeMuStatus::Violated => "VIOLATED"@,
    }) + "\n"@ + "initial semantics: all initial states must satisfy the formula\n"@
        + "terminal policy: totalize reachable terminals with synthetic self-loops\n"@ + "discovered states: "@
        + decimal(e.discovered_states as nat) + "\n"@ + "explored transitions: "@ + decimal(
        e.explored_transitions as nat,
    ) + "\n"@ + "max depth reached: "@ + depth_text(e.max_depth_reached) + "\n"@ + "fixpoint iterations: "@
        + decimal(e.fixpoint_iterations as nat) + "\n"@ + "satisfying states: "@ + decimal(
        e.satisfying_state_indices@.len(),
    ) + "/"@ + decimal(e.reachable_states@.len()) + "\n"@
}

/// The whole report.
pub open spec fn mu_report_text(model_name: Seq<char>, r: DeclarativeMuResult) -> Seq<char> {
    mu_report_head(model_name, r) + mu_initial_lines(r.evaluation.initial@)
}

/// The report of a declarative mu-calculus result: the verdict, the
/// exploration counts and one line per initial state.
pub fn render_declarative_mu_report(model_name: &str, result: &DeclarativeMuResult) -> (text: String)
    ensures
        text@ == mu_report_text(model_name@, *result),
{
    let e = &result.evaluation;
    let mut out = String::new();
    append(&mut out, "model: ");
    append(&mut out, model_name);
    append(&mut out, "\n");
    append(&mut out, "formula: ");
    append(&mut out, result.formula.as_str());
    append(&mut out, "\n");
    append(&mut out, "MU: ");
    match result.status {
        DeclarativeMuStatus::Satisfied => append(&mut out, "SATISFIED"),
        DeclarativeMuStatus::Violated => append(&mut out, "VIOLATED"),
    }
    append(&mut out, "\n");
    append(&mut out, "initial semantics: all initial states must satisfy the formula\n");
    append(&mut out, "terminal policy: totalize reachable terminals with synthetic self-loops\n");
    append(&mut out, "discovered states: ");
    append_usize(&mut out, e.discovered_states);
    append(&mut out, "\n");
    append(&mut out, "explored transitions: ");
    append_usize(&mut out, e.explored_transitions);
    append(&mut out, "\n");
    append(&mut out, "max depth reached: ");
    append_depth(&mut out, e.max_depth_reached);
    append(&mut out, "\n");
    append(&mut out, "fixpoint iterations: ");
    append_usize(&mut out, e.fixpoint_iterations);
    append(&mut out, "\n");
    append(&mut out, "satisfying states: ");
    append_usize(&mut out, e.satisfying_state_indices.len());
    append(&mut out, "/");
    append_usize(&mut out, e.reachable_states.len());
    append(&mut out, "\n");
    assert(out@ =~= mu_report_head(model_name@, *result));
    let ghost head = out@;
    let mut k: usize = 0;
    while k < e.initial.len()
        invariant
            k <= e.initial@.len(),
            out@ == head + mu_initial_lines(e.initial@.take(k as int)),
        decreases e.initial.len() - k,
    {
        let i = &e.initial[k];
        let ghost before = out@;
        append(&mut out, "initial state ");
        append_usize(&mut out, i.state_index);
        append(&mut out, ": ");
        if i.satisfied {
            append(&mut out, "SATISFIED");
        } else {
            append(&mut out, "VIOLATED");
        }
        append(&mut out, " ");
        let d = debug_text(i.state.as_str());
        append(&mut out, d.as_str());
        append(&mut out, "\n");
        proof {
            let t = e.initial@.take(k + 1);
            assert(t.drop_last() =~= e.initial@.take(k as int));
            assert(t.last() == e.initial@[k as int]);
            assert(out@ =~= before + mu_initial_line(e.initial@[k as int]));
            assert(out@ =~= head + mu_initial_lines(t));
        }
        k += 1;
    }
    assert(e.initial@.take(e.initial@.len() as int) =~= e.initial@);
    out
}

} // verus!
