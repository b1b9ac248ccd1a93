//! Plain-text reports of declarative CTL results, with their evidence
//! traces.
use crate::ctl::{CtlEvidence, CtlEvidenceAction, CtlEvidenceStep, CtlInitialEvaluation};
use crate::declarative_ctl::{DeclarativeCtlResult, DeclarativeCtlStatus};
use crate::text::{append, append_depth, append_usize, debug_form, debug_text, decimal, depth_text};
use vstd::prelude::*;

verus! {

/// The report line of trace step `index`.
pub open spec fn trace_line(index: nat, step: CtlEvidenceStep<String>) -> Seq<char> {
    "    ["@ + decimal(index) + "] "@ + match step.action {
        None => debug_form(step.state@) + " [initial]\n"@,
        Some(CtlEvidenceAction::Model(a)) => "--"@ + debug_form(a@) + "--> "@ + debug_form(step.state@) + "\n"@,
        Some(CtlEvidenceAction::TerminalSelfLoop) => "--<terminal-self-loop>--> "@ + debug_form(step.state@) + "\n"@,
    }
}

/// The report lines of a trace, numbered from 0.
pub open spec fn trace_lines(t: Seq<CtlEvidenceStep<String>>) -> Seq<char>
    decreases t.len(),
{
    if t.len() == 0 {
        Seq::empty()
    } else {
        trace_lines(t.drop_last()) + trace_line((t.len() - 1) as nat, t.last())
    }
}

/// The report lines of an initial state's evidence.
pub open spec fn evidence_lines(e: Option<CtlEvidence<String>>) -> Seq<char> {
    match e {
        None => "  evidence: none\n"@,
        Some(CtlEvidence::Finite { trace }) => "  evidence: FINITE\n"@ + trace_lines(trace@),
        Some(CtlEvidence::Lasso { trace, cycle_start }) => "  evidence: LASSO\n"@ + "  cycle start trace index: "@
            + decimal(cycle_start as nat) + "\n"@ + trace_lines(trace@),
    }
}

/// The report lines of one initial state.
pub open spec fn ctl_initial_lines_of(i: CtlInitialEvaluation<String>) -> Seq<char> {
    "initial state "@ + decimal(i.state_index as nat) + ": "@ + (if i.satisfied {
        "SATISFIED"@
    } else {
        "VIOLATED"@
    }) + " "@ + debug_form(i.state@) + "\n"@ + evidence_lines(i.evidence)
}

/// The report lines of the initial states, in order.
pub open spec fn ctl_initial_lines(s: Seq<CtlInitialEvaluation<String>>) -> Seq<char>
    decreases s.len(),
{
    if s.len() == 0 {
        Seq::empty()
    } else {
        ctl_initial_lines(s.drop_last()) + ctl_initial_lines_of(s.last())
    }
}

/// The report's lines before the initial states.
pub open spec fn ctl_report_head(model_name: Seq<char>, r: DeclarativeCtlResult) -> Seq<char> {
    let e = r.evaluation;
    "model: "@ + model_name + "\n"@ + "formula: "@ + r.formula@ + "\n"@ + "CTL: "@ + (match r.status {
        DeclarativeCtlStatus::Satisfied => "SATISFIED"@,
        DeclarativeCtlStatus::Violated => "VIOLATED"@,
    }) + "\n"@ + "initial semantics: all initial states must satisfy the formula\n"@
        + "terminal policy: totalize reachable terminals with synthetic self-loops\n"@ + "discovered states: "@
        + decimal(e.discovered_states as nat) + "\n"@ + "explored transitions: "@ + decimal(
        e.explored_transitions as nat,
    ) + "\n"@ + "max depth reached: "@ + depth_text(e.max_depth_reached) + "\n"@ + "memoized subformulas: "@
        + decimal(e.memoized_subformulas as nat) + "\n"@ + "satisfying states: "@ + decimal(
        e.satisfying_state_indices@.len(),
    ) + "/"@ + decimal(e.reachable_states@.len()) + "\n"@
}

/// The whole report.
pub open spec fn ctl_report_text(model_name: Seq<char>, r: DeclarativeCtlResult) -> Seq<char> {
    ctl_report_head(model_name, r) + ctl_initial_lines(r.evaluation.initial@)
}

/// Appends the lines of a trace.
fn append_trace(out: &mut String, trace: &Vec<CtlEvidenceStep<String>>)
    ensures
        final(out)@ == old(out)@ + trace_lines(trace@),
{
    let ghost start = out@;
    let mut k: usize = 0;
    while k < trace.len()
        invariant
            k <= trace@.len(),
            out@ == start + trace_lines(trace@.take(k as int)),
        decreases trace.len() - k,
    {
        let step = &trace[k];
        let ghost before = out@;
        append(out, "    [");
        append_usize(out, k);
        append(out, "] ");
        match &step.action {
            None => {
                let d = debug_text(step.state.as_str());
                append(out, d.as_str());
                append(out, " [initial]\n");
            },
            Some(CtlEvidenceAction::Model(action)) => {
                append(out, "--");
                let a = debug_text(action.as_str());
                append(out, a.as_str());
                append(out, "--> ");
                let d = debug_text(step.state.as_str());
                append(out, d.as_str());
                append(out, "\n");
            },
            Some(CtlEvidenceAction::TerminalSelfLoop) => {
                append(out, "--<terminal-self-loop>--> ");
                let d = debug_text(step.state.as_str());
                append(out, d.as_str());
                append(out, "\n");
            },
        }
        proof {
            let t = trace@.take(k + 1);
            assert(t.drop_last() =~= trace@.take(k as int));
            assert(t.last() == trace@[k as int]);
            assert(out@ =~= before + trace_line(k as nat, trace@[k as int]));
            assert(out@ =~= start + trace_lines(t));
        }
        k += 1;
    }
    assert(trace@.take(trace@.len() as int) =~= trace@);
}

/// Appends the lines of an initial state's evidence.
fn append_evidence(out: &mut String, evidence: &Option<CtlEvidence<String>>)
    ensures
        final(out)@ == old(out)@ + evidence_lines(*evidence),
{
    let ghost start = out@;
    match evidence {
        None => append(out, "  evidence: none\n"),
        Some(CtlEvidence::Finite { trace }) => {
            append(out, "  evidence: FINITE\n");
            append_trace(out, trace);
        },
        Some(CtlEvidence::Lasso { trace, cycle_start }) => {
            append(out, "  evidence: LASSO\n");
            append(out, "  cycle start trace index: ");
            append_usize(out, *cycle_start);
            append(out, "\n");
            append_trace(out, trace);
        },
    }
    assert(out@ =~= start + evidence_lines(*evidence));
}

/// The report of a declarative CTL result: the verdict, the exploration
/// counts and, per initial state, its verdict and evidence trace.
pub fn render_declarative_ctl_report(model_name: &str, result: &DeclarativeCtlResult) -> (text: String)
    ensures
        text@ == ctl_report_text(model_name@, *result),
{
    let e = &result.evaluation;
    let mut out = String::new();
    append(&mut out, "model: ");
    append(&mut out, model_name);
    append(&mut out, "\n");
    append(&mut out, "formula: ");
    append(&mut out, result.formula.as_str());
    append(&mut out, "\n");
    append(&mut out, "CTL: ");
    match result.status {
        DeclarativeCtlStatus::Satisfied => append(&mut out, "SATISFIED"),
        DeclarativeCtlStatus::Violated => append(&mut out, "VIOLATED"),
    }
    append(&mut out, "\n");
    append(&mut out, "initial semantics: all initial states must satisfy the formula\n");
    append(&mut out, "terminal policy: totalize reachable terminals with synthetic self-loops\n");
    append(&mut out, "discovered states: ");
    append_usize(&mut out, e.discovered_states);
    append(&mut out, "\n");
    append(&mut out, "explored transitions: ");
    append_usize(&mut out, e.explored_transitions);
    append(&mut out, "\n");
    append(&mut out, "max depth reached: ");
    append_depth(&mut out, e.max_depth_reached);
    append(&mut out, "\n");
    append(&mut out, "memoized subformulas: ");
    append_usize(&mut out, e.memoized_subformulas);
    append(&mut out, "\n");
    append(&mut out, "satisfying states: ");
    append_usize(&mut out, e.satisfying_state_indices.len());
    append(&mut out, "/");
    append_usize(&mut out, e.reachable_states.len());
    append(&mut out, "\n");
    assert(out@ =~= ctl_report_head(model_name@, *result));
    let ghost head = out@;
    let mut k: usize = 0;
    while k < e.initial.len()
        invariant
            k <= e.initial@.len(),
            out@ == head + ctl_initial_lines(e.initial@.take(k as int)),
        decreases e.initial.len() - k,
    {
        let i = &e.initial[k];
        let ghost before = out@;
        append(&mut out, "initial state ");
        append_usize(&mut out, i.state_index);
        append(&mut out, ": ");
        if i.satisfied {
            append(&mut out, "SATISFIED");
        } else {
            append(&mut out, "VIOLATED");
        }
        append(&mut out, " ");
        let d = debug_text(i.state.as_str());
        append(&mut out, d.as_str());
        append(&mut out, "\n");
        append_evidence(&mut out, &i.evidence);
        proof {
            let t = e.initial@.take(k + 1);
            assert(t.drop_last() =~= e.initial@.take(k as int));
            assert(t.last() == e.initial@[k as int]);
            assert(out@ =~= before + ctl_initial_lines_of(e.initial@[k as int]));
            assert(out@ =~= head + ctl_initial_lines(t));
        }
        k += 1;
    }
    assert(e.initial@.take(e.initial@.len() as int) =~= e.initial@);
    out
}

} // verus!
