//! Session-lifecycle models and a monitor for the order open, commit, close.
use crate::builder::TransitionSystemBuilder;
use crate::model::{ModelError, Transition, TransitionSystem};
use crate::monitor::{FiniteMonitor, MonitorError, ProgressCondition, RejectCondition};
use crate::state::StateValue;
use crate::text::same_text;
use vstd::prelude::*;

verus! {

#[derive(Debug, Clone, Copy, PartialEq, Eq, Hash, Structural)]
pub enum SessionState {
    Closed,
    Open,
    Committed,
}

impl View for SessionState {
    type V = SessionState;

    open spec fn view(&self) -> SessionState {
        *self
    }
}

impl StateValue for SessionState {
    fn same_value(&self, other: &Self) -> (same: bool) {
        *self == *other
    }

    fn copy_value(&self) -> (copy: Self) {
        *self
    }
}

/// What every session example promises: a well-formed model whose single
/// initial state is `Closed`.
pub open spec fn session_model(r: Result<TransitionSystem<SessionState>, ModelError>, name: Seq<char>) -> bool {
    r matches Ok(m) && m.wf() && m.initial() == seq![SessionState::Closed] && m.name_text() == name
}

/// Proof that a builder with one plainly named variable, one initial state
/// and one plainly named invariant passes validation.
proof fn lemma_single_metadata(name: Seq<char>, var: Seq<char>, inv: Seq<char>)
    requires
        name.len() > 0,
        !crate::text::is_space(name[0]),
        !crate::text::is_space(name.last()),
        var.len() > 0,
        !crate::text::is_space(var[0]),
        !crate::text::is_space(var.last()),
        inv.len() > 0,
        !crate::text::is_space(inv[0]),
        !crate::text::is_space(inv.last()),
    ensures
        crate::model::metadata_valid(name, seq![var], 1, seq![inv]),
{
    crate::text::lemma_trim_plain(name);
    crate::text::lemma_trim_plain(var);
    crate::text::lemma_trim_plain(inv);
    crate::model::lemma_plain_names(seq![var]);
    crate::model::lemma_plain_names(seq![inv]);
}

/// Builds a session model from its name, relation and variable description.
fn session_model_from<F: Fn(&SessionState) -> Result<Vec<Transition<SessionState>>, ModelError> + Send + Sync + 'static>(
    name: &str,
    relation: F,
    description: &str,
) -> (r: Result<TransitionSystem<SessionState>, ModelError>)
    requires
        name@.len() > 0,
        !crate::text::is_space(name@[0]),
        !crate::text::is_space(name@.last()),
    ensures
        session_model(r, name@),
{
    let b = TransitionSystemBuilder::new(name, relation);
    let b = b.state_variable("session", description);
    let b = b.initial_state(SessionState::Closed);
    let b = b.safety_invariant("recognized-session-state", |_state: &SessionState| true);
    proof {
        reveal_strlit("session");
        reveal_strlit("recognized-session-state");
        lemma_single_metadata(name@, "session"@, "recognized-session-state"@);
        assert(crate::model::variable_names(b.variables()) =~= seq!["session"@]);
        assert(crate::model::invariant_names(b.invariant_list()) =~= seq!["recognized-session-state"@]);
        assert(b.initial() =~= seq![SessionState::Closed]);
    }
    b.build()
}

/// Open, commit, close, and around again.
pub fn session_protocol() -> (r: Result<TransitionSystem<SessionState>, ModelError>)
    ensures
        session_model(r, "session-protocol"@),
{
    proof {
        reveal_strlit("session-protocol");
    }
    session_model_from(
        "session-protocol",
        |state: &SessionState| -> (r: Result<Vec<Transition<SessionState>>, ModelError>)
            {
                match state {
                    SessionState::Closed => Ok(vec![Transition::new("open", SessionState::Open)]),
                    SessionState::Open => Ok(vec![Transition::new("commit", SessionState::Committed)]),
                    SessionState::Committed => Ok(vec![Transition::new("close", SessionState::Closed)]),
                }
            },
        "session lifecycle state",
    )
}

/// Opens twice in a row and then stops: a deliberately invalid lifecycle.
pub fn invalid_double_open_protocol() -> (r: Result<TransitionSystem<SessionState>, ModelError>)
    ensures
        session_model(r, "session-double-open"@),
{
    proof {
        reveal_strlit("session-double-open");
    }
    session_model_from(
        "session-double-open",
        |state: &SessionState| -> (r: Result<Vec<Transition<SessionState>>, ModelError>)
            {
                match state {
                    SessionState::Closed => Ok(vec![Transition::new("open", SessionState::Open)]),
                    SessionState::Open => Ok(vec![Transition::new("open", SessionState::Committed)]),
                    SessionState::Committed => Ok(Vec::new()),
                }
            },
        "deliberately invalid session lifecycle",
    )
}

/// Once committed, the session only ticks and never closes.
pub fn stuck_committed_protocol() -> (r: Result<TransitionSystem<SessionState>, ModelError>)
    ensures
        session_model(r, "session-stuck-committed"@),
{
    proof {
        reveal_strlit("session-stuck-committed");
    }
    session_model_from(
        "session-stuck-committed",
        |state: &SessionState| -> (r: Result<Vec<Transition<SessionState>>, ModelError>)
            {
                match state {
                    SessionState::Closed => Ok(vec![Transition::new("open", SessionState::Open)]),
                    SessionState::Open => Ok(vec![Transition::new("commit", SessionState::Committed)]),
                    SessionState::Committed => Ok(vec![Transition::new("tick", SessionState::Committed)]),
                }
            },
        "session lifecycle with a stuck committed state",
    )
}

/// The committed session may stutter forever even though `close` remains
/// continuously enabled: without fairness this is a progress-cycle
/// violation, and weak fairness on `close` excludes exactly that execution.
pub fn unfair_close_enabled_protocol() -> (r: Result<TransitionSystem<SessionState>, ModelError>)
    ensures
        session_model(r, "session-unfair-close-enabled"@),
{
    proof {
        reveal_strlit("session-unfair-close-enabled");
    }
    session_model_from(
        "session-unfair-close-enabled",
        |state: &SessionState| -> (r: Result<Vec<Transition<SessionState>>, ModelError>)
            {
                match state {
                    SessionState::Closed => Ok(vec![Transition::new("open", SessionState::Open)]),
                    SessionState::Open => Ok(vec![Transition::new("commit", SessionState::Committed)]),
                    SessionState::Committed => {
                        let tick = Transition::new("tick", SessionState::Committed);
                        let close = Transition::new("close", SessionState::Closed);
                        Ok(vec![tick, close])
                    },
                }
            },
        "session lifecycle where close can be postponed forever",
    )
}

/// A maximal execution that stops right after opening: the progress
/// condition is still active at this true terminal, so weak fairness does
/// not excuse it.
pub fn open_terminal_protocol() -> (r: Result<TransitionSystem<SessionState>, ModelError>)
    ensures
        session_model(r, "session-open-terminal"@),
{
    proof {
        reveal_strlit("session-open-terminal");
    }
    session_model_from(
        "session-open-terminal",
        |state: &SessionState| -> (r: Result<Vec<Transition<SessionState>>, ModelError>)
            {
                match state {
                    SessionState::Closed => Ok(vec![Transition::new("open", SessionState::Open)]),
                    SessionState::Open | SessionState::Committed => Ok(Vec::new()),
                }
            },
        "session lifecycle with an open terminal",
    )
}

#[derive(Debug, Clone, Copy, PartialEq, Eq, Hash, Structural)]
pub enum SessionMonitorState {
    Idle,
    Open,
    Committed,
    Rejected,
}

impl View for SessionMonitorState {
    type V = SessionMonitorState;

    open spec fn view(&self) -> SessionMonitorState {
        *self
    }
}

impl StateValue for SessionMonitorState {
    fn same_value(&self, other: &Self) -> (same: bool) {
        *self == *other
    }

    fn copy_value(&self) -> (copy: Self) {
        *self
    }
}

/// The session monitor's transition: the legal order is open, commit,
/// close, with `tick` allowed anywhere; anything else rejects for good.
pub open spec fn session_step(state: SessionMonitorState, action: Seq<char>) -> SessionMonitorState {
    match state {
        SessionMonitorState::Rejected => SessionMonitorState::Rejected,
        SessionMonitorState::Idle => if action == "open"@ {
            SessionMonitorState::Open
        } else if action == "tick"@ {
            SessionMonitorState::Idle
        } else {
            SessionMonitorState::Rejected
        },
        SessionMonitorState::Open => if action == "commit"@ {
            SessionMonitorState::Committed
        } else if action == "tick"@ {
            SessionMonitorState::Open
        } else {
            SessionMonitorState::Rejected
        },
        SessionMonitorState::Committed => if action == "close"@ {
            SessionMonitorState::Idle
        } else if action == "tick"@ {
            SessionMonitorState::Committed
        } else {
            SessionMonitorState::Rejected
        },
    }
}

/// One step of the session monitor.
pub fn step_session_monitor(state: SessionMonitorState, action: &str) -> (next: SessionMonitorState)
    ensures
        next == session_step(state, action@),
{
    if state == SessionMonitorState::Rejected {
        return SessionMonitorState::Rejected;
    }
    let tick = same_text(action, "tick");
    match state {
        SessionMonitorState::Idle => if same_text(action, "open") {
            SessionMonitorState::Open
        } else if tick {
            SessionMonitorState::Idle
        } else {
            SessionMonitorState::Rejected
        },
        SessionMonitorState::Open => if same_text(action, "commit") {
            SessionMonitorState::Committed
        } else if tick {
            SessionMonitorState::Open
        } else {
            SessionMonitorState::Rejected
        },
        SessionMonitorState::Committed => if same_text(action, "close") {
            SessionMonitorState::Idle
        } else if tick {
            SessionMonitorState::Committed
        } else {
            SessionMonitorState::Rejected
        },
        SessionMonitorState::Rejected => SessionMonitorState::Rejected,
    }
}

/// Monitor for ordered session lifecycles: `Rejected` is an immediate
/// violation, and an opened session (open or committed) must eventually
/// close.
pub fn session_monitor() -> (r: Result<FiniteMonitor<SessionMonitorState>, MonitorError>)
    ensures
        r matches Ok(m) && {
            &&& m.name_text() == "ordered-session-lifecycle"@
            &&& m.initial_state() == SessionMonitorState::Idle
            &&& m.reject_list().len() == 1
            &&& m.reject_list()[0].name_text() == "legal-action-order"@
            &&& m.progress_list().len() == 1
            &&& m.progress_list()[0].name_text() == "opened-session-eventually-closes"@
        },
{
    proof {
        reveal_strlit("legal-action-order");
        reveal_strlit("opened-session-eventually-closes");
        reveal_strlit("ordered-session-lifecycle");
        crate::text::lemma_trim_plain("legal-action-order"@);
        crate::text::lemma_trim_plain("opened-session-eventually-closes"@);
        crate::text::lemma_trim_plain("ordered-session-lifecycle"@);
    }
    let reject = RejectCondition::new(
        "legal-action-order",
        |state: &SessionMonitorState| -> (r: bool) { *state == SessionMonitorState::Rejected },
    )?;
    let progress = ProgressCondition::new(
        "opened-session-eventually-closes",
        |state: &SessionMonitorState| -> (r: bool)
            {
                match state {
                    SessionMonitorState::Open | SessionMonitorState::Committed => true,
                    _ => false,
                }
            },
    )?;
    let rejecting = vec![reject];
    let progressing = vec![progress];
    proof {
        let names = crate::monitor::condition_names(rejecting@, progressing@);
        assert(names =~= seq!["legal-action-order"@, "opened-session-eventually-closes"@]);
        assert("legal-action-order"@[0] != "opened-session-eventually-closes"@[0]);
        assert forall|j: int| 0 <= j < 2 implies !#[trigger] crate::monitor::name_repeats_at(names, j) by {
            if j == 1 {
                assert(names[0] != names[1]);
            }
        }
    }
    FiniteMonitor::new(
        "ordered-session-lifecycle",
        SessionMonitorState::Idle,
        |state: &SessionMonitorState, action: &str| -> (r: SessionMonitorState) { step_session_monitor(*state, action) },
        rejecting,
        progressing,
    )
}

} // verus!
