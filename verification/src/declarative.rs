//! A deterministic line-oriented format for finite labeled graphs, loaded
//! into the same transition systems every checker uses.
use crate::model::{model_error_text, Invariant, ModelError, StateVariable, Transition, TransitionSystem};
use crate::state::views_of;
use crate::syntax::{
    byte_len, byte_offset, lemma_byte_len_at_least, lemma_line_end_bounds, lemma_raw_line_bytes,
    lemma_scan_literal_bounds, lemma_skip_bounds, next_line, raw_line, raw_line_exec, scan_literal,
    scan_literal_exec, skip_space, skip_space_exec,
};
use crate::text::{append, append_usize, chars_of, decimal, is_blank, push_char, same_text, string_of, trim};
use vstd::prelude::*;

verus! {

#[derive(Debug, Clone, PartialEq, Eq)]
pub enum DeclarativeModelError {
    MissingModel,
    DuplicateModel { line: usize },
    EmptyModelName { line: usize },
    NoStates,
    EmptyStateName { line: usize },
    DuplicateState { line: usize, state: String },
    NoInitialStates,
    DuplicateInitial { line: usize, state: String },
    UnknownInitialState { line: usize, state: String },
    EmptyAction { line: usize },
    UnknownEdgeSource { line: usize, state: String },
    UnknownEdgeTarget { line: usize, state: String },
    DuplicateEdge { line: usize, from: String, action: String, to: String },
    EmptyProposition { line: usize },
    UnknownLabelState { line: usize, state: String },
    DuplicateLabel { line: usize, state: String, proposition: String },
    ExpectedDirective { line: usize, column: usize },
    UnknownDirective { line: usize, directive: String },
    ExpectedString { line: usize, column: usize },
    UnterminatedString { line: usize, column: usize },
    InvalidEscape { line: usize, column: usize, escape: String },
    WrongArity { line: usize, directive: String, expected: usize, actual: usize },
    Model(ModelError),
}

/// A declarative-model error with its texts as character sequences.
pub enum DeclIssue {
    MissingModel,
    DuplicateModel { line: nat },
    EmptyModelName { line: nat },
    NoStates,
    EmptyStateName { line: nat },
    DuplicateState { line: nat, state: Seq<char> },
    NoInitialStates,
    DuplicateInitial { line: nat, state: Seq<char> },
    UnknownInitialState { line: nat, state: Seq<char> },
    EmptyAction { line: nat },
    UnknownEdgeSource { line: nat, state: Seq<char> },
    UnknownEdgeTarget { line: nat, state: Seq<char> },
    DuplicateEdge { line: nat, from: Seq<char>, action: Seq<char>, to: Seq<char> },
    EmptyProposition { line: nat },
    UnknownLabelState { line: nat, state: Seq<char> },
    DuplicateLabel { line: nat, state: Seq<char>, proposition: Seq<char> },
    ExpectedDirective { line: nat, column: nat },
    UnknownDirective { line: nat, directive: Seq<char> },
    ExpectedString { line: nat, column: nat },
    UnterminatedString { line: nat, column: nat },
    InvalidEscape { line: nat, column: nat, escape: Seq<char> },
    WrongArity { line: nat, directive: Seq<char>, expected: nat, actual: nat },
    Model(ModelError),
}

impl View for DeclarativeModelError {
    type V = DeclIssue;

    open spec fn view(&self) -> DeclIssue {
        match self {
            DeclarativeModelError::MissingModel => DeclIssue::MissingModel,
            DeclarativeModelError::DuplicateModel { line } => DeclIssue::DuplicateModel { line: *line as nat },
            DeclarativeModelError::EmptyModelName { line } => DeclIssue::EmptyModelName { line: *line as nat },
            DeclarativeModelError::NoStates => DeclIssue::NoStates,
            DeclarativeModelError::EmptyStateName { line } => DeclIssue::EmptyStateName { line: *line as nat },
            DeclarativeModelError::DuplicateState { line, state } => DeclIssue::DuplicateState {
                line: *line as nat,
                state: state@,
            },
            DeclarativeModelError::NoInitialStates => DeclIssue::NoInitialStates,
            DeclarativeModelError::DuplicateInitial { line, state } => DeclIssue::DuplicateInitial {
                line: *line as nat,
                state: state@,
            },
            DeclarativeModelError::UnknownInitialState { line, state } => DeclIssue::UnknownInitialState {
                line: *line as nat,
                state: state@,
            },
            DeclarativeModelError::EmptyAction { line } => DeclIssue::EmptyAction { line: *line as nat },
            DeclarativeModelError::UnknownEdgeSource { line, state } => DeclIssue::UnknownEdgeSource {
                line: *line as nat,
                state: state@,
            },
            DeclarativeModelError::UnknownEdgeTarget { line, state } => DeclIssue::UnknownEdgeTarget {
                line: *line as nat,
                state: state@,
            },
            DeclarativeModelError::DuplicateEdge { line, from, action, to } => DeclIssue::DuplicateEdge {
                line: *line as nat,
                from: from@,
                action: action@,
                to: to@,
            },
            DeclarativeModelError::EmptyProposition { line } => DeclIssue::EmptyProposition { line: *line as nat },
            DeclarativeModelError::UnknownLabelState { line, state } => DeclIssue::UnknownLabelState {
                line: *line as nat,
                state: state@,
            },
            DeclarativeModelError::DuplicateLabel { line, state, proposition } => DeclIssue::DuplicateLabel {
                line: *line as nat,
                state: state@,
                proposition: proposition@,
            },
            DeclarativeModelError::ExpectedDirective { line, column } => DeclIssue::ExpectedDirective {
                line: *line as nat,
                column: *column as nat,
            },
            DeclarativeModelError::UnknownDirective { line, directive } => DeclIssue::UnknownDirective {
                line: *line as nat,
                directive: directive@,
            },
            DeclarativeModelError::ExpectedString { line, column } => DeclIssue::ExpectedString {
                line: *line as nat,
                column: *column as nat,
            },
            DeclarativeModelError::UnterminatedString { line, column } => DeclIssue::UnterminatedString {
                line: *line as nat,
                column: *column as nat,
            },
            DeclarativeModelError::InvalidEscape { line, column, escape } => DeclIssue::InvalidEscape {
                line: *line as nat,
                column: *column as nat,
                escape: escape@,
            },
            DeclarativeModelError::WrongArity { line, directive, expected, actual } => DeclIssue::WrongArity {
                line: *line as nat,
                directive: directive@,
                expected: *expected as nat,
                actual: *actual as nat,
            },
            DeclarativeModelError::Model(e) => DeclIssue::Model(*e),
        }
    }
}

// ---------------------------------------------------------------------------
// The document grammar.
// ---------------------------------------------------------------------------

/// What the lines read so far declared: the model name, the states, the
/// initial states, the edges `(from, action, to)` and the labels
/// `(state, proposition)`, each with its line where errors may name it.
pub struct DeclSeen {
    pub name: Option<Seq<char>>,
    pub states: Seq<Seq<char>>,
    pub initials: Seq<(nat, Seq<char>)>,
    pub edges: Seq<(nat, Seq<char>, Seq<char>, Seq<char>)>,
    pub labels: Seq<(nat, Seq<char>, Seq<char>)>,
}

pub open spec fn nothing_seen() -> DeclSeen {
    DeclSeen { name: None, states: Seq::empty(), initials: Seq::empty(), edges: Seq::empty(), labels: Seq::empty() }
}

/// A character of a directive name: an ASCII letter or `-`.
pub open spec fn is_directive_char(c: char) -> bool {
    ('a' <= c && c <= 'z') || ('A' <= c && c <= 'Z') || c == '-'
}

/// The first index at or after `i` that is not a directive character.
pub open spec fn directive_end(l: Seq<char>, i: int) -> int
    decreases l.len() - i,
{
    if i < 0 || i >= l.len() {
        l.len() as int
    } else if is_directive_char(l[i]) {
        directive_end(l, i + 1)
    } else {
        i
    }
}

/// Why an argument list is malformed.
pub enum ArgFault {
    NotString,
    Unterminated,
    BadEscape(char),
}

/// The double-quoted arguments of a line from index `p`, after `acc`; or
/// the index and kind of the first malformed one.
pub open spec fn decl_args(l: Seq<char>, p: int, acc: Seq<Seq<char>>) -> Result<Seq<Seq<char>>, (int, ArgFault)>
    decreases l.len() - p,
{
    if p < 0 || p > l.len() {
        Ok(acc)
    } else {
        let q = skip_space(l, p);
        if q >= l.len() {
            Ok(acc)
        } else if l[q] != '"' {
            Err((q, ArgFault::NotString))
        } else {
            proof {
                lemma_skip_bounds(l, p);
                lemma_scan_literal_bounds(l, q, q + 1, Seq::empty());
            }
            match scan_literal(l, q, q + 1, Seq::empty()) {
                Err((i, None)) => Err((i, ArgFault::Unterminated)),
                Err((i, Some(x))) => Err((i, ArgFault::BadEscape(x))),
                Ok((v, e)) => decl_args(l, e, acc.push(v)),
            }
        }
    }
}

/// The 1-based byte column of index `i` of line `l`.
pub open spec fn column_of(l: Seq<char>, i: int) -> nat {
    byte_len(l.take(i)) + 1
}

/// The number of arguments a directive takes; 0 for an unknown directive.
pub open spec fn arity(d: Seq<char>) -> nat {
    if d == "model"@ || d == "state"@ || d == "initial"@ {
        1
    } else if d == "label"@ {
        2
    } else if d == "edge"@ {
        3
    } else {
        0
    }
}

pub proof fn lemma_directive_names()
    ensures
        arity("model"@) == 1,
        arity("state"@) == 1,
        arity("initial"@) == 1,
        arity("label"@) == 2,
        arity("edge"@) == 3,
        "model"@ != "state"@,
        "model"@ != "initial"@,
        "model"@ != "edge"@,
        "model"@ != "label"@,
        "state"@ != "initial"@,
        "state"@ != "edge"@,
        "state"@ != "label"@,
        "initial"@ != "edge"@,
        "initial"@ != "label"@,
        "edge"@ != "label"@,
{
    reveal_strlit("model");
    reveal_strlit("state");
    reveal_strlit("initial");
    reveal_strlit("label");
    reveal_strlit("edge");
    assert("model"@.len() == 5 && "state"@.len() == 5 && "label"@.len() == 5);
    assert("initial"@.len() == 7 && "edge"@.len() == 4);
    assert("model"@[0] != "state"@[0]);
    assert("model"@[0] != "label"@[0]);
    assert("state"@[0] != "label"@[0]);
}

pub open spec fn has_initial(initials: Seq<(nat, Seq<char>)>, s: Seq<char>) -> bool {
    exists|k: int| 0 <= k < initials.len() && (#[trigger] initials[k]).1 == s
}

pub open spec fn has_edge(
    edges: Seq<(nat, Seq<char>, Seq<char>, Seq<char>)>,
    from: Seq<char>,
    action: Seq<char>,
    to: Seq<char>,
) -> bool {
    exists|k: int| 0 <= k < edges.len() && (#[trigger] edges[k]).1 == from && edges[k].2 == action && edges[k].3 == to
}

pub open spec fn has_label(labels: Seq<(nat, Seq<char>, Seq<char>)>, state: Seq<char>, proposition: Seq<char>) -> bool {
    exists|k: int| 0 <= k < labels.len() && (#[trigger] labels[k]).1 == state && labels[k].2 == proposition
}

/// A directive line with the right number of arguments, applied to what
/// was declared before it.
pub open spec fn decl_apply(d: Seq<char>, a: Seq<Seq<char>>, line: nat, st: DeclSeen) -> Result<DeclSeen, DeclIssue> {
    if d == "model"@ {
        if st.name is Some {
            Err(DeclIssue::DuplicateModel { line })
        } else if trim(a[0]).len() == 0 {
            Err(DeclIssue::EmptyModelName { line })
        } else {
            Ok(DeclSeen { name: Some(a[0]), ..st })
        }
    } else if d == "state"@ {
        if trim(a[0]).len() == 0 {
            Err(DeclIssue::EmptyStateName { line })
        } else if st.states.contains(a[0]) {
            Err(DeclIssue::DuplicateState { line, state: a[0] })
        } else {
            Ok(DeclSeen { states: st.states.push(a[0]), ..st })
        }
    } else if d == "initial"@ {
        if has_initial(st.initials, a[0]) {
            Err(DeclIssue::DuplicateInitial { line, state: a[0] })
        } else {
            Ok(DeclSeen { initials: st.initials.push((line, a[0])), ..st })
        }
    } else if d == "edge"@ {
        if trim(a[1]).len() == 0 {
            Err(DeclIssue::EmptyAction { line })
        } else if has_edge(st.edges, a[0], a[1], a[2]) {
            Err(DeclIssue::DuplicateEdge { line, from: a[0], action: a[1], to: a[2] })
        } else {
            Ok(DeclSeen { edges: st.edges.push((line, a[0], a[1], a[2])), ..st })
        }
    } else {
        if trim(a[1]).len() == 0 {
            Err(DeclIssue::EmptyProposition { line })
        } else if has_label(st.labels, a[0], a[1]) {
            Err(DeclIssue::DuplicateLabel { line, state: a[0], proposition: a[1] })
        } else {
            Ok(DeclSeen { labels: st.labels.push((line, a[0], a[1])), ..st })
        }
    }
}

/// One line of a document: blank and `#` lines change nothing; otherwise
/// a directive name, its double-quoted arguments, then the directive's
/// checks.
pub open spec fn decl_line(l: Seq<char>, line: nat, st: DeclSeen) -> Result<DeclSeen, DeclIssue> {
    let k = skip_space(l, 0);
    if k >= l.len() || l[k] == '#' {
        Ok(st)
    } else {
        let e = directive_end(l, k);
        if e == k {
            Err(DeclIssue::ExpectedDirective { line, column: column_of(l, k) })
        } else {
            let d = l.subrange(k, e);
            match decl_args(l, e, Seq::empty()) {
                Err((i, ArgFault::NotString)) => Err(DeclIssue::ExpectedString { line, column: column_of(l, i) }),
                Err((i, ArgFault::Unterminated)) => Err(DeclIssue::UnterminatedString { line, column: column_of(l, i) }),
                Err((i, ArgFault::BadEscape(x))) => Err(
                    DeclIssue::InvalidEscape { line, column: column_of(l, i), escape: seq![x] },
                ),
                Ok(a) => if arity(d) == 0 {
                    Err(DeclIssue::UnknownDirective { line, directive: d })
                } else if a.len() != arity(d) {
                    Err(DeclIssue::WrongArity { line, directive: d, expected: arity(d), actual: a.len() })
                } else {
                    decl_apply(d, a, line, st)
                },
            }
        }
    }
}

/// The first initial declaration, from index `k`, naming an undeclared
/// state.
pub open spec fn first_unknown_initial(st: DeclSeen, k: int) -> Option<int>
    decreases st.initials.len() - k,
{
    if k < 0 || k >= st.initials.len() {
        None
    } else if !st.states.contains(st.initials[k].1) {
        Some(k)
    } else {
        first_unknown_initial(st, k + 1)
    }
}

/// The first edge, from index `k`, whose source or target is undeclared.
pub open spec fn first_bad_edge(st: DeclSeen, k: int) -> Option<int>
    decreases st.edges.len() - k,
{
    if k < 0 || k >= st.edges.len() {
        None
    } else if !st.states.contains(st.edges[k].1) || !st.states.contains(st.edges[k].3) {
        Some(k)
    } else {
        first_bad_edge(st, k + 1)
    }
}

/// The first label, from index `k`, on an undeclared state.
pub open spec fn first_unknown_label(st: DeclSeen, k: int) -> Option<int>
    decreases st.labels.len() - k,
{
    if k < 0 || k >= st.labels.len() {
        None
    } else if !st.states.contains(st.labels[k].1) {
        Some(k)
    } else {
        first_unknown_label(st, k + 1)
    }
}

/// The checks once every line is read.
pub open spec fn decl_finish(st: DeclSeen) -> Result<DeclSeen, DeclIssue> {
    if st.name is None {
        Err(DeclIssue::MissingModel)
    } else if st.states.len() == 0 {
        Err(DeclIssue::NoStates)
    } else if st.initials.len() == 0 {
        Err(DeclIssue::NoInitialStates)
    } else {
        match first_unknown_initial(st, 0) {
            Some(k) => Err(DeclIssue::UnknownInitialState { line: st.initials[k].0, state: st.initials[k].1 }),
            None => match first_bad_edge(st, 0) {
                Some(k) => if !st.states.contains(st.edges[k].1) {
                    Err(DeclIssue::UnknownEdgeSource { line: st.edges[k].0, state: st.edges[k].1 })
                } else {
                    Err(DeclIssue::UnknownEdgeTarget { line: st.edges[k].0, state: st.edges[k].3 })
                },
                None => match first_unknown_label(st, 0) {
                    Some(k) => Err(DeclIssue::UnknownLabelState { line: st.labels[k].0, state: st.labels[k].1 }),
                    None => Ok(st),
                },
            },
        }
    }
}

/// The document from index `p`, whose line is number `line`.
pub open spec fn decl_from(s: Seq<char>, p: int, line: nat, st: DeclSeen) -> Result<DeclSeen, DeclIssue>
    decreases s.len() - p,
{
    if p < 0 || p >= s.len() {
        decl_finish(st)
    } else {
        match decl_line(raw_line(s, p), line, st) {
            Err(e) => Err(e),
            Ok(st2) => {
                proof {
                    lemma_line_end_bounds(s, p);
                }
                decl_from(s, next_line(s, p), line + 1, st2)
            },
        }
    }
}

/// What a whole document declares, or its first error.
pub open spec fn decl_parse(s: Seq<char>) -> Result<DeclSeen, DeclIssue> {
    decl_from(s, 0, 1, nothing_seen())
}

/// The successors of `state` in a declared graph: its edges, in
/// declaration order, as (action, target) pairs.
pub open spec fn declared_edges_from(edges: Seq<(Seq<char>, Seq<char>, Seq<char>)>, state: Seq<char>) -> Seq<
    (Seq<char>, Seq<char>),
>
    decreases edges.len(),
{
    if edges.len() == 0 {
        Seq::empty()
    } else {
        let rest = declared_edges_from(edges.drop_last(), state);
        if edges.last().0 == state {
            rest.push((edges.last().1, edges.last().2))
        } else {
            rest
        }
    }
}

/// The proposition groups of a label list: each proposition with its
/// states in label order, propositions in order of first label.
pub open spec fn group_labels(labels: Seq<(nat, Seq<char>, Seq<char>)>) -> Seq<(Seq<char>, Seq<Seq<char>>)>
    decreases labels.len(),
{
    if labels.len() == 0 {
        Seq::empty()
    } else {
        add_label(group_labels(labels.drop_last()), labels.last().2, labels.last().1)
    }
}

pub open spec fn group_index(groups: Seq<(Seq<char>, Seq<Seq<char>>)>, p: Seq<char>) -> Option<int>
    decreases groups.len(),
{
    if groups.len() == 0 {
        None
    } else if let Some(j) = group_index(groups.drop_last(), p) {
        Some(j)
    } else if groups.last().0 == p {
        Some(groups.len() - 1)
    } else {
        None
    }
}

pub open spec fn add_label(groups: Seq<(Seq<char>, Seq<Seq<char>>)>, p: Seq<char>, state: Seq<char>) -> Seq<
    (Seq<char>, Seq<Seq<char>>),
> {
    match group_index(groups, p) {
        Some(j) => groups.update(j, (p, groups[j].1.push(state))),
        None => groups.push((p, seq![state])),
    }
}

// ---------------------------------------------------------------------------
// The document.
// ---------------------------------------------------------------------------

/// A parsed declarative document: the canonical transition system and the
/// named state propositions.
///
/// Propositions are metadata only: they do not become safety invariants
/// and do not alter the transition relation.
pub struct DeclarativeDocument {
    model: TransitionSystem<String>,
    propositions: Vec<(String, Vec<String>)>,
    domain: Vec<String>,
    edges: Vec<(String, String, String)>,
}

/// The `(from, action, to)` texts of a list of edges.
pub open spec fn edge_texts(v: Seq<(String, String, String)>) -> Seq<(Seq<char>, Seq<char>, Seq<char>)> {
    v.map_values(|e: (String, String, String)| (e.0@, e.1@, e.2@))
}

/// The `(from, action, to)` part of declared edges, without their lines.
pub open spec fn plain_edges(v: Seq<(nat, Seq<char>, Seq<char>, Seq<char>)>) -> Seq<(Seq<char>, Seq<char>, Seq<char>)> {
    v.map_values(|e: (nat, Seq<char>, Seq<char>, Seq<char>)| (e.1, e.2, e.3))
}

pub open spec fn texts(v: Seq<String>) -> Seq<Seq<char>> {
    v.map_values(|s: String| s@)
}

impl DeclarativeDocument {
    pub closed spec fn model_spec(&self) -> TransitionSystem<String> {
        self.model
    }

    /// Each proposition with its member states.
    pub closed spec fn groups(&self) -> Seq<(Seq<char>, Seq<Seq<char>>)> {
        self.propositions@.map_values(|g: (String, Vec<String>)| group_view(g))
    }

    pub fn model(&self) -> (m: &TransitionSystem<String>)
        ensures
            *m == self.model_spec(),
    {
        &self.model
    }

    /// The declared states, in declaration order.
    pub closed spec fn domain(&self) -> Seq<Seq<char>> {
        texts(self.domain@)
    }

    /// The declared edges `(from, action, to)`, in declaration order.
    pub closed spec fn edges(&self) -> Seq<(Seq<char>, Seq<char>, Seq<char>)> {
        edge_texts(self.edges@)
    }

    /// The successors of `state` in the declared graph: its edges in
    /// declaration order as transitions; a state that was not declared is
    /// refused with a transition-generation error.
    pub fn successors(&self, state: &String) -> (r: Result<Vec<Transition<String>>, ModelError>)
        ensures
            match r {
                Ok(ts) => self.domain().contains(state@) && ts@.map_values(
                    |t: Transition<String>| (t.action@, t.next@),
                ) == declared_edges_from(self.edges(), state@),
                Err(e) => !self.domain().contains(state@) && (e matches ModelError::TransitionGeneration { message }
                    && message@ == "state '"@ + state@ + "' is outside the declared model domain"@),
            },
    {
        declared_successors(&self.domain, &self.edges, state)
    }

    pub fn into_model(self) -> (m: TransitionSystem<String>)
        ensures
            m == self.model_spec(),
    {
        self.model
    }

    /// The members of a proposition in label declaration order.
    pub fn proposition_states(&self, proposition: &str) -> (r: Option<&[String]>)
        ensures
            match group_index(self.groups(), proposition@) {
                Some(j) => r matches Some(v) && texts(v@) == self.groups()[j].1,
                None => r is None,
            },
    {
        let mut j: usize = 0;
        while j < self.propositions.len()
            invariant
                j <= self.propositions@.len(),
                forall|x: int| 0 <= x < j ==> (#[trigger] self.groups()[x]).0 != proposition@,
            decreases self.propositions.len() - j,
        {
            if same_text(self.propositions[j].0.as_str(), proposition) {
                proof {
                    lemma_group_index_first(self.groups(), proposition@, j as int);
                }
                return Some(self.propositions[j].1.as_slice());
            }
            j += 1;
        }
        proof {
            lemma_group_index_none(self.groups(), proposition@);
        }
        None
    }

    /// Whether `state` is labeled with `proposition`.
    pub fn state_has_proposition(&self, state: &str, proposition: &str) -> (r: bool)
        ensures
            r == (group_index(self.groups(), proposition@) matches Some(j) && self.groups()[j].1.contains(state@)),
    {
        match self.proposition_states(proposition) {
            None => false,
            Some(members) => {
                let ghost j = group_index(self.groups(), proposition@)->Some_0;
                let ghost g = self.groups()[j].1;
                let mut k: usize = 0;
                while k < members.len()
                    invariant
                        group_index(self.groups(), proposition@) == Some(j),
                        g == self.groups()[j].1,
                        k <= members@.len(),
                        texts(members@) == g,
                        forall|x: int| 0 <= x < k ==> g[x] != state@,
                    decreases members.len() - k,
                {
                    if same_text(members[k].as_str(), state) {
                        proof {
                            assert(g[k as int] == state@);
                        }
                        return true;
                    }
                    k += 1;
                }
                proof {
                    assert(!g.contains(state@));
                }
                false
            },
        }
    }
}

proof fn lemma_group_index_first(groups: Seq<(Seq<char>, Seq<Seq<char>>)>, p: Seq<char>, j: int)
    requires
        0 <= j < groups.len(),
        groups[j].0 == p,
        forall|x: int| 0 <= x < j ==> (#[trigger] groups[x]).0 != p,
    ensures
        group_index(groups, p) == Some(j),
    decreases groups.len(),
{
    if groups.len() - 1 > j {
        lemma_group_index_first(groups.drop_last(), p, j);
    } else {
        lemma_group_index_none(groups.drop_last(), p);
    }
}

proof fn lemma_group_index_none(groups: Seq<(Seq<char>, Seq<Seq<char>>)>, p: Seq<char>)
    requires
        forall|x: int| 0 <= x < groups.len() ==> (#[trigger] groups[x]).0 != p,
    ensures
        group_index(groups, p) is None,
    decreases groups.len(),
{
    if groups.len() > 0 {
        lemma_group_index_none(groups.drop_last(), p);
    }
}

proof fn lemma_group_index_found(groups: Seq<(Seq<char>, Seq<Seq<char>>)>, p: Seq<char>)
    ensures
        group_index(groups, p) matches Some(j) ==> 0 <= j < groups.len() && groups[j].0 == p && forall|x: int|
            0 <= x < j ==> (#[trigger] groups[x]).0 != p,
        group_index(groups, p) is None ==> forall|x: int| 0 <= x < groups.len() ==> (#[trigger] groups[x]).0 != p,
    decreases groups.len(),
{
    if groups.len() > 0 {
        lemma_group_index_found(groups.drop_last(), p);
        assert forall|x: int| 0 <= x < groups.len() - 1 implies #[trigger] groups[x] == groups.drop_last()[x] by {}
    }
}

// ---------------------------------------------------------------------------
// Executable parts.
// ---------------------------------------------------------------------------

/// What the lines read so far declared, as built by the parser.
struct Declared {
    name: Option<String>,
    states: Vec<String>,
    initials: Vec<(usize, String)>,
    edges: Vec<(usize, String, String, String)>,
    labels: Vec<(usize, String, String)>,
}

spec fn declared_view(d: Declared) -> DeclSeen {
    DeclSeen {
        name: match d.name {
            Some(n) => Some(n@),
            None => None,
        },
        states: texts(d.states@),
        initials: d.initials@.map_values(|x: (usize, String)| (x.0 as nat, x.1@)),
        edges: d.edges@.map_values(|x: (usize, String, String, String)| (x.0 as nat, x.1@, x.2@, x.3@)),
        labels: d.labels@.map_values(|x: (usize, String, String)| (x.0 as nat, x.1@, x.2@)),
    }
}

fn contains_text(v: &Vec<String>, t: &String) -> (r: bool)
    ensures
        r == texts(v@).contains(t@),
{
    let mut k: usize = 0;
    while k < v.len()
        invariant
            k <= v@.len(),
            forall|x: int| 0 <= x < k ==> (#[trigger] texts(v@)[x]) != t@,
        decreases v.len() - k,
    {
        if same_text(v[k].as_str(), t.as_str()) {
            proof {
                assert(texts(v@)[k as int] == t@);
            }
            return true;
        }
        k += 1;
    }
    false
}

fn directive_char_exec(c: char) -> (r: bool)
    ensures
        r == is_directive_char(c),
{
    ('a' <= c && c <= 'z') || ('A' <= c && c <= 'Z') || c == '-'
}

fn directive_end_exec(l: &Vec<char>, i: usize) -> (j: usize)
    requires
        i <= l@.len(),
    ensures
        j == directive_end(l@, i as int),
        i <= j <= l@.len(),
{
    let mut j = i;
    while j < l.len() && directive_char_exec(l[j])
        invariant
            i <= j <= l@.len(),
            directive_end(l@, j as int) == directive_end(l@, i as int),
        decreases l.len() - j,
    {
        j += 1;
    }
    j
}

/// The arguments of a line from index `p`, or the index and kind of the
/// first malformed one.
fn decl_args_exec(l: &Vec<char>, start: usize) -> (r: Result<Vec<String>, (usize, ArgFault)>)
    requires
        start <= l@.len(),
    ensures
        match decl_args(l@, start as int, Seq::empty()) {
            Ok(a) => r matches Ok(v) && texts(v@) == a,
            Err((i, f)) => r matches Err((j, g)) && j == i && g == f && 0 <= i <= l@.len(),
        },
{
    let mut args: Vec<String> = Vec::new();
    let mut p = start;
    assert(texts(args@) =~= Seq::<Seq<char>>::empty());
    loop
        invariant
            start <= p <= l@.len(),
            decl_args(l@, p as int, texts(args@)) == decl_args(l@, start as int, Seq::empty()),
        decreases l@.len() - p,
    {
        let q = skip_space_exec(l, p);
        if q >= l.len() {
            return Ok(args);
        }
        if l[q] != '"' {
            return Err((q, ArgFault::NotString));
        }
        proof {
            lemma_scan_literal_bounds(l@, q as int, q + 1, Seq::empty());
        }
        match scan_literal_exec(l, q) {
            Err((i, None)) => {
                return Err((i, ArgFault::Unterminated));
            },
            Err((i, Some(x))) => {
                return Err((i, ArgFault::BadEscape(x)));
            },
            Ok((v, e)) => {
                proof {
                    assert(texts(args@.push(v)) =~= texts(args@).push(v@));
                }
                args.push(v);
                p = e;
            },
        }
    }
}

/// Which directive `d` names, as its arity (see `arity`), and 0 for none.
fn arity_exec(d: &String) -> (n: usize)
    ensures
        n == arity(d@),
{
    proof {
        lemma_directive_names();
    }
    if same_text(d.as_str(), "model") || same_text(d.as_str(), "state") || same_text(d.as_str(), "initial") {
        1
    } else if same_text(d.as_str(), "label") {
        2
    } else if same_text(d.as_str(), "edge") {
        3
    } else {
        0
    }
}

fn has_initial_exec(initials: &Vec<(usize, String)>, s: &String) -> (r: bool)
    ensures
        r == has_initial(initials@.map_values(|x: (usize, String)| (x.0 as nat, x.1@)), s@),
{
    let ghost view = initials@.map_values(|x: (usize, String)| (x.0 as nat, x.1@));
    let mut k: usize = 0;
    while k < initials.len()
        invariant
            k <= initials@.len(),
            view == initials@.map_values(|x: (usize, String)| (x.0 as nat, x.1@)),
            forall|x: int| 0 <= x < k ==> (#[trigger] view[x]).1 != s@,
        decreases initials.len() - k,
    {
        if same_text(initials[k].1.as_str(), s.as_str()) {
            assert(view[k as int].1 == s@);
            return true;
        }
        k += 1;
    }
    false
}

fn has_edge_exec(edges: &Vec<(usize, String, String, String)>, from: &String, action: &String, to: &String) -> (r: bool)
    ensures
        r == has_edge(
            edges@.map_values(|x: (usize, String, String, String)| (x.0 as nat, x.1@, x.2@, x.3@)),
            from@,
            action@,
            to@,
        ),
{
    let ghost view = edges@.map_values(|x: (usize, String, String, String)| (x.0 as nat, x.1@, x.2@, x.3@));
    let mut k: usize = 0;
    while k < edges.len()
        invariant
            k <= edges@.len(),
            view == edges@.map_values(|x: (usize, String, String, String)| (x.0 as nat, x.1@, x.2@, x.3@)),
            forall|x: int| 0 <= x < k ==> !((#[trigger] view[x]).1 == from@ && view[x].2 == action@ && view[x].3 == to@),
        decreases edges.len() - k,
    {
        if same_text(edges[k].1.as_str(), from.as_str()) && same_text(edges[k].2.as_str(), action.as_str())
            && same_text(edges[k].3.as_str(), to.as_str()) {
            assert(view[k as int].1 == from@);
            return true;
        }
        k += 1;
    }
    false
}

fn has_label_exec(labels: &Vec<(usize, String, String)>, state: &String, proposition: &String) -> (r: bool)
    ensures
        r == has_label(labels@.map_values(|x: (usize, String, String)| (x.0 as nat, x.1@, x.2@)), state@, proposition@),
{
    let ghost view = labels@.map_values(|x: (usize, String, String)| (x.0 as nat, x.1@, x.2@));
    let mut k: usize = 0;
    while k < labels.len()
        invariant
            k <= labels@.len(),
            view == labels@.map_values(|x: (usize, String, String)| (x.0 as nat, x.1@, x.2@)),
            forall|x: int| 0 <= x < k ==> !((#[trigger] view[x]).1 == state@ && view[x].2 == proposition@),
        decreases labels.len() - k,
    {
        if same_text(labels[k].1.as_str(), state.as_str()) && same_text(labels[k].2.as_str(), proposition.as_str()) {
            assert(view[k as int].1 == state@);
            return true;
        }
        k += 1;
    }
    false
}

/// Apply a directive with the right number of arguments.
fn decl_apply_exec(d: &String, args: &Vec<String>, line: usize, acc: &mut Declared) -> (r: Result<
    (),
    DeclarativeModelError,
>)
    requires
        arity(d@) > 0,
        args@.len() == arity(d@),
    ensures
        match decl_apply(d@, texts(args@), line as nat, declared_view(*old(acc))) {
            Ok(st) => r is Ok && declared_view(*final(acc)) == st,
            Err(e) => r matches Err(x) && x@ == e,
        },
{
    proof {
        lemma_directive_names();
    }
    let ghost a = texts(args@);
    let ghost before = declared_view(*acc);
    if same_text(d.as_str(), "model") {
        if acc.name.is_some() {
            return Err(DeclarativeModelError::DuplicateModel { line });
        }
        if is_blank(args[0].as_str()) {
            return Err(DeclarativeModelError::EmptyModelName { line });
        }
        acc.name = Some(args[0].clone());
        assert(declared_view(*acc) == DeclSeen { name: Some(a[0]), ..before });
        Ok(())
    } else if same_text(d.as_str(), "state") {
        if is_blank(args[0].as_str()) {
            return Err(DeclarativeModelError::EmptyStateName { line });
        }
        if contains_text(&acc.states, &args[0]) {
            return Err(DeclarativeModelError::DuplicateState { line, state: args[0].clone() });
        }
        acc.states.push(args[0].clone());
        assert(texts(acc.states@) =~= before.states.push(a[0]));
        assert(declared_view(*acc) == DeclSeen { states: before.states.push(a[0]), ..before });
        Ok(())
    } else if same_text(d.as_str(), "initial") {
        if has_initial_exec(&acc.initials, &args[0]) {
            return Err(DeclarativeModelError::DuplicateInitial { line, state: args[0].clone() });
        }
        acc.initials.push((line, args[0].clone()));
        assert(acc.initials@.map_values(|x: (usize, String)| (x.0 as nat, x.1@)) =~= before.initials.push(
            (line as nat, a[0]),
        ));
        assert(declared_view(*acc) == DeclSeen { initials: before.initials.push((line as nat, a[0])), ..before });
        Ok(())
    } else if same_text(d.as_str(), "edge") {
        if is_blank(args[1].as_str()) {
            return Err(DeclarativeModelError::EmptyAction { line });
        }
        if has_edge_exec(&acc.edges, &args[0], &args[1], &args[2]) {
            return Err(
                DeclarativeModelError::DuplicateEdge {
                    line,
                    from: args[0].clone(),
                    action: args[1].clone(),
                    to: args[2].clone(),
                },
            );
        }
        acc.edges.push((line, args[0].clone(), args[1].clone(), args[2].clone()));
        assert(acc.edges@.map_values(|x: (usize, String, String, String)| (x.0 as nat, x.1@, x.2@, x.3@))
            =~= before.edges.push((line as nat, a[0], a[1], a[2])));
        assert(declared_view(*acc) == DeclSeen { edges: before.edges.push((line as nat, a[0], a[1], a[2])), ..before });
        Ok(())
    } else {
        if is_blank(args[1].as_str()) {
            return Err(DeclarativeModelError::EmptyProposition { line });
        }
        if has_label_exec(&acc.labels, &args[0], &args[1]) {
            return Err(
                DeclarativeModelError::DuplicateLabel { line, state: args[0].clone(), proposition: args[1].clone() },
            );
        }
        acc.labels.push((line, args[0].clone(), args[1].clone()));
        assert(acc.labels@.map_values(|x: (usize, String, String)| (x.0 as nat, x.1@, x.2@)) =~= before.labels.push(
            (line as nat, a[0], a[1]),
        ));
        assert(declared_view(*acc) == DeclSeen { labels: before.labels.push((line as nat, a[0], a[1])), ..before });
        Ok(())
    }
}

/// Read one line into the declarations.
fn decl_line_exec(l: &Vec<char>, line: usize, acc: &mut Declared) -> (r: Result<(), DeclarativeModelError>)
    requires
        byte_len(l@) < usize::MAX,
    ensures
        match decl_line(l@, line as nat, declared_view(*old(acc))) {
            Ok(st) => r is Ok && declared_view(*final(acc)) == st,
            Err(e) => r matches Err(x) && x@ == e,
        },
{
    let k = skip_space_exec(l, 0);
    if k >= l.len() || l[k] == '#' {
        return Ok(());
    }
    let e = directive_end_exec(l, k);
    if e == k {
        let column = byte_offset(l, k) + 1;
        return Err(DeclarativeModelError::ExpectedDirective { line, column });
    }
    let d = string_of(l, k, e);
    let args = match decl_args_exec(l, e) {
        Ok(a) => a,
        Err((i, f)) => {
            let column = byte_offset(l, i) + 1;
            return Err(
                match f {
                    ArgFault::NotString => DeclarativeModelError::ExpectedString { line, column },
                    ArgFault::Unterminated => DeclarativeModelError::UnterminatedString { line, column },
                    ArgFault::BadEscape(x) => {
                        let mut escape = String::new();
                        push_char(&mut escape, x);
                        assert(escape@ =~= seq![x]);
                        DeclarativeModelError::InvalidEscape { line, column, escape }
                    },
                },
            );
        },
    };
    let expected = arity_exec(&d);
    if expected == 0 {
        return Err(DeclarativeModelError::UnknownDirective { line, directive: d });
    }
    if args.len() != expected {
        return Err(DeclarativeModelError::WrongArity { line, directive: d, expected, actual: args.len() });
    }
    decl_apply_exec(&d, &args, line, acc)
}

/// The successors of `state` in the declared graph, in edge declaration
/// order; a state outside the declared domain is refused.
pub(crate) fn declared_successors(
    states: &Vec<String>,
    edges: &Vec<(String, String, String)>,
    state: &String,
) -> (r: Result<Vec<Transition<String>>, ModelError>)
    ensures
        match r {
            Ok(ts) => texts(states@).contains(state@) && ts@.map_values(
                |t: Transition<String>| (t.action@, t.next@),
            ) == declared_edges_from(
                edges@.map_values(|e: (String, String, String)| (e.0@, e.1@, e.2@)),
                state@,
            ),
            Err(e) => !texts(states@).contains(state@) && (e matches ModelError::TransitionGeneration { message }
                && message@ == "state '"@ + state@ + "' is outside the declared model domain"@),
        },
{
    if !contains_text(states, state) {
        let mut message = String::new();
        append(&mut message, "state '");
        append(&mut message, state.as_str());
        append(&mut message, "' is outside the declared model domain");
        return Err(ModelError::TransitionGeneration { message });
    }
    let ghost ev = edges@.map_values(|e: (String, String, String)| (e.0@, e.1@, e.2@));
    let mut out: Vec<Transition<String>> = Vec::new();
    let mut k: usize = 0;
    while k < edges.len()
        invariant
            k <= edges@.len(),
            ev == edges@.map_values(|e: (String, String, String)| (e.0@, e.1@, e.2@)),
            out@.map_values(|t: Transition<String>| (t.action@, t.next@)) == declared_edges_from(
                ev.take(k as int),
                state@,
            ),
        decreases edges.len() - k,
    {
        proof {
            assert(ev.take(k + 1).drop_last() =~= ev.take(k as int));
        }
        if same_text(edges[k].0.as_str(), state.as_str()) {
            let t = Transition::new(edges[k].1.as_str(), edges[k].2.clone());
            let ghost before = out@;
            out.push(t);
            proof {
                assert(out@.map_values(|t: Transition<String>| (t.action@, t.next@)) =~= before.map_values(
                    |t: Transition<String>| (t.action@, t.next@),
                ).push((ev[k as int].1, ev[k as int].2)));
            }
        }
        k += 1;
    }
    proof {
        assert(ev.take(edges@.len() as int) =~= ev);
    }
    Ok(out)
}

/// Copies of the strings of `v`.
fn plain_edge_list(edges: &Vec<(usize, String, String, String)>) -> (r: Vec<(String, String, String)>)
    ensures
        edge_texts(r@) == plain_edges(
            edges@.map_values(|x: (usize, String, String, String)| (x.0 as nat, x.1@, x.2@, x.3@)),
        ),
{
    let ghost ev = edges@.map_values(|x: (usize, String, String, String)| (x.0 as nat, x.1@, x.2@, x.3@));
    let mut r: Vec<(String, String, String)> = Vec::new();
    let mut k: usize = 0;
    while k < edges.len()
        invariant
            k <= edges@.len(),
            ev == edges@.map_values(|x: (usize, String, String, String)| (x.0 as nat, x.1@, x.2@, x.3@)),
            r@.len() == k,
            forall|x: int| 0 <= x < k ==> (#[trigger] edge_texts(r@)[x]) == plain_edges(ev)[x],
        decreases edges.len() - k,
    {
        let a = edges[k].1.clone();
        let b = edges[k].2.clone();
        let c = edges[k].3.clone();
        let ghost before = r@;
        r.push((a, b, c));
        proof {
            assert(ev[k as int] == (edges@[k as int].0 as nat, edges@[k as int].1@, edges@[k as int].2@, edges@[k as int].3@));
            assert(edge_texts(r@)[k as int] == (a@, b@, c@));
            assert forall|x: int| 0 <= x < k + 1 implies (#[trigger] edge_texts(r@)[x]) == plain_edges(ev)[x] by {
                if x < k {
                    assert(r@[x] == before[x]);
                    assert(edge_texts(before)[x] == plain_edges(ev)[x]);
                }
            }
        }
        k += 1;
    }
    proof {
        assert(edge_texts(r@) =~= plain_edges(ev));
    }
    r
}

fn copy_texts(v: &Vec<String>) -> (c: Vec<String>)
    ensures
        texts(c@) == texts(v@),
{
    let mut c: Vec<String> = Vec::new();
    let mut k: usize = 0;
    while k < v.len()
        invariant
            k <= v@.len(),
            c@.len() == k,
            forall|x: int| 0 <= x < k ==> (#[trigger] c@[x])@ == v@[x]@,
        decreases v.len() - k,
    {
        c.push(v[k].clone());
        k += 1;
    }
    assert(texts(c@) =~= texts(v@));
    c
}

/// Mapping a pushed sequence pushes the mapped element.
proof fn lemma_map_push<A, B>(s: Seq<A>, x: A, f: spec_fn(A) -> B)
    ensures
        s.push(x).map_values(f) == s.map_values(f).push(f(x)),
{
    assert(s.push(x).map_values(f) =~= s.map_values(f).push(f(x)));
}

/// Mapping an updated sequence updates the mapped element.
proof fn lemma_map_update<A, B>(s: Seq<A>, j: int, x: A, f: spec_fn(A) -> B)
    requires
        0 <= j < s.len(),
    ensures
        s.update(j, x).map_values(f) == s.map_values(f).update(j, f(x)),
{
    assert(s.update(j, x).map_values(f) =~= s.map_values(f).update(j, f(x)));
}

pub open spec fn group_view(g: (String, Vec<String>)) -> (Seq<char>, Seq<Seq<char>>) {
    (g.0@, texts(g.1@))
}

/// The proposition groups of the labels, built as `group_labels` says.
fn group_exec(labels: &Vec<(usize, String, String)>) -> (g: Vec<(String, Vec<String>)>)
    ensures
        g@.map_values(|x: (String, Vec<String>)| group_view(x)) == group_labels(
            labels@.map_values(|x: (usize, String, String)| (x.0 as nat, x.1@, x.2@)),
        ),
{
    let ghost lv = labels@.map_values(|x: (usize, String, String)| (x.0 as nat, x.1@, x.2@));
    let mut groups: Vec<(String, Vec<String>)> = Vec::new();
    let mut k: usize = 0;
    assert(lv.take(0) =~= Seq::<(nat, Seq<char>, Seq<char>)>::empty());
    assert(groups@.map_values(|x: (String, Vec<String>)| group_view(x)) =~= Seq::<(Seq<char>, Seq<Seq<char>>)>::empty());
    while k < labels.len()
        invariant
            k <= labels@.len(),
            lv == labels@.map_values(|x: (usize, String, String)| (x.0 as nat, x.1@, x.2@)),
            groups@.map_values(|x: (String, Vec<String>)| group_view(x)) == group_labels(lv.take(k as int)),
        decreases labels.len() - k,
    {
        let ghost gv = groups@.map_values(|x: (String, Vec<String>)| group_view(x));
        proof {
            assert(lv.take(k + 1).drop_last() =~= lv.take(k as int));
            lemma_group_index_found(gv, lv[k as int].2);
        }
        let prop = &labels[k].2;
        let state = &labels[k].1;
        let mut j: usize = 0;
        while j < groups.len() && !same_text(groups[j].0.as_str(), prop.as_str())
            invariant
                j <= groups@.len(),
                gv == groups@.map_values(|x: (String, Vec<String>)| group_view(x)),
                forall|x: int| 0 <= x < j ==> (#[trigger] gv[x]).0 != prop@,
            decreases groups.len() - j,
        {
            j += 1;
        }
        if j < groups.len() {
            proof {
                lemma_group_index_first(gv, prop@, j as int);
            }
            let mut members = copy_texts(&groups[j].1);
            members.push(state.clone());
            let name = groups[j].0.clone();
            let ghost old_groups = groups@;
            let entry = (name, members);
            proof {
                assert(texts(members@) =~= texts(old_groups[j as int].1@).push(state@));
                assert(group_view(entry) == (prop@, gv[j as int].1.push(state@)));
            }
            groups.set(j, entry);
            proof {
                lemma_map_update(old_groups, j as int, entry, |x: (String, Vec<String>)| group_view(x));
            }
        } else {
            proof {
                lemma_group_index_none(gv, prop@);
            }
            let mut members: Vec<String> = Vec::new();
            members.push(state.clone());
            let ghost old_groups = groups@;
            let entry = (prop.clone(), members);
            proof {
                assert(texts(members@) =~= seq![state@]);
                assert(group_view(entry) == (prop@, seq![state@]));
            }
            groups.push(entry);
            proof {
                lemma_map_push(old_groups, entry, |x: (String, Vec<String>)| group_view(x));
            }
        }
        k += 1;
    }
    proof {
        assert(lv.take(labels@.len() as int) =~= lv);
    }
    groups
}

/// The checks once every line is read, as `decl_finish` states them.
fn finish_checks(acc: &Declared) -> (r: Result<(), DeclarativeModelError>)
    ensures
        match decl_finish(declared_view(*acc)) {
            Ok(_) => r is Ok,
            Err(e) => r matches Err(x) && x@ == e,
        },
{
    if acc.name.is_none() {
        return Err(DeclarativeModelError::MissingModel);
    }
    if acc.states.len() == 0 {
        return Err(DeclarativeModelError::NoStates);
    }
    if acc.initials.len() == 0 {
        return Err(DeclarativeModelError::NoInitialStates);
    }
    let ghost st = declared_view(*acc);
    let mut k: usize = 0;
    while k < acc.initials.len()
        invariant
            st == declared_view(*acc),
            st.name is Some,
            st.states.len() > 0,
            st.initials.len() > 0,
            k <= acc.initials@.len(),
            first_unknown_initial(st, 0) == first_unknown_initial(st, k as int),
        decreases acc.initials.len() - k,
    {
        if !contains_text(&acc.states, &acc.initials[k].1) {
            return Err(
                DeclarativeModelError::UnknownInitialState { line: acc.initials[k].0, state: acc.initials[k].1.clone() },
            );
        }
        k += 1;
    }
    let mut k: usize = 0;
    while k < acc.edges.len()
        invariant
            st == declared_view(*acc),
            st.name is Some,
            st.states.len() > 0,
            st.initials.len() > 0,
            first_unknown_initial(st, 0) is None,
            k <= acc.edges@.len(),
            first_bad_edge(st, 0) == first_bad_edge(st, k as int),
        decreases acc.edges.len() - k,
    {
        if !contains_text(&acc.states, &acc.edges[k].1) {
            return Err(DeclarativeModelError::UnknownEdgeSource { line: acc.edges[k].0, state: acc.edges[k].1.clone() });
        }
        if !contains_text(&acc.states, &acc.edges[k].3) {
            return Err(DeclarativeModelError::UnknownEdgeTarget { line: acc.edges[k].0, state: acc.edges[k].3.clone() });
        }
        k += 1;
    }
    let mut k: usize = 0;
    while k < acc.labels.len()
        invariant
            st == declared_view(*acc),
            st.name is Some,
            st.states.len() > 0,
            st.initials.len() > 0,
            first_unknown_initial(st, 0) is None,
            first_bad_edge(st, 0) is None,
            k <= acc.labels@.len(),
            first_unknown_label(st, 0) == first_unknown_label(st, k as int),
        decreases acc.labels.len() - k,
    {
        if !contains_text(&acc.states, &acc.labels[k].1) {
            return Err(DeclarativeModelError::UnknownLabelState { line: acc.labels[k].0, state: acc.labels[k].1.clone() });
        }
        k += 1;
    }
    Ok(())
}

/// Parse a deterministic line-oriented finite labeled-graph document with
/// optional named state propositions.
///
/// Supported directives are `model "name"`, `state "state-id"`,
/// `initial "state-id"`, `edge "from" "action" "to"` and
/// `label "state-id" "proposition"`. Blank lines and lines whose first
/// non-whitespace character is `#` are ignored. Strings support `\\`,
/// `\"`, `\n`, `\r` and `\t`. Initial states, each state's edges and each
/// proposition's members keep declaration order.
pub fn parse_declarative_document(input: &str) -> (r: Result<DeclarativeDocument, DeclarativeModelError>)
    requires
        byte_len(input@) < usize::MAX,
    ensures
        match decl_parse(input@) {
            Ok(st) => r matches Ok(doc) && {
                &&& doc.model_spec().wf()
                &&& Some(doc.model_spec().name_text()) == st.name
                &&& texts(doc.model_spec().initial()) == st.initials.map_values(|x: (nat, Seq<char>)| x.1)
                &&& doc.groups() == group_labels(st.labels)
                &&& doc.domain() == st.states
                &&& doc.edges() == plain_edges(st.edges)
            },
            Err(e) => r matches Err(x) && x@ == e,
        },
{
    let chars = chars_of(input);
    let mut acc = Declared {
        name: None,
        states: Vec::new(),
        initials: Vec::new(),
        edges: Vec::new(),
        labels: Vec::new(),
    };
    proof {
        lemma_byte_len_at_least(input@);
        assert(texts(acc.states@) =~= Seq::<Seq<char>>::empty());
        assert(declared_view(acc).initials =~= Seq::<(nat, Seq<char>)>::empty());
        assert(declared_view(acc).edges =~= Seq::<(nat, Seq<char>, Seq<char>, Seq<char>)>::empty());
        assert(declared_view(acc).labels =~= Seq::<(nat, Seq<char>, Seq<char>)>::empty());
        assert(declared_view(acc) == nothing_seen());
    }
    let mut p: usize = 0;
    let mut line: usize = 1;
    while p < chars.len()
        invariant
            chars@ == input@,
            byte_len(input@) < usize::MAX,
            chars@.len() <= byte_len(input@),
            p <= chars@.len(),
            1 <= line <= p + 1,
            decl_from(chars@, p as int, line as nat, declared_view(acc)) == decl_parse(input@),
            named(declared_view(acc)),
        decreases chars.len() - p,
    {
        let (l, e) = raw_line_exec(&chars, p);
        proof {
            lemma_line_end_bounds(chars@, p as int);
            lemma_raw_line_bytes(chars@, p as int);
            lemma_decl_line_named(l@, line as nat, declared_view(acc));
        }
        decl_line_exec(&l, line, &mut acc)?;
        p = if e < chars.len() {
            e + 1
        } else {
            chars.len()
        };
        line = line + 1;
    }
    finish_checks(&acc)?;
    let name = match &acc.name {
        Some(n) => n.clone(),
        None => {
            return Err(DeclarativeModelError::MissingModel);
        },
    };
    let ghost st = declared_view(acc);
    let propositions = group_exec(&acc.labels);
    let succ_states = copy_texts(&acc.states);
    let domain = copy_texts(&acc.states);
    let doc_domain = copy_texts(&acc.states);
    let succ_edges = plain_edge_list(&acc.edges);
    let doc_edges = plain_edge_list(&acc.edges);
    let mut initial_states: Vec<String> = Vec::new();
    let mut k: usize = 0;
    while k < acc.initials.len()
        invariant
            k <= acc.initials@.len(),
            st == declared_view(acc),
            initial_states@.len() == k,
            forall|x: int| 0 <= x < k ==> (#[trigger] initial_states@[x])@ == st.initials[x].1,
        decreases acc.initials.len() - k,
    {
        initial_states.push(acc.initials[k].1.clone());
        k += 1;
    }
    proof {
        assert(texts(initial_states@) =~= st.initials.map_values(|x: (nat, Seq<char>)| x.1));
    }
    let vars = vec![StateVariable::new("state", "declarative state id")];
    let in_domain = move |state: &String| -> (r: bool) { contains_text(&domain, state) };
    let invariants = vec![Invariant::new("declared-state-domain", in_domain)];
    proof {
        reveal_strlit("state");
        reveal_strlit("declared-state-domain");
        crate::text::lemma_trim_plain("state"@);
        crate::text::lemma_trim_plain("declared-state-domain"@);
        assert(crate::model::variable_names(vars@) =~= seq!["state"@]);
        assert(crate::model::invariant_names(invariants@) =~= seq!["declared-state-domain"@]);
        crate::model::lemma_plain_names(seq!["state"@]);
        crate::model::lemma_plain_names(seq!["declared-state-domain"@]);
    }
    let model = match TransitionSystem::new(
        name.as_str(),
        vars,
        initial_states,
        move |state: &String| -> (r: Result<Vec<Transition<String>>, ModelError>)
            { declared_successors(&succ_states, &succ_edges, state) },
        invariants,
    ) {
        Ok(m) => m,
        Err(e) => {
            return Err(DeclarativeModelError::Model(e));
        },
    };
    let doc = DeclarativeDocument { model, propositions, domain: doc_domain, edges: doc_edges };
    proof {
        assert(doc.groups() =~= propositions@.map_values(|x: (String, Vec<String>)| group_view(x)));
    }
    Ok(doc)
}

/// A declared model name is never blank.
pub open spec fn named(st: DeclSeen) -> bool {
    st.name matches Some(n) ==> trim(n).len() > 0
}

proof fn lemma_decl_line_named(l: Seq<char>, line: nat, st: DeclSeen)
    requires
        named(st),
    ensures
        decl_line(l, line, st) matches Ok(st2) ==> named(st2),
{
}

/// Load only the transition system of a declarative document; proposition
/// metadata is accepted and discarded.
pub fn parse_declarative_model(input: &str) -> (r: Result<TransitionSystem<String>, DeclarativeModelError>)
    requires
        byte_len(input@) < usize::MAX,
    ensures
        match decl_parse(input@) {
            Ok(st) => r matches Ok(m) && {
                &&& m.wf()
                &&& Some(m.name_text()) == st.name
                &&& texts(m.initial()) == st.initials.map_values(|x: (nat, Seq<char>)| x.1)
            },
            Err(e) => r matches Err(x) && x@ == e,
        },
{
    let doc = parse_declarative_document(input)?;
    Ok(doc.into_model())
}

/// `'text'`, as messages quote names.
pub open spec fn sq(t: Seq<char>) -> Seq<char> {
    "'"@ + t + "'"@
}

/// The human-readable message of a declarative-model error.
pub open spec fn decl_issue_text(e: DeclIssue) -> Seq<char> {
    match e {
        DeclIssue::MissingModel => "declarative model is missing a model directive"@,
        DeclIssue::DuplicateModel { line } => "duplicate model directive at line "@ + decimal(line),
        DeclIssue::EmptyModelName { line } => "empty model name at line "@ + decimal(line),
        DeclIssue::NoStates => "declarative model must declare at least one state"@,
        DeclIssue::EmptyStateName { line } => "empty state name at line "@ + decimal(line),
        DeclIssue::DuplicateState { line, state } => "duplicate state "@ + sq(state) + " at line "@ + decimal(line),
        DeclIssue::NoInitialStates => "declarative model must declare at least one initial state"@,
        DeclIssue::DuplicateInitial { line, state } => "duplicate initial state "@ + sq(state) + " at line "@ + decimal(
            line,
        ),
        DeclIssue::UnknownInitialState { line, state } => "initial state "@ + sq(state) + " at line "@ + decimal(line)
            + " is not declared"@,
        DeclIssue::EmptyAction { line } => "empty edge action at line "@ + decimal(line),
        DeclIssue::UnknownEdgeSource { line, state } => "edge source "@ + sq(state) + " at line "@ + decimal(line)
            + " is not declared"@,
        DeclIssue::UnknownEdgeTarget { line, state } => "edge target "@ + sq(state) + " at line "@ + decimal(line)
            + " is not declared"@,
        DeclIssue::DuplicateEdge { line, from, action, to } => "duplicate edge "@ + sq(from) + " --"@ + action
            + "--> "@ + sq(to) + " at line "@ + decimal(line),
        DeclIssue::EmptyProposition { line } => "empty proposition name at line "@ + decimal(line),
        DeclIssue::UnknownLabelState { line, state } => "label state "@ + sq(state) + " at line "@ + decimal(line)
            + " is not declared"@,
        DeclIssue::DuplicateLabel { line, state, proposition } => "duplicate label "@ + sq(proposition)
            + " on state "@ + sq(state) + " at line "@ + decimal(line),
        DeclIssue::ExpectedDirective { line, column } => "expected directive at line "@ + decimal(line)
            + ", column "@ + decimal(column),
        DeclIssue::UnknownDirective { line, directive } => "unknown directive "@ + sq(directive) + " at line "@
            + decimal(line),
        DeclIssue::ExpectedString { line, column } => "expected a double-quoted string at line "@ + decimal(line)
            + ", column "@ + decimal(column),
        DeclIssue::UnterminatedString { line, column } => "unterminated double-quoted string at line "@ + decimal(
            line,
        ) + ", column "@ + decimal(column),
        DeclIssue::InvalidEscape { line, column, escape } => "unsupported string escape '\\"@ + escape + "'"@ + " at line "@
            + decimal(line) + ", column "@ + decimal(column),
        DeclIssue::WrongArity { line, directive, expected, actual } => "directive "@ + sq(directive) + " at line "@
            + decimal(line) + " expects "@ + decimal(expected) + " arguments but received "@ + decimal(actual),
        DeclIssue::Model(m) => "canonical model construction failed: "@ + model_error_text(m),
    }
}

fn append_sq(out: &mut String, t: &str)
    ensures
        final(out)@ == old(out)@ + sq(t@),
{
    append(out, "'");
    append(out, t);
    append(out, "'");
    assert(final(out)@ =~= old(out)@ + sq(t@));
}

fn append_line(out: &mut String, line: usize)
    ensures
        final(out)@ == old(out)@ + " at line "@ + decimal(line as nat),
{
    append(out, " at line ");
    append_usize(out, line);
    assert(final(out)@ =~= old(out)@ + " at line "@ + decimal(line as nat));
}

impl DeclarativeModelError {
    /// The human-readable message of this error.
    pub fn message(&self) -> (text: String)
        ensures
            text@ == decl_issue_text(self@),
    {
        let mut out = String::new();
        match self {
            DeclarativeModelError::MissingModel => {
                append(&mut out, "declarative model is missing a model directive");
                assert(out@ =~= decl_issue_text(self@));
            },
            DeclarativeModelError::DuplicateModel { line } => {
                append(&mut out, "duplicate model directive at line ");
                append_usize(&mut out, *line);
                assert(out@ =~= decl_issue_text(self@));
            },
            DeclarativeModelError::EmptyModelName { line } => {
                append(&mut out, "empty model name at line ");
                append_usize(&mut out, *line);
                assert(out@ =~= decl_issue_text(self@));
            },
            DeclarativeModelError::NoStates => {
                append(&mut out, "declarative model must declare at least one state");
                assert(out@ =~= decl_issue_text(self@));
            },
            DeclarativeModelError::EmptyStateName { line } => {
                append(&mut out, "empty state name at line ");
                append_usize(&mut out, *line);
                assert(out@ =~= decl_issue_text(self@));
            },
            DeclarativeModelError::DuplicateState { line, state } => {
                append(&mut out, "duplicate state ");
                append_sq(&mut out, state.as_str());
                append_line(&mut out, *line);
                assert(out@ =~= decl_issue_text(self@));
            },
            DeclarativeModelError::NoInitialStates => {
                append(&mut out, "declarative model must declare at least one initial state");
                assert(out@ =~= decl_issue_text(self@));
            },
            DeclarativeModelError::DuplicateInitial { line, state } => {
                append(&mut out, "duplicate initial state ");
                append_sq(&mut out, state.as_str());
                append_line(&mut out, *line);
                assert(out@ =~= decl_issue_text(self@));
            },
            DeclarativeModelError::UnknownInitialState { line, state } => {
                append(&mut out, "initial state ");
                append_sq(&mut out, state.as_str());
                append_line(&mut out, *line);
                append(&mut out, " is not declared");
                assert(out@ =~= decl_issue_text(self@));
            },
            DeclarativeModelError::EmptyAction { line } => {
                append(&mut out, "empty edge action at line ");
                append_usize(&mut out, *line);
                assert(out@ =~= decl_issue_text(self@));
            },
            DeclarativeModelError::UnknownEdgeSource { line, state } => {
                append(&mut out, "edge source ");
                append_sq(&mut out, state.as_str());
                append_line(&mut out, *line);
                append(&mut out, " is not declared");
                assert(out@ =~= decl_issue_text(self@));
            },
            DeclarativeModelError::UnknownEdgeTarget { line, state } => {
                append(&mut out, "edge target ");
                append_sq(&mut out, state.as_str());
                append_line(&mut out, *line);
                append(&mut out, " is not declared");
                assert(out@ =~= decl_issue_text(self@));
            },
            DeclarativeModelError::DuplicateEdge { line, from, action, to } => {
                append(&mut out, "duplicate edge ");
                append_sq(&mut out, from.as_str());
                append(&mut out, " --");
                append(&mut out, action.as_str());
                append(&mut out, "--> ");
                append_sq(&mut out, to.as_str());
                append_line(&mut out, *line);
                assert(out@ =~= decl_issue_text(self@));
            },
            DeclarativeModelError::EmptyProposition { line } => {
                append(&mut out, "empty proposition name at line ");
                append_usize(&mut out, *line);
                assert(out@ =~= decl_issue_text(self@));
            },
            DeclarativeModelError::UnknownLabelState { line, state } => {
                append(&mut out, "label state ");
                append_sq(&mut out, state.as_str());
                append_line(&mut out, *line);
                append(&mut out, " is not declared");
                assert(out@ =~= decl_issue_text(self@));
            },
            DeclarativeModelError::DuplicateLabel { line, state, proposition } => {
                append(&mut out, "duplicate label ");
                append_sq(&mut out, proposition.as_str());
                append(&mut out, " on state ");
                append_sq(&mut out, state.as_str());
                append_line(&mut out, *line);
                assert(out@ =~= decl_issue_text(self@));
            },
            DeclarativeModelError::ExpectedDirective { line, column } => {
                append(&mut out, "expected directive at line ");
                append_usize(&mut out, *line);
                append(&mut out, ", column ");
                append_usize(&mut out, *column);
                assert(out@ =~= decl_issue_text(self@));
            },
            DeclarativeModelError::UnknownDirective { line, directive } => {
                append(&mut out, "unknown directive ");
                append_sq(&mut out, directive.as_str());
                append_line(&mut out, *line);
                assert(out@ =~= decl_issue_text(self@));
            },
            DeclarativeModelError::ExpectedString { line, column } => {
                append(&mut out, "expected a double-quoted string at line ");
                append_usize(&mut out, *line);
                append(&mut out, ", column ");
                append_usize(&mut out, *column);
                assert(out@ =~= decl_issue_text(self@));
            },
            DeclarativeModelError::UnterminatedString { line, column } => {
                append(&mut out, "unterminated double-quoted string at line ");
                append_usize(&mut out, *line);
                append(&mut out, ", column ");
                append_usize(&mut out, *column);
                assert(out@ =~= decl_issue_text(self@));
            },
            DeclarativeModelError::InvalidEscape { line, column, escape } => {
                append(&mut out, "unsupported string escape '\\");
                append(&mut out, escape.as_str());
                append(&mut out, "'");
                append_line(&mut out, *line);
                append(&mut out, ", column ");
                append_usize(&mut out, *column);
                assert(out@ =~= decl_issue_text(self@));
            },
            DeclarativeModelError::WrongArity { line, directive, expected, actual } => {
                append(&mut out, "directive ");
                append_sq(&mut out, directive.as_str());
                append_line(&mut out, *line);
                append(&mut out, " expects ");
                append_usize(&mut out, *expected);
                append(&mut out, " arguments but received ");
                append_usize(&mut out, *actual);
                assert(out@ =~= decl_issue_text(self@));
            },
            DeclarativeModelError::Model(e) => {
                append(&mut out, "canonical model construction failed: ");
                let t = e.message();
                append(&mut out, t.as_str());
                assert(out@ =~= decl_issue_text(self@));
            },
        }
        out
    }
}

} // verus!
