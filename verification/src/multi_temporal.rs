//! A line-oriented textual front end for conjunctions of named exact-action
//! response clauses, compiled to a multi-response property.
use crate::checker::ExplorationLimits;
use crate::exact_state::{is_operator_char, operator_end};
use crate::graph::ReachableGraph;
use crate::model::TransitionSystem;
use crate::product::{BoundedActionProduct, BuchiProductState};
use crate::monitor::name_repeats_at;
use crate::multi_response::{
    bounded_multi_report_ok, clause_names, multi_report_ok, BoundedMultiResponseResult, MultiResponseError, MultiResponseProperty, MultiResponseResult,
    ResponseClause,
};
use crate::state::StateValue;
use crate::syntax::{byte_len, quoted, scan_literal, skip_space};
use crate::text::{append, decimal, is_blank, owned, trim};
use vstd::prelude::*;

verus! {

#[derive(Debug, Clone, Copy, PartialEq, Eq, Structural)]
pub enum ResponseActionRole {
    Trigger,
    Response,
}

impl ResponseActionRole {
    /// The role's name, as the error messages write it.
    pub fn label(&self) -> (text: &str)
        ensures
            text@ == role_text(*self),
    {
        match self {
            ResponseActionRole::Trigger => "trigger",
            ResponseActionRole::Response => "response",
        }
    }
}

pub open spec fn role_text(role: ResponseActionRole) -> Seq<char> {
    match role {
        ResponseActionRole::Trigger => "trigger"@,
        ResponseActionRole::Response => "response"@,
    }
}

#[derive(Debug, Clone, PartialEq, Eq)]
pub enum MultiResponseTemporalSpecError {
    EmptyPropertyName,
    NoClauses,
    EmptyClauseName,
    EmptyActionName { clause: String, role: ResponseActionRole },
    DuplicateClauseName { name: String },
}

/// A specification error with its texts as character sequences.
pub enum SpecFault {
    EmptyPropertyName,
    NoClauses,
    EmptyClauseName,
    EmptyActionName { clause: Seq<char>, role: ResponseActionRole },
    DuplicateClauseName { name: Seq<char> },
}

impl View for MultiResponseTemporalSpecError {
    type V = SpecFault;

    open spec fn view(&self) -> SpecFault {
        match self {
            MultiResponseTemporalSpecError::EmptyPropertyName => SpecFault::EmptyPropertyName,
            MultiResponseTemporalSpecError::NoClauses => SpecFault::NoClauses,
            MultiResponseTemporalSpecError::EmptyClauseName => SpecFault::EmptyClauseName,
            MultiResponseTemporalSpecError::EmptyActionName { clause, role } => SpecFault::EmptyActionName {
                clause: clause@,
                role: *role,
            },
            MultiResponseTemporalSpecError::DuplicateClauseName { name } => SpecFault::DuplicateClauseName {
                name: name@,
            },
        }
    }
}

pub open spec fn spec_error_text(e: MultiResponseTemporalSpecError) -> Seq<char> {
    match e {
        MultiResponseTemporalSpecError::EmptyPropertyName => "multi-response temporal property name must not be empty"@,
        MultiResponseTemporalSpecError::NoClauses => "multi-response temporal property requires at least one response clause"@,
        MultiResponseTemporalSpecError::EmptyClauseName => "response clause name must not be empty"@,
        MultiResponseTemporalSpecError::EmptyActionName { clause, role } => "response clause '"@ + clause@ + "' has an empty "@
            + role_text(role) + " action"@,
        MultiResponseTemporalSpecError::DuplicateClauseName { name } => "duplicate response clause name '"@ + name@ + "'"@,
    }
}

impl MultiResponseTemporalSpecError {
    pub fn message(&self) -> (text: String)
        ensures
            text@ == spec_error_text(*self),
    {
        let mut out = String::new();
        match self {
            MultiResponseTemporalSpecError::EmptyPropertyName => append(
                &mut out,
                "multi-response temporal property name must not be empty",
            ),
            MultiResponseTemporalSpecError::NoClauses => append(
                &mut out,
                "multi-response temporal property requires at least one response clause",
            ),
            MultiResponseTemporalSpecError::EmptyClauseName => append(&mut out, "response clause name must not be empty"),
            MultiResponseTemporalSpecError::EmptyActionName { clause, role } => {
                append(&mut out, "response clause '");
                append(&mut out, clause.as_str());
                append(&mut out, "' has an empty ");
                append(&mut out, role.label());
                append(&mut out, " action");
            },
            MultiResponseTemporalSpecError::DuplicateClauseName { name } => {
                append(&mut out, "duplicate response clause name '");
                append(&mut out, name.as_str());
                append(&mut out, "'");
            },
        }
        assert(out@ =~= spec_error_text(*self));
        out
    }
}

/// One named exact-action response clause: the action that opens the
/// obligation and the action that discharges it.
#[derive(Debug, PartialEq, Eq)]
pub struct ExactResponseClause {
    name: String,
    trigger: String,
    response: String,
}

impl View for ExactResponseClause {
    /// The name, the trigger action and the response action.
    type V = (Seq<char>, Seq<char>, Seq<char>);

    closed spec fn view(&self) -> (Seq<char>, Seq<char>, Seq<char>) {
        (self.name@, self.trigger@, self.response@)
    }
}

impl Clone for ExactResponseClause {
    fn clone(&self) -> (c: Self)
        ensures
            c@ == self@,
    {
        proof {
            use_type_invariant(self);
        }
        ExactResponseClause {
            name: owned(self.name.as_str()),
            trigger: owned(self.trigger.as_str()),
            response: owned(self.response.as_str()),
        }
    }
}

/// No part of a clause is blank.
pub open spec fn clause_ok(c: (Seq<char>, Seq<char>, Seq<char>)) -> bool {
    trim(c.0).len() > 0 && trim(c.1).len() > 0 && trim(c.2).len() > 0
}

/// What building a clause from its parts gives: the first blank part is
/// reported.
pub open spec fn clause_made(name: Seq<char>, trigger: Seq<char>, response: Seq<char>) -> Result<
    (Seq<char>, Seq<char>, Seq<char>),
    SpecFault,
> {
    if trim(name).len() == 0 {
        Err(SpecFault::EmptyClauseName)
    } else if trim(trigger).len() == 0 {
        Err(SpecFault::EmptyActionName { clause: name, role: ResponseActionRole::Trigger })
    } else if trim(response).len() == 0 {
        Err(SpecFault::EmptyActionName { clause: name, role: ResponseActionRole::Response })
    } else {
        Ok((name, trigger, response))
    }
}

impl ExactResponseClause {
    /// Every clause has three parts that are not blank.
    #[verifier::type_invariant]
    spec fn well_formed(self) -> bool {
        clause_ok(self@)
    }

    /// A clause; none of its parts may be blank (checked in order: name,
    /// trigger, response).
    pub fn new(name: &str, trigger: &str, response: &str) -> (r: Result<Self, MultiResponseTemporalSpecError>)
        ensures
            match clause_made(name@, trigger@, response@) {
                Ok(v) => r matches Ok(c) && c@ == v && clause_ok(c@),
                Err(f) => r matches Err(e) && e@ == f,
            },
    {
        if is_blank(name) {
            return Err(MultiResponseTemporalSpecError::EmptyClauseName);
        }
        if is_blank(trigger) {
            return Err(
                MultiResponseTemporalSpecError::EmptyActionName { clause: owned(name), role: ResponseActionRole::Trigger },
            );
        }
        if is_blank(response) {
            return Err(
                MultiResponseTemporalSpecError::EmptyActionName { clause: owned(name), role: ResponseActionRole::Response },
            );
        }
        Ok(ExactResponseClause { name: owned(name), trigger: owned(trigger), response: owned(response) })
    }

    pub fn name(&self) -> (name: &str)
        ensures
            name@ == self@.0,
    {
        self.name.as_str()
    }

    pub fn trigger(&self) -> (trigger: &str)
        ensures
            trigger@ == self@.1,
    {
        self.trigger.as_str()
    }

    pub fn response(&self) -> (response: &str)
        ensures
            response@ == self@.2,
    {
        self.response.as_str()
    }
}

/// The names of a list of clauses.
pub open spec fn names_of(cs: Seq<(Seq<char>, Seq<char>, Seq<char>)>) -> Seq<Seq<char>> {
    cs.map_values(|c: (Seq<char>, Seq<char>, Seq<char>)| c.0)
}

/// The first index whose name repeats an earlier one, from `j` on.
pub open spec fn first_repeat(names: Seq<Seq<char>>, j: int) -> Option<int>
    decreases names.len() - j,
{
    if j < 0 || j >= names.len() {
        None
    } else if name_repeats_at(names, j) {
        Some(j)
    } else {
        first_repeat(names, j + 1)
    }
}

/// What building a specification gives: the name must not be blank, a
/// clause is needed, and the first repeated clause name is reported.
pub open spec fn spec_made(name: Seq<char>, cs: Seq<(Seq<char>, Seq<char>, Seq<char>)>) -> Result<
    (Seq<char>, Seq<(Seq<char>, Seq<char>, Seq<char>)>),
    SpecFault,
> {
    if trim(name).len() == 0 {
        Err(SpecFault::EmptyPropertyName)
    } else if cs.len() == 0 {
        Err(SpecFault::NoClauses)
    } else {
        match first_repeat(names_of(cs), 0) {
            Some(j) => Err(SpecFault::DuplicateClauseName { name: cs[j].0 }),
            None => Ok((name, cs)),
        }
    }
}

/// A conjunction of named exact-action response clauses.
#[derive(Debug, PartialEq, Eq)]
pub struct MultiResponseTemporalSpec {
    name: String,
    clauses: Vec<ExactResponseClause>,
}

impl View for MultiResponseTemporalSpec {
    type V = (Seq<char>, Seq<(Seq<char>, Seq<char>, Seq<char>)>);

    closed spec fn view(&self) -> (Seq<char>, Seq<(Seq<char>, Seq<char>, Seq<char>)>) {
        (self.name@, self.clauses@.map_values(|c: ExactResponseClause| c@))
    }
}

impl Clone for MultiResponseTemporalSpec {
    fn clone(&self) -> (c: Self)
        ensures
            c@ == self@,
    {
        proof {
            use_type_invariant(self);
        }
        let mut clauses: Vec<ExactResponseClause> = Vec::new();
        let mut i: usize = 0;
        while i < self.clauses.len()
            invariant
                i <= self.clauses@.len(),
                clause_views(clauses@) =~= clause_views(self.clauses@).take(i as int),
            decreases self.clauses.len() - i,
        {
            clauses.push(self.clauses[i].clone());
            proof {
                assert(clause_views(self.clauses@).take(i + 1) =~= clause_views(self.clauses@).take(i as int).push(
                    self.clauses@[i as int]@,
                ));
            }
            i += 1;
        }
        proof {
            assert(clause_views(self.clauses@).take(self.clauses@.len() as int) =~= clause_views(self.clauses@));
        }
        MultiResponseTemporalSpec { name: owned(self.name.as_str()), clauses }
    }
}

/// A specification as its constructor leaves it: a name that is not
/// blank, at least one clause and no repeated clause name.
pub open spec fn spec_ok(v: (Seq<char>, Seq<(Seq<char>, Seq<char>, Seq<char>)>)) -> bool {
    &&& trim(v.0).len() > 0
    &&& v.1.len() > 0
    &&& first_repeat(names_of(v.1), 0) is None
}

/// No clause has a blank part, as the clause constructor ensures.
pub open spec fn clauses_ok(cs: Seq<(Seq<char>, Seq<char>, Seq<char>)>) -> bool {
    forall|j: int| 0 <= j < cs.len() ==> #[trigger] clause_ok(cs[j])
}

proof fn lemma_first_repeat(names: Seq<Seq<char>>, i: int, j: int)
    requires
        0 <= i <= j <= names.len(),
        forall|k: int| i <= k < j ==> !#[trigger] name_repeats_at(names, k),
    ensures
        j < names.len() && name_repeats_at(names, j) ==> first_repeat(names, i) == Some(j),
        j == names.len() ==> first_repeat(names, i) is None,
    decreases j - i,
{
    if i < j {
        lemma_first_repeat(names, i + 1, j);
    }
}

/// The views of a list of clauses.
pub open spec fn clause_views(cs: Seq<ExactResponseClause>) -> Seq<(Seq<char>, Seq<char>, Seq<char>)> {
    cs.map_values(|c: ExactResponseClause| c@)
}

impl MultiResponseTemporalSpec {
    /// A specification; its name must not be blank, it needs a clause, and
    /// the clause names must be different.
    pub fn new(name: &str, clauses: Vec<ExactResponseClause>) -> (r: Result<Self, MultiResponseTemporalSpecError>)
        ensures
            match spec_made(name@, clause_views(clauses@)) {
                Ok(v) => r matches Ok(p) && p@ == v && spec_ok(p@),
                Err(f) => r matches Err(e) && e@ == f,
            },
    {
        let ghost cs = clause_views(clauses@);
        let ghost names = names_of(cs);
        if is_blank(name) {
            return Err(MultiResponseTemporalSpecError::EmptyPropertyName);
        }
        if clauses.len() == 0 {
            return Err(MultiResponseTemporalSpecError::NoClauses);
        }
        let mut j: usize = 0;
        while j < clauses.len()
            invariant
                trim(name@).len() > 0,
                cs == clause_views(clauses@),
                names == names_of(cs),
                j <= clauses@.len(),
                forall|k: int| 0 <= k < j ==> !#[trigger] name_repeats_at(names, k),
            decreases clauses.len() - j,
        {
            let mut i: usize = 0;
            while i < j
                invariant
                    trim(name@).len() > 0,
                    cs == clause_views(clauses@),
                    names == names_of(cs),
                    j < clauses@.len(),
                    i <= j,
                    forall|k: int| 0 <= k < j ==> !#[trigger] name_repeats_at(names, k),
                    forall|k: int| 0 <= k < i ==> names[k] != names[j as int],
                decreases j - i,
            {
                if crate::text::same_text(clauses[i].name(), clauses[j].name()) {
                    proof {
                        assert(names[i as int] == names[j as int]);
                        assert(name_repeats_at(names, j as int));
                        lemma_first_repeat(names, 0, j as int);
                        assert(cs[j as int] == clauses@[j as int]@);
                        assert(names[j as int] == cs[j as int].0);
                        assert(first_repeat(names_of(cs), 0) == Some(j as int));
                        assert(spec_made(name@, cs) == Err::<(Seq<char>, Seq<(Seq<char>, Seq<char>, Seq<char>)>), SpecFault>(
                            SpecFault::DuplicateClauseName { name: cs[j as int].0 },
                        ));
                    }
                    return Err(MultiResponseTemporalSpecError::DuplicateClauseName { name: owned(clauses[j].name()) });
                }
                i += 1;
            }
            assert(!name_repeats_at(names, j as int));
            j += 1;
        }
        proof {
            lemma_first_repeat(names, 0, clauses@.len() as int);
        }
        let spec = MultiResponseTemporalSpec { name: owned(name), clauses };
        assert(spec@.1 =~= cs);
        Ok(spec)
    }

    pub fn name(&self) -> (name: &str)
        ensures
            name@ == self@.0,
    {
        self.name.as_str()
    }

    pub fn clauses(&self) -> (clauses: &[ExactResponseClause])
        ensures
            clause_views(clauses@) == self@.1,
    {
        self.clauses.as_slice()
    }
}

/// A clause as one line of the canonical document.
pub open spec fn clause_text(c: (Seq<char>, Seq<char>, Seq<char>)) -> Seq<char> {
    "response("@ + quoted(c.0) + seq![','] + quoted(c.1) + seq![','] + quoted(c.2) + seq![')']
}

/// The canonical document: one clause per line, joined by line feeds.
pub open spec fn document(cs: Seq<(Seq<char>, Seq<char>, Seq<char>)>) -> Seq<char>
    decreases cs.len(),
{
    if cs.len() == 0 {
        Seq::empty()
    } else if cs.len() == 1 {
        clause_text(cs[0])
    } else {
        document(cs.drop_last()) + seq!['\n'] + clause_text(cs.last())
    }
}

/// A name that repeats no earlier one, from `i` on, where none repeats
/// from `i` on.
proof fn lemma_no_repeat(names: Seq<Seq<char>>, i: int)
    requires
        0 <= i,
        first_repeat(names, i) is None,
    ensures
        forall|j: int| i <= j < names.len() ==> !#[trigger] name_repeats_at(names, j),
    decreases names.len() - i,
{
    if i < names.len() {
        lemma_no_repeat(names, i + 1);
    }
}

impl MultiResponseTemporalSpec {
    /// Every specification has a name that is not blank, a clause, and no
    /// repeated clause name.
    #[verifier::type_invariant]
    spec fn well_formed(self) -> bool {
        spec_ok(self@)
    }

    /// The checkable property: one clause per exact clause, in order and
    /// under the same names, whose trigger holds of exactly its trigger
    /// action and whose response holds of exactly its response action.
    pub fn to_property(&self) -> (r: Result<MultiResponseProperty, MultiResponseError>)
        ensures
            r matches Ok(p) && p.name_text() == self@.0 && clause_names(p.clause_list()) == names_of(self@.1),
    {
        proof {
            use_type_invariant(self);
        }
        let ghost cs = self@.1;
        let mut out: Vec<ResponseClause> = Vec::new();
        let mut i: usize = 0;
        while i < self.clauses.len()
            invariant
                cs == clause_views(self.clauses@),
                i <= self.clauses@.len(),
                clause_names(out@) =~= names_of(cs).take(i as int),
            decreases self.clauses.len() - i,
        {
            let c = &self.clauses[i];
            proof {
                use_type_invariant(c);
            }
            let trigger = owned(c.trigger());
            let response = owned(c.response());
            let made = ResponseClause::new(
                c.name(),
                move |action: &str| crate::text::same_text(action, trigger.as_str()),
                move |action: &str| crate::text::same_text(action, response.as_str()),
            );
            match made {
                Ok(clause) => {
                    out.push(clause);
                },
                Err(e) => {
                    return Err(e);
                },
            }
            proof {
                assert(cs[i as int] == self.clauses@[i as int]@);
                assert(names_of(cs).take(i + 1) =~= names_of(cs).take(i as int).push(cs[i as int].0));
            }
            i += 1;
        }
        proof {
            assert(names_of(cs).take(cs.len() as int) =~= names_of(cs));
            lemma_no_repeat(names_of(cs), 0);
        }
        MultiResponseProperty::new(self.name.as_str(), out)
    }
}

impl MultiResponseTemporalSpec {
    /// The deterministic line-oriented document that
    /// `parse_multi_response_temporal` accepts.
    pub fn canonical_document(&self) -> (text: String)
        ensures
            text@ == document(self@.1),
    {
        let mut out = String::new();
        let ghost cs = self@.1;
        let mut k: usize = 0;
        while k < self.clauses.len()
            invariant
                cs == clause_views(self.clauses@),
                k <= self.clauses@.len(),
                out@ == document(cs.take(k as int)),
            decreases self.clauses.len() - k,
        {
            let ghost before = out@;
            if k > 0 {
                crate::text::push_char(&mut out, '\n');
            }
            let c = &self.clauses[k];
            append(&mut out, "response(");
            crate::syntax::append_quoted(&mut out, c.name());
            crate::text::push_char(&mut out, ',');
            crate::syntax::append_quoted(&mut out, c.trigger());
            crate::text::push_char(&mut out, ',');
            crate::syntax::append_quoted(&mut out, c.response());
            crate::text::push_char(&mut out, ')');
            proof {
                reveal_strlit("response(");
                let t = cs.take(k + 1);
                assert(t.drop_last() =~= cs.take(k as int));
                assert(t.last() == cs[k as int]);
                assert(cs[k as int] == self.clauses@[k as int]@);
                if k == 0 {
                    assert(out@ =~= clause_text(cs[0]));
                } else {
                    assert(out@ =~= before + seq!['\n'] + clause_text(cs[k as int]));
                }
            }
            k += 1;
        }
        assert(cs.take(cs.len() as int) =~= cs);
        out
    }
}

#[derive(Debug, Clone, PartialEq, Eq)]
pub enum MultiResponseTemporalParseErrorKind {
    ExpectedDirective,
    UnknownDirective { directive: String },
    ExpectedOpenParen,
    ExpectedString,
    UnterminatedString,
    InvalidEscape { escape: String },
    ExpectedCommaOrClose,
    WrongArity { expected: usize, actual: usize },
    TrailingInput,
    Semantic(MultiResponseTemporalSpecError),
}

/// A parse fault with its texts as character sequences.
pub enum ParseFault {
    ExpectedDirective,
    UnknownDirective { directive: Seq<char> },
    ExpectedOpenParen,
    ExpectedString,
    UnterminatedString,
    InvalidEscape { escape: Seq<char> },
    ExpectedCommaOrClose,
    WrongArity { expected: nat, actual: nat },
    TrailingInput,
    Semantic(SpecFault),
}

impl View for MultiResponseTemporalParseErrorKind {
    type V = ParseFault;

    open spec fn view(&self) -> ParseFault {
        match self {
            MultiResponseTemporalParseErrorKind::ExpectedDirective => ParseFault::ExpectedDirective,
            MultiResponseTemporalParseErrorKind::UnknownDirective { directive } => ParseFault::UnknownDirective {
                directive: directive@,
            },
            MultiResponseTemporalParseErrorKind::ExpectedOpenParen => ParseFault::ExpectedOpenParen,
            MultiResponseTemporalParseErrorKind::ExpectedString => ParseFault::ExpectedString,
            MultiResponseTemporalParseErrorKind::UnterminatedString => ParseFault::UnterminatedString,
            MultiResponseTemporalParseErrorKind::InvalidEscape { escape } => ParseFault::InvalidEscape { escape: escape@ },
            MultiResponseTemporalParseErrorKind::ExpectedCommaOrClose => ParseFault::ExpectedCommaOrClose,
            MultiResponseTemporalParseErrorKind::WrongArity { expected, actual } => ParseFault::WrongArity {
                expected: *expected as nat,
                actual: *actual as nat,
            },
            MultiResponseTemporalParseErrorKind::TrailingInput => ParseFault::TrailingInput,
            MultiResponseTemporalParseErrorKind::Semantic(e) => ParseFault::Semantic(e@),
        }
    }
}

/// A parse error: its one-based line, its one-based byte column, and what
/// went wrong.
#[derive(Debug, Clone, PartialEq, Eq)]
pub struct MultiResponseTemporalParseError {
    line: usize,
    column: usize,
    kind: MultiResponseTemporalParseErrorKind,
}

impl View for MultiResponseTemporalParseError {
    type V = (nat, nat, ParseFault);

    closed spec fn view(&self) -> (nat, nat, ParseFault) {
        (self.line as nat, self.column as nat, self.kind@)
    }
}

/// What the message of a specification fault says.
pub open spec fn spec_fault_text(f: SpecFault) -> Seq<char> {
    match f {
        SpecFault::EmptyPropertyName => "multi-response temporal property name must not be empty"@,
        SpecFault::NoClauses => "multi-response temporal property requires at least one response clause"@,
        SpecFault::EmptyClauseName => "response clause name must not be empty"@,
        SpecFault::EmptyActionName { clause, role } => "response clause '"@ + clause + "' has an empty "@ + role_text(
            role,
        ) + " action"@,
        SpecFault::DuplicateClauseName { name } => "duplicate response clause name '"@ + name + "'"@,
    }
}

/// What a parse fault's message says after the position.
pub open spec fn fault_text(k: ParseFault) -> Seq<char> {
    match k {
        ParseFault::ExpectedDirective => "expected 'response' directive"@,
        ParseFault::UnknownDirective { directive } => "unsupported directive '"@ + directive + "'"@,
        ParseFault::ExpectedOpenParen => "expected '('"@,
        ParseFault::ExpectedString => "expected a double-quoted string"@,
        ParseFault::UnterminatedString => "unterminated double-quoted string"@,
        ParseFault::InvalidEscape { escape } => "unsupported string escape '\\"@ + escape + "'"@,
        ParseFault::ExpectedCommaOrClose => "expected ',' or ')'"@,
        ParseFault::WrongArity { expected, actual } => "response directive expects "@ + decimal(expected)
            + " arguments but received "@ + decimal(actual),
        ParseFault::TrailingInput => "unexpected trailing input after response directive"@,
        ParseFault::Semantic(f) => spec_fault_text(f),
    }
}

/// The message of a parse error: its position, then what went wrong.
pub open spec fn parse_error_text(e: (nat, nat, ParseFault)) -> Seq<char> {
    "multi-response temporal parse error at line "@ + decimal(e.0) + ", byte column "@ + decimal(e.1) + ": "@
        + fault_text(e.2)
}

impl MultiResponseTemporalParseError {
    /// The error's message.
    pub fn message(&self) -> (text: String)
        ensures
            text@ == parse_error_text(self@),
    {
        let mut out = String::new();
        append(&mut out, "multi-response temporal parse error at line ");
        crate::text::append_usize(&mut out, self.line);
        append(&mut out, ", byte column ");
        crate::text::append_usize(&mut out, self.column);
        append(&mut out, ": ");
        let ghost head = out@;
        match &self.kind {
            MultiResponseTemporalParseErrorKind::ExpectedDirective => append(&mut out, "expected 'response' directive"),
            MultiResponseTemporalParseErrorKind::UnknownDirective { directive } => {
                append(&mut out, "unsupported directive '");
                append(&mut out, directive.as_str());
                append(&mut out, "'");
            },
            MultiResponseTemporalParseErrorKind::ExpectedOpenParen => append(&mut out, "expected '('"),
            MultiResponseTemporalParseErrorKind::ExpectedString => append(&mut out, "expected a double-quoted string"),
            MultiResponseTemporalParseErrorKind::UnterminatedString => append(&mut out, "unterminated double-quoted string"),
            MultiResponseTemporalParseErrorKind::InvalidEscape { escape } => {
                append(&mut out, "unsupported string escape '\\");
                append(&mut out, escape.as_str());
                append(&mut out, "'");
            },
            MultiResponseTemporalParseErrorKind::ExpectedCommaOrClose => append(&mut out, "expected ',' or ')'"),
            MultiResponseTemporalParseErrorKind::WrongArity { expected, actual } => {
                append(&mut out, "response directive expects ");
                crate::text::append_usize(&mut out, *expected);
                append(&mut out, " arguments but received ");
                crate::text::append_usize(&mut out, *actual);
            },
            MultiResponseTemporalParseErrorKind::TrailingInput => append(
                &mut out,
                "unexpected trailing input after response directive",
            ),
            MultiResponseTemporalParseErrorKind::Semantic(e) => {
                let m = e.message();
                append(&mut out, m.as_str());
                assert(spec_error_text(*e) == spec_fault_text(e@));
            },
        }
        assert(out@ =~= parse_error_text(self@));
        out
    }

    pub fn line(&self) -> (line: usize)
        ensures
            line == self@.0,
    {
        self.line
    }

    pub fn column(&self) -> (column: usize)
        ensures
            column == self@.1,
    {
        self.column
    }

    pub fn kind(&self) -> (kind: &MultiResponseTemporalParseErrorKind)
        ensures
            kind@ == self@.2,
    {
        &self.kind
    }
}

/// The double-quoted arguments from index `j` on, after `acc`, each with
/// the index of its opening quote: the arguments, the index of the closing
/// parenthesis and the index after it.
pub open spec fn clause_args(s: Seq<char>, j: int, acc: Seq<(Seq<char>, int)>) -> Result<
    (Seq<(Seq<char>, int)>, int, int),
    (int, ParseFault),
>
    decreases s.len() - j,
{
    let k = skip_space(s, j);
    if k >= s.len() || s[k] != '"' {
        Err((k, ParseFault::ExpectedString))
    } else {
        match scan_literal(s, k, k + 1, Seq::empty()) {
            Err((p, None)) => Err((p, ParseFault::UnterminatedString)),
            Err((p, Some(x))) => Err((p, ParseFault::InvalidEscape { escape: seq![x] })),
            Ok((v, a)) => {
                let m = skip_space(s, a);
                if m < s.len() && s[m] == ',' {
                    proof {
                        crate::syntax::lemma_skip_bounds(s, j);
                        crate::syntax::lemma_scan_literal_bounds(s, k, k + 1, Seq::empty());
                        crate::syntax::lemma_skip_bounds(s, a);
                    }
                    clause_args(s, m + 1, acc.push((v, k)))
                } else if m < s.len() && s[m] == ')' {
                    Ok((acc.push((v, k)), m, m + 1))
                } else {
                    Err((m, ParseFault::ExpectedCommaOrClose))
                }
            },
        }
    }
}

/// Where a semantic fault of a clause is reported: at the argument it
/// concerns.
pub open spec fn fault_at(f: SpecFault, args: Seq<(Seq<char>, int)>, directive: int) -> int {
    match f {
        SpecFault::EmptyClauseName => args[0].1,
        SpecFault::EmptyActionName { role: ResponseActionRole::Trigger, .. } => args[1].1,
        SpecFault::EmptyActionName { role: ResponseActionRole::Response, .. } => args[2].1,
        _ => directive,
    }
}

/// What one line means: nothing for a blank or comment line, a clause for
/// a `response` directive, or the first fault, by character index.
pub open spec fn clause_line(l: Seq<char>) -> Result<Option<(Seq<char>, Seq<char>, Seq<char>)>, (int, ParseFault)> {
    let k = skip_space(l, 0);
    if k >= l.len() || l[k] == '#' {
        Ok(None)
    } else {
        let e = operator_end(l, k);
        let d = l.subrange(k, e);
        if e == k {
            Err((k, ParseFault::ExpectedDirective))
        } else if d != "response"@ {
            Err((k, ParseFault::UnknownDirective { directive: d }))
        } else {
            let i1 = skip_space(l, e);
            if i1 >= l.len() || l[i1] != '(' {
                Err((i1, ParseFault::ExpectedOpenParen))
            } else {
                let j = skip_space(l, i1 + 1);
                let args = if j < l.len() && l[j] == ')' {
                    Ok((Seq::<(Seq<char>, int)>::empty(), j, j + 1))
                } else {
                    clause_args(l, i1 + 1, Seq::empty())
                };
                match args {
                    Err(f) => Err(f),
                    Ok((vals, close, after)) => {
                        let t = skip_space(l, after);
                        if t < l.len() {
                            Err((t, ParseFault::TrailingInput))
                        } else if vals.len() != 3 {
                            Err((close, ParseFault::WrongArity { expected: 3, actual: vals.len() }))
                        } else {
                            match clause_made(vals[0].0, vals[1].0, vals[2].0) {
                                Ok(c) => Ok(Some(c)),
                                Err(f) => Err((fault_at(f, vals, k), ParseFault::Semantic(f))),
                            }
                        }
                    },
                }
            }
        }
    }
}

/// The clauses of the lines from index `p` on, after `acc`, or the first
/// fault with its line and byte column.
pub open spec fn clauses_from(
    s: Seq<char>,
    p: int,
    line: nat,
    acc: Seq<(Seq<char>, Seq<char>, Seq<char>)>,
) -> Result<Seq<(Seq<char>, Seq<char>, Seq<char>)>, (nat, nat, ParseFault)>
    decreases s.len() - p,
{
    if p < 0 || p >= s.len() {
        Ok(acc)
    } else {
        let l = crate::syntax::raw_line(s, p);
        match clause_line(l) {
            Err((i, f)) => Err((line, byte_len(l.take(i)) + 1, f)),
            Ok(o) => {
                proof {
                    crate::syntax::lemma_line_end_bounds(s, p);
                }
                clauses_from(
                    s,
                    crate::syntax::next_line(s, p),
                    line + 1,
                    match o {
                        Some(c) => acc.push(c),
                        None => acc,
                    },
                )
            },
        }
    }
}

/// What `parse_multi_response_temporal(name, s)` means: the specification,
/// or the first fault; faults of the whole specification are reported at
/// line 1, column 1.
pub open spec fn temporal_parse(name: Seq<char>, s: Seq<char>) -> Result<
    (Seq<char>, Seq<(Seq<char>, Seq<char>, Seq<char>)>),
    (nat, nat, ParseFault),
> {
    match clauses_from(s, 0, 1, Seq::empty()) {
        Err(e) => Err(e),
        Ok(cs) => match spec_made(name, cs) {
            Ok(v) => Ok(v),
            Err(f) => Err((1, 1, ParseFault::Semantic(f))),
        },
    }
}

/// The texts and positions of parsed arguments.
pub open spec fn arg_views(v: Seq<(String, usize)>) -> Seq<(Seq<char>, int)> {
    v.map_values(|x: (String, usize)| (x.0@, x.1 as int))
}

proof fn lemma_args_fault(s: Seq<char>, j: int, acc: Seq<(Seq<char>, int)>)
    ensures
        clause_args(s, j, acc) matches Err((_, f)) ==> (f is ExpectedString || f is UnterminatedString
            || f is InvalidEscape || f is ExpectedCommaOrClose),
        0 <= j <= s.len() ==> (clause_args(s, j, acc) matches Err((p, _)) ==> 0 <= p <= s.len()),
        0 <= j <= s.len() ==> (clause_args(s, j, acc) matches Ok((vals, c, a)) ==> c < a <= s.len() && acc.len()
            < vals.len() && vals.subrange(0, acc.len() as int) == acc && forall|x: int|
            acc.len() <= x < vals.len() ==> 0 <= #[trigger] vals[x].1 < s.len()),
    decreases s.len() - j,
{
    let k = skip_space(s, j);
    if 0 <= j <= s.len() {
        crate::syntax::lemma_skip_bounds(s, j);
    }
    if k < s.len() && s[k] == '"' {
        crate::syntax::lemma_scan_literal_bounds(s, k, k + 1, Seq::empty());
        if let Ok((v, a)) = scan_literal(s, k, k + 1, Seq::empty()) {
            let m = skip_space(s, a);
            crate::syntax::lemma_skip_bounds(s, a);
            if m < s.len() && s[m] == ',' {
                lemma_args_fault(s, m + 1, acc.push((v, k)));
                if let Ok((vals, c, aa)) = clause_args(s, m + 1, acc.push((v, k))) {
                    assert(vals.subrange(0, acc.len() as int) =~= vals.subrange(0, acc.len() as int + 1).subrange(
                        0,
                        acc.len() as int,
                    ));
                    assert(vals.subrange(0, acc.len() as int + 1)[acc.len() as int] == (v, k));
                }
            } else if m < s.len() && s[m] == ')' {
                assert(acc.push((v, k)).subrange(0, acc.len() as int) =~= acc);
            }
        }
    }
}

/// The arguments from index `start` on, as `clause_args` describes them.
fn clause_args_exec(s: &Vec<char>, start: usize) -> (r: Result<
    (Vec<(String, usize)>, usize, usize),
    (usize, MultiResponseTemporalParseErrorKind),
>)
    requires
        start <= s@.len(),
    ensures
        match clause_args(s@, start as int, Seq::empty()) {
            Ok((vals, close, after)) => r matches Ok((v, c, a)) && arg_views(v@) == vals && c == close && a == after,
            Err((p, f)) => r matches Err((q, k)) && q == p && k@ == f,
        },
{
    let mut acc: Vec<(String, usize)> = Vec::new();
    let mut j = start;
    assert(arg_views(acc@) =~= Seq::<(Seq<char>, int)>::empty());
    loop
        invariant
            j <= s@.len(),
            clause_args(s@, j as int, arg_views(acc@)) == clause_args(s@, start as int, Seq::empty()),
        decreases s@.len() - j,
    {
        let k = crate::syntax::skip_space_exec(s, j);
        if k >= s.len() || s[k] != '"' {
            return Err((k, MultiResponseTemporalParseErrorKind::ExpectedString));
        }
        proof {
            crate::syntax::lemma_scan_literal_bounds(s@, k as int, k + 1, Seq::empty());
        }
        match crate::syntax::scan_literal_exec(s, k) {
            Err((p, None)) => {
                return Err((p, MultiResponseTemporalParseErrorKind::UnterminatedString));
            },
            Err((p, Some(x))) => {
                let mut escape = String::new();
                crate::text::push_char(&mut escape, x);
                assert(escape@ =~= seq![x]);
                return Err((p, MultiResponseTemporalParseErrorKind::InvalidEscape { escape }));
            },
            Ok((v, a)) => {
                let m = crate::syntax::skip_space_exec(s, a);
                if m < s.len() && s[m] == ',' {
                    let ghost before = acc@;
                    acc.push((v, k));
                    assert(arg_views(acc@) =~= arg_views(before).push((v@, k as int)));
                    j = m + 1;
                } else if m < s.len() && s[m] == ')' {
                    let ghost before = acc@;
                    acc.push((v, k));
                    assert(arg_views(acc@) =~= arg_views(before).push((v@, k as int)));
                    return Ok((acc, m, m + 1));
                } else {
                    return Err((m, MultiResponseTemporalParseErrorKind::ExpectedCommaOrClose));
                }
            },
        }
    }
}

fn operator_end_here(s: &Vec<char>, i: usize) -> (e: usize)
    requires
        i <= s@.len(),
    ensures
        e == operator_end(s@, i as int),
        i <= e <= s@.len(),
{
    let mut e = i;
    while e < s.len() && (('a' <= s[e] && s[e] <= 'z') || ('A' <= s[e] && s[e] <= 'Z') || s[e] == '-')
        invariant
            i <= e <= s@.len(),
            operator_end(s@, e as int) == operator_end(s@, i as int),
        decreases s.len() - e,
    {
        e += 1;
    }
    e
}

/// One line, as `clause_line` describes it.
fn clause_line_exec(l: &Vec<char>) -> (r: Result<Option<ExactResponseClause>, (usize, MultiResponseTemporalParseErrorKind)>)
    ensures
        match clause_line(l@) {
            Ok(None) => r matches Ok(None),
            Ok(Some(c)) => r matches Ok(Some(x)) && x@ == c && clause_ok(c),
            Err((i, f)) => r matches Err((j, k)) && j == i && k@ == f,
        },
        r matches Err((j, _)) ==> j <= l@.len(),
{
    let k = crate::syntax::skip_space_exec(l, 0);
    if k >= l.len() || l[k] == '#' {
        return Ok(None);
    }
    let e = operator_end_here(l, k);
    if e == k {
        return Err((k, MultiResponseTemporalParseErrorKind::ExpectedDirective));
    }
    let d = crate::text::string_of(l, k, e);
    if !crate::text::same_text(d.as_str(), "response") {
        return Err((k, MultiResponseTemporalParseErrorKind::UnknownDirective { directive: d }));
    }
    let i1 = crate::syntax::skip_space_exec(l, e);
    if i1 >= l.len() || l[i1] != '(' {
        return Err((i1, MultiResponseTemporalParseErrorKind::ExpectedOpenParen));
    }
    let j = crate::syntax::skip_space_exec(l, i1 + 1);
    proof {
        lemma_args_fault(l@, i1 + 1, Seq::empty());
    }
    let args = if j < l.len() && l[j] == ')' {
        let none: Vec<(String, usize)> = Vec::new();
        assert(arg_views(none@) =~= Seq::<(Seq<char>, int)>::empty());
        Ok((none, j, j + 1))
    } else {
        clause_args_exec(l, i1 + 1)
    };
    let (vals, close, after) = match args {
        Err((p, kind)) => {
            return Err((p, kind));
        },
        Ok(x) => x,
    };
    let t = crate::syntax::skip_space_exec(l, after);
    if t < l.len() {
        return Err((t, MultiResponseTemporalParseErrorKind::TrailingInput));
    }
    if vals.len() != 3 {
        return Err((close, MultiResponseTemporalParseErrorKind::WrongArity { expected: 3, actual: vals.len() }));
    }
    let ghost av = arg_views(vals@);
    assert(av[0] == (vals@[0].0@, vals@[0].1 as int));
    assert(av[1] == (vals@[1].0@, vals@[1].1 as int));
    assert(av[2] == (vals@[2].0@, vals@[2].1 as int));
    match ExactResponseClause::new(vals[0].0.as_str(), vals[1].0.as_str(), vals[2].0.as_str()) {
        Ok(c) => Ok(Some(c)),
        Err(err) => {
            let position = match &err {
                MultiResponseTemporalSpecError::EmptyClauseName => vals[0].1,
                MultiResponseTemporalSpecError::EmptyActionName { role: ResponseActionRole::Trigger, .. } => vals[1].1,
                MultiResponseTemporalSpecError::EmptyActionName { role: ResponseActionRole::Response, .. } => vals[2].1,
                _ => k,
            };
            Err((position, MultiResponseTemporalParseErrorKind::Semantic(err)))
        },
    }
}

/// Parse a conjunction of named response clauses from a line-oriented
/// document. Each line that is not blank and not a full-line `#` comment
/// has the form `response("clause-name","trigger-action","response-action")`,
/// with ASCII whitespace allowed between tokens; strings support the escapes
/// `\\`, `\"`, `\n`, `\r` and `\t`. Lines are split as `str::lines`
/// splits them; columns are one-based byte columns.
pub fn parse_multi_response_temporal(name: &str, input: &str) -> (r: Result<
    MultiResponseTemporalSpec,
    MultiResponseTemporalParseError,
>)
    requires
        byte_len(input@) < usize::MAX,
    ensures
        match temporal_parse(name@, input@) {
            Ok(v) => r matches Ok(p) && p@ == v && spec_ok(p@) && clauses_ok(p@.1),
            Err(e) => r matches Err(x) && x@ == e,
        },
{
    let chars = crate::text::chars_of(input);
    let mut clauses: Vec<ExactResponseClause> = Vec::new();
    let mut p: usize = 0;
    let mut line: usize = 1;
    proof {
        crate::syntax::lemma_byte_len_at_least(input@);
        assert(clause_views(clauses@) =~= Seq::<(Seq<char>, Seq<char>, Seq<char>)>::empty());
    }
    while p < chars.len()
        invariant
            chars@ == input@,
            byte_len(input@) < usize::MAX,
            chars@.len() <= byte_len(input@),
            p <= chars@.len(),
            1 <= line <= p + 1,
            clauses_from(chars@, p as int, line as nat, clause_views(clauses@)) == clauses_from(
                input@,
                0,
                1,
                Seq::empty(),
            ),
            clauses_ok(clause_views(clauses@)),
        decreases chars.len() - p,
    {
        let (l, e) = crate::syntax::raw_line_exec(&chars, p);
        proof {
            crate::syntax::lemma_line_end_bounds(chars@, p as int);
            crate::syntax::lemma_raw_line_bytes(chars@, p as int);
        }
        match clause_line_exec(&l) {
            Ok(None) => {},
            Ok(Some(c)) => {
                let ghost before = clauses@;
                clauses.push(c);
                proof {
                    assert(clause_views(clauses@) =~= clause_views(before).push(c@));
                }
            },
            Err((i, kind)) => {
                let column = crate::syntax::byte_offset(&l, i) + 1;
                return Err(MultiResponseTemporalParseError { line, column, kind });
            },
        }
        p = if e < chars.len() {
            e + 1
        } else {
            chars.len()
        };
        line = line + 1;
    }
    match MultiResponseTemporalSpec::new(name, clauses) {
        Ok(spec) => Ok(spec),
        Err(err) => Err(
            MultiResponseTemporalParseError { line: 1, column: 1, kind: MultiResponseTemporalParseErrorKind::Semantic(err) },
        ),
    }
}

proof fn lemma_operator_scan(s: Seq<char>, i: int, stop: int)
    requires
        0 <= i <= stop < s.len(),
        forall|x: int| i <= x < stop ==> is_operator_char(#[trigger] s[x]),
        !is_operator_char(s[stop]),
    ensures
        operator_end(s, i) == stop,
    decreases stop - i,
{
    if i < stop {
        lemma_operator_scan(s, i + 1, stop);
    }
}

/// The quoted argument at `k` decodes to `v`, and the scan stops just after
/// its closing quote.
proof fn lemma_quoted_at(l: Seq<char>, k: int, v: Seq<char>)
    requires
        0 <= k,
        k + quoted(v).len() <= l.len(),
        l.subrange(k, k + quoted(v).len()) == quoted(v),
    ensures
        scan_literal(l, k, k + 1, Seq::empty()) == Ok::<(Seq<char>, int), (int, Option<char>)>((v, k + quoted(v).len())),
        l[k] == '"',
{
    let e = crate::syntax::escaped(v);
    assert(quoted(v) == seq!['"'] + e + seq!['"']);
    assert(l[k] == quoted(v)[0]);
    assert(l.subrange(k + 1, k + 1 + e.len()) =~= e) by {
        assert(l.subrange(k + 1, k + 1 + e.len()) =~= l.subrange(k, k + quoted(v).len()).subrange(1, 1 + e.len() as int));
    }
    crate::syntax::lemma_scan_literal_escaped(l, k, k + 1, Seq::empty(), v);
    assert(Seq::<char>::empty() + v =~= v);
    assert(l[k + 1 + e.len()] == quoted(v)[1 + e.len() as int]);
}

/// A canonical clause line reads back as that clause.
proof fn lemma_clause_line(c: (Seq<char>, Seq<char>, Seq<char>))
    requires
        clause_ok(c),
    ensures
        clause_line(clause_text(c)) == Ok::<Option<(Seq<char>, Seq<char>, Seq<char>)>, (int, ParseFault)>(Some(c)),
{
    reveal_strlit("response(");
    reveal_strlit("response");
    let w = "response"@;
    let q0 = quoted(c.0);
    let q1 = quoted(c.1);
    let q2 = quoted(c.2);
    let l = clause_text(c);
    assert(l =~= w + seq!['('] + q0 + seq![','] + q1 + seq![','] + q2 + seq![')']);
    let k1: int = 9;
    let a1: int = k1 + q0.len();
    let k2: int = a1 + 1;
    let a2: int = k2 + q1.len();
    let k3: int = a2 + 1;
    let a3: int = k3 + q2.len();
    assert(l.len() == a3 + 1);
    assert forall|x: int| 0 <= x < 8 implies is_operator_char(#[trigger] l[x]) by {
        assert(l[x] == w[x]);
    }
    assert(l[8] == '(');
    assert(l[0] == 'r');
    assert(skip_space(l, 0) == 0);
    lemma_operator_scan(l, 0, 8);
    assert(l.subrange(0, 8) =~= w);
    assert(skip_space(l, 8) == 8);
    assert(l.subrange(k1, a1) =~= q0);
    assert(l.subrange(k2, a2) =~= q1);
    assert(l.subrange(k3, a3) =~= q2);
    lemma_quoted_at(l, k1, c.0);
    lemma_quoted_at(l, k2, c.1);
    lemma_quoted_at(l, k3, c.2);
    assert(skip_space(l, k1) == k1);
    assert(l[a1] == ',');
    assert(skip_space(l, a1) == a1);
    assert(skip_space(l, k2) == k2);
    assert(l[a2] == ',');
    assert(skip_space(l, a2) == a2);
    assert(skip_space(l, k3) == k3);
    assert(l[a3] == ')');
    assert(skip_space(l, a3) == a3);
    let e0 = Seq::<(Seq<char>, int)>::empty();
    let e1 = e0.push((c.0, k1));
    let e2 = e1.push((c.1, k2));
    let e3 = e2.push((c.2, k3));
    assert(clause_args(l, k2, e1) == clause_args(l, k3, e2));
    assert(clause_args(l, k3, e2) == Ok::<(Seq<(Seq<char>, int)>, int, int), (int, ParseFault)>((e3, a3, a3 + 1)));
    assert(clause_args(l, k1, e0) == clause_args(l, k2, e1));
    assert(skip_space(l, a3 + 1) == l.len());
}

/// A canonical clause line holds no line feed and ends in `)`.
proof fn lemma_clause_text_shape(c: (Seq<char>, Seq<char>, Seq<char>))
    ensures
        forall|j: int| 0 <= j < clause_text(c).len() ==> clause_text(c)[j] != '\n',
        clause_text(c).last() == ')',
        clause_text(c).len() > 0,
{
    reveal_strlit("response(");
    crate::certificate_verification_job::lemma_no_line_feed(c.0);
    crate::certificate_verification_job::lemma_no_line_feed(c.1);
    crate::certificate_verification_job::lemma_no_line_feed(c.2);
    let w = "response("@;
    let q0 = quoted(c.0);
    let q1 = quoted(c.1);
    let q2 = quoted(c.2);
    let t = clause_text(c);
    assert(t =~= w + q0 + seq![','] + q1 + seq![','] + q2 + seq![')']);
    assert forall|j: int| 0 <= j < t.len() implies t[j] != '\n' by {
        if j < w.len() {
            assert(t[j] == w[j]);
        } else if j < w.len() + q0.len() {
            assert(t[j] == q0[j - w.len()]);
        } else if j == w.len() + q0.len() {
        } else if j < w.len() + q0.len() + 1 + q1.len() {
            assert(t[j] == q1[j - w.len() - q0.len() - 1]);
        } else if j == w.len() + q0.len() + 1 + q1.len() {
        } else if j < w.len() + q0.len() + 2 + q1.len() + q2.len() {
            assert(t[j] == q2[j - w.len() - q0.len() - 2 - q1.len()]);
        }
    }
}

/// The line of `s` at `q` is `t`, a text with no line feed not ending in a
/// carriage return, followed by a line feed or the end.
proof fn lemma_line_is(s: Seq<char>, q: int, t: Seq<char>)
    requires
        0 <= q,
        q + t.len() <= s.len(),
        t.len() > 0,
        t.last() != '\r',
        s.subrange(q, q + t.len()) == t,
        forall|j: int| 0 <= j < t.len() ==> t[j] != '\n',
        q + t.len() < s.len() ==> s[q + t.len()] == '\n',
    ensures
        crate::syntax::raw_line(s, q) == t,
        crate::syntax::next_line(s, q) == if q + t.len() < s.len() {
            q + t.len() + 1
        } else {
            s.len() as int
        },
{
    assert forall|j: int| q <= j < q + t.len() implies s[j] != '\n' by {
        assert(s[j] == s.subrange(q, q + t.len())[j - q]);
    }
    crate::syntax::lemma_line_end_at(s, q, q + t.len());
}

/// With two or more clauses, the document is the first clause's line, a
/// line feed, and the document of the rest.
proof fn lemma_document_front(cs: Seq<(Seq<char>, Seq<char>, Seq<char>)>)
    requires
        cs.len() >= 2,
    ensures
        document(cs) == clause_text(cs[0]) + seq!['\n'] + document(cs.drop_first()),
    decreases cs.len(),
{
    let nl: Seq<char> = seq!['\n'];
    let head = clause_text(cs[0]);
    if cs.len() > 2 {
        let init = cs.drop_last();
        let tail = cs.drop_first();
        lemma_document_front(init);
        assert(init[0] == cs[0]);
        assert(init.drop_first() =~= tail.drop_last());
        assert(tail.last() == cs.last());
        let mid = document(tail.drop_last());
        let last = clause_text(cs.last());
        assert(document(init) == head + nl + mid);
        assert(document(cs) == document(init) + nl + last);
        assert(document(tail) == mid + nl + last);
        assert(document(cs) =~= head + nl + document(tail));
    } else {
        let tail = cs.drop_first();
        assert(tail.len() == 1);
        assert(cs.drop_last().len() == 1);
        assert(tail[0] == cs[1]);
        assert(document(tail) == clause_text(cs[1]));
        assert(document(cs.drop_last()) == head);
        assert(document(cs) == document(cs.drop_last()) + nl + clause_text(cs.last()));
        assert(document(cs) =~= head + nl + document(tail));
    }
}

/// A canonical clause line at `p` is collected and reading goes on at the
/// next line.
proof fn lemma_clauses_step(
    s: Seq<char>,
    p: int,
    line: nat,
    acc: Seq<(Seq<char>, Seq<char>, Seq<char>)>,
    c: (Seq<char>, Seq<char>, Seq<char>),
)
    requires
        0 <= p < s.len(),
        crate::syntax::raw_line(s, p) == clause_text(c),
        clause_ok(c),
    ensures
        clauses_from(s, p, line, acc) == clauses_from(s, crate::syntax::next_line(s, p), line + 1, acc.push(c)),
{
    lemma_clause_line(c);
}

/// Where the text from `p` on is `t`, a line feed and `r`, each piece
/// stands at its place in `s`.
proof fn lemma_front_split(s: Seq<char>, p: int, t: Seq<char>, r: Seq<char>)
    requires
        0 <= p <= s.len(),
        s.subrange(p, s.len() as int) == t + seq!['\n'] + r,
    ensures
        p + t.len() < s.len(),
        s.subrange(p, p + t.len()) == t,
        s[p + t.len()] == '\n',
        s.subrange(p + t.len() + 1, s.len() as int) == r,
{
    let d = s.subrange(p, s.len() as int);
    assert(d.len() == t.len() + 1 + r.len());
    assert(d[t.len() as int] == '\n');
    assert(s.subrange(p, p + t.len()) =~= t) by {
        assert forall|j: int| 0 <= j < t.len() implies #[trigger] s.subrange(p, p + t.len())[j] == t[j] by {
            assert(d[j] == t[j]);
        }
    }
    assert(s.subrange(p + t.len() + 1, s.len() as int) =~= r) by {
        assert forall|j: int| 0 <= j < r.len() implies #[trigger] s.subrange(p + t.len() + 1, s.len() as int)[j] == r[j] by {
            assert(d[t.len() + 1 + j] == r[j]);
        }
    }
}

/// Reading a canonical document from `p` collects exactly its clauses.
proof fn lemma_clauses_from(
    s: Seq<char>,
    p: int,
    line: nat,
    acc: Seq<(Seq<char>, Seq<char>, Seq<char>)>,
    cs: Seq<(Seq<char>, Seq<char>, Seq<char>)>,
)
    requires
        0 <= p <= s.len(),
        cs.len() >= 1,
        clauses_ok(cs),
        s.subrange(p, s.len() as int) == document(cs),
    ensures
        clauses_from(s, p, line, acc) == Ok::<Seq<(Seq<char>, Seq<char>, Seq<char>)>, (nat, nat, ParseFault)>(acc + cs),
    decreases cs.len(),
{
    let c = cs[0];
    let t = clause_text(c);
    assert(clause_ok(cs[0]));
    lemma_clause_text_shape(c);
    if cs.len() == 1 {
        assert(document(cs) == t);
        assert(s.subrange(p, p + t.len()) =~= t);
        lemma_line_is(s, p, t);
        lemma_clauses_step(s, p, line, acc, c);
        assert(clauses_from(s, s.len() as int, line + 1, acc.push(c)) == Ok::<Seq<(Seq<char>, Seq<char>, Seq<char>)>, (nat, nat, ParseFault)>(acc.push(c)));
        assert(acc.push(c) =~= acc + cs);
    } else {
        lemma_document_front(cs);
        let rest = cs.drop_first();
        lemma_front_split(s, p, t, document(rest));
        lemma_line_is(s, p, t);
        lemma_clauses_step(s, p, line, acc, c);
        let q = p + t.len() + 1;
        assert forall|j: int| 0 <= j < rest.len() implies #[trigger] clause_ok(rest[j]) by {
            assert(rest[j] == cs[j + 1]);
        }
        lemma_clauses_from(s, q, line + 1, acc.push(c), rest);
        assert(acc.push(c) + rest =~= acc + cs);
    }
}

/// Checks the specification's property on the model with no fairness
/// assumption: the report is that of the multi-response check on the
/// property that `to_property` builds.
pub fn check_multi_response_temporal<S: StateValue>(
    model: &TransitionSystem<S>,
    spec: &MultiResponseTemporalSpec,
) -> (r: Result<MultiResponseResult<S>, MultiResponseError>)
    ensures
        r matches Ok(res) ==> exists|
            property: MultiResponseProperty,
            c: ReachableGraph<S>,
            p: BoundedActionProduct<S, Vec<bool>>,
            e: ReachableGraph<BuchiProductState<S, Vec<bool>>>,
            member: Seq<Vec<bool>>,
        |
            property.name_text() == spec@.0 && clause_names(property.clause_list()) == names_of(spec@.1)
                && #[trigger] multi_report_ok(*model, property, Seq::empty(), c, p, e, member, res),
        r matches Err(e) ==> exists|property: MultiResponseProperty|
            property.name_text() == spec@.0 && clause_names(property.clause_list()) == names_of(spec@.1)
                && #[trigger] crate::multi_response::multi_error_ok(*model, property, false, false, e),
{
    let property = match spec.to_property() {
        Ok(property) => property,
        Err(e) => {
            return Err(e);
        },
    };
    let res = match crate::multi_response::check_multi_response(model, &property) {
        Ok(res) => res,
        Err(e) => {
            proof {
                assert(crate::multi_response::multi_error_ok(*model, property, false, false, e));
            }
            return Err(e);
        },
    };
    proof {
        let (c, p, e, member) = choose|
            c: ReachableGraph<S>,
            p: BoundedActionProduct<S, Vec<bool>>,
            e: ReachableGraph<BuchiProductState<S, Vec<bool>>>,
            member: Seq<Vec<bool>>,
        | multi_report_ok(*model, property, Seq::empty(), c, p, e, member, res);
        assert(multi_report_ok(*model, property, Seq::empty(), c, p, e, member, res));
    }
    Ok(res)
}

/// Checks the specification's property on the product bounded by
/// `limits`, with no fairness assumption.
pub fn check_multi_response_temporal_with_product_limits<S: StateValue>(
    model: &TransitionSystem<S>,
    spec: &MultiResponseTemporalSpec,
    limits: ExplorationLimits,
) -> (r: Result<BoundedMultiResponseResult<S>, MultiResponseError>)
    ensures
        r matches Ok(res) ==> exists|
            property: MultiResponseProperty,
            c: ReachableGraph<S>,
            p: BoundedActionProduct<S, Vec<bool>>,
            e: ReachableGraph<BuchiProductState<S, Vec<bool>>>,
            member: Seq<Vec<bool>>,
        |
            property.name_text() == spec@.0 && clause_names(property.clause_list()) == names_of(spec@.1)
                && #[trigger] bounded_multi_report_ok(*model, property, Seq::empty(), limits, c, p, e, member, res),
        r matches Err(e) ==> exists|property: MultiResponseProperty|
            property.name_text() == spec@.0 && clause_names(property.clause_list()) == names_of(spec@.1)
                && #[trigger] crate::multi_response::multi_error_ok(*model, property, false, true, e),
{
    let property = match spec.to_property() {
        Ok(property) => property,
        Err(e) => {
            return Err(e);
        },
    };
    let res = match crate::multi_response::check_multi_response_with_product_limits(model, &property, limits) {
        Ok(res) => res,
        Err(e) => {
            proof {
                assert(crate::multi_response::multi_error_ok(*model, property, false, true, e));
            }
            return Err(e);
        },
    };
    proof {
        let (c, p, e, member) = choose|
            c: ReachableGraph<S>,
            p: BoundedActionProduct<S, Vec<bool>>,
            e: ReachableGraph<BuchiProductState<S, Vec<bool>>>,
            member: Seq<Vec<bool>>,
        | bounded_multi_report_ok(*model, property, Seq::empty(), limits, c, p, e, member, res);
        assert(bounded_multi_report_ok(*model, property, Seq::empty(), limits, c, p, e, member, res));
    }
    Ok(res)
}

/// The canonical document of a well-formed specification parses back to
/// the same specification under the same name.
pub proof fn lemma_document_round_trip(name: Seq<char>, cs: Seq<(Seq<char>, Seq<char>, Seq<char>)>)
    requires
        spec_ok((name, cs)),
        clauses_ok(cs),
    ensures
        temporal_parse(name, document(cs)) == Ok::<(Seq<char>, Seq<(Seq<char>, Seq<char>, Seq<char>)>), (nat, nat, ParseFault)>(
            (name, cs),
        ),
{
    let s = document(cs);
    assert(s.subrange(0, s.len() as int) =~= s);
    lemma_clauses_from(s, 0, 1, Seq::empty(), cs);
    assert(Seq::<(Seq<char>, Seq<char>, Seq<char>)>::empty() + cs =~= cs);
}

} // verus!
