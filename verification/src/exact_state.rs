//! A narrow textual front end for exact-state properties over models whose
//! states are strings: `reachable("state")` and `all-eventually("state")`.
use crate::syntax::{
    byte_len, byte_offset, lemma_scan_literal_bounds, lemma_skip_bounds, quoted, scan_literal, scan_literal_exec,
    skip_space, skip_space_exec,
};
use crate::text::{append, append_usize, chars_of, decimal, is_blank, owned, push_char, string_of, trim};
use vstd::prelude::*;

verus! {

#[derive(Debug, Clone, Copy, PartialEq, Eq, Structural)]
enum ExactStatePropertyKind {
    Reachable,
    AllEventually,
}

/// A deliberately narrow exact-state property: a name, a target state id,
/// and whether the target must be reachable or eventually reached on every
/// maximal execution.
#[derive(Debug, Clone, PartialEq, Eq)]
pub struct ExactStatePropertySpec {
    name: String,
    target: String,
    kind: ExactStatePropertyKind,
}

/// The operator word of a property kind.
pub open spec fn operator_text(reachable: bool) -> Seq<char> {
    if reachable {
        "reachable"@
    } else {
        "all-eventually"@
    }
}

/// The canonical expression of a property: the operator applied to the
/// quoted target.
pub open spec fn canonical_text(reachable: bool, target: Seq<char>) -> Seq<char> {
    operator_text(reachable) + seq!['('] + quoted(target) + seq![')']
}

impl ExactStatePropertySpec {
    pub closed spec fn name_text(&self) -> Seq<char> {
        self.name@
    }

    pub closed spec fn target_text(&self) -> Seq<char> {
        self.target@
    }

    /// The property asks for reachability (rather than eventuality on
    /// every execution).
    pub closed spec fn is_reachable(&self) -> bool {
        self.kind == ExactStatePropertyKind::Reachable
    }

    /// Neither the name nor the target is blank.
    pub open spec fn wf(&self) -> bool {
        trim(self.name_text()).len() > 0 && trim(self.target_text()).len() > 0
    }

    /// A reachability property; name and target must not be blank.
    pub fn reachable(name: &str, target: &str) -> (r: Result<Self, ExactStateError>)
        ensures
            spec_made(name@, target@, true, r),
    {
        Self::new(name, target, ExactStatePropertyKind::Reachable)
    }

    /// A universal eventuality property; name and target must not be blank.
    pub fn all_eventually(name: &str, target: &str) -> (r: Result<Self, ExactStateError>)
        ensures
            spec_made(name@, target@, false, r),
    {
        Self::new(name, target, ExactStatePropertyKind::AllEventually)
    }

    fn new(name: &str, target: &str, kind: ExactStatePropertyKind) -> (r: Result<Self, ExactStateError>)
        ensures
            spec_made(name@, target@, kind == ExactStatePropertyKind::Reachable, r),
    {
        if is_blank(name) {
            return Err(ExactStateError::EmptyPropertyName);
        }
        if is_blank(target) {
            return Err(ExactStateError::EmptyTargetState);
        }
        Ok(ExactStatePropertySpec { name: owned(name), target: owned(target), kind })
    }

    pub fn name(&self) -> (name: &str)
        ensures
            name@ == self.name_text(),
    {
        self.name.as_str()
    }

    pub fn target(&self) -> (target: &str)
        ensures
            target@ == self.target_text(),
    {
        self.target.as_str()
    }

    /// The one deterministic expression of this property that
    /// `parse_exact_state_property` accepts.
    pub fn canonical_expression(&self) -> (text: String)
        ensures
            text@ == canonical_text(self.is_reachable(), self.target_text()),
    {
        let mut out = String::new();
        match self.kind {
            ExactStatePropertyKind::Reachable => append(&mut out, "reachable"),
            ExactStatePropertyKind::AllEventually => append(&mut out, "all-eventually"),
        }
        push_char(&mut out, '(');
        crate::syntax::append_quoted(&mut out, self.target.as_str());
        push_char(&mut out, ')');
        proof {
            reveal_strlit("reachable");
            reveal_strlit("all-eventually");
            assert(out@ =~= canonical_text(self.is_reachable(), self.target_text()));
        }
        out
    }
}

/// What constructing a property from `name`, `target` and its kind gives:
/// the first blank field is reported, else a well-formed property.
pub open spec fn spec_made(
    name: Seq<char>,
    target: Seq<char>,
    reachable: bool,
    r: Result<ExactStatePropertySpec, ExactStateError>,
) -> bool {
    if trim(name).len() == 0 {
        r == Err::<ExactStatePropertySpec, ExactStateError>(ExactStateError::EmptyPropertyName)
    } else if trim(target).len() == 0 {
        r == Err::<ExactStatePropertySpec, ExactStateError>(ExactStateError::EmptyTargetState)
    } else {
        r matches Ok(p) && p.name_text() == name && p.target_text() == target && p.is_reachable() == reachable && p.wf()
    }
}

#[derive(Debug, Clone, Copy, PartialEq, Eq, Structural)]
pub enum ExactStateError {
    EmptyPropertyName,
    EmptyTargetState,
}

impl ExactStateError {
    pub fn message(&self) -> (text: String)
        ensures
            text@ == exact_state_error_text(*self),
    {
        let mut out = String::new();
        match self {
            ExactStateError::EmptyPropertyName => append(&mut out, "exact-state property name must not be empty"),
            ExactStateError::EmptyTargetState => append(&mut out, "exact-state target must not be empty"),
        }
        out
    }
}

pub open spec fn exact_state_error_text(e: ExactStateError) -> Seq<char> {
    match e {
        ExactStateError::EmptyPropertyName => "exact-state property name must not be empty"@,
        ExactStateError::EmptyTargetState => "exact-state target must not be empty"@,
    }
}

#[derive(Debug, Clone, PartialEq, Eq)]
pub enum ExactStateParseErrorKind {
    ExpectedOperator,
    UnknownOperator { operator: String },
    ExpectedOpenParen,
    ExpectedString,
    UnterminatedString,
    InvalidEscape { escape: String },
    ExpectedCommaOrClose,
    WrongArity { operator: String, expected: usize, actual: usize },
    TrailingInput,
    Semantic(ExactStateError),
}

/// Which way an exact-state text is malformed, without the texts it carries.
#[derive(Debug, Clone, Copy, PartialEq, Eq, Structural)]
pub enum ExactFault {
    ExpectedOperator,
    UnknownOperator,
    ExpectedOpenParen,
    ExpectedString,
    UnterminatedString,
    InvalidEscape,
    ExpectedCommaOrClose,
    WrongArity,
    TrailingInput,
    EmptyPropertyName,
    EmptyTargetState,
}

impl View for ExactStateParseErrorKind {
    /// The fault, the text it carries (the operator or the escape), and for a
    /// wrong arity the expected and actual argument counts.
    type V = (ExactFault, Seq<char>, nat, nat);

    open spec fn view(&self) -> (ExactFault, Seq<char>, nat, nat) {
        match self {
            ExactStateParseErrorKind::ExpectedOperator => (ExactFault::ExpectedOperator, Seq::empty(), 0, 0),
            ExactStateParseErrorKind::UnknownOperator { operator } => (ExactFault::UnknownOperator, operator@, 0, 0),
            ExactStateParseErrorKind::ExpectedOpenParen => (ExactFault::ExpectedOpenParen, Seq::empty(), 0, 0),
            ExactStateParseErrorKind::ExpectedString => (ExactFault::ExpectedString, Seq::empty(), 0, 0),
            ExactStateParseErrorKind::UnterminatedString => (ExactFault::UnterminatedString, Seq::empty(), 0, 0),
            ExactStateParseErrorKind::InvalidEscape { escape } => (ExactFault::InvalidEscape, escape@, 0, 0),
            ExactStateParseErrorKind::ExpectedCommaOrClose => (ExactFault::ExpectedCommaOrClose, Seq::empty(), 0, 0),
            ExactStateParseErrorKind::WrongArity { operator, expected, actual } => (
                ExactFault::WrongArity,
                operator@,
                *expected as nat,
                *actual as nat,
            ),
            ExactStateParseErrorKind::TrailingInput => (ExactFault::TrailingInput, Seq::empty(), 0, 0),
            ExactStateParseErrorKind::Semantic(ExactStateError::EmptyPropertyName) => (
                ExactFault::EmptyPropertyName,
                Seq::empty(),
                0,
                0,
            ),
            ExactStateParseErrorKind::Semantic(ExactStateError::EmptyTargetState) => (
                ExactFault::EmptyTargetState,
                Seq::empty(),
                0,
                0,
            ),
        }
    }
}

/// A parse error: the byte offset of the fault and what went wrong.
#[derive(Debug, Clone, PartialEq, Eq)]
pub struct ExactStateParseError {
    position: usize,
    kind: ExactStateParseErrorKind,
}

impl View for ExactStateParseError {
    type V = (nat, (ExactFault, Seq<char>, nat, nat));

    closed spec fn view(&self) -> (nat, (ExactFault, Seq<char>, nat, nat)) {
        (self.position as nat, self.kind@)
    }
}

impl ExactStateParseError {
    pub fn position(&self) -> (p: usize)
        ensures
            p == self@.0,
    {
        self.position
    }

    pub fn kind(&self) -> (k: &ExactStateParseErrorKind)
        ensures
            k@ == self@.1,
    {
        &self.kind
    }
}

/// A character of an operator word: an ASCII letter or `-`.
pub open spec fn is_operator_char(c: char) -> bool {
    ('a' <= c && c <= 'z') || ('A' <= c && c <= 'Z') || c == '-'
}

fn operator_char_exec(c: char) -> (r: bool)
    ensures
        r == is_operator_char(c),
{
    ('a' <= c && c <= 'z') || ('A' <= c && c <= 'Z') || c == '-'
}

/// The first index at or after `i` that does not hold an operator
/// character, or the length.
pub open spec fn operator_end(s: Seq<char>, i: int) -> int
    decreases s.len() - i,
{
    if i < 0 || i >= s.len() {
        s.len() as int
    } else if is_operator_char(s[i]) {
        operator_end(s, i + 1)
    } else {
        i
    }
}

/// A fault: its character index, its kind, the text it carries and, for a
/// wrong arity, the number of arguments found.
pub type ExactFaultAt = (int, ExactFault, Seq<char>, nat);

/// The double-quoted arguments from index `j` on, after `acc`: the
/// arguments, the index of the closing parenthesis and the index after it.
pub open spec fn exact_args(s: Seq<char>, j: int, acc: Seq<Seq<char>>) -> Result<
    (Seq<Seq<char>>, int, int),
    ExactFaultAt,
>
    decreases s.len() - j,
{
    let k = skip_space(s, j);
    if k >= s.len() || s[k] != '"' {
        Err((k, ExactFault::ExpectedString, Seq::empty(), 0))
    } else {
        match scan_literal(s, k, k + 1, Seq::empty()) {
            Err((p, None)) => Err((p, ExactFault::UnterminatedString, Seq::empty(), 0)),
            Err((p, Some(x))) => Err((p, ExactFault::InvalidEscape, seq![x], 0)),
            Ok((v, a)) => {
                let m = skip_space(s, a);
                if m < s.len() && s[m] == ',' {
                    proof {
                        lemma_skip_bounds(s, j);
                        lemma_scan_literal_bounds(s, k, k + 1, Seq::empty());
                        lemma_skip_bounds(s, a);
                    }
                    exact_args(s, m + 1, acc.push(v))
                } else if m < s.len() && s[m] == ')' {
                    Ok((acc.push(v), m, m + 1))
                } else {
                    Err((m, ExactFault::ExpectedCommaOrClose, Seq::empty(), 0))
                }
            },
        }
    }
}

/// What `parse_exact_state_property(name, s)` means: whether the property
/// asks for reachability, and its target; or the first fault, by character
/// index.
pub open spec fn exact_parse(name: Seq<char>, s: Seq<char>) -> Result<(bool, Seq<char>), ExactFaultAt> {
    let i0 = skip_space(s, 0);
    let e = operator_end(s, i0);
    let op = s.subrange(i0, e);
    if e == i0 {
        Err((i0, ExactFault::ExpectedOperator, Seq::empty(), 0))
    } else if op != "reachable"@ && op != "all-eventually"@ {
        Err((i0, ExactFault::UnknownOperator, op, 0))
    } else {
        let i1 = skip_space(s, e);
        if i1 >= s.len() || s[i1] != '(' {
            Err((i1, ExactFault::ExpectedOpenParen, Seq::empty(), 0))
        } else {
            let j = skip_space(s, i1 + 1);
            let args = if j < s.len() && s[j] == ')' {
                Ok((Seq::<Seq<char>>::empty(), j, j + 1))
            } else {
                exact_args(s, i1 + 1, Seq::empty())
            };
            match args {
                Err(f) => Err(f),
                Ok((vals, close, after)) => {
                    let t = skip_space(s, after);
                    if t < s.len() {
                        Err((t, ExactFault::TrailingInput, Seq::empty(), 0))
                    } else if vals.len() != 1 {
                        Err((close, ExactFault::WrongArity, op, vals.len()))
                    } else if trim(name).len() == 0 {
                        Err((i0, ExactFault::EmptyPropertyName, Seq::empty(), 0))
                    } else if trim(vals[0]).len() == 0 {
                        Err((i0, ExactFault::EmptyTargetState, Seq::empty(), 0))
                    } else {
                        Ok((op == "reachable"@, vals[0]))
                    }
                },
            }
        }
    }
}

proof fn lemma_args_fault(s: Seq<char>, j: int, acc: Seq<Seq<char>>)
    ensures
        exact_args(s, j, acc) matches Err((_, f, _, _)) ==> f != ExactFault::WrongArity,
    decreases s.len() - j,
{
    let k = skip_space(s, j);
    if k < s.len() && s[k] == '"' {
        if let Ok((v, a)) = scan_literal(s, k, k + 1, Seq::empty()) {
            let m = skip_space(s, a);
            if m < s.len() && s[m] == ',' {
                lemma_skip_bounds(s, j);
                lemma_scan_literal_bounds(s, k, k + 1, Seq::empty());
                lemma_skip_bounds(s, a);
                lemma_args_fault(s, m + 1, acc.push(v));
            }
        }
    }
}

/// The texts of a list of strings.
pub open spec fn texts(v: Seq<String>) -> Seq<Seq<char>> {
    v.map_values(|x: String| x@)
}

fn operator_end_exec(s: &Vec<char>, i: usize) -> (e: usize)
    requires
        i <= s@.len(),
    ensures
        e == operator_end(s@, i as int),
        i <= e <= s@.len(),
{
    let mut e = i;
    while e < s.len() && operator_char_exec(s[e])
        invariant
            i <= e <= s@.len(),
            operator_end(s@, e as int) == operator_end(s@, i as int),
        decreases s.len() - e,
    {
        e += 1;
    }
    e
}

/// The arguments from index `start` on, as `exact_args` describes them.
fn args_exec(s: &Vec<char>, start: usize) -> (r: Result<(Vec<String>, usize, usize), (usize, ExactStateParseErrorKind)>)
    requires
        start <= s@.len(),
    ensures
        match exact_args(s@, start as int, Seq::empty()) {
            Ok((vals, close, after)) => r matches Ok((v, c, a)) && texts(v@) == vals && c == close && a == after,
            Err((p, f, t, n)) => r matches Err((q, k)) && q == p && k@ == (f, t, 0nat, n),
        },
        r matches Ok((_, c, a)) ==> c < a <= s@.len(),
        r matches Err((q, _)) ==> q <= s@.len(),
{
    let mut acc: Vec<String> = Vec::new();
    let mut j = start;
    assert(texts(acc@) =~= Seq::<Seq<char>>::empty());
    loop
        invariant
            j <= s@.len(),
            exact_args(s@, j as int, texts(acc@)) == exact_args(s@, start as int, Seq::empty()),
        decreases s@.len() - j,
    {
        let k = skip_space_exec(s, j);
        if k >= s.len() || s[k] != '"' {
            return Err((k, ExactStateParseErrorKind::ExpectedString));
        }
        proof {
            lemma_scan_literal_bounds(s@, k as int, k + 1, Seq::empty());
        }
        match scan_literal_exec(s, k) {
            Err((p, None)) => {
                return Err((p, ExactStateParseErrorKind::UnterminatedString));
            },
            Err((p, Some(x))) => {
                let mut escape = String::new();
                push_char(&mut escape, x);
                assert(escape@ =~= seq![x]);
                return Err((p, ExactStateParseErrorKind::InvalidEscape { escape }));
            },
            Ok((v, a)) => {
                let m = skip_space_exec(s, a);
                if m < s.len() && s[m] == ',' {
                    let ghost before = acc@;
                    acc.push(v);
                    assert(texts(acc@) =~= texts(before).push(v@));
                    j = m + 1;
                } else if m < s.len() && s[m] == ')' {
                    let ghost before = acc@;
                    acc.push(v);
                    assert(texts(acc@) =~= texts(before).push(v@));
                    return Ok((acc, m, m + 1));
                } else {
                    return Err((m, ExactStateParseErrorKind::ExpectedCommaOrClose));
                }
            },
        }
    }
}

/// Parse exactly the two exact-state forms, `reachable("state")` and
/// `all-eventually("state")`, with ASCII whitespace between tokens; the
/// state id is a double-quoted string with the escapes `\\`, `\"`, `\n`,
/// `\r` and `\t`. Every argument is read before the arity is checked, and
/// error positions are byte offsets.
pub fn parse_exact_state_property(name: &str, input: &str) -> (r: Result<ExactStatePropertySpec, ExactStateParseError>)
    requires
        byte_len(input@) < usize::MAX,
    ensures
        match exact_parse(name@, input@) {
            Ok((reachable, target)) => r matches Ok(p) && p.name_text() == name@ && p.target_text() == target
                && p.is_reachable() == reachable && p.wf(),
            Err((p, f, t, n)) => r matches Err(e) && e@ == (
                byte_len(input@.take(p)),
                (f, t, if f == ExactFault::WrongArity { 1nat } else { 0nat }, n),
            ),
        },
{
    let s = chars_of(input);
    let i0 = skip_space_exec(&s, 0);
    let e = operator_end_exec(&s, i0);
    if e == i0 {
        let position = byte_offset(&s, i0);
        return Err(ExactStateParseError { position, kind: ExactStateParseErrorKind::ExpectedOperator });
    }
    let op = string_of(&s, i0, e);
    let reach = crate::text::same_text(op.as_str(), "reachable");
    let eventual = crate::text::same_text(op.as_str(), "all-eventually");
    if !reach && !eventual {
        let position = byte_offset(&s, i0);
        return Err(ExactStateParseError { position, kind: ExactStateParseErrorKind::UnknownOperator { operator: op } });
    }
    let i1 = skip_space_exec(&s, e);
    if i1 >= s.len() || s[i1] != '(' {
        let position = byte_offset(&s, i1);
        return Err(ExactStateParseError { position, kind: ExactStateParseErrorKind::ExpectedOpenParen });
    }
    let j = skip_space_exec(&s, i1 + 1);
    let args = if j < s.len() && s[j] == ')' {
        let none: Vec<String> = Vec::new();
        assert(texts(none@) =~= Seq::<Seq<char>>::empty());
        Ok((none, j, j + 1))
    } else {
        args_exec(&s, i1 + 1)
    };
    proof {
        lemma_args_fault(s@, i1 + 1, Seq::empty());
    }
    let (vals, close, after) = match args {
        Err((p, kind)) => {
            let position = byte_offset(&s, p);
            return Err(ExactStateParseError { position, kind });
        },
        Ok(x) => x,
    };
    let t = skip_space_exec(&s, after);
    if t < s.len() {
        let position = byte_offset(&s, t);
        return Err(ExactStateParseError { position, kind: ExactStateParseErrorKind::TrailingInput });
    }
    if vals.len() != 1 {
        let position = byte_offset(&s, close);
        return Err(
            ExactStateParseError {
                position,
                kind: ExactStateParseErrorKind::WrongArity { operator: op, expected: 1, actual: vals.len() },
            },
        );
    }
    assert(vals@[0]@ == texts(vals@)[0]);
    let made = if reach {
        ExactStatePropertySpec::reachable(name, vals[0].as_str())
    } else {
        ExactStatePropertySpec::all_eventually(name, vals[0].as_str())
    };
    match made {
        Ok(p) => Ok(p),
        Err(err) => {
            let position = byte_offset(&s, i0);
            Err(ExactStateParseError { position, kind: ExactStateParseErrorKind::Semantic(err) })
        },
    }
}

proof fn lemma_operator_scan(s: Seq<char>, i: int, stop: int)
    requires
        0 <= i <= stop < s.len(),
        forall|x: int| i <= x < stop ==> is_operator_char(#[trigger] s[x]),
        !is_operator_char(s[stop]),
    ensures
        operator_end(s, i) == stop,
    decreases stop - i,
{
    if i < stop {
        lemma_operator_scan(s, i + 1, stop);
    }
}

/// The canonical expression of a well-formed exact-state property parses
/// back to the same property under the same name: the operator, the target
/// and the name all survive the round trip.
pub proof fn lemma_canonical_round_trip(name: Seq<char>, reachable: bool, target: Seq<char>)
    requires
        trim(name).len() > 0,
        trim(target).len() > 0,
    ensures
        exact_parse(name, canonical_text(reachable, target)) == Ok::<(bool, Seq<char>), ExactFaultAt>((reachable, target)),
{
    reveal_strlit("reachable");
    reveal_strlit("all-eventually");
    let op = operator_text(reachable);
    let e = crate::syntax::escaped(target);
    let s = canonical_text(reachable, target);
    let l = op.len() as int;
    let el = e.len() as int;
    assert(s =~= op + seq!['(', '"'] + e + seq!['"', ')']);
    assert(s.len() == l + 4 + el);
    assert forall|x: int| 0 <= x < l implies is_operator_char(#[trigger] s[x]) by {
        assert(s[x] == op[x]);
    }
    assert(s[l] == '(');
    assert(s[l + 1] == '"');
    assert(s[l + 2 + el] == '"');
    assert(s[l + 3 + el] == ')');
    assert(s[0] == op[0]);
    assert(skip_space(s, 0) == 0);
    lemma_operator_scan(s, 0, l);
    assert(s.subrange(0, l) =~= op);
    assert(skip_space(s, l) == l);
    assert(skip_space(s, l + 1) == l + 1);
    // the target literal decodes back to the target
    assert(s.subrange(l + 2, l + 2 + el) =~= e);
    crate::syntax::lemma_scan_literal_escaped(s, l + 1, l + 2, Seq::empty(), target);
    assert(Seq::<char>::empty() + target =~= target);
    assert(scan_literal(s, l + 1, l + 2, Seq::empty()) == Ok::<(Seq<char>, int), (int, Option<char>)>((target, l + 3 + el)));
    assert(skip_space(s, l + 3 + el) == l + 3 + el);
    assert(Seq::<Seq<char>>::empty().push(target) =~= seq![target]);
    assert(exact_args(s, l + 1, Seq::empty()) == Ok::<(Seq<Seq<char>>, int, int), ExactFaultAt>((seq![target], l + 3 + el, l + 4 + el)));
    assert(skip_space(s, l + 4 + el) == s.len());
    if !reachable {
        assert(op.len() != "reachable"@.len());
    }
}

/// The text of an exact-state parse fault.
pub open spec fn exact_fault_text(k: (ExactFault, Seq<char>, nat, nat)) -> Seq<char> {
    match k.0 {
        ExactFault::ExpectedOperator => "expected 'reachable' or 'all-eventually'"@,
        ExactFault::UnknownOperator => "unsupported exact-state operator '"@ + k.1 + "'"@,
        ExactFault::ExpectedOpenParen => "expected '('"@,
        ExactFault::ExpectedString => "expected a double-quoted exact state id"@,
        ExactFault::UnterminatedString => "unterminated double-quoted state id"@,
        ExactFault::InvalidEscape => "unsupported string escape '\\"@ + k.1 + "'"@,
        ExactFault::ExpectedCommaOrClose => "expected ',' or ')'"@,
        ExactFault::WrongArity => "operator '"@ + k.1 + "' expects "@ + decimal(k.2) + " arguments but received "@
            + decimal(k.3),
        ExactFault::TrailingInput => "unexpected trailing input after exact-state expression"@,
        ExactFault::EmptyPropertyName => exact_state_error_text(ExactStateError::EmptyPropertyName),
        ExactFault::EmptyTargetState => exact_state_error_text(ExactStateError::EmptyTargetState),
    }
}

impl ExactStateParseError {
    /// The human-readable message of this error.
    pub fn message(&self) -> (text: String)
        ensures
            text@ == "exact-state parse error at byte "@ + decimal(self@.0) + ": "@ + exact_fault_text(self@.1),
    {
        let mut out = String::new();
        append(&mut out, "exact-state parse error at byte ");
        append_usize(&mut out, self.position);
        append(&mut out, ": ");
        match &self.kind {
            ExactStateParseErrorKind::ExpectedOperator => append(&mut out, "expected 'reachable' or 'all-eventually'"),
            ExactStateParseErrorKind::UnknownOperator { operator } => {
                append(&mut out, "unsupported exact-state operator '");
                append(&mut out, operator.as_str());
                append(&mut out, "'");
            },
            ExactStateParseErrorKind::ExpectedOpenParen => append(&mut out, "expected '('"),
            ExactStateParseErrorKind::ExpectedString => append(&mut out, "expected a double-quoted exact state id"),
            ExactStateParseErrorKind::UnterminatedString => append(&mut out, "unterminated double-quoted state id"),
            ExactStateParseErrorKind::InvalidEscape { escape } => {
                append(&mut out, "unsupported string escape '\\");
                append(&mut out, escape.as_str());
                append(&mut out, "'");
            },
            ExactStateParseErrorKind::ExpectedCommaOrClose => append(&mut out, "expected ',' or ')'"),
            ExactStateParseErrorKind::WrongArity { operator, expected, actual } => {
                append(&mut out, "operator '");
                append(&mut out, operator.as_str());
                append(&mut out, "' expects ");
                append_usize(&mut out, *expected);
                append(&mut out, " arguments but received ");
                append_usize(&mut out, *actual);
            },
            ExactStateParseErrorKind::TrailingInput => append(
                &mut out,
                "unexpected trailing input after exact-state expression",
            ),
            ExactStateParseErrorKind::Semantic(e) => {
                let t = e.message();
                append(&mut out, t.as_str());
            },
        }
        assert(out@ =~= "exact-state parse error at byte "@ + decimal(self@.0) + ": "@ + exact_fault_text(self@.1));
        out
    }
}

} // verus!
