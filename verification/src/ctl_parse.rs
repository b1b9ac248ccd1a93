//! The textual CTL surface: a deterministic parser and a fully
//! parenthesized renderer.
use crate::ctl::{fview, CtlFormula};
use crate::syntax::{
    append_quoted, byte_len, byte_offset, keyword_at, keyword_exec, lemma_byte_len_subrange,
    lemma_scan_literal_bounds, lemma_skip_bounds, quoted, scan_literal, scan_literal_exec, skip_space,
    skip_space_exec,
};
use crate::text::{append, append_usize, chars_of, decimal, is_blank, push_char, trim};
use vstd::prelude::*;

verus! {

#[derive(Debug, Clone, PartialEq, Eq)]
pub enum CtlParseErrorKind {
    ExpectedExpression,
    ExpectedCloseParen,
    ExpectedOpenBracket { quantifier: char },
    ExpectedUntil,
    ExpectedCloseBracket,
    UnterminatedString,
    InvalidEscape { escape: String },
    EmptyProposition,
    TrailingInput,
}

/// Which way a CTL text is malformed, without the offending text.
#[derive(Debug, Clone, Copy, PartialEq, Eq, Structural)]
pub enum CtlFault {
    ExpectedExpression,
    ExpectedCloseParen,
    ExpectedOpenBracket,
    ExpectedUntil,
    ExpectedCloseBracket,
    UnterminatedString,
    InvalidEscape,
    EmptyProposition,
    TrailingInput,
}

impl View for CtlParseErrorKind {
    /// The fault and the text it carries (empty where it carries none).
    type V = (CtlFault, Seq<char>);

    open spec fn view(&self) -> (CtlFault, Seq<char>) {
        match self {
            CtlParseErrorKind::ExpectedExpression => (CtlFault::ExpectedExpression, Seq::empty()),
            CtlParseErrorKind::ExpectedCloseParen => (CtlFault::ExpectedCloseParen, Seq::empty()),
            CtlParseErrorKind::ExpectedOpenBracket { quantifier } => (CtlFault::ExpectedOpenBracket, seq![*quantifier]),
            CtlParseErrorKind::ExpectedUntil => (CtlFault::ExpectedUntil, Seq::empty()),
            CtlParseErrorKind::ExpectedCloseBracket => (CtlFault::ExpectedCloseBracket, Seq::empty()),
            CtlParseErrorKind::UnterminatedString => (CtlFault::UnterminatedString, Seq::empty()),
            CtlParseErrorKind::InvalidEscape { escape } => (CtlFault::InvalidEscape, escape@),
            CtlParseErrorKind::EmptyProposition => (CtlFault::EmptyProposition, Seq::empty()),
            CtlParseErrorKind::TrailingInput => (CtlFault::TrailingInput, Seq::empty()),
        }
    }
}

/// A parse error: the byte offset of the fault and what went wrong.
#[derive(Debug, Clone, PartialEq, Eq)]
pub struct CtlParseError {
    position: usize,
    kind: CtlParseErrorKind,
}

impl View for CtlParseError {
    type V = (nat, (CtlFault, Seq<char>));

    closed spec fn view(&self) -> (nat, (CtlFault, Seq<char>)) {
        (self.position as nat, self.kind@)
    }
}

impl CtlParseError {
    pub fn position(&self) -> (p: usize)
        ensures
            p == self@.0,
    {
        self.position
    }

    pub fn kind(&self) -> (k: &CtlParseErrorKind)
        ensures
            k@ == self@.1,
    {
        &self.kind
    }
}

// ---------------------------------------------------------------------------
// The grammar, by precedence from loosest to tightest: `or`, `and`, the
// prefix operators `not EX AX EF AF EG AG`, bracketed until `E[.. U ..]`
// and `A[.. U ..]`, and primaries: `true`, `false`, a quoted proposition or
// a parenthesized formula. ASCII whitespace may separate tokens. Indexes
// are character indexes of the input.
// ---------------------------------------------------------------------------

/// A CTL formula over proposition names.
pub type CtlTerm = CtlFormula<Seq<char>>;

/// A parse of a prefix: the formula and the index after it, or the fault
/// and its index.
pub type CtlOut = Result<(CtlTerm, int), (int, (CtlFault, Seq<char>))>;

pub open spec fn ctl_fault(i: int, f: CtlFault) -> (int, (CtlFault, Seq<char>)) {
    (i, (f, Seq::empty()))
}

/// The fault of a malformed string literal.
pub open spec fn literal_fault(p: int, f: Option<char>) -> (int, (CtlFault, Seq<char>)) {
    match f {
        None => (p, (CtlFault::UnterminatedString, Seq::empty())),
        Some(x) => (p, (CtlFault::InvalidEscape, seq![x])),
    }
}

/// The prefix operator at `k`, in the order the parser tries them: 0 for
/// `not`, 1 to 6 for `EX AX EF AF EG AG`, 7 and 8 for the until
/// quantifiers `E` and `A`, 9 for none.
pub open spec fn prefix_op(s: Seq<char>, k: int) -> u8 {
    if keyword_at(s, k, "not"@) {
        0
    } else if keyword_at(s, k, "EX"@) {
        1
    } else if keyword_at(s, k, "AX"@) {
        2
    } else if keyword_at(s, k, "EF"@) {
        3
    } else if keyword_at(s, k, "AF"@) {
        4
    } else if keyword_at(s, k, "EG"@) {
        5
    } else if keyword_at(s, k, "AG"@) {
        6
    } else if keyword_at(s, k, "E"@) {
        7
    } else if keyword_at(s, k, "A"@) {
        8
    } else {
        9
    }
}

/// The length of the keyword of prefix operator `op`.
pub open spec fn prefix_len(op: u8) -> int {
    if op == 0 {
        3
    } else if op <= 6 {
        2
    } else {
        1
    }
}

pub open spec fn apply_prefix(op: u8, f: CtlTerm) -> CtlTerm {
    if op == 0 {
        CtlFormula::Not(Box::new(f))
    } else if op == 1 {
        CtlFormula::Ex(Box::new(f))
    } else if op == 2 {
        CtlFormula::Ax(Box::new(f))
    } else if op == 3 {
        CtlFormula::Ef(Box::new(f))
    } else if op == 4 {
        CtlFormula::Af(Box::new(f))
    } else if op == 5 {
        CtlFormula::Eg(Box::new(f))
    } else {
        CtlFormula::Ag(Box::new(f))
    }
}

pub proof fn lemma_ctl_keywords()
    ensures
        "or"@.len() == 2,
        "and"@.len() == 3,
        "not"@.len() == 3,
        "EX"@.len() == 2,
        "AX"@.len() == 2,
        "EF"@.len() == 2,
        "AF"@.len() == 2,
        "EG"@.len() == 2,
        "AG"@.len() == 2,
        "E"@.len() == 1,
        "A"@.len() == 1,
        "U"@.len() == 1,
        "true"@.len() == 4,
        "false"@.len() == 5,
{
    reveal_strlit("or");
    reveal_strlit("and");
    reveal_strlit("not");
    reveal_strlit("EX");
    reveal_strlit("AX");
    reveal_strlit("EF");
    reveal_strlit("AF");
    reveal_strlit("EG");
    reveal_strlit("AG");
    reveal_strlit("E");
    reveal_strlit("A");
    reveal_strlit("U");
    reveal_strlit("true");
    reveal_strlit("false");
}

pub proof fn lemma_prefix_fits(s: Seq<char>, k: int)
    ensures
        prefix_op(s, k) <= 8 ==> 0 <= k && k + prefix_len(prefix_op(s, k)) <= s.len(),
{
    lemma_ctl_keywords();
}

/// Index `i` lies outside the text.
pub open spec fn off_text(s: Seq<char>, i: int) -> bool {
    i < 0 || i > s.len()
}

/// A disjunction: conjunctions separated by `or`.
pub open spec fn c_or(s: Seq<char>, i: int) -> CtlOut
    decreases s.len() - i, 6int,
{
    if off_text(s, i) {
        Err(ctl_fault(i, CtlFault::ExpectedExpression))
    } else {
        match c_and(s, i) {
            Err(e) => Err(e),
            Ok((f, j)) => if i <= j <= s.len() {
                c_or_tail(s, j, f)
            } else {
                Ok((f, j))
            },
        }
    }
}

/// The rest of a disjunction after `acc`, from index `j`.
pub open spec fn c_or_tail(s: Seq<char>, j: int, acc: CtlTerm) -> CtlOut
    decreases s.len() - j, 5int,
{
    let k = skip_space(s, j);
    if keyword_at(s, k, "or"@) {
        proof {
            lemma_ctl_keywords();
            if 0 <= j <= s.len() {
                lemma_skip_bounds(s, j);
            }
        }
        match c_and(s, k + 2) {
            Err(e) => Err(e),
            Ok((g, m)) => if k + 2 <= m <= s.len() {
                c_or_tail(s, m, CtlFormula::Or(Box::new(acc), Box::new(g)))
            } else {
                Ok((CtlFormula::Or(Box::new(acc), Box::new(g)), m))
            },
        }
    } else {
        Ok((acc, k))
    }
}

/// A conjunction: unary formulas separated by `and`.
pub open spec fn c_and(s: Seq<char>, i: int) -> CtlOut
    decreases s.len() - i, 4int,
{
    if off_text(s, i) {
        Err(ctl_fault(i, CtlFault::ExpectedExpression))
    } else {
        match c_unary(s, i) {
            Err(e) => Err(e),
            Ok((f, j)) => if i <= j <= s.len() {
                c_and_tail(s, j, f)
            } else {
                Ok((f, j))
            },
        }
    }
}

/// The rest of a conjunction after `acc`, from index `j`.
pub open spec fn c_and_tail(s: Seq<char>, j: int, acc: CtlTerm) -> CtlOut
    decreases s.len() - j, 3int,
{
    let k = skip_space(s, j);
    if keyword_at(s, k, "and"@) {
        proof {
            lemma_ctl_keywords();
            if 0 <= j <= s.len() {
                lemma_skip_bounds(s, j);
            }
        }
        match c_unary(s, k + 3) {
            Err(e) => Err(e),
            Ok((g, m)) => if k + 3 <= m <= s.len() {
                c_and_tail(s, m, CtlFormula::And(Box::new(acc), Box::new(g)))
            } else {
                Ok((CtlFormula::And(Box::new(acc), Box::new(g)), m))
            },
        }
    } else {
        Ok((acc, k))
    }
}

/// A unary formula: prefix operators, an until formula, or a primary.
pub open spec fn c_unary(s: Seq<char>, i: int) -> CtlOut
    decreases s.len() - i, 2int,
{
    if off_text(s, i) {
        Err(ctl_fault(i, CtlFault::ExpectedExpression))
    } else {
        let k = skip_space(s, i);
        let op = prefix_op(s, k);
        proof {
            lemma_skip_bounds(s, i);
            lemma_prefix_fits(s, k);
        }
        if op <= 6 {
            match c_unary(s, k + prefix_len(op)) {
                Err(e) => Err(e),
                Ok((f, j)) => Ok((apply_prefix(op, f), j)),
            }
        } else if op <= 8 {
            c_until(s, k + 1, op == 7)
        } else {
            c_primary(s, k)
        }
    }
}

/// An until formula `[phi U psi]` after its quantifier, which is `E` when
/// `exists` holds and `A` otherwise.
pub open spec fn c_until(s: Seq<char>, i: int, exists: bool) -> CtlOut
    decreases s.len() - i, 0int,
{
    if off_text(s, i) {
        Err(ctl_fault(i, CtlFault::ExpectedExpression))
    } else {
        let b = skip_space(s, i);
        proof {
            lemma_skip_bounds(s, i);
            lemma_ctl_keywords();
        }
        if b >= s.len() || s[b] != '[' {
            Err((
                b,
                (CtlFault::ExpectedOpenBracket, seq![
                    if exists {
                        'E'
                    } else {
                        'A'
                    },
                ]),
            ))
        } else {
            match c_or(s, b + 1) {
                Err(e) => Err(e),
                Ok((l, m)) => {
                    let u = skip_space(s, m);
                    if !(b + 1 <= m <= s.len()) || !keyword_at(s, u, "U"@) {
                        Err(ctl_fault(u, CtlFault::ExpectedUntil))
                    } else {
                        proof {
                            lemma_skip_bounds(s, m);
                        }
                        match c_or(s, u + 1) {
                            Err(e) => Err(e),
                            Ok((r, q)) => {
                                let z = skip_space(s, q);
                                if z < s.len() && s[z] == ']' {
                                    Ok(
                                        (
                                            if exists {
                                                CtlFormula::Eu(Box::new(l), Box::new(r))
                                            } else {
                                                CtlFormula::Au(Box::new(l), Box::new(r))
                                            },
                                            z + 1,
                                        ),
                                    )
                                } else {
                                    Err(ctl_fault(z, CtlFault::ExpectedCloseBracket))
                                }
                            },
                        }
                    }
                },
            }
        }
    }
}

/// A primary: `true`, `false`, a non-blank quoted proposition, or a
/// parenthesized formula.
pub open spec fn c_primary(s: Seq<char>, i: int) -> CtlOut
    decreases s.len() - i, 1int,
{
    if off_text(s, i) {
        Err(ctl_fault(i, CtlFault::ExpectedExpression))
    } else {
        let k = skip_space(s, i);
        proof {
            lemma_skip_bounds(s, i);
        }
        if keyword_at(s, k, "true"@) {
            Ok((CtlFormula::True, k + 4))
        } else if keyword_at(s, k, "false"@) {
            Ok((CtlFormula::False, k + 5))
        } else if k < s.len() && s[k] == '"' {
            match scan_literal(s, k, k + 1, Seq::empty()) {
                Err((p, f)) => Err(literal_fault(p, f)),
                Ok((a, j)) => if trim(a).len() == 0 {
                    Err(ctl_fault(k, CtlFault::EmptyProposition))
                } else {
                    Ok((CtlFormula::Atom(a), j))
                },
            }
        } else if k < s.len() && s[k] == '(' {
            match c_or(s, k + 1) {
                Err(e) => Err(e),
                Ok((f, m)) => {
                    let z = skip_space(s, m);
                    if z < s.len() && s[z] == ')' {
                        Ok((f, z + 1))
                    } else {
                        Err(ctl_fault(z, CtlFault::ExpectedCloseParen))
                    }
                },
            }
        } else {
            Err(ctl_fault(k, CtlFault::ExpectedExpression))
        }
    }
}

/// The formula a whole text denotes, or the first fault and its index.
pub open spec fn ctl_parse(s: Seq<char>) -> Result<CtlTerm, (int, (CtlFault, Seq<char>))> {
    match c_or(s, skip_space(s, 0)) {
        Err(e) => Err(e),
        Ok((f, j)) => {
            let z = skip_space(s, j);
            if z < s.len() {
                Err(ctl_fault(z, CtlFault::TrailingInput))
            } else {
                Ok(f)
            }
        },
    }
}

// ---------------------------------------------------------------------------
// Where a parse ends.
// ---------------------------------------------------------------------------

/// A parse from a valid index `i` ends inside the text, and a fault lies
/// inside it too.
pub open spec fn ends_within(r: CtlOut, i: int, n: int) -> bool {
    match r {
        Ok((_, j)) => i <= j <= n,
        Err((p, _)) => 0 <= p <= n,
    }
}

pub proof fn lemma_c_or(s: Seq<char>, i: int)
    requires
        0 <= i <= s.len(),
    ensures
        ends_within(c_or(s, i), i, s.len() as int),
    decreases s.len() - i, 6int,
{
    lemma_c_and(s, i);
    match c_and(s, i) {
        Ok((f, j)) => lemma_c_or_tail(s, j, f),
        Err(_) => {},
    }
}

pub proof fn lemma_c_or_tail(s: Seq<char>, j: int, acc: CtlTerm)
    requires
        0 <= j <= s.len(),
    ensures
        ends_within(c_or_tail(s, j, acc), j, s.len() as int),
    decreases s.len() - j, 5int,
{
    lemma_ctl_keywords();
    lemma_skip_bounds(s, j);
    let k = skip_space(s, j);
    if keyword_at(s, k, "or"@) {
        lemma_c_and(s, k + 2);
        match c_and(s, k + 2) {
            Ok((g, m)) => lemma_c_or_tail(s, m, CtlFormula::Or(Box::new(acc), Box::new(g))),
            Err(_) => {},
        }
    }
}

pub proof fn lemma_c_and(s: Seq<char>, i: int)
    requires
        0 <= i <= s.len(),
    ensures
        ends_within(c_and(s, i), i, s.len() as int),
    decreases s.len() - i, 4int,
{
    lemma_c_unary(s, i);
    match c_unary(s, i) {
        Ok((f, j)) => lemma_c_and_tail(s, j, f),
        Err(_) => {},
    }
}

pub proof fn lemma_c_and_tail(s: Seq<char>, j: int, acc: CtlTerm)
    requires
        0 <= j <= s.len(),
    ensures
        ends_within(c_and_tail(s, j, acc), j, s.len() as int),
    decreases s.len() - j, 3int,
{
    lemma_ctl_keywords();
    lemma_skip_bounds(s, j);
    let k = skip_space(s, j);
    if keyword_at(s, k, "and"@) {
        lemma_c_unary(s, k + 3);
        match c_unary(s, k + 3) {
            Ok((g, m)) => lemma_c_and_tail(s, m, CtlFormula::And(Box::new(acc), Box::new(g))),
            Err(_) => {},
        }
    }
}

pub proof fn lemma_c_unary(s: Seq<char>, i: int)
    requires
        0 <= i <= s.len(),
    ensures
        ends_within(c_unary(s, i), i, s.len() as int),
    decreases s.len() - i, 2int,
{
    lemma_skip_bounds(s, i);
    let k = skip_space(s, i);
    lemma_prefix_fits(s, k);
    let op = prefix_op(s, k);
    if op <= 6 {
        lemma_c_unary(s, k + prefix_len(op));
    } else if op <= 8 {
        lemma_c_until(s, k + 1, op == 7);
    } else {
        lemma_c_primary(s, k);
    }
}

pub proof fn lemma_c_until(s: Seq<char>, i: int, exists: bool)
    requires
        0 <= i <= s.len(),
    ensures
        ends_within(c_until(s, i, exists), i, s.len() as int),
    decreases s.len() - i, 0int,
{
    lemma_ctl_keywords();
    lemma_skip_bounds(s, i);
    let b = skip_space(s, i);
    if b < s.len() && s[b] == '[' {
        lemma_c_or(s, b + 1);
        match c_or(s, b + 1) {
            Ok((l, m)) => {
                lemma_skip_bounds(s, m);
                let u = skip_space(s, m);
                if keyword_at(s, u, "U"@) {
                    lemma_c_or(s, u + 1);
                    match c_or(s, u + 1) {
                        Ok((r, q)) => lemma_skip_bounds(s, q),
                        Err(_) => {},
                    }
                }
            },
            Err(_) => {},
        }
    }
}

pub proof fn lemma_c_primary(s: Seq<char>, i: int)
    requires
        0 <= i <= s.len(),
    ensures
        ends_within(c_primary(s, i), i, s.len() as int),
    decreases s.len() - i, 1int,
{
    lemma_ctl_keywords();
    lemma_skip_bounds(s, i);
    let k = skip_space(s, i);
    if !keyword_at(s, k, "true"@) && !keyword_at(s, k, "false"@) {
        if k < s.len() && s[k] == '"' {
            lemma_scan_literal_bounds(s, k, k + 1, Seq::empty());
        } else if k < s.len() && s[k] == '(' {
            lemma_c_or(s, k + 1);
            match c_or(s, k + 1) {
                Ok((f, m)) => lemma_skip_bounds(s, m),
                Err(_) => {},
            }
        }
    }
}

// ---------------------------------------------------------------------------
// The executable parser.
// ---------------------------------------------------------------------------

/// The executable answer agrees with the grammar's: the same formula (atoms
/// by view) and index, or the same fault and index.
pub open spec fn agrees(r: Result<(CtlFormula<String>, usize), (usize, CtlParseErrorKind)>, spec: CtlOut) -> bool {
    match spec {
        Ok((f, j)) => r matches Ok((g, k)) && fview(g) == f && k == j,
        Err((p, f)) => r matches Err((q, k)) && q == p && k@ == f,
    }
}

fn fault_exec(i: usize, f: CtlFault) -> (r: Result<(CtlFormula<String>, usize), (usize, CtlParseErrorKind)>)
    requires
        f != CtlFault::ExpectedOpenBracket,
        f != CtlFault::InvalidEscape,
    ensures
        agrees(r, Err(ctl_fault(i as int, f))),
{
    let kind = match f {
        CtlFault::ExpectedExpression => CtlParseErrorKind::ExpectedExpression,
        CtlFault::ExpectedCloseParen => CtlParseErrorKind::ExpectedCloseParen,
        CtlFault::ExpectedUntil => CtlParseErrorKind::ExpectedUntil,
        CtlFault::ExpectedCloseBracket => CtlParseErrorKind::ExpectedCloseBracket,
        CtlFault::UnterminatedString => CtlParseErrorKind::UnterminatedString,
        CtlFault::EmptyProposition => CtlParseErrorKind::EmptyProposition,
        _ => CtlParseErrorKind::TrailingInput,
    };
    Err((i, kind))
}

fn prefix_exec(s: &Vec<char>, k: usize) -> (op: u8)
    requires
        k <= s@.len(),
    ensures
        op == prefix_op(s@, k as int),
{
    if keyword_exec(s, k, "not") {
        0
    } else if keyword_exec(s, k, "EX") {
        1
    } else if keyword_exec(s, k, "AX") {
        2
    } else if keyword_exec(s, k, "EF") {
        3
    } else if keyword_exec(s, k, "AF") {
        4
    } else if keyword_exec(s, k, "EG") {
        5
    } else if keyword_exec(s, k, "AG") {
        6
    } else if keyword_exec(s, k, "E") {
        7
    } else if keyword_exec(s, k, "A") {
        8
    } else {
        9
    }
}

fn apply_prefix_exec(op: u8, f: CtlFormula<String>) -> (g: CtlFormula<String>)
    requires
        op <= 6,
    ensures
        fview(g) == apply_prefix(op, fview(f)),
{
    if op == 0 {
        CtlFormula::Not(Box::new(f))
    } else if op == 1 {
        CtlFormula::Ex(Box::new(f))
    } else if op == 2 {
        CtlFormula::Ax(Box::new(f))
    } else if op == 3 {
        CtlFormula::Ef(Box::new(f))
    } else if op == 4 {
        CtlFormula::Af(Box::new(f))
    } else if op == 5 {
        CtlFormula::Eg(Box::new(f))
    } else {
        CtlFormula::Ag(Box::new(f))
    }
}

fn parse_or_exec(s: &Vec<char>, i: usize) -> (r: Result<(CtlFormula<String>, usize), (usize, CtlParseErrorKind)>)
    requires
        i <= s@.len(),
    ensures
        agrees(r, c_or(s@, i as int)),
    decreases s@.len() - i, 6int,
{
    let (first, j0) = match parse_and_exec(s, i) {
        Ok(p) => p,
        Err(e) => {
            return Err(e);
        },
    };
    proof {
        lemma_c_and(s@, i as int);
    }
    let n = s.len();
    let mut acc = first;
    let mut j = j0;
    loop
        invariant
            n == s@.len(),
            i <= j <= s@.len(),
            c_or(s@, i as int) == c_or_tail(s@, j as int, fview(acc)),
        decreases s@.len() - j,
    {
        let k = skip_space_exec(s, j);
        if !keyword_exec(s, k, "or") {
            return Ok((acc, k));
        }
        proof {
            lemma_ctl_keywords();
        }
        let (g, m) = match parse_and_exec(s, k + 2) {
            Ok(p) => p,
            Err(e) => {
                return Err(e);
            },
        };
        proof {
            lemma_c_and(s@, k + 2);
        }
        acc = CtlFormula::Or(Box::new(acc), Box::new(g));
        j = m;
    }
}

fn parse_and_exec(s: &Vec<char>, i: usize) -> (r: Result<(CtlFormula<String>, usize), (usize, CtlParseErrorKind)>)
    requires
        i <= s@.len(),
    ensures
        agrees(r, c_and(s@, i as int)),
    decreases s@.len() - i, 4int,
{
    let (first, j0) = match parse_unary_exec(s, i) {
        Ok(p) => p,
        Err(e) => {
            return Err(e);
        },
    };
    proof {
        lemma_c_unary(s@, i as int);
    }
    let n = s.len();
    let mut acc = first;
    let mut j = j0;
    loop
        invariant
            n == s@.len(),
            i <= j <= s@.len(),
            c_and(s@, i as int) == c_and_tail(s@, j as int, fview(acc)),
        decreases s@.len() - j,
    {
        let k = skip_space_exec(s, j);
        if !keyword_exec(s, k, "and") {
            return Ok((acc, k));
        }
        proof {
            lemma_ctl_keywords();
        }
        let (g, m) = match parse_unary_exec(s, k + 3) {
            Ok(p) => p,
            Err(e) => {
                return Err(e);
            },
        };
        proof {
            lemma_c_unary(s@, k + 3);
        }
        acc = CtlFormula::And(Box::new(acc), Box::new(g));
        j = m;
    }
}

fn parse_unary_exec(s: &Vec<char>, i: usize) -> (r: Result<(CtlFormula<String>, usize), (usize, CtlParseErrorKind)>)
    requires
        i <= s@.len(),
    ensures
        agrees(r, c_unary(s@, i as int)),
    decreases s@.len() - i, 2int,
{
    let n = s.len();
    let k = skip_space_exec(s, i);
    let op = prefix_exec(s, k);
    proof {
        lemma_prefix_fits(s@, k as int);
    }
    if op <= 6 {
        let len: usize = if op == 0 {
            3
        } else {
            2
        };
        match parse_unary_exec(s, k + len) {
            Ok((f, j)) => Ok((apply_prefix_exec(op, f), j)),
            Err(e) => Err(e),
        }
    } else if op <= 8 {
        parse_until_exec(s, k + 1, op == 7)
    } else {
        parse_primary_exec(s, k)
    }
}

fn parse_until_exec(s: &Vec<char>, i: usize, exists: bool) -> (r: Result<
    (CtlFormula<String>, usize),
    (usize, CtlParseErrorKind),
>)
    requires
        i <= s@.len(),
    ensures
        agrees(r, c_until(s@, i as int, exists)),
    decreases s@.len() - i, 0int,
{
    let b = skip_space_exec(s, i);
    if b >= s.len() || s[b] != '[' {
        let quantifier = if exists {
            'E'
        } else {
            'A'
        };
        return Err((b, CtlParseErrorKind::ExpectedOpenBracket { quantifier }));
    }
    let (l, m) = match parse_or_exec(s, b + 1) {
        Ok(p) => p,
        Err(e) => {
            return Err(e);
        },
    };
    proof {
        lemma_c_or(s@, b + 1);
        lemma_ctl_keywords();
    }
    let u = skip_space_exec(s, m);
    if !keyword_exec(s, u, "U") {
        return fault_exec(u, CtlFault::ExpectedUntil);
    }
    let (r, q) = match parse_or_exec(s, u + 1) {
        Ok(p) => p,
        Err(e) => {
            return Err(e);
        },
    };
    proof {
        lemma_c_or(s@, u + 1);
    }
    let z = skip_space_exec(s, q);
    if z < s.len() && s[z] == ']' {
        let f = if exists {
            CtlFormula::Eu(Box::new(l), Box::new(r))
        } else {
            CtlFormula::Au(Box::new(l), Box::new(r))
        };
        Ok((f, z + 1))
    } else {
        fault_exec(z, CtlFault::ExpectedCloseBracket)
    }
}

fn parse_primary_exec(s: &Vec<char>, i: usize) -> (r: Result<(CtlFormula<String>, usize), (usize, CtlParseErrorKind)>)
    requires
        i <= s@.len(),
    ensures
        agrees(r, c_primary(s@, i as int)),
    decreases s@.len() - i, 1int,
{
    let n = s.len();
    let k = skip_space_exec(s, i);
    proof {
        lemma_ctl_keywords();
    }
    if keyword_exec(s, k, "true") {
        return Ok((CtlFormula::True, k + 4));
    }
    if keyword_exec(s, k, "false") {
        return Ok((CtlFormula::False, k + 5));
    }
    if k < s.len() && s[k] == '"' {
        match scan_literal_exec(s, k) {
            Err((p, f)) => {
                let kind = match f {
                    None => CtlParseErrorKind::UnterminatedString,
                    Some(x) => {
                        let mut escape = String::new();
                        push_char(&mut escape, x);
                        assert(escape@ =~= seq![x]);
                        CtlParseErrorKind::InvalidEscape { escape }
                    },
                };
                Err((p, kind))
            },
            Ok((a, j)) => {
                if is_blank(a.as_str()) {
                    fault_exec(k, CtlFault::EmptyProposition)
                } else {
                    Ok((CtlFormula::Atom(a), j))
                }
            },
        }
    } else if k < s.len() && s[k] == '(' {
        let (f, m) = match parse_or_exec(s, k + 1) {
            Ok(p) => p,
            Err(e) => {
                return Err(e);
            },
        };
        proof {
            lemma_c_or(s@, k + 1);
        }
        let z = skip_space_exec(s, m);
        if z < s.len() && s[z] == ')' {
            Ok((f, z + 1))
        } else {
            fault_exec(z, CtlFault::ExpectedCloseParen)
        }
    } else {
        fault_exec(k, CtlFault::ExpectedExpression)
    }
}

/// Parse the deterministic textual CTL surface.
///
/// Precedence, from tightest to loosest: the unary operators `not`, `EX`,
/// `AX`, `EF`, `AF`, `EG`, `AG`; then `and`; then `or`. Until is explicit
/// and bracketed: `E[phi U psi]` or `A[phi U psi]`. Atoms are
/// double-quoted, non-blank proposition names. ASCII whitespace is allowed
/// between tokens. Error positions are byte offsets.
pub fn parse_ctl_formula(input: &str) -> (r: Result<CtlFormula<String>, CtlParseError>)
    requires
        byte_len(input@) < usize::MAX,
    ensures
        match ctl_parse(input@) {
            Ok(f) => r matches Ok(g) && fview(g) == f,
            Err((p, k)) => r matches Err(e) && e@ == (byte_len(input@.take(p)), k),
        },
{
    let s = chars_of(input);
    let k = skip_space_exec(&s, 0);
    let out = parse_or_exec(&s, k);
    proof {
        lemma_c_or(s@, k as int);
    }
    match out {
        Err((p, kind)) => {
            let position = byte_offset(&s, p);
            Err(CtlParseError { position, kind })
        },
        Ok((f, j)) => {
            let z = skip_space_exec(&s, j);
            if z < s.len() {
                let position = byte_offset(&s, z);
                Err(CtlParseError { position, kind: CtlParseErrorKind::TrailingInput })
            } else {
                Ok(f)
            }
        },
    }
}

// ---------------------------------------------------------------------------
// Rendering.
// ---------------------------------------------------------------------------

/// The canonical, fully parenthesized text of a formula.
pub open spec fn render_ctl(f: CtlTerm) -> Seq<char>
    decreases f,
{
    match f {
        CtlFormula::True => "true"@,
        CtlFormula::False => "false"@,
        CtlFormula::Atom(a) => quoted(a),
        CtlFormula::Not(i) => "not ("@ + render_ctl(*i) + ")"@,
        CtlFormula::And(l, r) => "("@ + render_ctl(*l) + " and "@ + render_ctl(*r) + ")"@,
        CtlFormula::Or(l, r) => "("@ + render_ctl(*l) + " or "@ + render_ctl(*r) + ")"@,
        CtlFormula::Ex(i) => "EX ("@ + render_ctl(*i) + ")"@,
        CtlFormula::Ax(i) => "AX ("@ + render_ctl(*i) + ")"@,
        CtlFormula::Ef(i) => "EF ("@ + render_ctl(*i) + ")"@,
        CtlFormula::Af(i) => "AF ("@ + render_ctl(*i) + ")"@,
        CtlFormula::Eg(i) => "EG ("@ + render_ctl(*i) + ")"@,
        CtlFormula::Ag(i) => "AG ("@ + render_ctl(*i) + ")"@,
        CtlFormula::Eu(l, r) => "E[("@ + render_ctl(*l) + ") U ("@ + render_ctl(*r) + ")]"@,
        CtlFormula::Au(l, r) => "A[("@ + render_ctl(*l) + ") U ("@ + render_ctl(*r) + ")]"@,
    }
}

fn render_into(out: &mut String, f: &CtlFormula<String>)
    ensures
        final(out)@ == old(out)@ + render_ctl(fview(*f)),
    decreases f,
{
    match f {
        CtlFormula::True => append(out, "true"),
        CtlFormula::False => append(out, "false"),
        CtlFormula::Atom(a) => append_quoted(out, a.as_str()),
        CtlFormula::Not(i) => {
            append(out, "not (");
            render_into(out, i);
            append(out, ")");
        },
        CtlFormula::And(l, r) => {
            append(out, "(");
            render_into(out, l);
            append(out, " and ");
            render_into(out, r);
            append(out, ")");
        },
        CtlFormula::Or(l, r) => {
            append(out, "(");
            render_into(out, l);
            append(out, " or ");
            render_into(out, r);
            append(out, ")");
        },
        CtlFormula::Ex(i) => {
            append(out, "EX (");
            render_into(out, i);
            append(out, ")");
        },
        CtlFormula::Ax(i) => {
            append(out, "AX (");
            render_into(out, i);
            append(out, ")");
        },
        CtlFormula::Ef(i) => {
            append(out, "EF (");
            render_into(out, i);
            append(out, ")");
        },
        CtlFormula::Af(i) => {
            append(out, "AF (");
            render_into(out, i);
            append(out, ")");
        },
        CtlFormula::Eg(i) => {
            append(out, "EG (");
            render_into(out, i);
            append(out, ")");
        },
        CtlFormula::Ag(i) => {
            append(out, "AG (");
            render_into(out, i);
            append(out, ")");
        },
        CtlFormula::Eu(l, r) => {
            append(out, "E[(");
            render_into(out, l);
            append(out, ") U (");
            render_into(out, r);
            append(out, ")]");
        },
        CtlFormula::Au(l, r) => {
            append(out, "A[(");
            render_into(out, l);
            append(out, ") U (");
            render_into(out, r);
            append(out, ")]");
        },
    }
    proof {
        assert(final(out)@ =~= old(out)@ + render_ctl(fview(*f)));
    }
}

/// Render a stable, fully parenthesized CTL expression that parses back to
/// the same formula.
pub fn render_ctl_formula(formula: &CtlFormula<String>) -> (text: String)
    ensures
        text@ == render_ctl(fview(*formula)),
{
    let mut out = String::new();
    render_into(&mut out, formula);
    assert(out@ =~= render_ctl(fview(*formula)));
    out
}

// ---------------------------------------------------------------------------
// Messages.
// ---------------------------------------------------------------------------

/// How a fault reads in an error message.
pub open spec fn ctl_fault_text(k: (CtlFault, Seq<char>)) -> Seq<char> {
    match k.0 {
        CtlFault::ExpectedExpression => "expected a quoted proposition, true, false, not, CTL unary operator, until formula, or '('"@,
        CtlFault::ExpectedCloseParen => "expected ')'"@,
        CtlFault::ExpectedOpenBracket => "expected '[' after '"@ + k.1 + "'"@,
        CtlFault::ExpectedUntil => "expected 'U' in CTL until formula"@,
        CtlFault::ExpectedCloseBracket => "expected ']'"@,
        CtlFault::UnterminatedString => "unterminated double-quoted proposition"@,
        CtlFault::InvalidEscape => "unsupported string escape '\\"@ + k.1 + "'"@,
        CtlFault::EmptyProposition => "proposition name must not be empty"@,
        CtlFault::TrailingInput => "unexpected trailing input after CTL expression"@,
    }
}

impl CtlParseError {
    /// The human-readable message of this error.
    pub fn message(&self) -> (text: String)
        ensures
            text@ == "CTL parse error at byte "@ + decimal(self@.0) + ": "@ + ctl_fault_text(self@.1),
    {
        let mut out = String::new();
        append(&mut out, "CTL parse error at byte ");
        append_usize(&mut out, self.position);
        append(&mut out, ": ");
        match &self.kind {
            CtlParseErrorKind::ExpectedExpression => append(
                &mut out,
                "expected a quoted proposition, true, false, not, CTL unary operator, until formula, or '('",
            ),
            CtlParseErrorKind::ExpectedCloseParen => append(&mut out, "expected ')'"),
            CtlParseErrorKind::ExpectedOpenBracket { quantifier } => {
                append(&mut out, "expected '[' after '");
                push_char(&mut out, *quantifier);
                append(&mut out, "'");
            },
            CtlParseErrorKind::ExpectedUntil => append(&mut out, "expected 'U' in CTL until formula"),
            CtlParseErrorKind::ExpectedCloseBracket => append(&mut out, "expected ']'"),
            CtlParseErrorKind::UnterminatedString => append(&mut out, "unterminated double-quoted proposition"),
            CtlParseErrorKind::InvalidEscape { escape } => {
                append(&mut out, "unsupported string escape '\\");
                append(&mut out, escape.as_str());
                append(&mut out, "'");
            },
            CtlParseErrorKind::EmptyProposition => append(&mut out, "proposition name must not be empty"),
            CtlParseErrorKind::TrailingInput => append(&mut out, "unexpected trailing input after CTL expression"),
        }
        assert(out@ =~= "CTL parse error at byte "@ + decimal(self@.0) + ": "@ + ctl_fault_text(self@.1));
        out
    }
}

} // verus!
