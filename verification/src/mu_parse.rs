//! The textual modal mu-calculus surface: a deterministic parser and a
//! fully parenthesized renderer.
use crate::mu_calculus::{mview, MuFormula};
use crate::syntax::{
    append_quoted, byte_len, byte_offset, ident_char_exec, is_ident_char, keyword_at, keyword_exec,
    lemma_scan_literal_bounds, lemma_skip_bounds, quoted, scan_literal, scan_literal_exec, skip_space,
    skip_space_exec,
};
use crate::text::{append, append_usize, chars_of, decimal, is_blank, push_char, trim};
use vstd::prelude::*;

verus! {

#[derive(Debug, Clone, PartialEq, Eq)]
pub enum MuParseErrorKind {
    ExpectedExpression,
    ExpectedCloseParen,
    ExpectedVariable,
    ExpectedDot,
    UnterminatedString,
    InvalidEscape { escape: String },
    EmptyProposition,
    TrailingInput,
}

/// Which way a mu-calculus text is malformed, without the offending text.
#[derive(Debug, Clone, Copy, PartialEq, Eq, Structural)]
pub enum MuFault {
    ExpectedExpression,
    ExpectedCloseParen,
    ExpectedVariable,
    ExpectedDot,
    UnterminatedString,
    InvalidEscape,
    EmptyProposition,
    TrailingInput,
}

impl View for MuParseErrorKind {
    /// The fault and the text it carries (empty where it carries none).
    type V = (MuFault, Seq<char>);

    open spec fn view(&self) -> (MuFault, Seq<char>) {
        match self {
            MuParseErrorKind::ExpectedExpression => (MuFault::ExpectedExpression, Seq::empty()),
            MuParseErrorKind::ExpectedCloseParen => (MuFault::ExpectedCloseParen, Seq::empty()),
            MuParseErrorKind::ExpectedVariable => (MuFault::ExpectedVariable, Seq::empty()),
            MuParseErrorKind::ExpectedDot => (MuFault::ExpectedDot, Seq::empty()),
            MuParseErrorKind::UnterminatedString => (MuFault::UnterminatedString, Seq::empty()),
            MuParseErrorKind::InvalidEscape { escape } => (MuFault::InvalidEscape, escape@),
            MuParseErrorKind::EmptyProposition => (MuFault::EmptyProposition, Seq::empty()),
            MuParseErrorKind::TrailingInput => (MuFault::TrailingInput, Seq::empty()),
        }
    }
}

/// A parse error: the byte offset of the fault and what went wrong.
#[derive(Debug, Clone, PartialEq, Eq)]
pub struct MuParseError {
    position: usize,
    kind: MuParseErrorKind,
}

impl View for MuParseError {
    type V = (nat, (MuFault, Seq<char>));

    closed spec fn view(&self) -> (nat, (MuFault, Seq<char>)) {
        (self.position as nat, self.kind@)
    }
}

impl MuParseError {
    pub fn position(&self) -> (p: usize)
        ensures
            p == self@.0,
    {
        self.position
    }

    pub fn kind(&self) -> (k: &MuParseErrorKind)
        ensures
            k@ == self@.1,
    {
        &self.kind
    }
}

// ---------------------------------------------------------------------------
// The grammar, by precedence from loosest to tightest: `or`, `and`, the
// prefix operators `not`, `diamond`, `box`, the binders `mu X.` and
// `nu X.` (whose body extends as far as possible), and primaries: `true`,
// `false`, a quoted proposition, a `$variable`, or a parenthesized formula.
// ASCII whitespace may separate tokens. Indexes are character indexes.
// ---------------------------------------------------------------------------

/// A mu-calculus formula over proposition and variable names.
pub type MuTerm = MuFormula<Seq<char>, Seq<char>>;

/// A parse of a prefix: the formula and the index after it, or the fault
/// and its index.
pub type MuOut = Result<(MuTerm, int), (int, (MuFault, Seq<char>))>;

pub open spec fn mu_fault(i: int, f: MuFault) -> (int, (MuFault, Seq<char>)) {
    (i, (f, Seq::empty()))
}

pub open spec fn mu_literal_fault(p: int, f: Option<char>) -> (int, (MuFault, Seq<char>)) {
    match f {
        None => (p, (MuFault::UnterminatedString, Seq::empty())),
        Some(x) => (p, (MuFault::InvalidEscape, seq![x])),
    }
}

/// A character that may start an identifier: an ASCII letter or `_`.
pub open spec fn is_ident_start(c: char) -> bool {
    ('a' <= c && c <= 'z') || ('A' <= c && c <= 'Z') || c == '_'
}

/// The first index at or after `i` that does not continue an identifier.
pub open spec fn ident_end(s: Seq<char>, i: int) -> int
    decreases s.len() - i,
{
    if i < 0 || i >= s.len() {
        s.len() as int
    } else if is_ident_char(s[i]) {
        ident_end(s, i + 1)
    } else {
        i
    }
}

pub proof fn lemma_ident_end_bounds(s: Seq<char>, i: int)
    requires
        0 <= i <= s.len(),
    ensures
        i <= ident_end(s, i) <= s.len(),
    decreases s.len() - i,
{
    if i < s.len() && is_ident_char(s[i]) {
        lemma_ident_end_bounds(s, i + 1);
    }
}

/// A fixpoint variable name, after optional whitespace.
pub open spec fn m_identifier(s: Seq<char>, i: int) -> Result<(Seq<char>, int), (int, (MuFault, Seq<char>))> {
    let k = skip_space(s, i);
    if k >= s.len() || !is_ident_start(s[k]) {
        Err(mu_fault(k, MuFault::ExpectedVariable))
    } else {
        let e = ident_end(s, k + 1);
        Ok((s.subrange(k, e), e))
    }
}

pub proof fn lemma_identifier_bounds(s: Seq<char>, i: int)
    requires
        0 <= i <= s.len(),
    ensures
        m_identifier(s, i) matches Ok((_, e)) ==> i < e <= s.len(),
        m_identifier(s, i) matches Err((p, _)) ==> 0 <= p <= s.len(),
{
    lemma_skip_bounds(s, i);
    let k = skip_space(s, i);
    if k < s.len() {
        lemma_ident_end_bounds(s, k + 1);
    }
}

/// The prefix operator at `k`: 0, 1, 2 for `not`, `diamond`, `box`; 3 and 4
/// for the binders `mu` and `nu`; 5 for none.
pub open spec fn mu_prefix_op(s: Seq<char>, k: int) -> u8 {
    if keyword_at(s, k, "not"@) {
        0
    } else if keyword_at(s, k, "diamond"@) {
        1
    } else if keyword_at(s, k, "box"@) {
        2
    } else if keyword_at(s, k, "mu"@) {
        3
    } else if keyword_at(s, k, "nu"@) {
        4
    } else {
        5
    }
}

pub open spec fn mu_prefix_len(op: u8) -> int {
    if op == 1 {
        7
    } else if op <= 2 {
        3
    } else {
        2
    }
}

pub open spec fn mu_apply_prefix(op: u8, f: MuTerm) -> MuTerm {
    if op == 0 {
        MuFormula::Not(Box::new(f))
    } else if op == 1 {
        MuFormula::Diamond(Box::new(f))
    } else {
        MuFormula::Box(Box::new(f))
    }
}

pub proof fn lemma_mu_keywords()
    ensures
        "or"@.len() == 2,
        "and"@.len() == 3,
        "not"@.len() == 3,
        "diamond"@.len() == 7,
        "box"@.len() == 3,
        "mu"@.len() == 2,
        "nu"@.len() == 2,
        "true"@.len() == 4,
        "false"@.len() == 5,
{
    reveal_strlit("or");
    reveal_strlit("and");
    reveal_strlit("not");
    reveal_strlit("diamond");
    reveal_strlit("box");
    reveal_strlit("mu");
    reveal_strlit("nu");
    reveal_strlit("true");
    reveal_strlit("false");
}

pub proof fn lemma_mu_prefix_fits(s: Seq<char>, k: int)
    ensures
        mu_prefix_op(s, k) <= 4 ==> 0 <= k && k + mu_prefix_len(mu_prefix_op(s, k)) <= s.len(),
{
    lemma_mu_keywords();
}

pub open spec fn mu_off_text(s: Seq<char>, i: int) -> bool {
    i < 0 || i > s.len()
}

/// A disjunction: conjunctions separated by `or`.
pub open spec fn m_or(s: Seq<char>, i: int) -> MuOut
    decreases s.len() - i, 6int,
{
    if mu_off_text(s, i) {
        Err(mu_fault(i, MuFault::ExpectedExpression))
    } else {
        match m_and(s, i) {
            Err(e) => Err(e),
            Ok((f, j)) => if i <= j <= s.len() {
                m_or_tail(s, j, f)
            } else {
                Ok((f, j))
            },
        }
    }
}

/// The rest of a disjunction after `acc`, from index `j`.
pub open spec fn m_or_tail(s: Seq<char>, j: int, acc: MuTerm) -> MuOut
    decreases s.len() - j, 5int,
{
    let k = skip_space(s, j);
    if keyword_at(s, k, "or"@) {
        proof {
            lemma_mu_keywords();
            if 0 <= j <= s.len() {
                lemma_skip_bounds(s, j);
            }
        }
        match m_and(s, k + 2) {
            Err(e) => Err(e),
            Ok((g, m)) => if k + 2 <= m <= s.len() {
                m_or_tail(s, m, MuFormula::Or(Box::new(acc), Box::new(g)))
            } else {
                Ok((MuFormula::Or(Box::new(acc), Box::new(g)), m))
            },
        }
    } else {
        Ok((acc, k))
    }
}

/// A conjunction: unary formulas separated by `and`.
pub open spec fn m_and(s: Seq<char>, i: int) -> MuOut
    decreases s.len() - i, 4int,
{
    if mu_off_text(s, i) {
        Err(mu_fault(i, MuFault::ExpectedExpression))
    } else {
        match m_unary(s, i) {
            Err(e) => Err(e),
            Ok((f, j)) => if i <= j <= s.len() {
                m_and_tail(s, j, f)
            } else {
                Ok((f, j))
            },
        }
    }
}

/// The rest of a conjunction after `acc`, from index `j`.
pub open spec fn m_and_tail(s: Seq<char>, j: int, acc: MuTerm) -> MuOut
    decreases s.len() - j, 3int,
{
    let k = skip_space(s, j);
    if keyword_at(s, k, "and"@) {
        proof {
            lemma_mu_keywords();
            if 0 <= j <= s.len() {
                lemma_skip_bounds(s, j);
            }
        }
        match m_unary(s, k + 3) {
            Err(e) => Err(e),
            Ok((g, m)) => if k + 3 <= m <= s.len() {
                m_and_tail(s, m, MuFormula::And(Box::new(acc), Box::new(g)))
            } else {
                Ok((MuFormula::And(Box::new(acc), Box::new(g)), m))
            },
        }
    } else {
        Ok((acc, k))
    }
}

/// A unary formula: prefix operators, a binder, or a primary.
pub open spec fn m_unary(s: Seq<char>, i: int) -> MuOut
    decreases s.len() - i, 2int,
{
    if mu_off_text(s, i) {
        Err(mu_fault(i, MuFault::ExpectedExpression))
    } else {
        let k = skip_space(s, i);
        let op = mu_prefix_op(s, k);
        proof {
            lemma_skip_bounds(s, i);
            lemma_mu_prefix_fits(s, k);
        }
        if op <= 2 {
            match m_unary(s, k + mu_prefix_len(op)) {
                Err(e) => Err(e),
                Ok((f, j)) => Ok((mu_apply_prefix(op, f), j)),
            }
        } else if op <= 4 {
            m_binder(s, k + 2, op == 4)
        } else {
            m_primary(s, k)
        }
    }
}

/// A binder after `mu` (or `nu` when `greatest`): a variable, `.`, and a
/// body that extends as far as possible.
pub open spec fn m_binder(s: Seq<char>, i: int, greatest: bool) -> MuOut
    decreases s.len() - i, 0int,
{
    if mu_off_text(s, i) {
        Err(mu_fault(i, MuFault::ExpectedExpression))
    } else {
        proof {
            lemma_identifier_bounds(s, i);
        }
        match m_identifier(s, i) {
            Err(e) => Err(e),
            Ok((x, e)) => {
                let d = skip_space(s, e);
                proof {
                    lemma_skip_bounds(s, e);
                }
                if d < s.len() && s[d] == '.' {
                    match m_or(s, d + 1) {
                        Err(err) => Err(err),
                        Ok((body, j)) => Ok(
                            (
                                if greatest {
                                    MuFormula::Nu { variable: x, body: Box::new(body) }
                                } else {
                                    MuFormula::Mu { variable: x, body: Box::new(body) }
                                },
                                j,
                            ),
                        ),
                    }
                } else {
                    Err(mu_fault(d, MuFault::ExpectedDot))
                }
            },
        }
    }
}

/// A primary: `true`, `false`, a non-blank quoted proposition, a
/// `$variable`, or a parenthesized formula.
pub open spec fn m_primary(s: Seq<char>, i: int) -> MuOut
    decreases s.len() - i, 1int,
{
    if mu_off_text(s, i) {
        Err(mu_fault(i, MuFault::ExpectedExpression))
    } else {
        let k = skip_space(s, i);
        proof {
            lemma_skip_bounds(s, i);
        }
        if keyword_at(s, k, "true"@) {
            Ok((MuFormula::True, k + 4))
        } else if keyword_at(s, k, "false"@) {
            Ok((MuFormula::False, k + 5))
        } else if k < s.len() && s[k] == '"' {
            match scan_literal(s, k, k + 1, Seq::empty()) {
                Err((p, f)) => Err(mu_literal_fault(p, f)),
                Ok((a, j)) => if trim(a).len() == 0 {
                    Err(mu_fault(k, MuFault::EmptyProposition))
                } else {
                    Ok((MuFormula::Atom(a), j))
                },
            }
        } else if k < s.len() && s[k] == '$' {
            match m_identifier(s, k + 1) {
                Err(e) => Err(e),
                Ok((x, e)) => Ok((MuFormula::Var(x), e)),
            }
        } else if k < s.len() && s[k] == '(' {
            match m_or(s, k + 1) {
                Err(e) => Err(e),
                Ok((f, m)) => {
                    let z = skip_space(s, m);
                    if z < s.len() && s[z] == ')' {
                        Ok((f, z + 1))
                    } else {
                        Err(mu_fault(z, MuFault::ExpectedCloseParen))
                    }
                },
            }
        } else {
            Err(mu_fault(k, MuFault::ExpectedExpression))
        }
    }
}

/// The formula a whole text denotes, or the first fault and its index.
pub open spec fn mu_parse(s: Seq<char>) -> Result<MuTerm, (int, (MuFault, Seq<char>))> {
    match m_or(s, skip_space(s, 0)) {
        Err(e) => Err(e),
        Ok((f, j)) => {
            let z = skip_space(s, j);
            if z < s.len() {
                Err(mu_fault(z, MuFault::TrailingInput))
            } else {
                Ok(f)
            }
        },
    }
}

// ---------------------------------------------------------------------------
// Where a parse ends.
// ---------------------------------------------------------------------------

pub open spec fn mu_ends_within(r: MuOut, i: int, n: int) -> bool {
    match r {
        Ok((_, j)) => i <= j <= n,
        Err((p, _)) => 0 <= p <= n,
    }
}

pub proof fn lemma_m_or(s: Seq<char>, i: int)
    requires
        0 <= i <= s.len(),
    ensures
        mu_ends_within(m_or(s, i), i, s.len() as int),
    decreases s.len() - i, 6int,
{
    lemma_m_and(s, i);
    match m_and(s, i) {
        Ok((f, j)) => lemma_m_or_tail(s, j, f),
        Err(_) => {},
    }
}

pub proof fn lemma_m_or_tail(s: Seq<char>, j: int, acc: MuTerm)
    requires
        0 <= j <= s.len(),
    ensures
        mu_ends_within(m_or_tail(s, j, acc), j, s.len() as int),
    decreases s.len() - j, 5int,
{
    lemma_mu_keywords();
    lemma_skip_bounds(s, j);
    let k = skip_space(s, j);
    if keyword_at(s, k, "or"@) {
        lemma_m_and(s, k + 2);
        match m_and(s, k + 2) {
            Ok((g, m)) => lemma_m_or_tail(s, m, MuFormula::Or(Box::new(acc), Box::new(g))),
            Err(_) => {},
        }
    }
}

pub proof fn lemma_m_and(s: Seq<char>, i: int)
    requires
        0 <= i <= s.len(),
    ensures
        mu_ends_within(m_and(s, i), i, s.len() as int),
    decreases s.len() - i, 4int,
{
    lemma_m_unary(s, i);
    match m_unary(s, i) {
        Ok((f, j)) => lemma_m_and_tail(s, j, f),
        Err(_) => {},
    }
}

pub proof fn lemma_m_and_tail(s: Seq<char>, j: int, acc: MuTerm)
    requires
        0 <= j <= s.len(),
    ensures
        mu_ends_within(m_and_tail(s, j, acc), j, s.len() as int),
    decreases s.len() - j, 3int,
{
    lemma_mu_keywords();
    lemma_skip_bounds(s, j);
    let k = skip_space(s, j);
    if keyword_at(s, k, "and"@) {
        lemma_m_unary(s, k + 3);
        match m_unary(s, k + 3) {
            Ok((g, m)) => lemma_m_and_tail(s, m, MuFormula::And(Box::new(acc), Box::new(g))),
            Err(_) => {},
        }
    }
}

pub proof fn lemma_m_unary(s: Seq<char>, i: int)
    requires
        0 <= i <= s.len(),
    ensures
        mu_ends_within(m_unary(s, i), i, s.len() as int),
    decreases s.len() - i, 2int,
{
    lemma_skip_bounds(s, i);
    let k = skip_space(s, i);
    lemma_mu_prefix_fits(s, k);
    let op = mu_prefix_op(s, k);
    if op <= 2 {
        lemma_m_unary(s, k + mu_prefix_len(op));
    } else if op <= 4 {
        lemma_m_binder(s, k + 2, op == 4);
    } else {
        lemma_m_primary(s, k);
    }
}

pub proof fn lemma_m_binder(s: Seq<char>, i: int, greatest: bool)
    requires
        0 <= i <= s.len(),
    ensures
        mu_ends_within(m_binder(s, i, greatest), i, s.len() as int),
    decreases s.len() - i, 0int,
{
    lemma_identifier_bounds(s, i);
    match m_identifier(s, i) {
        Ok((x, e)) => {
            lemma_skip_bounds(s, e);
            let d = skip_space(s, e);
            if d < s.len() && s[d] == '.' {
                lemma_m_or(s, d + 1);
            }
        },
        Err(_) => {},
    }
}

pub proof fn lemma_m_primary(s: Seq<char>, i: int)
    requires
        0 <= i <= s.len(),
    ensures
        mu_ends_within(m_primary(s, i), i, s.len() as int),
    decreases s.len() - i, 1int,
{
    lemma_mu_keywords();
    lemma_skip_bounds(s, i);
    let k = skip_space(s, i);
    if !keyword_at(s, k, "true"@) && !keyword_at(s, k, "false"@) {
        if k < s.len() && s[k] == '"' {
            lemma_scan_literal_bounds(s, k, k + 1, Seq::empty());
        } else if k < s.len() && s[k] == '$' {
            lemma_identifier_bounds(s, k + 1);
        } else if k < s.len() && s[k] == '(' {
            lemma_m_or(s, k + 1);
            match m_or(s, k + 1) {
                Ok((f, m)) => lemma_skip_bounds(s, m),
                Err(_) => {},
            }
        }
    }
}

// ---------------------------------------------------------------------------
// The executable parser.
// ---------------------------------------------------------------------------

pub open spec fn mu_agrees(r: Result<(MuFormula<String, String>, usize), (usize, MuParseErrorKind)>, spec: MuOut) -> bool {
    match spec {
        Ok((f, j)) => r matches Ok((g, k)) && mview(g) == f && k == j,
        Err((p, f)) => r matches Err((q, k)) && q == p && k@ == f,
    }
}

fn mu_fault_exec(i: usize, f: MuFault) -> (r: Result<(MuFormula<String, String>, usize), (usize, MuParseErrorKind)>)
    requires
        f != MuFault::InvalidEscape,
    ensures
        mu_agrees(r, Err(mu_fault(i as int, f))),
{
    let kind = match f {
        MuFault::ExpectedExpression => MuParseErrorKind::ExpectedExpression,
        MuFault::ExpectedCloseParen => MuParseErrorKind::ExpectedCloseParen,
        MuFault::ExpectedVariable => MuParseErrorKind::ExpectedVariable,
        MuFault::ExpectedDot => MuParseErrorKind::ExpectedDot,
        MuFault::UnterminatedString => MuParseErrorKind::UnterminatedString,
        MuFault::EmptyProposition => MuParseErrorKind::EmptyProposition,
        _ => MuParseErrorKind::TrailingInput,
    };
    Err((i, kind))
}

fn identifier_exec(s: &Vec<char>, i: usize) -> (r: Result<(String, usize), (usize, MuParseErrorKind)>)
    requires
        i <= s@.len(),
    ensures
        match m_identifier(s@, i as int) {
            Ok((x, e)) => r matches Ok((t, f)) && t@ == x && f == e,
            Err((p, k)) => r matches Err((q, g)) && q == p && g@ == k,
        },
{
    let k = skip_space_exec(s, i);
    if k >= s.len() || !('a' <= s[k] && s[k] <= 'z' || 'A' <= s[k] && s[k] <= 'Z' || s[k] == '_') {
        return Err((k, MuParseErrorKind::ExpectedVariable));
    }
    let mut e = k + 1;
    while e < s.len() && ident_char_exec(s[e])
        invariant
            k < e <= s@.len(),
            ident_end(s@, e as int) == ident_end(s@, k + 1),
        decreases s.len() - e,
    {
        e += 1;
    }
    Ok((crate::text::string_of(s, k, e), e))
}

fn mu_prefix_exec(s: &Vec<char>, k: usize) -> (op: u8)
    requires
        k <= s@.len(),
    ensures
        op == mu_prefix_op(s@, k as int),
{
    if keyword_exec(s, k, "not") {
        0
    } else if keyword_exec(s, k, "diamond") {
        1
    } else if keyword_exec(s, k, "box") {
        2
    } else if keyword_exec(s, k, "mu") {
        3
    } else if keyword_exec(s, k, "nu") {
        4
    } else {
        5
    }
}

fn m_or_exec(s: &Vec<char>, i: usize) -> (r: Result<(MuFormula<String, String>, usize), (usize, MuParseErrorKind)>)
    requires
        i <= s@.len(),
    ensures
        mu_agrees(r, m_or(s@, i as int)),
    decreases s@.len() - i, 6int,
{
    let (first, j0) = match m_and_exec(s, i) {
        Ok(p) => p,
        Err(e) => {
            return Err(e);
        },
    };
    proof {
        lemma_m_and(s@, i as int);
    }
    let n = s.len();
    let mut acc = first;
    let mut j = j0;
    loop
        invariant
            n == s@.len(),
            i <= j <= s@.len(),
            m_or(s@, i as int) == m_or_tail(s@, j as int, mview(acc)),
        decreases s@.len() - j,
    {
        let k = skip_space_exec(s, j);
        if !keyword_exec(s, k, "or") {
            return Ok((acc, k));
        }
        proof {
            lemma_mu_keywords();
        }
        let (g, m) = match m_and_exec(s, k + 2) {
            Ok(p) => p,
            Err(e) => {
                return Err(e);
            },
        };
        proof {
            lemma_m_and(s@, k + 2);
        }
        acc = MuFormula::Or(Box::new(acc), Box::new(g));
        j = m;
    }
}

fn m_and_exec(s: &Vec<char>, i: usize) -> (r: Result<(MuFormula<String, String>, usize), (usize, MuParseErrorKind)>)
    requires
        i <= s@.len(),
    ensures
        mu_agrees(r, m_and(s@, i as int)),
    decreases s@.len() - i, 4int,
{
    let (first, j0) = match m_unary_exec(s, i) {
        Ok(p) => p,
        Err(e) => {
            return Err(e);
        },
    };
    proof {
        lemma_m_unary(s@, i as int);
    }
    let n = s.len();
    let mut acc = first;
    let mut j = j0;
    loop
        invariant
            n == s@.len(),
            i <= j <= s@.len(),
            m_and(s@, i as int) == m_and_tail(s@, j as int, mview(acc)),
        decreases s@.len() - j,
    {
        let k = skip_space_exec(s, j);
        if !keyword_exec(s, k, "and") {
            return Ok((acc, k));
        }
        proof {
            lemma_mu_keywords();
        }
        let (g, m) = match m_unary_exec(s, k + 3) {
            Ok(p) => p,
            Err(e) => {
                return Err(e);
            },
        };
        proof {
            lemma_m_unary(s@, k + 3);
        }
        acc = MuFormula::And(Box::new(acc), Box::new(g));
        j = m;
    }
}

fn m_unary_exec(s: &Vec<char>, i: usize) -> (r: Result<(MuFormula<String, String>, usize), (usize, MuParseErrorKind)>)
    requires
        i <= s@.len(),
    ensures
        mu_agrees(r, m_unary(s@, i as int)),
    decreases s@.len() - i, 2int,
{
    let n = s.len();
    let k = skip_space_exec(s, i);
    let op = mu_prefix_exec(s, k);
    proof {
        lemma_mu_prefix_fits(s@, k as int);
    }
    if op <= 2 {
        let len: usize = if op == 1 {
            7
        } else {
            3
        };
        match m_unary_exec(s, k + len) {
            Ok((f, j)) => {
                let g = if op == 0 {
                    MuFormula::Not(Box::new(f))
                } else if op == 1 {
                    MuFormula::Diamond(Box::new(f))
                } else {
                    MuFormula::Box(Box::new(f))
                };
                Ok((g, j))
            },
            Err(e) => Err(e),
        }
    } else if op <= 4 {
        m_binder_exec(s, k + 2, op == 4)
    } else {
        m_primary_exec(s, k)
    }
}

fn m_binder_exec(s: &Vec<char>, i: usize, greatest: bool) -> (r: Result<
    (MuFormula<String, String>, usize),
    (usize, MuParseErrorKind),
>)
    requires
        i <= s@.len(),
    ensures
        mu_agrees(r, m_binder(s@, i as int, greatest)),
    decreases s@.len() - i, 0int,
{
    let (x, e) = match identifier_exec(s, i) {
        Ok(p) => p,
        Err(err) => {
            return Err(err);
        },
    };
    proof {
        lemma_identifier_bounds(s@, i as int);
    }
    let d = skip_space_exec(s, e);
    if d < s.len() && s[d] == '.' {
        let (body, j) = match m_or_exec(s, d + 1) {
            Ok(p) => p,
            Err(err) => {
                return Err(err);
            },
        };
        let f = if greatest {
            MuFormula::Nu { variable: x, body: Box::new(body) }
        } else {
            MuFormula::Mu { variable: x, body: Box::new(body) }
        };
        Ok((f, j))
    } else {
        mu_fault_exec(d, MuFault::ExpectedDot)
    }
}

fn m_primary_exec(s: &Vec<char>, i: usize) -> (r: Result<(MuFormula<String, String>, usize), (usize, MuParseErrorKind)>)
    requires
        i <= s@.len(),
    ensures
        mu_agrees(r, m_primary(s@, i as int)),
    decreases s@.len() - i, 1int,
{
    let n = s.len();
    let k = skip_space_exec(s, i);
    proof {
        lemma_mu_keywords();
    }
    if keyword_exec(s, k, "true") {
        return Ok((MuFormula::True, k + 4));
    }
    if keyword_exec(s, k, "false") {
        return Ok((MuFormula::False, k + 5));
    }
    if k < s.len() && s[k] == '"' {
        match scan_literal_exec(s, k) {
            Err((p, f)) => {
                let kind = match f {
                    None => MuParseErrorKind::UnterminatedString,
                    Some(x) => {
                        let mut escape = String::new();
                        push_char(&mut escape, x);
                        assert(escape@ =~= seq![x]);
                        MuParseErrorKind::InvalidEscape { escape }
                    },
                };
                Err((p, kind))
            },
            Ok((a, j)) => {
                if is_blank(a.as_str()) {
                    mu_fault_exec(k, MuFault::EmptyProposition)
                } else {
                    Ok((MuFormula::Atom(a), j))
                }
            },
        }
    } else if k < s.len() && s[k] == '$' {
        match identifier_exec(s, k + 1) {
            Ok((x, e)) => Ok((MuFormula::Var(x), e)),
            Err(err) => Err(err),
        }
    } else if k < s.len() && s[k] == '(' {
        let (f, m) = match m_or_exec(s, k + 1) {
            Ok(p) => p,
            Err(e) => {
                return Err(e);
            },
        };
        proof {
            lemma_m_or(s@, k + 1);
        }
        let z = skip_space_exec(s, m);
        if z < s.len() && s[z] == ')' {
            Ok((f, z + 1))
        } else {
            mu_fault_exec(z, MuFault::ExpectedCloseParen)
        }
    } else {
        mu_fault_exec(k, MuFault::ExpectedExpression)
    }
}

/// Parse the deterministic textual modal mu-calculus surface.
///
/// Precedence, from tightest to loosest: `not`, `diamond`, `box` and the
/// binders `mu X.` / `nu X.`; then `and`; then `or`. A binder's body
/// extends as far as possible. Atoms are double-quoted, non-blank
/// proposition names; variables are written `$X`. ASCII whitespace is
/// allowed between tokens. Error positions are byte offsets.
pub fn parse_mu_formula(input: &str) -> (r: Result<MuFormula<String, String>, MuParseError>)
    requires
        byte_len(input@) < usize::MAX,
    ensures
        match mu_parse(input@) {
            Ok(f) => r matches Ok(g) && mview(g) == f,
            Err((p, k)) => r matches Err(e) && e@ == (byte_len(input@.take(p)), k),
        },
{
    let s = chars_of(input);
    let k = skip_space_exec(&s, 0);
    let out = m_or_exec(&s, k);
    proof {
        lemma_m_or(s@, k as int);
    }
    match out {
        Err((p, kind)) => {
            let position = byte_offset(&s, p);
            Err(MuParseError { position, kind })
        },
        Ok((f, j)) => {
            let z = skip_space_exec(&s, j);
            if z < s.len() {
                let position = byte_offset(&s, z);
                Err(MuParseError { position, kind: MuParseErrorKind::TrailingInput })
            } else {
                Ok(f)
            }
        },
    }
}

// ---------------------------------------------------------------------------
// Rendering.
// ---------------------------------------------------------------------------

/// The canonical, fully parenthesized text of a formula.
pub open spec fn render_mu(f: MuTerm) -> Seq<char>
    decreases f,
{
    match f {
        MuFormula::True => "true"@,
        MuFormula::False => "false"@,
        MuFormula::Atom(a) => quoted(a),
        MuFormula::Var(x) => "$"@ + x,
        MuFormula::Not(i) => "not ("@ + render_mu(*i) + ")"@,
        MuFormula::And(l, r) => "("@ + render_mu(*l) + " and "@ + render_mu(*r) + ")"@,
        MuFormula::Or(l, r) => "("@ + render_mu(*l) + " or "@ + render_mu(*r) + ")"@,
        MuFormula::Diamond(i) => "diamond ("@ + render_mu(*i) + ")"@,
        MuFormula::Box(i) => "box ("@ + render_mu(*i) + ")"@,
        MuFormula::Mu { variable, body } => "mu "@ + variable + ". ("@ + render_mu(*body) + ")"@,
        MuFormula::Nu { variable, body } => "nu "@ + variable + ". ("@ + render_mu(*body) + ")"@,
    }
}

fn render_mu_into(out: &mut String, f: &MuFormula<String, String>)
    ensures
        final(out)@ == old(out)@ + render_mu(mview(*f)),
    decreases f,
{
    match f {
        MuFormula::True => append(out, "true"),
        MuFormula::False => append(out, "false"),
        MuFormula::Atom(a) => append_quoted(out, a.as_str()),
        MuFormula::Var(x) => {
            append(out, "$");
            append(out, x.as_str());
        },
        MuFormula::Not(i) => {
            append(out, "not (");
            render_mu_into(out, i);
            append(out, ")");
        },
        MuFormula::And(l, r) => {
            append(out, "(");
            render_mu_into(out, l);
            append(out, " and ");
            render_mu_into(out, r);
            append(out, ")");
        },
        MuFormula::Or(l, r) => {
            append(out, "(");
            render_mu_into(out, l);
            append(out, " or ");
            render_mu_into(out, r);
            append(out, ")");
        },
        MuFormula::Diamond(i) => {
            append(out, "diamond (");
            render_mu_into(out, i);
            append(out, ")");
        },
        MuFormula::Box(i) => {
            append(out, "box (");
            render_mu_into(out, i);
            append(out, ")");
        },
        MuFormula::Mu { variable, body } => {
            append(out, "mu ");
            append(out, variable.as_str());
            append(out, ". (");
            render_mu_into(out, body);
            append(out, ")");
        },
        MuFormula::Nu { variable, body } => {
            append(out, "nu ");
            append(out, variable.as_str());
            append(out, ". (");
            render_mu_into(out, body);
            append(out, ")");
        },
    }
    proof {
        assert(final(out)@ =~= old(out)@ + render_mu(mview(*f)));
    }
}

/// Render a stable, fully parenthesized mu-calculus expression that parses
/// back to the same formula.
pub fn render_mu_formula(formula: &MuFormula<String, String>) -> (text: String)
    ensures
        text@ == render_mu(mview(*formula)),
{
    let mut out = String::new();
    render_mu_into(&mut out, formula);
    assert(out@ =~= render_mu(mview(*formula)));
    out
}

// ---------------------------------------------------------------------------
// Messages.
// ---------------------------------------------------------------------------

/// How a fault reads in an error message.
pub open spec fn mu_fault_text(k: (MuFault, Seq<char>)) -> Seq<char> {
    match k.0 {
        MuFault::ExpectedExpression => "expected a quoted proposition, $variable, true, false, not, diamond, box, mu/nu binder, or '('"@,
        MuFault::ExpectedCloseParen => "expected ')'"@,
        MuFault::ExpectedVariable => "expected a fixpoint variable identifier"@,
        MuFault::ExpectedDot => "expected '.' after fixpoint binder"@,
        MuFault::UnterminatedString => "unterminated double-quoted proposition"@,
        MuFault::InvalidEscape => "unsupported string escape '\\"@ + k.1 + "'"@,
        MuFault::EmptyProposition => "proposition name must not be empty"@,
        MuFault::TrailingInput => "unexpected trailing input after mu-calculus expression"@,
    }
}

impl MuParseError {
    /// The human-readable message of this error.
    pub fn message(&self) -> (text: String)
        ensures
            text@ == "mu-calculus parse error at byte "@ + decimal(self@.0) + ": "@ + mu_fault_text(self@.1),
    {
        let mut out = String::new();
        append(&mut out, "mu-calculus parse error at byte ");
        append_usize(&mut out, self.position);
        append(&mut out, ": ");
        match &self.kind {
            MuParseErrorKind::ExpectedExpression => append(
                &mut out,
                "expected a quoted proposition, $variable, true, false, not, diamond, box, mu/nu binder, or '('",
            ),
            MuParseErrorKind::ExpectedCloseParen => append(&mut out, "expected ')'"),
            MuParseErrorKind::ExpectedVariable => append(&mut out, "expected a fixpoint variable identifier"),
            MuParseErrorKind::ExpectedDot => append(&mut out, "expected '.' after fixpoint binder"),
            MuParseErrorKind::UnterminatedString => append(&mut out, "unterminated double-quoted proposition"),
            MuParseErrorKind::InvalidEscape { escape } => {
                append(&mut out, "unsupported string escape '\\");
                append(&mut out, escape.as_str());
                append(&mut out, "'");
            },
            MuParseErrorKind::EmptyProposition => append(&mut out, "proposition name must not be empty"),
            MuParseErrorKind::TrailingInput => append(
                &mut out,
                "unexpected trailing input after mu-calculus expression",
            ),
        }
        assert(out@ =~= "mu-calculus parse error at byte "@ + decimal(self@.0) + ": "@ + mu_fault_text(self@.1));
        out
    }
}

} // verus!
