//! The canonical rendering of a mu-calculus formula parses back to the same
//! formula, where no fixpoint binder is the left operand of `and` or `or`.
use crate::mu_calculus::MuFormula;
use crate::mu_parse::{
    is_ident_start, ident_end, lemma_mu_keywords, m_and, m_and_tail, m_binder, m_identifier, m_or, m_or_tail,
    m_primary, m_unary, mu_apply_prefix, mu_parse, mu_prefix_len, mu_prefix_op, render_mu, MuFault, MuTerm,
};
use crate::syntax::{
    escaped, is_ident_char, keyword_at, lemma_scan_literal_escaped, lemma_skip_bounds, quoted, scan_literal,
    skip_space,
};
use crate::text::{is_ascii_space, trim};
use vstd::prelude::*;

verus! {

/// A fixpoint variable name that the parser reads back: a letter or `_`,
/// then identifier characters.
pub open spec fn variable_ok(x: Seq<char>) -> bool {
    &&& x.len() > 0
    &&& is_ident_start(x[0])
    &&& forall|k: int| 0 <= k < x.len() ==> is_ident_char(#[trigger] x[k])
}

/// A fixpoint binder.
pub open spec fn is_binder(f: MuTerm) -> bool {
    f is Mu || f is Nu
}

/// The formulas whose rendering reads back: every proposition has a
/// non-blank name, every variable is an identifier, and no binder is the
/// left operand of `and` or `or` (its body would take in what follows).
pub open spec fn renders_back(f: MuTerm) -> bool
    decreases f,
{
    match f {
        MuFormula::True | MuFormula::False => true,
        MuFormula::Atom(a) => trim(a).len() > 0,
        MuFormula::Var(x) => variable_ok(x),
        MuFormula::Not(i) | MuFormula::Diamond(i) | MuFormula::Box(i) => renders_back(*i),
        MuFormula::And(l, r) | MuFormula::Or(l, r) => !is_binder(*l) && renders_back(*l) && renders_back(*r),
        MuFormula::Mu { variable, body } | MuFormula::Nu { variable, body } => variable_ok(variable) && renders_back(
            *body,
        ),
    }
}

/// Text `t` occurs in `s` at index `i`.
pub open spec fn occurs_at(s: Seq<char>, i: int, t: Seq<char>) -> bool {
    0 <= i && i + t.len() <= s.len() && s.subrange(i, i + t.len()) == t
}

/// Parsing the canonical rendering of a formula that `renders_back` gives
/// back exactly that formula.
pub proof fn lemma_mu_render_parse_round_trip(f: MuTerm)
    requires
        renders_back(f),
    ensures
        mu_parse(render_mu(f)) == Ok::<MuTerm, (int, (MuFault, Seq<char>))>(f),
{
    let s = render_mu(f);
    lemma_render_starts(f);
    assert(s.subrange(0, s.len() as int) =~= s);
    assert(skip_space(s, 0) == 0);
    lemma_closed(s, 0, f);
    lemma_or_of_unary(s, 0, f, s.len() as int);
}

proof fn lemma_literals()
    ensures
        "true"@ == seq!['t', 'r', 'u', 'e'],
        "false"@ == seq!['f', 'a', 'l', 's', 'e'],
        "not"@ == seq!['n', 'o', 't'],
        "and"@ == seq!['a', 'n', 'd'],
        "or"@ == seq!['o', 'r'],
        "diamond"@ == seq!['d', 'i', 'a', 'm', 'o', 'n', 'd'],
        "box"@ == seq!['b', 'o', 'x'],
        "mu"@ == seq!['m', 'u'],
        "nu"@ == seq!['n', 'u'],
        "$"@ == seq!['$'],
        "not ("@ == seq!['n', 'o', 't', ' ', '('],
        "diamond ("@ == seq!['d', 'i', 'a', 'm', 'o', 'n', 'd', ' ', '('],
        "box ("@ == seq!['b', 'o', 'x', ' ', '('],
        "mu "@ == seq!['m', 'u', ' '],
        "nu "@ == seq!['n', 'u', ' '],
        ". ("@ == seq!['.', ' ', '('],
        "("@ == seq!['('],
        ")"@ == seq![')'],
        " and "@ == seq![' ', 'a', 'n', 'd', ' '],
        " or "@ == seq![' ', 'o', 'r', ' '],
{
    reveal_strlit("true");
    reveal_strlit("false");
    reveal_strlit("not");
    reveal_strlit("and");
    reveal_strlit("or");
    reveal_strlit("diamond");
    reveal_strlit("box");
    reveal_strlit("mu");
    reveal_strlit("nu");
    reveal_strlit("$");
    reveal_strlit("not (");
    reveal_strlit("diamond (");
    reveal_strlit("box (");
    reveal_strlit("mu ");
    reveal_strlit("nu ");
    reveal_strlit(". (");
    reveal_strlit("(");
    reveal_strlit(")");
    reveal_strlit(" and ");
    reveal_strlit(" or ");
}

/// The first character of a rendering.
pub open spec fn first_char(f: MuTerm) -> char {
    match f {
        MuFormula::True => 't',
        MuFormula::False => 'f',
        MuFormula::Atom(_) => '"',
        MuFormula::Var(_) => '$',
        MuFormula::Not(_) => 'n',
        MuFormula::And(_, _) | MuFormula::Or(_, _) => '(',
        MuFormula::Diamond(_) => 'd',
        MuFormula::Box(_) => 'b',
        MuFormula::Mu { .. } => 'm',
        MuFormula::Nu { .. } => 'n',
    }
}

proof fn lemma_render_starts(f: MuTerm)
    ensures
        render_mu(f).len() >= 2 || f is Var,
        render_mu(f).len() >= 1,
        render_mu(f)[0] == first_char(f),
        !is_ascii_space(render_mu(f)[0]),
{
    lemma_literals();
    match f {
        MuFormula::Atom(a) => {
            assert(quoted(a)[0] == '"');
            assert(quoted(a).len() >= 2);
        },
        MuFormula::Var(x) => {
            assert(("$"@ + x)[0] == '$');
        },
        _ => {},
    }
}

proof fn lemma_at(s: Seq<char>, i: int, t: Seq<char>, k: int)
    requires
        occurs_at(s, i, t),
        0 <= k < t.len(),
    ensures
        s[i + k] == t[k],
{
    assert(s.subrange(i, i + t.len())[k] == s[i + k]);
}

proof fn lemma_occurs_sub(s: Seq<char>, i: int, t: Seq<char>, a: int, b: int)
    requires
        occurs_at(s, i, t),
        0 <= a <= b <= t.len(),
    ensures
        occurs_at(s, i + a, t.subrange(a, b)),
{
    assert(s.subrange(i + a, i + b) =~= t.subrange(a, b)) by {
        assert forall|k: int| 0 <= k < b - a implies s.subrange(i + a, i + b)[k] == t.subrange(a, b)[k] by {
            lemma_at(s, i, t, a + k);
        }
    }
}

proof fn lemma_no_keyword(s: Seq<char>, i: int, kw: Seq<char>, j: int)
    requires
        0 <= j < kw.len(),
        0 <= i,
        i + j < s.len(),
        s[i + j] != kw[j],
    ensures
        !keyword_at(s, i, kw),
{
    if keyword_at(s, i, kw) {
        assert(s.subrange(i, i + kw.len())[j] == s[i + j]);
    }
}

proof fn lemma_skip_here(s: Seq<char>, i: int)
    requires
        0 <= i < s.len(),
        !is_ascii_space(s[i]),
    ensures
        skip_space(s, i) == i,
{
}

proof fn lemma_skip_one(s: Seq<char>, i: int)
    requires
        0 <= i,
        i + 1 < s.len(),
        is_ascii_space(s[i]),
        !is_ascii_space(s[i + 1]),
    ensures
        skip_space(s, i) == i + 1,
{
    lemma_skip_here(s, i + 1);
}

/// A unary parse depends on its start only through the first non-space
/// index.
proof fn lemma_unary_skip(s: Seq<char>, x: int)
    requires
        0 <= x <= s.len(),
    ensures
        m_unary(s, x) == m_unary(s, skip_space(s, x)),
{
    lemma_skip_bounds(s, x);
    let k = skip_space(s, x);
    if k < s.len() {
        lemma_skip_here(s, k);
    }
}

/// Where the text after a formula starts with neither `and` nor `or`, the
/// conjunction and disjunction tails stop there.
proof fn lemma_stop(s: Seq<char>, e: int, f: MuTerm)
    requires
        0 <= e <= s.len(),
        skip_space(s, e) == s.len() || (s[skip_space(s, e)] != 'a' && s[skip_space(s, e)] != 'o'),
    ensures
        m_and_tail(s, e, f) == Ok::<_, (int, (MuFault, Seq<char>))>((f, skip_space(s, e))),
        m_or_tail(s, skip_space(s, e), f) == Ok::<_, (int, (MuFault, Seq<char>))>((f, skip_space(s, e))),
{
    lemma_literals();
    lemma_skip_bounds(s, e);
    let z = skip_space(s, e);
    if z < s.len() {
        lemma_no_keyword(s, z, "and"@, 0);
        lemma_no_keyword(s, z, "or"@, 0);
        lemma_skip_here(s, z);
    } else {
        assert(!keyword_at(s, z, "and"@));
        assert(!keyword_at(s, z, "or"@));
    }
}

/// A unary parse that is followed by neither `and` nor `or` is the whole
/// disjunction.
proof fn lemma_or_of_unary(s: Seq<char>, j: int, f: MuTerm, e: int)
    requires
        0 <= j <= e <= s.len(),
        m_unary(s, j) == Ok::<_, (int, (MuFault, Seq<char>))>((f, e)),
        skip_space(s, e) == s.len() || (s[skip_space(s, e)] != 'a' && s[skip_space(s, e)] != 'o'),
    ensures
        m_or(s, j) == Ok::<_, (int, (MuFault, Seq<char>))>((f, skip_space(s, e))),
{
    lemma_stop(s, e, f);
    lemma_skip_bounds(s, e);
    assert(m_and(s, j) == Ok::<_, (int, (MuFault, Seq<char>))>((f, skip_space(s, e))));
}

/// What may follow a rendering of `f` for it to read back alone: a binder
/// needs the end or `)`, anything else the end or a character that does
/// not continue an identifier.
pub open spec fn follow_ok(s: Seq<char>, e: int, f: MuTerm) -> bool {
    if is_binder(f) {
        e == s.len() || (e < s.len() && s[e] == ')')
    } else {
        e == s.len() || (e < s.len() && !is_ident_char(s[e]))
    }
}

/// A rendering parses back as a unary formula that ends right after it.
proof fn lemma_closed(s: Seq<char>, i: int, f: MuTerm)
    requires
        renders_back(f),
        occurs_at(s, i, render_mu(f)),
        follow_ok(s, i + render_mu(f).len(), f),
    ensures
        m_unary(s, i) == Ok::<_, (int, (MuFault, Seq<char>))>((f, i + render_mu(f).len())),
    decreases f, 1int,
{
    match f {
        MuFormula::True | MuFormula::False | MuFormula::Atom(_) => lemma_leaf_case(s, i, f),
        MuFormula::Var(x) => lemma_var_case(s, i, x),
        MuFormula::Not(g) => lemma_prefix_case(s, i, f, *g, 0),
        MuFormula::Diamond(g) => lemma_prefix_case(s, i, f, *g, 1),
        MuFormula::Box(g) => lemma_prefix_case(s, i, f, *g, 2),
        MuFormula::And(l, r) => lemma_binary_case(s, i, f, *l, *r, true),
        MuFormula::Or(l, r) => lemma_binary_case(s, i, f, *l, *r, false),
        MuFormula::Mu { variable, body } => lemma_binder_case(s, i, f, variable, *body, false),
        MuFormula::Nu { variable, body } => lemma_binder_case(s, i, f, variable, *body, true),
    }
}

/// No prefix operator or binder starts with a quote, `$`, `(`, `t` or `f`.
proof fn lemma_no_prefix(s: Seq<char>, i: int)
    requires
        0 <= i < s.len(),
        s[i] != 'n' && s[i] != 'd' && s[i] != 'b' && s[i] != 'm',
    ensures
        mu_prefix_op(s, i) == 5,
{
    lemma_literals();
    lemma_no_keyword(s, i, "not"@, 0);
    lemma_no_keyword(s, i, "diamond"@, 0);
    lemma_no_keyword(s, i, "box"@, 0);
    lemma_no_keyword(s, i, "mu"@, 0);
    lemma_no_keyword(s, i, "nu"@, 0);
}

/// Constants and propositions parse back as primaries.
proof fn lemma_leaf_case(s: Seq<char>, i: int, f: MuTerm)
    requires
        f is True || f is False || f is Atom,
        renders_back(f),
        occurs_at(s, i, render_mu(f)),
        follow_ok(s, i + render_mu(f).len(), f),
    ensures
        m_unary(s, i) == Ok::<_, (int, (MuFault, Seq<char>))>((f, i + render_mu(f).len())),
{
    lemma_literals();
    lemma_mu_keywords();
    let t = render_mu(f);
    let n = t.len() as int;
    lemma_render_starts(f);
    lemma_at(s, i, t, 0);
    lemma_skip_here(s, i);
    lemma_no_prefix(s, i);
    match f {
        MuFormula::True => {
            assert(keyword_at(s, i, "true"@));
            assert(m_primary(s, i) == Ok::<_, (int, (MuFault, Seq<char>))>((f, i + 4)));
        },
        MuFormula::False => {
            lemma_no_keyword(s, i, "true"@, 0);
            assert(keyword_at(s, i, "false"@));
            assert(m_primary(s, i) == Ok::<_, (int, (MuFault, Seq<char>))>((f, i + 5)));
        },
        MuFormula::Atom(a) => {
            lemma_no_keyword(s, i, "true"@, 0);
            lemma_no_keyword(s, i, "false"@, 0);
            let e = escaped(a);
            let e_n: int = e.len() as int;
            lemma_occurs_sub(s, i, t, 1, 1 + e_n);
            assert(t.subrange(1, 1 + e_n) =~= e);
            lemma_scan_literal_escaped(s, i, i + 1, Seq::empty(), a);
            assert(Seq::<char>::empty() + a =~= a);
            lemma_at(s, i, t, 1 + e_n);
            assert(scan_literal(s, i, i + 1, Seq::empty()) == Ok::<_, (int, Option<char>)>((a, i + n)));
            assert(m_primary(s, i) == Ok::<_, (int, (MuFault, Seq<char>))>((f, i + n)));
        },
        _ => {},
    }
}

/// An identifier run from `a` to `b`, followed by the end or a character
/// that does not continue it, ends at `b`.
proof fn lemma_ident_run(s: Seq<char>, a: int, b: int)
    requires
        0 <= a <= b <= s.len(),
        forall|k: int| a <= k < b ==> is_ident_char(#[trigger] s[k]),
        b == s.len() || !is_ident_char(s[b]),
    ensures
        ident_end(s, a) == b,
    decreases b - a,
{
    if a < b {
        lemma_ident_run(s, a + 1, b);
    }
}

/// The variable `x` written at `i` (without its `$`) reads back as `x`.
proof fn lemma_variable_at(s: Seq<char>, i: int, x: Seq<char>)
    requires
        variable_ok(x),
        occurs_at(s, i, x),
        i + x.len() == s.len() || !is_ident_char(s[i + x.len()]),
    ensures
        m_identifier(s, i) == Ok::<(Seq<char>, int), (int, (MuFault, Seq<char>))>((x, i + x.len())),
{
    lemma_at(s, i, x, 0);
    assert(!is_ascii_space(s[i]));
    lemma_skip_here(s, i);
    assert forall|k: int| i + 1 <= k < i + x.len() implies is_ident_char(#[trigger] s[k]) by {
        lemma_at(s, i, x, k - i);
    }
    lemma_ident_run(s, i + 1, i + x.len());
}

/// `$x` parses back as the variable `x`.
proof fn lemma_var_case(s: Seq<char>, i: int, x: Seq<char>)
    requires
        variable_ok(x),
        occurs_at(s, i, render_mu(MuTerm::Var(x))),
        follow_ok(s, i + render_mu(MuTerm::Var(x)).len(), MuTerm::Var(x)),
    ensures
        m_unary(s, i) == Ok::<_, (int, (MuFault, Seq<char>))>((MuTerm::Var(x), i + render_mu(MuTerm::Var(x)).len())),
{
    lemma_literals();
    lemma_mu_keywords();
    let f = MuFormula::<Seq<char>, Seq<char>>::Var(x);
    let t = render_mu(f);
    assert(t =~= seq!['$'] + x);
    lemma_at(s, i, t, 0);
    lemma_skip_here(s, i);
    lemma_no_prefix(s, i);
    lemma_no_keyword(s, i, "true"@, 0);
    lemma_no_keyword(s, i, "false"@, 0);
    lemma_occurs_sub(s, i, t, 1, t.len() as int);
    assert(t.subrange(1, t.len() as int) =~= x);
    lemma_variable_at(s, i + 1, x);
    assert(m_primary(s, i) == Ok::<_, (int, (MuFault, Seq<char>))>((f, i + t.len())));
}

/// The keyword of prefix operator `op`, 0 to 2.
pub open spec fn prefix_keyword(op: u8) -> Seq<char> {
    if op == 0 {
        "not"@
    } else if op == 1 {
        "diamond"@
    } else {
        "box"@
    }
}

/// The prefix operator at `i` is the one spelled there, when a space
/// follows it.
proof fn lemma_prefix_at(s: Seq<char>, i: int, op: u8)
    requires
        op <= 2,
        occurs_at(s, i, prefix_keyword(op)),
        i + prefix_keyword(op).len() < s.len(),
        s[i + prefix_keyword(op).len()] == ' ',
    ensures
        mu_prefix_op(s, i) == op,
{
    lemma_literals();
    let kw = prefix_keyword(op);
    lemma_at(s, i, kw, 0);
    if op != 0 {
        lemma_no_keyword(s, i, "not"@, 0);
    }
    if op == 2 {
        lemma_no_keyword(s, i, "diamond"@, 0);
    }
    assert(keyword_at(s, i, kw));
}

/// The rendering of a prefix operator applied to `g`.
pub open spec fn prefix_text(op: u8, g: MuTerm) -> Seq<char> {
    prefix_keyword(op) + seq![' ', '('] + render_mu(g) + seq![')']
}

proof fn lemma_prefix_case(s: Seq<char>, i: int, f: MuTerm, g: MuTerm, op: u8)
    requires
        op <= 2,
        f == mu_apply_prefix(op, g),
        renders_back(f),
        occurs_at(s, i, render_mu(f)),
    ensures
        m_unary(s, i) == Ok::<_, (int, (MuFault, Seq<char>))>((f, i + render_mu(f).len())),
    decreases f, 0int,
{
    lemma_literals();
    lemma_mu_keywords();
    let t = render_mu(f);
    let kw = prefix_keyword(op);
    let m = kw.len() as int;
    let rg = render_mu(g);
    assert(t =~= prefix_text(op, g));
    assert(renders_back(g));
    lemma_occurs_sub(s, i, t, 0, m);
    assert(t.subrange(0, m) =~= kw);
    lemma_at(s, i, t, m);
    lemma_at(s, i, t, m + 1);
    lemma_prefix_at(s, i, op);
    lemma_skip_here(s, i);
    assert(mu_prefix_len(op) == m);
    lemma_occurs_sub(s, i, t, m + 1, t.len() as int);
    assert(t.subrange(m + 1, t.len() as int) =~= seq!['('] + rg + seq![')']);
    lemma_paren(s, i + m + 1, g);
    lemma_skip_one(s, i + m);
    lemma_unary_skip(s, i + m);
}

proof fn lemma_binary_literals()
    ensures
        "and"@ == seq!['a', 'n', 'd'],
        "or"@ == seq!['o', 'r'],
        "("@ == seq!['('],
        ")"@ == seq![')'],
        " and "@ == seq![' ', 'a', 'n', 'd', ' '],
        " or "@ == seq![' ', 'o', 'r', ' '],
{
    reveal_strlit("and");
    reveal_strlit("or");
    reveal_strlit("(");
    reveal_strlit(")");
    reveal_strlit(" and ");
    reveal_strlit(" or ");
}

/// A disjunction in parentheses is a primary.
proof fn lemma_paren_primary(s: Seq<char>, i: int, f: MuTerm, e: int)
    requires
        0 <= i,
        i + 1 <= e < s.len(),
        s[i] == '(',
        s[e] == ')',
        m_or(s, i + 1) == Ok::<_, (int, (MuFault, Seq<char>))>((f, e)),
    ensures
        m_unary(s, i) == Ok::<_, (int, (MuFault, Seq<char>))>((f, e + 1)),
{
    lemma_literals();
    lemma_skip_here(s, i);
    lemma_no_prefix(s, i);
    lemma_no_keyword(s, i, "true"@, 0);
    lemma_no_keyword(s, i, "false"@, 0);
    lemma_skip_here(s, e);
    assert(m_primary(s, i) == Ok::<_, (int, (MuFault, Seq<char>))>((f, e + 1)));
}

/// The operands of `(l and r)` and `(l or r)`: where each starts and what
/// surrounds it.
proof fn lemma_binary_layout(s: Seq<char>, i: int, l: MuTerm, r: MuTerm, op: Seq<char>)
    requires
        op.len() >= 4,
        op[0] == ' ',
        !is_ascii_space(op[1]),
        op[op.len() - 1] == ' ',
        occurs_at(s, i, seq!['('] + render_mu(l) + op + render_mu(r) + seq![')']),
    ensures
        ({
            let e1 = i + 1 + render_mu(l).len();
            let e2 = e1 + op.len() + render_mu(r).len();
            &&& s[i] == '('
            &&& occurs_at(s, i + 1, render_mu(l))
            &&& occurs_at(s, e1, op)
            &&& occurs_at(s, e1 + op.len(), render_mu(r))
            &&& s[e1] == ' '
            &&& s[e2] == ')'
            &&& e2 < s.len()
            &&& skip_space(s, e1) == e1 + 1
            &&& skip_space(s, e1 + op.len() - 1) == e1 + op.len()
            &&& skip_space(s, e2) == e2
        }),
{
    let rl = render_mu(l);
    let rr = render_mu(r);
    let t = seq!['('] + rl + op + rr + seq![')'];
    let a: int = rl.len() as int;
    let o: int = op.len() as int;
    let b: int = rr.len() as int;
    let e1 = i + 1 + a;
    let e2 = e1 + o + b;
    lemma_at(s, i, t, 0);
    lemma_occurs_sub(s, i, t, 1, 1 + a);
    assert(t.subrange(1, 1 + a) =~= rl);
    lemma_occurs_sub(s, i, t, 1 + a, 1 + a + o);
    assert(t.subrange(1 + a, 1 + a + o) =~= op);
    lemma_occurs_sub(s, i, t, 1 + a + o, 1 + a + o + b);
    assert(t.subrange(1 + a + o, 1 + a + o + b) =~= rr);
    lemma_at(s, i, t, 1 + a);
    lemma_at(s, i, t, 2 + a);
    lemma_at(s, i, t, a + o);
    lemma_at(s, i, t, 1 + a + o);
    lemma_at(s, i, t, 1 + a + o + b);
    lemma_render_starts(r);
    lemma_skip_one(s, e1);
    lemma_skip_one(s, e1 + o - 1);
    lemma_skip_here(s, e2);
}

proof fn lemma_binary_case(s: Seq<char>, i: int, f: MuTerm, l: MuTerm, r: MuTerm, conj: bool)
    requires
        f == (if conj {
            MuFormula::And(Box::new(l), Box::new(r))
        } else {
            MuFormula::Or(Box::new(l), Box::new(r))
        }),
        renders_back(f),
        occurs_at(s, i, render_mu(f)),
    ensures
        m_unary(s, i) == Ok::<_, (int, (MuFault, Seq<char>))>((f, i + render_mu(f).len())),
    decreases f, 0int,
{
    lemma_binary_literals();
    let rl = render_mu(l);
    let rr = render_mu(r);
    let op: Seq<char> = if conj {
        seq![' ', 'a', 'n', 'd', ' ']
    } else {
        seq![' ', 'o', 'r', ' ']
    };
    assert(render_mu(f) =~= seq!['('] + rl + op + rr + seq![')']);
    assert(renders_back(l) && renders_back(r));
    lemma_binary_layout(s, i, l, r, op);
    let e1 = i + 1 + rl.len();
    let e2 = e1 + op.len() + rr.len();
    lemma_closed(s, i + 1, l);
    lemma_closed(s, e1 + op.len(), r);
    lemma_unary_skip(s, e1 + op.len() - 1);
    if conj {
        lemma_conj_body(s, i, l, r, e1, e2);
    } else {
        lemma_disj_body(s, i, l, r, e1, e2);
    }
    lemma_paren_primary(s, i, f, e2);
}

proof fn lemma_conj_body(s: Seq<char>, i: int, l: MuTerm, r: MuTerm, e1: int, e2: int)
    requires
        0 <= i,
        i + 1 <= e1,
        e1 + 5 <= e2 < s.len(),
        occurs_at(s, e1, seq![' ', 'a', 'n', 'd', ' ']),
        skip_space(s, e1) == e1 + 1,
        skip_space(s, e2) == e2,
        s[e2] == ')',
        m_unary(s, i + 1) == Ok::<_, (int, (MuFault, Seq<char>))>((l, e1)),
        m_unary(s, e1 + 4) == Ok::<_, (int, (MuFault, Seq<char>))>((r, e2)),
    ensures
        m_or(s, i + 1) == Ok::<_, (int, (MuFault, Seq<char>))>((MuFormula::And(Box::new(l), Box::new(r)), e2)),
{
    lemma_binary_literals();
    let f = MuFormula::And(Box::new(l), Box::new(r));
    lemma_occurs_sub(s, e1, seq![' ', 'a', 'n', 'd', ' '], 1, 4);
    assert(seq![' ', 'a', 'n', 'd', ' '].subrange(1, 4) =~= "and"@);
    lemma_at(s, e1, seq![' ', 'a', 'n', 'd', ' '], 4);
    assert(keyword_at(s, e1 + 1, "and"@));
    lemma_stop(s, e2, f);
    assert(m_and_tail(s, e1, l) == m_and_tail(s, e2, f));
    assert(m_and(s, i + 1) == Ok::<_, (int, (MuFault, Seq<char>))>((f, e2)));
}

proof fn lemma_disj_body(s: Seq<char>, i: int, l: MuTerm, r: MuTerm, e1: int, e2: int)
    requires
        0 <= i,
        i + 1 <= e1,
        e1 + 4 <= e2 < s.len(),
        occurs_at(s, e1, seq![' ', 'o', 'r', ' ']),
        skip_space(s, e1) == e1 + 1,
        skip_space(s, e2) == e2,
        s[e2] == ')',
        m_unary(s, i + 1) == Ok::<_, (int, (MuFault, Seq<char>))>((l, e1)),
        m_unary(s, e1 + 3) == Ok::<_, (int, (MuFault, Seq<char>))>((r, e2)),
    ensures
        m_or(s, i + 1) == Ok::<_, (int, (MuFault, Seq<char>))>((MuFormula::Or(Box::new(l), Box::new(r)), e2)),
{
    lemma_binary_literals();
    let f = MuFormula::Or(Box::new(l), Box::new(r));
    let op = seq![' ', 'o', 'r', ' '];
    lemma_at(s, e1, op, 1);
    lemma_no_keyword(s, e1 + 1, "and"@, 0);
    lemma_skip_here(s, e1 + 1);
    assert(m_and_tail(s, e1, l) == Ok::<_, (int, (MuFault, Seq<char>))>((l, e1 + 1)));
    assert(m_and(s, i + 1) == Ok::<_, (int, (MuFault, Seq<char>))>((l, e1 + 1)));
    lemma_occurs_sub(s, e1, op, 1, 3);
    assert(op.subrange(1, 3) =~= "or"@);
    lemma_at(s, e1, op, 3);
    assert(keyword_at(s, e1 + 1, "or"@));
    lemma_stop(s, e2, r);
    assert(m_and(s, e1 + 3) == Ok::<_, (int, (MuFault, Seq<char>))>((r, e2)));
    lemma_stop(s, e2, f);
    assert(m_or_tail(s, e1 + 1, l) == m_or_tail(s, e2, f));
}

/// `mu x. (body)` and `nu x. (body)` parse back as binders, where the end
/// or `)` follows them.
#[verifier::rlimit(60)]
proof fn lemma_binder_case(s: Seq<char>, i: int, f: MuTerm, x: Seq<char>, body: MuTerm, greatest: bool)
    requires
        f == (if greatest {
            MuFormula::Nu { variable: x, body: Box::new(body) }
        } else {
            MuFormula::Mu { variable: x, body: Box::new(body) }
        }),
        renders_back(f),
        occurs_at(s, i, render_mu(f)),
        follow_ok(s, i + render_mu(f).len(), f),
    ensures
        m_unary(s, i) == Ok::<_, (int, (MuFault, Seq<char>))>((f, i + render_mu(f).len())),
    decreases f, 0int,
{
    lemma_literals();
    lemma_mu_keywords();
    let t = render_mu(f);
    let q: char = if greatest {
        'n'
    } else {
        'm'
    };
    let rb = render_mu(body);
    let xn: int = x.len() as int;
    let bn: int = rb.len() as int;
    assert(t =~= seq![q, 'u', ' '] + x + seq!['.', ' ', '('] + rb + seq![')']);
    assert(renders_back(body) && variable_ok(x));
    lemma_at(s, i, t, 0);
    lemma_at(s, i, t, 1);
    lemma_at(s, i, t, 2);
    lemma_skip_here(s, i);
    // The binder keyword.
    if greatest {
        lemma_no_keyword(s, i, "not"@, 1);
        lemma_no_keyword(s, i, "mu"@, 0);
        lemma_occurs_sub(s, i, t, 0, 2);
        assert(t.subrange(0, 2) =~= "nu"@);
        assert(keyword_at(s, i, "nu"@));
    } else {
        lemma_no_keyword(s, i, "not"@, 0);
        lemma_occurs_sub(s, i, t, 0, 2);
        assert(t.subrange(0, 2) =~= "mu"@);
        assert(keyword_at(s, i, "mu"@));
    }
    lemma_no_keyword(s, i, "diamond"@, 0);
    lemma_no_keyword(s, i, "box"@, 0);
    assert(mu_prefix_op(s, i) == (if greatest {
        4u8
    } else {
        3u8
    }));
    // The variable, then `.`.
    lemma_occurs_sub(s, i, t, 3, 3 + xn);
    assert(t.subrange(3, 3 + xn) =~= x);
    lemma_at(s, i, t, 3 + xn);
    lemma_variable_at(s, i + 3, x);
    lemma_at(s, i, t, 3);
    lemma_skip_one(s, i + 2);
    assert(m_identifier(s, i + 2) == m_identifier(s, i + 3));
    let e = i + 3 + xn;
    lemma_skip_here(s, e);
    // The body, in parentheses.
    lemma_occurs_sub(s, i, t, 5 + xn, t.len() as int);
    assert(t.subrange(5 + xn, t.len() as int) =~= seq!['('] + rb + seq![')']);
    lemma_paren(s, e + 2, body);
    lemma_at(s, i, t, 4 + xn);
    lemma_at(s, i, t, 5 + xn);
    lemma_skip_one(s, e + 1);
    lemma_unary_skip(s, e + 1);
    let z = e + 2 + bn + 2;
    assert(z == i + t.len());
    if z < s.len() {
        lemma_skip_here(s, z);
    }
    lemma_or_of_unary(s, e + 1, body, z);
    assert(m_binder(s, i + 2, greatest) == Ok::<_, (int, (MuFault, Seq<char>))>((f, z)));
}

/// A rendering followed by `)` parses back as a disjunction that ends at
/// the `)`.
proof fn lemma_inner(s: Seq<char>, j: int, f: MuTerm)
    requires
        renders_back(f),
        occurs_at(s, j, render_mu(f)),
        j + render_mu(f).len() < s.len(),
        s[j + render_mu(f).len()] == ')',
    ensures
        m_or(s, j) == Ok::<_, (int, (MuFault, Seq<char>))>((f, j + render_mu(f).len())),
    decreases f, 2int,
{
    let e = j + render_mu(f).len();
    lemma_closed(s, j, f);
    lemma_skip_here(s, e);
    lemma_or_of_unary(s, j, f, e);
}

/// A parenthesized rendering parses back as a unary formula.
proof fn lemma_paren(s: Seq<char>, j: int, f: MuTerm)
    requires
        renders_back(f),
        occurs_at(s, j, seq!['('] + render_mu(f) + seq![')']),
    ensures
        m_unary(s, j) == Ok::<_, (int, (MuFault, Seq<char>))>((f, j + render_mu(f).len() + 2)),
    decreases f, 3int,
{
    lemma_literals();
    let rf = render_mu(f);
    let rf_n: int = rf.len() as int;
    let t = seq!['('] + rf + seq![')'];
    lemma_at(s, j, t, 0);
    lemma_at(s, j, t, rf_n + 1);
    lemma_skip_here(s, j);
    lemma_no_prefix(s, j);
    lemma_no_keyword(s, j, "true"@, 0);
    lemma_no_keyword(s, j, "false"@, 0);
    lemma_occurs_sub(s, j, t, 1, 1 + rf_n);
    assert(t.subrange(1, 1 + rf_n) =~= rf);
    lemma_inner(s, j + 1, f);
    lemma_skip_here(s, j + 1 + rf_n);
    assert(m_primary(s, j) == Ok::<_, (int, (MuFault, Seq<char>))>((f, j + rf_n + 2)));
}

} // verus!
