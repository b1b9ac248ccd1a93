//! The canonical rendering of a CTL formula parses back to the same formula.
use crate::ctl::CtlFormula;
use crate::ctl_parse::{
    apply_prefix, c_and, c_and_tail, c_or, c_or_tail, c_primary, c_unary, c_until, ctl_parse, lemma_ctl_keywords,
    prefix_len, prefix_op, render_ctl, CtlFault, CtlTerm,
};
use crate::syntax::{
    escaped, is_ident_char, keyword_at, lemma_scan_literal_escaped, lemma_skip_bounds, quoted, scan_literal,
    skip_space,
};
use crate::text::{is_ascii_space, trim};
use vstd::prelude::*;

verus! {

/// Every proposition of `f` has a non-blank name.
pub open spec fn named_atoms(f: CtlTerm) -> bool
    decreases f,
{
    match f {
        CtlFormula::True | CtlFormula::False => true,
        CtlFormula::Atom(a) => trim(a).len() > 0,
        CtlFormula::Not(i) | CtlFormula::Ex(i) | CtlFormula::Ax(i) | CtlFormula::Ef(i) | CtlFormula::Af(i)
        | CtlFormula::Eg(i) | CtlFormula::Ag(i) => named_atoms(*i),
        CtlFormula::And(l, r) | CtlFormula::Or(l, r) | CtlFormula::Eu(l, r) | CtlFormula::Au(l, r) => named_atoms(
            *l,
        ) && named_atoms(*r),
    }
}

/// Text `t` occurs in `s` at index `i`.
pub open spec fn occurs_at(s: Seq<char>, i: int, t: Seq<char>) -> bool {
    0 <= i && i + t.len() <= s.len() && s.subrange(i, i + t.len()) == t
}

/// Parsing the canonical rendering of a formula whose propositions all
/// have non-blank names gives back exactly that formula.
pub proof fn lemma_render_parse_round_trip(f: CtlTerm)
    requires
        named_atoms(f),
    ensures
        ctl_parse(render_ctl(f)) == Ok::<CtlTerm, (int, (CtlFault, Seq<char>))>(f),
{
    let s = render_ctl(f);
    lemma_render_starts(f);
    assert(s.subrange(0, s.len() as int) =~= s);
    assert(skip_space(s, 0) == 0);
    lemma_closed(s, 0, f);
    lemma_or_of_unary(s, 0, f, s.len() as int);
}

// ---------------------------------------------------------------------------
// The literals of the grammar and of the rendering.
// ---------------------------------------------------------------------------

proof fn lemma_literals()
    ensures
        "true"@ == seq!['t', 'r', 'u', 'e'],
        "false"@ == seq!['f', 'a', 'l', 's', 'e'],
        "not"@ == seq!['n', 'o', 't'],
        "and"@ == seq!['a', 'n', 'd'],
        "or"@ == seq!['o', 'r'],
        "EX"@ == seq!['E', 'X'],
        "AX"@ == seq!['A', 'X'],
        "EF"@ == seq!['E', 'F'],
        "AF"@ == seq!['A', 'F'],
        "EG"@ == seq!['E', 'G'],
        "AG"@ == seq!['A', 'G'],
        "E"@ == seq!['E'],
        "A"@ == seq!['A'],
        "U"@ == seq!['U'],
        "not ("@ == seq!['n', 'o', 't', ' ', '('],
        "EX ("@ == seq!['E', 'X', ' ', '('],
        "AX ("@ == seq!['A', 'X', ' ', '('],
        "EF ("@ == seq!['E', 'F', ' ', '('],
        "AF ("@ == seq!['A', 'F', ' ', '('],
        "EG ("@ == seq!['E', 'G', ' ', '('],
        "AG ("@ == seq!['A', 'G', ' ', '('],
        "("@ == seq!['('],
        ")"@ == seq![')'],
        " and "@ == seq![' ', 'a', 'n', 'd', ' '],
        " or "@ == seq![' ', 'o', 'r', ' '],
        "E[("@ == seq!['E', '[', '('],
        "A[("@ == seq!['A', '[', '('],
        ") U ("@ == seq![')', ' ', 'U', ' ', '('],
        ")]"@ == seq![')', ']'],
{
    reveal_strlit("true");
    reveal_strlit("false");
    reveal_strlit("not");
    reveal_strlit("and");
    reveal_strlit("or");
    reveal_strlit("EX");
    reveal_strlit("AX");
    reveal_strlit("EF");
    reveal_strlit("AF");
    reveal_strlit("EG");
    reveal_strlit("AG");
    reveal_strlit("E");
    reveal_strlit("A");
    reveal_strlit("U");
    reveal_strlit("not (");
    reveal_strlit("EX (");
    reveal_strlit("AX (");
    reveal_strlit("EF (");
    reveal_strlit("AF (");
    reveal_strlit("EG (");
    reveal_strlit("AG (");
    reveal_strlit("(");
    reveal_strlit(")");
    reveal_strlit(" and ");
    reveal_strlit(" or ");
    reveal_strlit("E[(");
    reveal_strlit("A[(");
    reveal_strlit(") U (");
    reveal_strlit(")]");
}

/// The first two characters of a rendering.
pub open spec fn first_char(f: CtlTerm) -> char {
    match f {
        CtlFormula::True => 't',
        CtlFormula::False => 'f',
        CtlFormula::Atom(_) => '"',
        CtlFormula::Not(_) => 'n',
        CtlFormula::And(_, _) | CtlFormula::Or(_, _) => '(',
        CtlFormula::Ex(_) | CtlFormula::Ef(_) | CtlFormula::Eg(_) | CtlFormula::Eu(_, _) => 'E',
        CtlFormula::Ax(_) | CtlFormula::Af(_) | CtlFormula::Ag(_) | CtlFormula::Au(_, _) => 'A',
    }
}

proof fn lemma_render_starts(f: CtlTerm)
    ensures
        render_ctl(f).len() >= 2,
        render_ctl(f)[0] == first_char(f),
        !is_ascii_space(render_ctl(f)[0]),
{
    lemma_literals();
    match f {
        CtlFormula::Atom(a) => {
            assert(quoted(a)[0] == '"');
            assert(quoted(a).len() >= 2);
        },
        _ => {},
    }
}

// ---------------------------------------------------------------------------
// Small facts about the grammar.
// ---------------------------------------------------------------------------

proof fn lemma_at(s: Seq<char>, i: int, t: Seq<char>, k: int)
    requires
        occurs_at(s, i, t),
        0 <= k < t.len(),
    ensures
        s[i + k] == t[k],
{
    assert(s.subrange(i, i + t.len())[k] == s[i + k]);
}

proof fn lemma_occurs_sub(s: Seq<char>, i: int, t: Seq<char>, a: int, b: int)
    requires
        occurs_at(s, i, t),
        0 <= a <= b <= t.len(),
    ensures
        occurs_at(s, i + a, t.subrange(a, b)),
{
    assert(s.subrange(i + a, i + b) =~= t.subrange(a, b)) by {
        assert forall|k: int| 0 <= k < b - a implies s.subrange(i + a, i + b)[k] == t.subrange(a, b)[k] by {
            lemma_at(s, i, t, a + k);
        }
    }
}

proof fn lemma_no_keyword(s: Seq<char>, i: int, kw: Seq<char>, j: int)
    requires
        0 <= j < kw.len(),
        0 <= i,
        i + j < s.len(),
        s[i + j] != kw[j],
    ensures
        !keyword_at(s, i, kw),
{
    if keyword_at(s, i, kw) {
        assert(s.subrange(i, i + kw.len())[j] == s[i + j]);
    }
}

proof fn lemma_skip_here(s: Seq<char>, i: int)
    requires
        0 <= i < s.len(),
        !is_ascii_space(s[i]),
    ensures
        skip_space(s, i) == i,
{
}

proof fn lemma_skip_one(s: Seq<char>, i: int)
    requires
        0 <= i,
        i + 1 < s.len(),
        is_ascii_space(s[i]),
        !is_ascii_space(s[i + 1]),
    ensures
        skip_space(s, i) == i + 1,
{
    lemma_skip_here(s, i + 1);
}

/// A unary parse depends on its start only through the first non-space
/// index.
proof fn lemma_unary_skip(s: Seq<char>, x: int)
    requires
        0 <= x <= s.len(),
    ensures
        c_unary(s, x) == c_unary(s, skip_space(s, x)),
{
    lemma_skip_bounds(s, x);
    let k = skip_space(s, x);
    if k < s.len() {
        lemma_skip_here(s, k);
    }
}

/// Where the text after a formula starts with neither `and` nor `or`, the
/// conjunction and disjunction tails stop there.
proof fn lemma_stop(s: Seq<char>, e: int, f: CtlTerm)
    requires
        0 <= e <= s.len(),
        skip_space(s, e) == s.len() || (s[skip_space(s, e)] != 'a' && s[skip_space(s, e)] != 'o'),
    ensures
        c_and_tail(s, e, f) == Ok::<_, (int, (CtlFault, Seq<char>))>((f, skip_space(s, e))),
        c_or_tail(s, skip_space(s, e), f) == Ok::<_, (int, (CtlFault, Seq<char>))>((f, skip_space(s, e))),
{
    lemma_literals();
    lemma_skip_bounds(s, e);
    let z = skip_space(s, e);
    if z < s.len() {
        lemma_no_keyword(s, z, "and"@, 0);
        lemma_no_keyword(s, z, "or"@, 0);
        lemma_skip_here(s, z);
    } else {
        assert(!keyword_at(s, z, "and"@));
        assert(!keyword_at(s, z, "or"@));
    }
}

/// A unary parse that is followed by neither `and` nor `or` is the whole
/// disjunction.
proof fn lemma_or_of_unary(s: Seq<char>, j: int, f: CtlTerm, e: int)
    requires
        0 <= j <= e <= s.len(),
        c_unary(s, j) == Ok::<_, (int, (CtlFault, Seq<char>))>((f, e)),
        skip_space(s, e) == s.len() || (s[skip_space(s, e)] != 'a' && s[skip_space(s, e)] != 'o'),
    ensures
        c_or(s, j) == Ok::<_, (int, (CtlFault, Seq<char>))>((f, skip_space(s, e))),
{
    lemma_stop(s, e, f);
    lemma_skip_bounds(s, e);
    assert(c_and(s, j) == Ok::<_, (int, (CtlFault, Seq<char>))>((f, skip_space(s, e))));
}

// ---------------------------------------------------------------------------
// The round trip, by structure.
// ---------------------------------------------------------------------------

/// A rendering parses back as a unary formula that ends right after it,
/// when no identifier character follows it.
proof fn lemma_closed(s: Seq<char>, i: int, f: CtlTerm)
    requires
        named_atoms(f),
        occurs_at(s, i, render_ctl(f)),
        i + render_ctl(f).len() == s.len() || !is_ident_char(s[i + render_ctl(f).len()]),
    ensures
        c_unary(s, i) == Ok::<_, (int, (CtlFault, Seq<char>))>((f, i + render_ctl(f).len())),
    decreases f, 1int,
{
    match f {
        CtlFormula::True | CtlFormula::False | CtlFormula::Atom(_) => lemma_leaf_case(s, i, f),
        CtlFormula::Not(g) => lemma_prefix_case(s, i, f, *g, 0),
        CtlFormula::Ex(g) => lemma_prefix_case(s, i, f, *g, 1),
        CtlFormula::Ax(g) => lemma_prefix_case(s, i, f, *g, 2),
        CtlFormula::Ef(g) => lemma_prefix_case(s, i, f, *g, 3),
        CtlFormula::Af(g) => lemma_prefix_case(s, i, f, *g, 4),
        CtlFormula::Eg(g) => lemma_prefix_case(s, i, f, *g, 5),
        CtlFormula::Ag(g) => lemma_prefix_case(s, i, f, *g, 6),
        CtlFormula::And(l, r) => lemma_binary_case(s, i, f, *l, *r, true),
        CtlFormula::Or(l, r) => lemma_binary_case(s, i, f, *l, *r, false),
        CtlFormula::Eu(l, r) => lemma_until_case(s, i, f, *l, *r, true),
        CtlFormula::Au(l, r) => lemma_until_case(s, i, f, *l, *r, false),
    }
}

/// Constants and propositions parse back as primaries.
proof fn lemma_leaf_case(s: Seq<char>, i: int, f: CtlTerm)
    requires
        f is True || f is False || f is Atom,
        named_atoms(f),
        occurs_at(s, i, render_ctl(f)),
        i + render_ctl(f).len() == s.len() || !is_ident_char(s[i + render_ctl(f).len()]),
    ensures
        c_unary(s, i) == Ok::<_, (int, (CtlFault, Seq<char>))>((f, i + render_ctl(f).len())),
{
    lemma_literals();
    lemma_ctl_keywords();
    let t = render_ctl(f);
    let n = t.len() as int;
    lemma_render_starts(f);
    lemma_at(s, i, t, 0);
    lemma_skip_here(s, i);
    lemma_no_prefix(s, i);
    match f {
        CtlFormula::True => {
            assert(keyword_at(s, i, "true"@));
            assert(c_primary(s, i) == Ok::<_, (int, (CtlFault, Seq<char>))>((f, i + 4)));
        },
        CtlFormula::False => {
            lemma_no_keyword(s, i, "true"@, 0);
            assert(keyword_at(s, i, "false"@));
            assert(c_primary(s, i) == Ok::<_, (int, (CtlFault, Seq<char>))>((f, i + 5)));
        },
        CtlFormula::Atom(a) => {
            lemma_no_keyword(s, i, "true"@, 0);
            lemma_no_keyword(s, i, "false"@, 0);
            let e = escaped(a);
            let e_n: int = e.len() as int;
            lemma_occurs_sub(s, i, t, 1, 1 + e_n);
            assert(t.subrange(1, 1 + e_n) =~= e);
            lemma_scan_literal_escaped(s, i, i + 1, Seq::empty(), a);
            assert(Seq::<char>::empty() + a =~= a);
            lemma_at(s, i, t, 1 + e_n);
            assert(scan_literal(s, i, i + 1, Seq::empty()) == Ok::<_, (int, Option<char>)>((a, i + n)));
            assert(c_primary(s, i) == Ok::<_, (int, (CtlFault, Seq<char>))>((f, i + n)));
        },
        _ => {},
    }
}

/// No prefix operator starts with a quote, `(`, `t` or `f`.
proof fn lemma_no_prefix(s: Seq<char>, i: int)
    requires
        0 <= i < s.len(),
        s[i] != 'n' && s[i] != 'E' && s[i] != 'A',
    ensures
        prefix_op(s, i) == 9,
{
    lemma_literals();
    lemma_no_keyword(s, i, "not"@, 0);
    lemma_no_keyword(s, i, "EX"@, 0);
    lemma_no_keyword(s, i, "AX"@, 0);
    lemma_no_keyword(s, i, "EF"@, 0);
    lemma_no_keyword(s, i, "AF"@, 0);
    lemma_no_keyword(s, i, "EG"@, 0);
    lemma_no_keyword(s, i, "AG"@, 0);
    lemma_no_keyword(s, i, "E"@, 0);
    lemma_no_keyword(s, i, "A"@, 0);
}

/// The keyword of prefix operator `op`, 0 to 6.
pub open spec fn prefix_keyword(op: u8) -> Seq<char> {
    if op == 0 {
        "not"@
    } else if op == 1 {
        "EX"@
    } else if op == 2 {
        "AX"@
    } else if op == 3 {
        "EF"@
    } else if op == 4 {
        "AF"@
    } else if op == 5 {
        "EG"@
    } else {
        "AG"@
    }
}

/// The prefix operator at `i` is the one spelled there, when a space
/// follows it.
proof fn lemma_prefix_at(s: Seq<char>, i: int, op: u8)
    requires
        op <= 6,
        occurs_at(s, i, prefix_keyword(op)),
        i + prefix_keyword(op).len() < s.len(),
        s[i + prefix_keyword(op).len()] == ' ',
    ensures
        prefix_op(s, i) == op,
{
    lemma_literals();
    let kw = prefix_keyword(op);
    lemma_at(s, i, kw, 0);
    if kw.len() > 1 {
        lemma_at(s, i, kw, 1);
    }
    if op != 0 {
        lemma_no_keyword(s, i, "not"@, 0);
    }
    if op == 1 {
    } else if op == 2 {
        lemma_no_keyword(s, i, "EX"@, 0);
    } else if op == 3 {
        lemma_no_keyword(s, i, "EX"@, 1);
        lemma_no_keyword(s, i, "AX"@, 0);
    } else if op == 4 {
        lemma_no_keyword(s, i, "EX"@, 0);
        lemma_no_keyword(s, i, "AX"@, 1);
        lemma_no_keyword(s, i, "EF"@, 0);
    } else if op == 5 {
        lemma_no_keyword(s, i, "EX"@, 1);
        lemma_no_keyword(s, i, "AX"@, 0);
        lemma_no_keyword(s, i, "EF"@, 1);
        lemma_no_keyword(s, i, "AF"@, 0);
    } else if op == 6 {
        lemma_no_keyword(s, i, "EX"@, 0);
        lemma_no_keyword(s, i, "AX"@, 1);
        lemma_no_keyword(s, i, "EF"@, 0);
        lemma_no_keyword(s, i, "AF"@, 1);
        lemma_no_keyword(s, i, "EG"@, 0);
    }
    assert(keyword_at(s, i, kw));
}

/// The rendering of a prefix operator applied to `g`.
pub open spec fn prefix_text(op: u8, g: CtlTerm) -> Seq<char> {
    prefix_keyword(op) + seq![' ', '('] + render_ctl(g) + seq![')']
}

proof fn lemma_prefix_case(s: Seq<char>, i: int, f: CtlTerm, g: CtlTerm, op: u8)
    requires
        op <= 6,
        f == apply_prefix(op, g),
        named_atoms(f),
        occurs_at(s, i, render_ctl(f)),
    ensures
        c_unary(s, i) == Ok::<_, (int, (CtlFault, Seq<char>))>((f, i + render_ctl(f).len())),
    decreases f, 0int,
{
    lemma_literals();
    lemma_ctl_keywords();
    let t = render_ctl(f);
    let kw = prefix_keyword(op);
    let m = kw.len() as int;
    let rg = render_ctl(g);
    assert(t =~= prefix_text(op, g));
    assert(named_atoms(g));
    lemma_occurs_sub(s, i, t, 0, m);
    assert(t.subrange(0, m) =~= kw);
    lemma_at(s, i, t, m);
    lemma_at(s, i, t, m + 1);
    lemma_prefix_at(s, i, op);
    lemma_skip_here(s, i);
    assert(prefix_len(op) == m);
    lemma_occurs_sub(s, i, t, m + 1, t.len() as int);
    assert(t.subrange(m + 1, t.len() as int) =~= seq!['('] + rg + seq![')']);
    lemma_paren(s, i + m + 1, g);
    lemma_skip_one(s, i + m);
    lemma_unary_skip(s, i + m);
}

proof fn lemma_binary_literals()
    ensures
        "and"@ == seq!['a', 'n', 'd'],
        "or"@ == seq!['o', 'r'],
        "("@ == seq!['('],
        ")"@ == seq![')'],
        " and "@ == seq![' ', 'a', 'n', 'd', ' '],
        " or "@ == seq![' ', 'o', 'r', ' '],
{
    reveal_strlit("and");
    reveal_strlit("or");
    reveal_strlit("(");
    reveal_strlit(")");
    reveal_strlit(" and ");
    reveal_strlit(" or ");
}

/// A disjunction in parentheses is a primary.
proof fn lemma_paren_primary(s: Seq<char>, i: int, f: CtlTerm, e: int)
    requires
        0 <= i,
        i + 1 <= e < s.len(),
        s[i] == '(',
        s[e] == ')',
        c_or(s, i + 1) == Ok::<_, (int, (CtlFault, Seq<char>))>((f, e)),
    ensures
        c_unary(s, i) == Ok::<_, (int, (CtlFault, Seq<char>))>((f, e + 1)),
{
    lemma_literals();
    lemma_skip_here(s, i);
    lemma_no_prefix(s, i);
    lemma_no_keyword(s, i, "true"@, 0);
    lemma_no_keyword(s, i, "false"@, 0);
    lemma_skip_here(s, e);
    assert(c_primary(s, i) == Ok::<_, (int, (CtlFault, Seq<char>))>((f, e + 1)));
}

/// The operands of `(l and r)` and `(l or r)`: where each starts and what
/// surrounds it.
proof fn lemma_binary_layout(s: Seq<char>, i: int, l: CtlTerm, r: CtlTerm, op: Seq<char>)
    requires
        op.len() >= 4,
        op[0] == ' ',
        !is_ascii_space(op[1]),
        op[op.len() - 1] == ' ',
        occurs_at(s, i, seq!['('] + render_ctl(l) + op + render_ctl(r) + seq![')']),
    ensures
        ({
            let e1 = i + 1 + render_ctl(l).len();
            let e2 = e1 + op.len() + render_ctl(r).len();
            &&& s[i] == '('
            &&& occurs_at(s, i + 1, render_ctl(l))
            &&& occurs_at(s, e1, op)
            &&& occurs_at(s, e1 + op.len(), render_ctl(r))
            &&& s[e1] == ' '
            &&& s[e2] == ')'
            &&& e2 < s.len()
            &&& skip_space(s, e1) == e1 + 1
            &&& skip_space(s, e1 + op.len() - 1) == e1 + op.len()
            &&& skip_space(s, e2) == e2
        }),
{
    let rl = render_ctl(l);
    let rr = render_ctl(r);
    let t = seq!['('] + rl + op + rr + seq![')'];
    let a: int = rl.len() as int;
    let o: int = op.len() as int;
    let b: int = rr.len() as int;
    let e1 = i + 1 + a;
    let e2 = e1 + o + b;
    lemma_at(s, i, t, 0);
    lemma_occurs_sub(s, i, t, 1, 1 + a);
    assert(t.subrange(1, 1 + a) =~= rl);
    lemma_occurs_sub(s, i, t, 1 + a, 1 + a + o);
    assert(t.subrange(1 + a, 1 + a + o) =~= op);
    lemma_occurs_sub(s, i, t, 1 + a + o, 1 + a + o + b);
    assert(t.subrange(1 + a + o, 1 + a + o + b) =~= rr);
    lemma_at(s, i, t, 1 + a);
    lemma_at(s, i, t, 2 + a);
    lemma_at(s, i, t, a + o);
    lemma_at(s, i, t, 1 + a + o);
    lemma_at(s, i, t, 1 + a + o + b);
    lemma_render_starts(r);
    lemma_skip_one(s, e1);
    lemma_skip_one(s, e1 + o - 1);
    lemma_skip_here(s, e2);
}

proof fn lemma_binary_case(s: Seq<char>, i: int, f: CtlTerm, l: CtlTerm, r: CtlTerm, conj: bool)
    requires
        f == (if conj {
            CtlFormula::And(Box::new(l), Box::new(r))
        } else {
            CtlFormula::Or(Box::new(l), Box::new(r))
        }),
        named_atoms(f),
        occurs_at(s, i, render_ctl(f)),
    ensures
        c_unary(s, i) == Ok::<_, (int, (CtlFault, Seq<char>))>((f, i + render_ctl(f).len())),
    decreases f, 0int,
{
    lemma_binary_literals();
    let rl = render_ctl(l);
    let rr = render_ctl(r);
    let op: Seq<char> = if conj {
        seq![' ', 'a', 'n', 'd', ' ']
    } else {
        seq![' ', 'o', 'r', ' ']
    };
    assert(render_ctl(f) =~= seq!['('] + rl + op + rr + seq![')']);
    assert(named_atoms(l) && named_atoms(r));
    lemma_binary_layout(s, i, l, r, op);
    let e1 = i + 1 + rl.len();
    let e2 = e1 + op.len() + rr.len();
    lemma_closed(s, i + 1, l);
    lemma_closed(s, e1 + op.len(), r);
    lemma_unary_skip(s, e1 + op.len() - 1);
    if conj {
        lemma_conj_body(s, i, l, r, e1, e2);
    } else {
        lemma_disj_body(s, i, l, r, e1, e2);
    }
    lemma_paren_primary(s, i, f, e2);
}

proof fn lemma_conj_body(s: Seq<char>, i: int, l: CtlTerm, r: CtlTerm, e1: int, e2: int)
    requires
        0 <= i,
        i + 1 <= e1,
        e1 + 5 <= e2 < s.len(),
        occurs_at(s, e1, seq![' ', 'a', 'n', 'd', ' ']),
        skip_space(s, e1) == e1 + 1,
        skip_space(s, e2) == e2,
        s[e2] == ')',
        c_unary(s, i + 1) == Ok::<_, (int, (CtlFault, Seq<char>))>((l, e1)),
        c_unary(s, e1 + 4) == Ok::<_, (int, (CtlFault, Seq<char>))>((r, e2)),
    ensures
        c_or(s, i + 1) == Ok::<_, (int, (CtlFault, Seq<char>))>((CtlFormula::And(Box::new(l), Box::new(r)), e2)),
{
    lemma_binary_literals();
    let f = CtlFormula::And(Box::new(l), Box::new(r));
    lemma_occurs_sub(s, e1, seq![' ', 'a', 'n', 'd', ' '], 1, 4);
    assert(seq![' ', 'a', 'n', 'd', ' '].subrange(1, 4) =~= "and"@);
    lemma_at(s, e1, seq![' ', 'a', 'n', 'd', ' '], 4);
    assert(keyword_at(s, e1 + 1, "and"@));
    lemma_stop(s, e2, f);
    assert(c_and_tail(s, e1, l) == c_and_tail(s, e2, f));
    assert(c_and(s, i + 1) == Ok::<_, (int, (CtlFault, Seq<char>))>((f, e2)));
}

proof fn lemma_disj_body(s: Seq<char>, i: int, l: CtlTerm, r: CtlTerm, e1: int, e2: int)
    requires
        0 <= i,
        i + 1 <= e1,
        e1 + 4 <= e2 < s.len(),
        occurs_at(s, e1, seq![' ', 'o', 'r', ' ']),
        skip_space(s, e1) == e1 + 1,
        skip_space(s, e2) == e2,
        s[e2] == ')',
        c_unary(s, i + 1) == Ok::<_, (int, (CtlFault, Seq<char>))>((l, e1)),
        c_unary(s, e1 + 3) == Ok::<_, (int, (CtlFault, Seq<char>))>((r, e2)),
    ensures
        c_or(s, i + 1) == Ok::<_, (int, (CtlFault, Seq<char>))>((CtlFormula::Or(Box::new(l), Box::new(r)), e2)),
{
    lemma_binary_literals();
    let f = CtlFormula::Or(Box::new(l), Box::new(r));
    let op = seq![' ', 'o', 'r', ' '];
    lemma_at(s, e1, op, 1);
    lemma_no_keyword(s, e1 + 1, "and"@, 0);
    lemma_skip_here(s, e1 + 1);
    assert(c_and_tail(s, e1, l) == Ok::<_, (int, (CtlFault, Seq<char>))>((l, e1 + 1)));
    assert(c_and(s, i + 1) == Ok::<_, (int, (CtlFault, Seq<char>))>((l, e1 + 1)));
    lemma_occurs_sub(s, e1, op, 1, 3);
    assert(op.subrange(1, 3) =~= "or"@);
    lemma_at(s, e1, op, 3);
    assert(keyword_at(s, e1 + 1, "or"@));
    lemma_stop(s, e2, r);
    assert(c_and(s, e1 + 3) == Ok::<_, (int, (CtlFault, Seq<char>))>((r, e2)));
    lemma_stop(s, e2, f);
    assert(c_or_tail(s, e1 + 1, l) == c_or_tail(s, e2, f));
}

#[verifier::rlimit(60)]
proof fn lemma_until_case(s: Seq<char>, i: int, f: CtlTerm, l: CtlTerm, r: CtlTerm, exists: bool)
    requires
        f == (if exists {
            CtlFormula::Eu(Box::new(l), Box::new(r))
        } else {
            CtlFormula::Au(Box::new(l), Box::new(r))
        }),
        named_atoms(f),
        occurs_at(s, i, render_ctl(f)),
    ensures
        c_unary(s, i) == Ok::<_, (int, (CtlFault, Seq<char>))>((f, i + render_ctl(f).len())),
    decreases f, 0int,
{
    lemma_literals();
    lemma_ctl_keywords();
    let t = render_ctl(f);
    let rl = render_ctl(l);
    let rl_n: int = rl.len() as int;
    let rr = render_ctl(r);
    let rr_n: int = rr.len() as int;
    let q: char = if exists {
        'E'
    } else {
        'A'
    };
    assert(t =~= seq![q, '[', '('] + rl + seq![')', ' ', 'U', ' ', '('] + rr + seq![')', ']']);
    assert(named_atoms(l) && named_atoms(r));
    lemma_at(s, i, t, 0);
    lemma_at(s, i, t, 1);
    lemma_skip_here(s, i);
    // The quantifier keyword.
    lemma_no_keyword(s, i, "not"@, 0);
    lemma_no_keyword(s, i, "EX"@, 1);
    lemma_no_keyword(s, i, "AX"@, 1);
    lemma_no_keyword(s, i, "EF"@, 1);
    lemma_no_keyword(s, i, "AF"@, 1);
    lemma_no_keyword(s, i, "EG"@, 1);
    lemma_no_keyword(s, i, "AG"@, 1);
    assert(s.subrange(i, i + 1) =~= seq![q]);
    if exists {
        assert(keyword_at(s, i, "E"@));
    } else {
        lemma_no_keyword(s, i, "E"@, 0);
        assert(keyword_at(s, i, "A"@));
    }
    assert(prefix_op(s, i) == (if exists {
        7u8
    } else {
        8u8
    }));
    // The left operand, in parentheses, then ` U `.
    let b = i + 1;
    lemma_skip_here(s, b);
    lemma_occurs_sub(s, i, t, 2, 4 + rl_n);
    assert(t.subrange(2, 4 + rl_n) =~= seq!['('] + rl + seq![')']);
    lemma_paren(s, b + 1, l);
    let m0 = b + 1 + rl_n + 2;
    lemma_at(s, i, t, 4 + rl_n);
    lemma_at(s, i, t, 5 + rl_n);
    lemma_at(s, i, t, 6 + rl_n);
    lemma_skip_one(s, m0);
    lemma_or_of_unary(s, b + 1, l, m0);
    let m = m0 + 1;
    lemma_skip_here(s, m);
    lemma_occurs_sub(s, i, t, 5 + rl_n, 6 + rl_n);
    assert(t.subrange(5 + rl_n, 6 + rl_n) =~= "U"@);
    assert(keyword_at(s, m, "U"@));
    // The right operand, in parentheses, then `]`.
    lemma_occurs_sub(s, i, t, 7 + rl_n, 9 + rl_n + rr_n);
    assert(t.subrange(7 + rl_n, 9 + rl_n + rr_n) =~= seq!['('] + rr + seq![')']);
    lemma_paren(s, m + 2, r);
    lemma_at(s, i, t, 7 + rl_n);
    lemma_skip_one(s, m + 1);
    lemma_unary_skip(s, m + 1);
    let z = m + 2 + rr_n + 2;
    lemma_at(s, i, t, 9 + rl_n + rr_n);
    lemma_skip_here(s, z);
    lemma_or_of_unary(s, m + 1, r, z);
    assert(c_until(s, i + 1, exists) == Ok::<_, (int, (CtlFault, Seq<char>))>((f, z + 1)));
}

/// A rendering followed by `)` parses back as a disjunction that ends at
/// the `)`.
proof fn lemma_inner(s: Seq<char>, j: int, f: CtlTerm)
    requires
        named_atoms(f),
        occurs_at(s, j, render_ctl(f)),
        j + render_ctl(f).len() < s.len(),
        s[j + render_ctl(f).len()] == ')',
    ensures
        c_or(s, j) == Ok::<_, (int, (CtlFault, Seq<char>))>((f, j + render_ctl(f).len())),
    decreases f, 2int,
{
    let e = j + render_ctl(f).len();
    lemma_closed(s, j, f);
    lemma_skip_here(s, e);
    lemma_or_of_unary(s, j, f, e);
}

/// A parenthesized rendering parses back as a unary formula.
proof fn lemma_paren(s: Seq<char>, j: int, f: CtlTerm)
    requires
        named_atoms(f),
        occurs_at(s, j, seq!['('] + render_ctl(f) + seq![')']),
    ensures
        c_unary(s, j) == Ok::<_, (int, (CtlFault, Seq<char>))>((f, j + render_ctl(f).len() + 2)),
    decreases f, 3int,
{
    lemma_literals();
    let rf = render_ctl(f);
    let rf_n: int = rf.len() as int;
    let t = seq!['('] + rf + seq![')'];
    lemma_at(s, j, t, 0);
    lemma_at(s, j, t, rf_n + 1);
    lemma_skip_here(s, j);
    lemma_no_prefix(s, j);
    lemma_no_keyword(s, j, "true"@, 0);
    lemma_no_keyword(s, j, "false"@, 0);
    lemma_occurs_sub(s, j, t, 1, 1 + rf_n);
    assert(t.subrange(1, 1 + rf_n) =~= rf);
    lemma_inner(s, j + 1, f);
    lemma_skip_here(s, j + 1 + rf_n);
    assert(c_primary(s, j) == Ok::<_, (int, (CtlFault, Seq<char>))>((f, j + rf_n + 2)));
}

} // verus!
