//! CTL over one bounded reachable-graph capture: where the capture is
//! incomplete, each subformula gets a lower and an upper satisfaction set,
//! so a retained state is definitely true, definitely false or unknown.
use crate::bounded::BoundedOutcome;
use crate::checker::{ExplorationLimits, InconclusiveReason};
use crate::ctl::{atom_row, atoms_listed, ctl_value, evidence_ok, fview, memo_after, CtlEvidence, CtlFormula};
use crate::fixpoint::{gfp, is_gfp, is_lfp, lfp, pre, step_of, subset};
use crate::graph::{everything, ReachableGraph};
use crate::model::ModelError;
use vstd::prelude::*;

verus! {

/// The state never had its successors retained although it is not a known
/// terminal: the capture stopped before (or while) expanding it.
pub open spec fn cut_at<S>(g: ReachableGraph<S>, kt: Seq<bool>, s: int) -> bool {
    !kt[s] && g.outgoing@[s].len() == 0
}

/// Predecessors over a bounded capture: a known terminal is its own only
/// successor; elsewhere the retained edges decide, and `bonus[s]` stands
/// for the successors the capture may have missed. With `all`, a state
/// qualifies when `bonus[s]` holds and every retained successor is in `x`;
/// otherwise when `bonus[s]` holds or some retained successor is in `x`.
pub open spec fn bpre<S>(g: ReachableGraph<S>, kt: Seq<bool>, bonus: Seq<bool>, all: bool, x: Seq<bool>, s: int) -> bool {
    if kt[s] {
        x[s]
    } else if all {
        bonus[s] && forall|k: int| 0 <= k < g.outgoing@[s].len() ==> x[(#[trigger] g.outgoing@[s]@[k]).target as int]
    } else {
        bonus[s] || exists|k: int| 0 <= k < g.outgoing@[s].len() && x[(#[trigger] g.outgoing@[s]@[k]).target as int]
    }
}

/// The bounded predecessor set of `x`.
pub open spec fn bpre_set<S>(g: ReachableGraph<S>, kt: Seq<bool>, bonus: Seq<bool>, all: bool, x: Seq<bool>) -> Seq<bool> {
    Seq::new(g.states.len() as nat, |s: int| bpre(g, kt, bonus, all, x, s))
}

/// The seed under which the plain fixpoint step over the retained edges is
/// the bounded step `seed ∨ (guard ∧ bpre(x))` (see
/// `lemma_bounded_step`).
pub open spec fn bounded_seed<S>(
    g: ReachableGraph<S>,
    kt: Seq<bool>,
    bonus: Seq<bool>,
    all: bool,
    seed: Seq<bool>,
    guard: Seq<bool>,
) -> Seq<bool> {
    Seq::new(
        g.states.len() as nat,
        |s: int|
            seed[s] || (guard[s] && bonus[s] && if all {
                cut_at(g, kt, s)
            } else {
                !kt[s]
            }),
    )
}

/// The guard under which the plain fixpoint step over the retained edges is
/// the bounded step (see `lemma_bounded_step`).
pub open spec fn bounded_guard<S>(g: ReachableGraph<S>, kt: Seq<bool>, bonus: Seq<bool>, all: bool, guard: Seq<bool>) -> Seq<
    bool,
> {
    Seq::new(
        g.states.len() as nat,
        |s: int| guard[s] && !cut_at(g, kt, s) && (!all || kt[s] || bonus[s]),
    )
}

/// The least fixpoint of the bounded step `x ↦ seed ∨ (guard ∧ bpre(x))`.
pub open spec fn blfp<S>(
    g: ReachableGraph<S>,
    kt: Seq<bool>,
    bonus: Seq<bool>,
    all: bool,
    seed: Seq<bool>,
    guard: Seq<bool>,
) -> Seq<bool> {
    lfp(g, all, bounded_seed(g, kt, bonus, all, seed, guard), bounded_guard(g, kt, bonus, all, guard))
}

/// The greatest fixpoint of the bounded step `x ↦ guard ∧ bpre(x)`.
pub open spec fn bgfp<S>(g: ReachableGraph<S>, kt: Seq<bool>, bonus: Seq<bool>, all: bool, guard: Seq<bool>) -> Seq<bool> {
    let none = Seq::new(g.states.len() as nat, |s: int| false);
    gfp(g, all, bounded_seed(g, kt, bonus, all, none, guard), bounded_guard(g, kt, bonus, all, guard))
}

/// Known terminals have no retained edges.
pub open spec fn terminals_bare<S>(g: ReachableGraph<S>, kt: Seq<bool>) -> bool {
    &&& kt.len() == g.states.len()
    &&& forall|s: int| 0 <= s < kt.len() && #[trigger] kt[s] ==> g.outgoing@[s].len() == 0
}

/// The plain fixpoint step with the bounded seed and guard is exactly the
/// bounded step: `seed ∨ (guard ∧ bpre(x))` at every state.
pub proof fn lemma_bounded_step<S>(
    g: ReachableGraph<S>,
    kt: Seq<bool>,
    bonus: Seq<bool>,
    all: bool,
    seed: Seq<bool>,
    guard: Seq<bool>,
    x: Seq<bool>,
)
    requires
        g.wf(),
        terminals_bare(g, kt),
        bonus.len() == g.states.len(),
    ensures
        forall|s: int|
            0 <= s < g.states.len() ==> #[trigger] step_of(
                g,
                all,
                bounded_seed(g, kt, bonus, all, seed, guard),
                bounded_guard(g, kt, bonus, all, guard),
                x,
            )[s] == (seed[s] || (guard[s] && bpre(g, kt, bonus, all, x, s))),
{
    assert forall|s: int| 0 <= s < g.states.len() implies #[trigger] step_of(
        g,
        all,
        bounded_seed(g, kt, bonus, all, seed, guard),
        bounded_guard(g, kt, bonus, all, guard),
        x,
    )[s] == (seed[s] || (guard[s] && bpre(g, kt, bonus, all, x, s))) by {
        if kt[s] {
            assert(g.outgoing@[s].len() == 0);
        }
        if g.outgoing@[s].len() == 0 && !kt[s] {
            if all {
                assert forall|k: int| 0 <= k < g.outgoing@[s].len() implies x[(#[trigger] g.outgoing@[s]@[k]).target as int] by {}
            }
        }
    }
}

/// `t` is a successor of `s` in the bounded capture: the target of a
/// retained edge leaving `s`, or `s` itself when `s` is a known terminal.
pub open spec fn retained_successor<S>(g: ReachableGraph<S>, kt: Seq<bool>, s: int, t: int) -> bool {
    ||| kt[s] && t == s
    ||| exists|k: int| 0 <= k < g.outgoing@[s].len() && (#[trigger] g.outgoing@[s]@[k]).target == t
}

/// Over a state that is no known terminal, a quantifier over its retained
/// edges is one over its retained successors.
proof fn lemma_retained_quantifiers<S>(g: ReachableGraph<S>, kt: Seq<bool>, s: int, x: Seq<bool>)
    requires
        g.wf(),
        0 <= s < g.states.len(),
        !kt[s],
    ensures
        (forall|k: int| 0 <= k < g.outgoing@[s].len() ==> x[(#[trigger] g.outgoing@[s]@[k]).target as int])
            == (forall|t: int| 0 <= t < g.states.len() && #[trigger] retained_successor(g, kt, s, t) ==> x[t]),
        (exists|k: int| 0 <= k < g.outgoing@[s].len() && x[(#[trigger] g.outgoing@[s]@[k]).target as int])
            == (exists|t: int| 0 <= t < g.states.len() && #[trigger] retained_successor(g, kt, s, t) && x[t]),
{
    let n = g.states.len();
    let out = g.outgoing@[s];
    if forall|k: int| 0 <= k < out.len() ==> x[(#[trigger] g.outgoing@[s]@[k]).target as int] {
        assert forall|t: int| 0 <= t < n && #[trigger] retained_successor(g, kt, s, t) implies x[t] by {
            let k = choose|k: int| 0 <= k < out.len() && (#[trigger] g.outgoing@[s]@[k]).target == t;
            assert(x[g.outgoing@[s]@[k].target as int]);
        }
    } else {
        let k = choose|k: int| 0 <= k < out.len() && !x[(#[trigger] g.outgoing@[s]@[k]).target as int];
        let t = g.outgoing@[s]@[k].target as int;
        assert(retained_successor(g, kt, s, t));
    }
    if exists|k: int| 0 <= k < out.len() && x[(#[trigger] g.outgoing@[s]@[k]).target as int] {
        let k = choose|k: int| 0 <= k < out.len() && x[(#[trigger] g.outgoing@[s]@[k]).target as int];
        let t = g.outgoing@[s]@[k].target as int;
        assert(retained_successor(g, kt, s, t));
    } else {
        assert forall|t: int| 0 <= t < n && #[trigger] retained_successor(g, kt, s, t) implies !x[t] by {
            let k = choose|k: int| 0 <= k < out.len() && (#[trigger] g.outgoing@[s]@[k]).target == t;
            assert(!x[g.outgoing@[s]@[k].target as int]);
        }
    }
}

/// The next-state operators over a bounded capture. `AX f` is surely true
/// at a state when the state's successors are complete (or it is a known
/// terminal) and `f` is surely true at every retained successor, and
/// possibly true when `f` is possibly true at every retained successor.
/// `EX f` is surely true when `f` is surely true at some retained
/// successor, and possibly true when it is possibly true at one, or when
/// the state may have successors the capture missed.
pub proof fn lemma_bounded_next_operators<S, A: View>(
    g: ReachableGraph<S>,
    kt: Seq<bool>,
    cs: Seq<bool>,
    f: CtlFormula<A>,
    atoms: Seq<A>,
    table: Seq<Vec<bool>>,
    s: int,
)
    requires
        g.wf(),
        terminals_bare(g, kt),
        cs.len() == g.states.len(),
        0 <= s < g.states.len(),
    ensures
        ({
            let (l, u) = approx_value(g, kt, cs, f, atoms, table);
            let (al, au) = approx_value(g, kt, cs, CtlFormula::Ax(Box::new(f)), atoms, table);
            let (el, eu) = approx_value(g, kt, cs, CtlFormula::Ex(Box::new(f)), atoms, table);
            &&& al[s] <==> (kt[s] || cs[s]) && forall|t: int|
                0 <= t < g.states.len() && #[trigger] retained_successor(g, kt, s, t) ==> l[t]
            &&& au[s] <==> forall|t: int| 0 <= t < g.states.len() && #[trigger] retained_successor(g, kt, s, t) ==> u[t]
            &&& el[s] <==> exists|t: int| 0 <= t < g.states.len() && #[trigger] retained_successor(g, kt, s, t) && l[t]
            &&& eu[s] <==> (!kt[s] && !cs[s]) || exists|t: int|
                0 <= t < g.states.len() && #[trigger] retained_successor(g, kt, s, t) && u[t]
        }),
{
    let (l, u) = approx_value(g, kt, cs, f, atoms, table);
    let n = g.states.len();
    let out = g.outgoing@[s];
    if kt[s] {
        assert(out.len() == 0);
        assert(retained_successor(g, kt, s, s));
        assert forall|t: int| 0 <= t < n && #[trigger] retained_successor(g, kt, s, t) implies t == s by {}
    } else {
        lemma_retained_quantifiers(g, kt, s, l);
        lemma_retained_quantifiers(g, kt, s, u);
    }
}

/// Which bonus each bound gets: for an upper bound, missing successors may
/// help an existential step and cannot hurt a universal one; for a lower
/// bound, they help neither, and a universal step needs the state's
/// successors to be complete.
pub open spec fn bonus_of(complete: Seq<bool>, all: bool, upper: bool) -> Seq<bool> {
    Seq::new(
        complete.len(),
        |s: int|
            if all {
                upper || complete[s]
            } else {
                upper && !complete[s]
            },
    )
}

/// A state's successors are all retained: it is a known terminal, or its
/// successor list was evaluated and every transition was kept.
pub open spec fn successor_complete<S>(
    g: ReachableGraph<S>,
    kt: Seq<bool>,
    enabled: Seq<Option<Vec<String>>>,
) -> Seq<bool> {
    Seq::new(
        g.states.len() as nat,
        |s: int| kt[s] || (enabled[s] matches Some(a) && a@.len() == g.outgoing@[s].len()),
    )
}

/// The lower and upper satisfaction sets of `f` over the bounded capture
/// `g` with known terminals `kt` and successor completeness `cs`, given the
/// atom table: negation swaps and complements the bounds, the other
/// connectives act on each bound, and the temporal operators take bounded
/// predecessors and fixpoints with each bound's bonus.
pub open spec fn approx_value<S, A: View>(
    g: ReachableGraph<S>,
    kt: Seq<bool>,
    cs: Seq<bool>,
    f: CtlFormula<A>,
    atoms: Seq<A>,
    table: Seq<Vec<bool>>,
) -> (Seq<bool>, Seq<bool>)
    decreases f,
{
    let n = g.states.len() as nat;
    let none = Seq::new(n, |s: int| false);
    match f {
        CtlFormula::True => (everything(n), everything(n)),
        CtlFormula::False => (none, none),
        CtlFormula::Atom(a) => (atom_row(atoms, table, a), atom_row(atoms, table, a)),
        CtlFormula::Not(i) => {
            let (l, u) = approx_value(g, kt, cs, *i, atoms, table);
            (Seq::new(n, |s: int| !u[s]), Seq::new(n, |s: int| !l[s]))
        },
        CtlFormula::And(x, y) => {
            let (l1, u1) = approx_value(g, kt, cs, *x, atoms, table);
            let (l2, u2) = approx_value(g, kt, cs, *y, atoms, table);
            (Seq::new(n, |s: int| l1[s] && l2[s]), Seq::new(n, |s: int| u1[s] && u2[s]))
        },
        CtlFormula::Or(x, y) => {
            let (l1, u1) = approx_value(g, kt, cs, *x, atoms, table);
            let (l2, u2) = approx_value(g, kt, cs, *y, atoms, table);
            (Seq::new(n, |s: int| l1[s] || l2[s]), Seq::new(n, |s: int| u1[s] || u2[s]))
        },
        CtlFormula::Ex(i) => {
            let (l, u) = approx_value(g, kt, cs, *i, atoms, table);
            (bpre_set(g, kt, bonus_of(cs, false, false), false, l), bpre_set(g, kt, bonus_of(cs, false, true), false, u))
        },
        CtlFormula::Ax(i) => {
            let (l, u) = approx_value(g, kt, cs, *i, atoms, table);
            (bpre_set(g, kt, bonus_of(cs, true, false), true, l), bpre_set(g, kt, bonus_of(cs, true, true), true, u))
        },
        CtlFormula::Ef(i) => {
            let (l, u) = approx_value(g, kt, cs, *i, atoms, table);
            (
                blfp(g, kt, bonus_of(cs, false, false), false, l, everything(n)),
                blfp(g, kt, bonus_of(cs, false, true), false, u, everything(n)),
            )
        },
        CtlFormula::Af(i) => {
            let (l, u) = approx_value(g, kt, cs, *i, atoms, table);
            (
                blfp(g, kt, bonus_of(cs, true, false), true, l, everything(n)),
                blfp(g, kt, bonus_of(cs, true, true), true, u, everything(n)),
            )
        },
        CtlFormula::Eg(i) => {
            let (l, u) = approx_value(g, kt, cs, *i, atoms, table);
            (bgfp(g, kt, bonus_of(cs, false, false), false, l), bgfp(g, kt, bonus_of(cs, false, true), false, u))
        },
        CtlFormula::Ag(i) => {
            let (l, u) = approx_value(g, kt, cs, *i, atoms, table);
            (bgfp(g, kt, bonus_of(cs, true, false), true, l), bgfp(g, kt, bonus_of(cs, true, true), true, u))
        },
        CtlFormula::Eu(x, y) => {
            let (l1, u1) = approx_value(g, kt, cs, *x, atoms, table);
            let (l2, u2) = approx_value(g, kt, cs, *y, atoms, table);
            (
                blfp(g, kt, bonus_of(cs, false, false), false, l2, l1),
                blfp(g, kt, bonus_of(cs, false, true), false, u2, u1),
            )
        },
        CtlFormula::Au(x, y) => {
            let (l1, u1) = approx_value(g, kt, cs, *x, atoms, table);
            let (l2, u2) = approx_value(g, kt, cs, *y, atoms, table);
            (
                blfp(g, kt, bonus_of(cs, true, false), true, l2, l1),
                blfp(g, kt, bonus_of(cs, true, true), true, u2, u1),
            )
        },
    }
}

pub(crate) fn bonus_vec(cs: &Vec<bool>, all: bool, upper: bool) -> (v: Vec<bool>)
    ensures
        v@ == bonus_of(cs@, all, upper),
{
    let mut v: Vec<bool> = Vec::new();
    let mut s: usize = 0;
    while s < cs.len()
        invariant
            s <= cs@.len(),
            v@ == bonus_of(cs@, all, upper).subrange(0, s as int),
        decreases cs.len() - s,
    {
        let b = if all {
            upper || cs[s]
        } else {
            upper && !cs[s]
        };
        v.push(b);
        s += 1;
        assert(v@ =~= bonus_of(cs@, all, upper).subrange(0, s as int));
    }
    assert(v@ =~= bonus_of(cs@, all, upper));
    v
}

/// The bounded seed and guard, computed.
fn seed_and_guard<S>(
    g: &ReachableGraph<S>,
    kt: &Vec<bool>,
    bonus: &Vec<bool>,
    all: bool,
    seed: &Vec<bool>,
    guard: &Vec<bool>,
) -> (r: (Vec<bool>, Vec<bool>))
    requires
        g.wf(),
        kt@.len() == g.states.len(),
        bonus@.len() == g.states.len(),
        seed@.len() == g.states.len(),
        guard@.len() == g.states.len(),
    ensures
        r.0@ == bounded_seed(*g, kt@, bonus@, all, seed@, guard@),
        r.1@ == bounded_guard(*g, kt@, bonus@, all, guard@),
{
    let n = g.states.len();
    let mut a: Vec<bool> = Vec::new();
    let mut b: Vec<bool> = Vec::new();
    let mut s: usize = 0;
    while s < n
        invariant
            g.wf(),
            n == g.states.len(),
            kt@.len() == n,
            bonus@.len() == n,
            seed@.len() == n,
            guard@.len() == n,
            s <= n,
            a@ == bounded_seed(*g, kt@, bonus@, all, seed@, guard@).subrange(0, s as int),
            b@ == bounded_guard(*g, kt@, bonus@, all, guard@).subrange(0, s as int),
        decreases n - s,
    {
        let cut = !kt[s] && g.outgoing[s].len() == 0;
        let extra = if all {
            cut
        } else {
            !kt[s]
        };
        a.push(seed[s] || (guard[s] && bonus[s] && extra));
        b.push(guard[s] && !cut && (!all || kt[s] || bonus[s]));
        s += 1;
        assert(a@ =~= bounded_seed(*g, kt@, bonus@, all, seed@, guard@).subrange(0, s as int));
        assert(b@ =~= bounded_guard(*g, kt@, bonus@, all, guard@).subrange(0, s as int));
    }
    assert(a@ =~= bounded_seed(*g, kt@, bonus@, all, seed@, guard@));
    assert(b@ =~= bounded_guard(*g, kt@, bonus@, all, guard@));
    (a, b)
}

/// The bounded predecessor set, computed.
pub(crate) fn bpre_vec<S>(g: &ReachableGraph<S>, kt: &Vec<bool>, bonus: &Vec<bool>, all: bool, x: &Vec<bool>) -> (r: Vec<bool>)
    requires
        g.wf(),
        terminals_bare(*g, kt@),
        bonus@.len() == g.states.len(),
        x@.len() == g.states.len(),
    ensures
        r@ == bpre_set(*g, kt@, bonus@, all, x@),
        r@ == step_of(
            *g,
            all,
            bounded_seed(*g, kt@, bonus@, all, Seq::new(g.states.len() as nat, |s: int| false), everything(g.states.len() as nat)),
            bounded_guard(*g, kt@, bonus@, all, everything(g.states.len() as nat)),
            x@,
        ),
{
    let n = g.states.len();
    let none = crate::ctl::constant_bits(n, false);
    let every = crate::graph::all_true(n);
    let (a, b) = seed_and_guard(g, kt, bonus, all, &none, &every);
    let r = crate::fixpoint::step_vec(g, all, &a, &b, x);
    proof {
        lemma_bounded_step(*g, kt@, bonus@, all, none@, every@, x@);
        assert(r@ =~= bpre_set(*g, kt@, bonus@, all, x@));
        assert(none@ =~= Seq::new(g.states.len() as nat, |s: int| false));
        assert(every@ =~= everything(g.states.len() as nat));
    }
    r
}

/// The least bounded fixpoint, computed.
fn blfp_vec<S>(
    g: &ReachableGraph<S>,
    kt: &Vec<bool>,
    bonus: &Vec<bool>,
    all: bool,
    seed: &Vec<bool>,
    guard: &Vec<bool>,
) -> (r: Vec<bool>)
    requires
        g.wf(),
        terminals_bare(*g, kt@),
        bonus@.len() == g.states.len(),
        seed@.len() == g.states.len(),
        guard@.len() == g.states.len(),
    ensures
        r@ == blfp(*g, kt@, bonus@, all, seed@, guard@),
        is_lfp(*g, all, bounded_seed(*g, kt@, bonus@, all, seed@, guard@), bounded_guard(*g, kt@, bonus@, all, guard@), r@),
{
    let (a, b) = seed_and_guard(g, kt, bonus, all, seed, guard);
    let r = crate::fixpoint::least_fixpoint(g, all, &a, &b);
    proof {
        crate::ctl::lemma_lfp_unique(*g, all, a@, b@, r@);
    }
    r
}

/// The greatest bounded fixpoint, computed.
fn bgfp_vec<S>(g: &ReachableGraph<S>, kt: &Vec<bool>, bonus: &Vec<bool>, all: bool, guard: &Vec<bool>) -> (r: Vec<bool>)
    requires
        g.wf(),
        terminals_bare(*g, kt@),
        bonus@.len() == g.states.len(),
        guard@.len() == g.states.len(),
    ensures
        r@ == bgfp(*g, kt@, bonus@, all, guard@),
        is_gfp(
            *g,
            all,
            bounded_seed(*g, kt@, bonus@, all, Seq::new(g.states.len() as nat, |s: int| false), guard@),
            bounded_guard(*g, kt@, bonus@, all, guard@),
            r@,
        ),
{
    let n = g.states.len();
    let none = crate::ctl::constant_bits(n, false);
    let (a, b) = seed_and_guard(g, kt, bonus, all, &none, guard);
    let r = crate::fixpoint::greatest_fixpoint(g, all, &a, &b);
    proof {
        crate::ctl::lemma_gfp_unique(*g, all, a@, b@, r@);
    }
    r
}

pub(crate) proof fn lemma_step_dominated<S>(
    g: ReachableGraph<S>,
    all: bool,
    a1: Seq<bool>,
    b1: Seq<bool>,
    a2: Seq<bool>,
    b2: Seq<bool>,
    x1: Seq<bool>,
    x2: Seq<bool>,
)
    requires
        g.wf(),
        a1.len() == g.states.len(),
        b1.len() == g.states.len(),
        x1.len() == g.states.len(),
        x2.len() == g.states.len(),
        subset(a1, a2),
        subset(b1, b2),
        subset(x1, x2),
    ensures
        subset(step_of(g, all, a1, b1, x1), step_of(g, all, a2, b2, x2)),
{
    crate::fixpoint::lemma_step_monotone(g, all, a1, b1, x1, x2);
    assert forall|s: int| 0 <= s < step_of(g, all, a1, b1, x2).len() && #[trigger] step_of(g, all, a1, b1, x2)[s] implies step_of(
        g,
        all,
        a2,
        b2,
        x2,
    )[s] by {
        if a1[s] {
            assert(a2[s]);
        } else {
            assert(b1[s]);
            assert(b2[s]);
        }
    }
}

proof fn lemma_lfp_dominated<S>(
    g: ReachableGraph<S>,
    all: bool,
    a1: Seq<bool>,
    b1: Seq<bool>,
    a2: Seq<bool>,
    b2: Seq<bool>,
    r1: Seq<bool>,
    r2: Seq<bool>,
)
    requires
        g.wf(),
        a1.len() == g.states.len(),
        b1.len() == g.states.len(),
        is_lfp(g, all, a1, b1, r1),
        is_lfp(g, all, a2, b2, r2),
        subset(a1, a2),
        subset(b1, b2),
    ensures
        subset(r1, r2),
{
    lemma_step_dominated(g, all, a1, b1, a2, b2, r2, r2);
    assert(subset(step_of(g, all, a1, b1, r2), r2));
}

proof fn lemma_gfp_dominated<S>(
    g: ReachableGraph<S>,
    all: bool,
    a1: Seq<bool>,
    b1: Seq<bool>,
    a2: Seq<bool>,
    b2: Seq<bool>,
    r1: Seq<bool>,
    r2: Seq<bool>,
)
    requires
        g.wf(),
        a1.len() == g.states.len(),
        b1.len() == g.states.len(),
        is_gfp(g, all, a1, b1, r1),
        is_gfp(g, all, a2, b2, r2),
        subset(a1, a2),
        subset(b1, b2),
    ensures
        subset(r1, r2),
{
    lemma_step_dominated(g, all, a1, b1, a2, b2, r1, r1);
    assert(subset(r1, step_of(g, all, a2, b2, r1)));
}

pub(crate) proof fn lemma_bounded_dominated<S>(
    g: ReachableGraph<S>,
    kt: Seq<bool>,
    bonus1: Seq<bool>,
    bonus2: Seq<bool>,
    all: bool,
    seed1: Seq<bool>,
    seed2: Seq<bool>,
    guard1: Seq<bool>,
    guard2: Seq<bool>,
)
    requires
        subset(bonus1, bonus2),
        subset(seed1, seed2),
        subset(guard1, guard2),
        bonus1.len() == g.states.len(),
        seed1.len() == g.states.len(),
        guard1.len() == g.states.len(),
    ensures
        subset(bounded_seed(g, kt, bonus1, all, seed1, guard1), bounded_seed(g, kt, bonus2, all, seed2, guard2)),
        subset(bounded_guard(g, kt, bonus1, all, guard1), bounded_guard(g, kt, bonus2, all, guard2)),
{
    assert forall|s: int|
        0 <= s < bounded_seed(g, kt, bonus1, all, seed1, guard1).len() && #[trigger] bounded_seed(
            g,
            kt,
            bonus1,
            all,
            seed1,
            guard1,
        )[s] implies bounded_seed(g, kt, bonus2, all, seed2, guard2)[s] by {
        if seed1[s] {
            assert(seed2[s]);
        } else {
            assert(guard1[s] && bonus1[s]);
            assert(guard2[s] && bonus2[s]);
        }
    }
    assert forall|s: int|
        0 <= s < bounded_guard(g, kt, bonus1, all, guard1).len() && #[trigger] bounded_guard(g, kt, bonus1, all, guard1)[s] implies bounded_guard(
            g,
            kt,
            bonus2,
            all,
            guard2,
        )[s] by {
        assert(guard1[s]);
        assert(guard2[s]);
        if all && !kt[s] {
            assert(bonus1[s]);
            assert(bonus2[s]);
        }
    }
}

pub(crate) proof fn lemma_bonus_ordered(cs: Seq<bool>, all: bool)
    ensures
        subset(bonus_of(cs, all, false), bonus_of(cs, all, true)),
{
}

/// The lower and upper satisfaction sets of `f`, computed bottom-up.
fn approx_states<S, A: crate::state::StateValue>(
    g: &ReachableGraph<S>,
    kt: &Vec<bool>,
    cs: &Vec<bool>,
    f: &CtlFormula<A>,
    atoms: &Vec<A>,
    table: &Vec<Vec<bool>>,
) -> (r: (Vec<bool>, Vec<bool>))
    requires
        g.wf(),
        terminals_bare(*g, kt@),
        cs@.len() == g.states.len(),
        atoms@.len() == table@.len(),
        forall|i: int| 0 <= i < table@.len() ==> (#[trigger] table@[i])@.len() == g.states.len(),
        atoms_listed(*f, atoms@),
    ensures
        (r.0@, r.1@) == approx_value(*g, kt@, cs@, *f, atoms@, table@),
        r.0@.len() == g.states.len(),
        r.1@.len() == g.states.len(),
        subset(r.0@, r.1@),
    decreases f,
{
    let n = g.states.len();
    let ghost v = approx_value(*g, kt@, cs@, *f, atoms@, table@);
    match f {
        CtlFormula::True => {
            let l = crate::graph::all_true(n);
            let u = crate::graph::all_true(n);
            assert(l@ =~= u@);
            assert(subset(l@, u@));
            (l, u)
        },
        CtlFormula::False => {
            let l = crate::ctl::constant_bits(n, false);
            let u = crate::ctl::constant_bits(n, false);
            assert(l@ =~= u@);
            (l, u)
        },
        CtlFormula::Atom(_) => {
            let row = crate::ctl::ctl_states(g, f, atoms, table);
            let copy = crate::ctl::ctl_states(g, f, atoms, table);
            assert(row@ =~= copy@);
            (row, copy)
        },
        CtlFormula::Not(i) => {
            let (l, u) = approx_states(g, kt, cs, i, atoms, table);
            let nl = crate::ctl::combine_bits(&u, &u, 0);
            let nu = crate::ctl::combine_bits(&l, &l, 0);
            assert(nl@ =~= v.0);
            assert(nu@ =~= v.1);
            (nl, nu)
        },
        CtlFormula::And(x, y) => {
            let (l1, u1) = approx_states(g, kt, cs, x, atoms, table);
            let (l2, u2) = approx_states(g, kt, cs, y, atoms, table);
            let l = crate::ctl::combine_bits(&l1, &l2, 1);
            let u = crate::ctl::combine_bits(&u1, &u2, 1);
            assert(l@ =~= v.0);
            assert(u@ =~= v.1);
            (l, u)
        },
        CtlFormula::Or(x, y) => {
            let (l1, u1) = approx_states(g, kt, cs, x, atoms, table);
            let (l2, u2) = approx_states(g, kt, cs, y, atoms, table);
            let l = crate::ctl::combine_bits(&l1, &l2, 2);
            let u = crate::ctl::combine_bits(&u1, &u2, 2);
            assert(l@ =~= v.0);
            assert(u@ =~= v.1);
            (l, u)
        },
        CtlFormula::Ex(i) => {
            let all = false;
            let (l, u) = approx_states(g, kt, cs, i, atoms, table);
            let lo = bonus_vec(cs, all, false);
            let hi = bonus_vec(cs, all, true);
            let rl = bpre_vec(g, kt, &lo, all, &l);
            let ru = bpre_vec(g, kt, &hi, all, &u);
            proof {
                let none = Seq::new(n as nat, |s: int| false);
                let every = everything(n as nat);
                lemma_bonus_ordered(cs@, all);
                lemma_bounded_dominated(*g, kt@, lo@, hi@, all, none, none, every, every);
                lemma_step_dominated(
                    *g,
                    all,
                    bounded_seed(*g, kt@, lo@, all, none, every),
                    bounded_guard(*g, kt@, lo@, all, every),
                    bounded_seed(*g, kt@, hi@, all, none, every),
                    bounded_guard(*g, kt@, hi@, all, every),
                    l@,
                    u@,
                );
            }
            (rl, ru)
        },
        CtlFormula::Ax(i) => {
            let all = true;
            let (l, u) = approx_states(g, kt, cs, i, atoms, table);
            let lo = bonus_vec(cs, all, false);
            let hi = bonus_vec(cs, all, true);
            let rl = bpre_vec(g, kt, &lo, all, &l);
            let ru = bpre_vec(g, kt, &hi, all, &u);
            proof {
                let none = Seq::new(n as nat, |s: int| false);
                let every = everything(n as nat);
                lemma_bonus_ordered(cs@, all);
                lemma_bounded_dominated(*g, kt@, lo@, hi@, all, none, none, every, every);
                lemma_step_dominated(
                    *g,
                    all,
                    bounded_seed(*g, kt@, lo@, all, none, every),
                    bounded_guard(*g, kt@, lo@, all, every),
                    bounded_seed(*g, kt@, hi@, all, none, every),
                    bounded_guard(*g, kt@, hi@, all, every),
                    l@,
                    u@,
                );
            }
            (rl, ru)
        },
        CtlFormula::Ef(i) => {
            let all = false;
            let (l, u) = approx_states(g, kt, cs, i, atoms, table);
            let lo = bonus_vec(cs, all, false);
            let hi = bonus_vec(cs, all, true);
            let every = crate::graph::all_true(n);
            let rl = blfp_vec(g, kt, &lo, all, &l, &every);
            let ru = blfp_vec(g, kt, &hi, all, &u, &every);
            proof {
                lemma_bonus_ordered(cs@, all);
                lemma_bounded_dominated(*g, kt@, lo@, hi@, all, l@, u@, every@, every@);
                lemma_lfp_dominated(
                    *g,
                    all,
                    bounded_seed(*g, kt@, lo@, all, l@, every@),
                    bounded_guard(*g, kt@, lo@, all, every@),
                    bounded_seed(*g, kt@, hi@, all, u@, every@),
                    bounded_guard(*g, kt@, hi@, all, every@),
                    rl@,
                    ru@,
                );
            }
            (rl, ru)
        },
        CtlFormula::Af(i) => {
            let all = true;
            let (l, u) = approx_states(g, kt, cs, i, atoms, table);
            let lo = bonus_vec(cs, all, false);
            let hi = bonus_vec(cs, all, true);
            let every = crate::graph::all_true(n);
            let rl = blfp_vec(g, kt, &lo, all, &l, &every);
            let ru = blfp_vec(g, kt, &hi, all, &u, &every);
            proof {
                lemma_bonus_ordered(cs@, all);
                lemma_bounded_dominated(*g, kt@, lo@, hi@, all, l@, u@, every@, every@);
                lemma_lfp_dominated(
                    *g,
                    all,
                    bounded_seed(*g, kt@, lo@, all, l@, every@),
                    bounded_guard(*g, kt@, lo@, all, every@),
                    bounded_seed(*g, kt@, hi@, all, u@, every@),
                    bounded_guard(*g, kt@, hi@, all, every@),
                    rl@,
                    ru@,
                );
            }
            (rl, ru)
        },
        CtlFormula::Eg(i) => {
            let all = false;
            let (l, u) = approx_states(g, kt, cs, i, atoms, table);
            let lo = bonus_vec(cs, all, false);
            let hi = bonus_vec(cs, all, true);
            let rl = bgfp_vec(g, kt, &lo, all, &l);
            let ru = bgfp_vec(g, kt, &hi, all, &u);
            proof {
                let none = Seq::new(n as nat, |s: int| false);
                lemma_bonus_ordered(cs@, all);
                lemma_bounded_dominated(*g, kt@, lo@, hi@, all, none, none, l@, u@);
                lemma_gfp_dominated(
                    *g,
                    all,
                    bounded_seed(*g, kt@, lo@, all, none, l@),
                    bounded_guard(*g, kt@, lo@, all, l@),
                    bounded_seed(*g, kt@, hi@, all, none, u@),
                    bounded_guard(*g, kt@, hi@, all, u@),
                    rl@,
                    ru@,
                );
            }
            (rl, ru)
        },
        CtlFormula::Ag(i) => {
            let all = true;
            let (l, u) = approx_states(g, kt, cs, i, atoms, table);
            let lo = bonus_vec(cs, all, false);
            let hi = bonus_vec(cs, all, true);
            let rl = bgfp_vec(g, kt, &lo, all, &l);
            let ru = bgfp_vec(g, kt, &hi, all, &u);
            proof {
                let none = Seq::new(n as nat, |s: int| false);
                lemma_bonus_ordered(cs@, all);
                lemma_bounded_dominated(*g, kt@, lo@, hi@, all, none, none, l@, u@);
                lemma_gfp_dominated(
                    *g,
                    all,
                    bounded_seed(*g, kt@, lo@, all, none, l@),
                    bounded_guard(*g, kt@, lo@, all, l@),
                    bounded_seed(*g, kt@, hi@, all, none, u@),
                    bounded_guard(*g, kt@, hi@, all, u@),
                    rl@,
                    ru@,
                );
            }
            (rl, ru)
        },
        CtlFormula::Eu(x, y) => {
            let all = false;
            let (l1, u1) = approx_states(g, kt, cs, x, atoms, table);
            let (l2, u2) = approx_states(g, kt, cs, y, atoms, table);
            let lo = bonus_vec(cs, all, false);
            let hi = bonus_vec(cs, all, true);
            let rl = blfp_vec(g, kt, &lo, all, &l2, &l1);
            let ru = blfp_vec(g, kt, &hi, all, &u2, &u1);
            proof {
                lemma_bonus_ordered(cs@, all);
                lemma_bounded_dominated(*g, kt@, lo@, hi@, all, l2@, u2@, l1@, u1@);
                lemma_lfp_dominated(
                    *g,
                    all,
                    bounded_seed(*g, kt@, lo@, all, l2@, l1@),
                    bounded_guard(*g, kt@, lo@, all, l1@),
                    bounded_seed(*g, kt@, hi@, all, u2@, u1@),
                    bounded_guard(*g, kt@, hi@, all, u1@),
                    rl@,
                    ru@,
                );
            }
            (rl, ru)
        },
        CtlFormula::Au(x, y) => {
            let all = true;
            let (l1, u1) = approx_states(g, kt, cs, x, atoms, table);
            let (l2, u2) = approx_states(g, kt, cs, y, atoms, table);
            let lo = bonus_vec(cs, all, false);
            let hi = bonus_vec(cs, all, true);
            let rl = blfp_vec(g, kt, &lo, all, &l2, &l1);
            let ru = blfp_vec(g, kt, &hi, all, &u2, &u1);
            proof {
                lemma_bonus_ordered(cs@, all);
                lemma_bounded_dominated(*g, kt@, lo@, hi@, all, l2@, u2@, l1@, u1@);
                lemma_lfp_dominated(
                    *g,
                    all,
                    bounded_seed(*g, kt@, lo@, all, l2@, l1@),
                    bounded_guard(*g, kt@, lo@, all, l1@),
                    bounded_seed(*g, kt@, hi@, all, u2@, u1@),
                    bounded_guard(*g, kt@, hi@, all, u1@),
                    rl@,
                    ru@,
                );
            }
            (rl, ru)
        },
    }
}

#[derive(Debug, Clone, Copy, PartialEq, Eq, Structural)]
pub enum BoundedCtlStatus {
    Satisfied,
    Violated,
}

#[derive(Debug, Clone, Copy, PartialEq, Eq, Structural)]
pub enum BoundedCtlTruth {
    True,
    False,
    Unknown,
}

#[derive(Debug, Clone, PartialEq, Eq)]
pub struct BoundedCtlInitialEvaluation<S> {
    pub state_index: usize,
    pub state: S,
    pub truth: BoundedCtlTruth,
    pub evidence: Option<CtlEvidence<S>>,
}

#[derive(Debug, Clone, PartialEq, Eq)]
pub struct BoundedCtlEvaluation<S> {
    pub outcome: BoundedOutcome<BoundedCtlStatus>,
    pub reachable_states: Vec<S>,
    pub definitely_satisfying_state_indices: Vec<usize>,
    pub possibly_satisfying_state_indices: Vec<usize>,
    pub initial: Vec<BoundedCtlInitialEvaluation<S>>,
    pub initial_states_complete: bool,
    pub discovered_states: usize,
    pub checked_states: usize,
    pub explored_transitions: usize,
    pub max_depth_reached: Option<usize>,
    pub memoized_subformulas: usize,
}

#[derive(Debug, Clone, PartialEq, Eq)]
pub enum BoundedCtlError {
    Model(ModelError),
    SnapshotInvariant,
}

impl BoundedCtlError {
    pub fn message(&self) -> (text: String)
        ensures
            text@ == match *self {
                BoundedCtlError::Model(m) => "bounded CTL model capture failed: "@ + crate::model::model_error_text(m),
                BoundedCtlError::SnapshotInvariant => "bounded CTL reachable-graph snapshot invariant failed"@,
            },
    {
        let mut out = String::new();
        match self {
            BoundedCtlError::Model(m) => {
                crate::text::append(&mut out, "bounded CTL model capture failed: ");
                let t = m.message();
                crate::text::append(&mut out, t.as_str());
            },
            BoundedCtlError::SnapshotInvariant => crate::text::append(
                &mut out,
                "bounded CTL reachable-graph snapshot invariant failed",
            ),
        }
        out
    }
}

/// Three-valued truth from a lower and an upper bound.
pub open spec fn classify(lower: bool, upper: bool) -> BoundedCtlTruth {
    if lower {
        BoundedCtlTruth::True
    } else if !upper {
        BoundedCtlTruth::False
    } else {
        BoundedCtlTruth::Unknown
    }
}

fn classify_exec(lower: bool, upper: bool) -> (t: BoundedCtlTruth)
    ensures
        t == classify(lower, upper),
{
    if lower {
        BoundedCtlTruth::True
    } else if !upper {
        BoundedCtlTruth::False
    } else {
        BoundedCtlTruth::Unknown
    }
}

/// A copy of the formula, atom by atom.
fn copy_formula<A: crate::state::StateValue>(f: &CtlFormula<A>) -> (c: CtlFormula<A>)
    ensures
        fview(c) == fview(*f),
    decreases f,
{
    match f {
        CtlFormula::True => CtlFormula::True,
        CtlFormula::False => CtlFormula::False,
        CtlFormula::Atom(a) => CtlFormula::Atom(a.copy_value()),
        CtlFormula::Not(i) => CtlFormula::Not(Box::new(copy_formula(i))),
        CtlFormula::And(l, r) => CtlFormula::And(Box::new(copy_formula(l)), Box::new(copy_formula(r))),
        CtlFormula::Or(l, r) => CtlFormula::Or(Box::new(copy_formula(l)), Box::new(copy_formula(r))),
        CtlFormula::Ex(i) => CtlFormula::Ex(Box::new(copy_formula(i))),
        CtlFormula::Ax(i) => CtlFormula::Ax(Box::new(copy_formula(i))),
        CtlFormula::Ef(i) => CtlFormula::Ef(Box::new(copy_formula(i))),
        CtlFormula::Af(i) => CtlFormula::Af(Box::new(copy_formula(i))),
        CtlFormula::Eg(i) => CtlFormula::Eg(Box::new(copy_formula(i))),
        CtlFormula::Ag(i) => CtlFormula::Ag(Box::new(copy_formula(i))),
        CtlFormula::Eu(l, r) => CtlFormula::Eu(Box::new(copy_formula(l)), Box::new(copy_formula(r))),
        CtlFormula::Au(l, r) => CtlFormula::Au(Box::new(copy_formula(l)), Box::new(copy_formula(r))),
    }
}

/// Formulas with the same view have the same bounds and list the same atoms.
proof fn lemma_view_congruence<S, A: View>(
    g: ReachableGraph<S>,
    kt: Seq<bool>,
    cs: Seq<bool>,
    f1: CtlFormula<A>,
    f2: CtlFormula<A>,
    atoms: Seq<A>,
    table: Seq<Vec<bool>>,
)
    requires
        fview(f1) == fview(f2),
    ensures
        approx_value(g, kt, cs, f1, atoms, table) == approx_value(g, kt, cs, f2, atoms, table),
        atoms_listed(f1, atoms) == atoms_listed(f2, atoms),
    decreases f1,
{
    match (f1, f2) {
        (CtlFormula::Not(a), CtlFormula::Not(b)) | (CtlFormula::Ex(a), CtlFormula::Ex(b))
        | (CtlFormula::Ax(a), CtlFormula::Ax(b)) | (CtlFormula::Ef(a), CtlFormula::Ef(b))
        | (CtlFormula::Af(a), CtlFormula::Af(b)) | (CtlFormula::Eg(a), CtlFormula::Eg(b))
        | (CtlFormula::Ag(a), CtlFormula::Ag(b)) => {
            lemma_view_congruence(g, kt, cs, *a, *b, atoms, table);
        },
        (CtlFormula::And(a1, a2), CtlFormula::And(b1, b2)) | (CtlFormula::Or(a1, a2), CtlFormula::Or(b1, b2))
        | (CtlFormula::Eu(a1, a2), CtlFormula::Eu(b1, b2)) | (CtlFormula::Au(a1, a2), CtlFormula::Au(b1, b2)) => {
            lemma_view_congruence(g, kt, cs, *a1, *b1, atoms, table);
            lemma_view_congruence(g, kt, cs, *a2, *b2, atoms, table);
        },
        _ => {},
    }
}

/// The memo after explaining the verdict `truth` at state `s`: the
/// formulas evaluated to find evidence, in evaluation order, as views.
/// Refuted universal operators are explained through their existential
/// duals, which may add formulas beyond the subformulas of `f`.
pub open spec fn explain_memo<S, A: View>(
    g: ReachableGraph<S>,
    kt: Seq<bool>,
    cs: Seq<bool>,
    f: CtlFormula<A>,
    atoms: Seq<A>,
    table: Seq<Vec<bool>>,
    truth: BoundedCtlTruth,
    s: int,
    memo: Seq<CtlFormula<A::V>>,
) -> Seq<CtlFormula<A::V>> {
    let yes = truth == BoundedCtlTruth::True;
    let no = truth == BoundedCtlTruth::False;
    match f {
        CtlFormula::Ex(i) | CtlFormula::Ef(i) => if yes {
            memo_after(fview(*i), memo)
        } else {
            memo
        },
        CtlFormula::Eu(l, r) => if yes {
            memo_after(fview(*r), memo_after(fview(*l), memo))
        } else {
            memo
        },
        CtlFormula::Ax(i) | CtlFormula::Ag(i) => if no {
            memo_after(fview(CtlFormula::Not(i)), memo)
        } else {
            memo
        },
        CtlFormula::Af(i) => if no {
            memo_after(fview(CtlFormula::Eg(Box::new(CtlFormula::Not(i)))), memo)
        } else {
            memo
        },
        CtlFormula::Au(l, r) => if no {
            let nr = CtlFormula::Not(r);
            let bad = CtlFormula::And(Box::new(CtlFormula::Not(l)), Box::new(nr));
            let fin = CtlFormula::Eu(Box::new(nr), Box::new(bad));
            let m = memo_after(fview(fin), memo);
            if approx_value(g, kt, cs, fin, atoms, table).0[s] {
                memo_after(fview(bad), memo_after(fview(nr), m))
            } else {
                memo_after(fview(CtlFormula::Eg(Box::new(nr))), m)
            }
        } else {
            memo
        },
        _ => memo,
    }
}

/// The memo after explaining the verdicts at the states `ids`, in order.
pub open spec fn explained_memo<S, A: View>(
    g: ReachableGraph<S>,
    kt: Seq<bool>,
    cs: Seq<bool>,
    f: CtlFormula<A>,
    atoms: Seq<A>,
    table: Seq<Vec<bool>>,
    ids: Seq<usize>,
    memo: Seq<CtlFormula<A::V>>,
) -> Seq<CtlFormula<A::V>>
    decreases ids.len(),
{
    if ids.len() == 0 {
        memo
    } else {
        let before = explained_memo(g, kt, cs, f, atoms, table, ids.drop_last(), memo);
        let s = ids.last() as int;
        let v = approx_value(g, kt, cs, f, atoms, table);
        explain_memo(g, kt, cs, f, atoms, table, classify(v.0[s], v.1[s]), s, before)
    }
}

/// The dual formulas that explain refuted universal operators, as the
/// explanation builds them.
pub open spec fn duals_ok<A: View>(f: CtlFormula<A>, d: Seq<CtlFormula<A>>) -> bool {
    match f {
        CtlFormula::Ax(i) | CtlFormula::Ag(i) => d.len() == 1 && fview(d[0]) == fview(CtlFormula::Not(i)),
        CtlFormula::Af(i) => d.len() == 1 && fview(d[0]) == fview(CtlFormula::Eg(Box::new(CtlFormula::Not(i)))),
        CtlFormula::Au(l, r) => {
            let nr = CtlFormula::Not(r);
            let bad = CtlFormula::And(Box::new(CtlFormula::Not(l)), Box::new(nr));
            &&& d.len() == 4
            &&& fview(d[0]) == fview(CtlFormula::Eu(Box::new(nr), Box::new(bad)))
            &&& fview(d[1]) == fview(nr)
            &&& fview(d[2]) == fview(bad)
            &&& fview(d[3]) == fview(CtlFormula::Eg(Box::new(nr)))
        },
        _ => d.len() == 0,
    }
}

/// Build the duals of `f`.
fn duals_of<A: crate::state::StateValue>(f: &CtlFormula<A>) -> (d: Vec<CtlFormula<A>>)
    ensures
        duals_ok(*f, d@),
{
    let mut d: Vec<CtlFormula<A>> = Vec::new();
    match f {
        CtlFormula::Ax(i) | CtlFormula::Ag(i) => {
            d.push(CtlFormula::Not(Box::new(copy_formula(i))));
        },
        CtlFormula::Af(i) => {
            d.push(CtlFormula::Eg(Box::new(CtlFormula::Not(Box::new(copy_formula(i))))));
        },
        CtlFormula::Au(l, r) => {
            let bad = CtlFormula::And(
                Box::new(CtlFormula::Not(Box::new(copy_formula(l)))),
                Box::new(CtlFormula::Not(Box::new(copy_formula(r)))),
            );
            let fin = CtlFormula::Eu(Box::new(CtlFormula::Not(Box::new(copy_formula(r)))), Box::new(bad));
            d.push(fin);
            d.push(CtlFormula::Not(Box::new(copy_formula(r))));
            d.push(
                CtlFormula::And(
                    Box::new(CtlFormula::Not(Box::new(copy_formula(l)))),
                    Box::new(CtlFormula::Not(Box::new(copy_formula(r)))),
                ),
            );
            d.push(CtlFormula::Eg(Box::new(CtlFormula::Not(Box::new(copy_formula(r))))));
        },
        _ => {},
    }
    proof {
        reveal_with_fuel(fview, 4);
    }
    d
}

/// The bounds of a dual formula are those of the formula it stands for.
proof fn lemma_dual_bounds<S, A: View>(
    g: ReachableGraph<S>,
    kt: Seq<bool>,
    cs: Seq<bool>,
    d: CtlFormula<A>,
    f: CtlFormula<A>,
    atoms: Seq<A>,
    table: Seq<Vec<bool>>,
)
    requires
        fview(d) == fview(f),
        atoms_listed(f, atoms),
    ensures
        approx_value(g, kt, cs, d, atoms, table) == approx_value(g, kt, cs, f, atoms, table),
        atoms_listed(d, atoms),
{
    lemma_view_congruence(g, kt, cs, d, f, atoms, table);
}

/// Evidence for the bounded verdict `truth` at `state` where the top-level
/// form allows a direct witness: `EX`, `EF`, `EG`, `EU` when definitely
/// true; `AX`, `AF`, `AG`, `AU` when definitely false (through their
/// existential duals). Records the formulas it evaluates in `memo`.
fn explain_bounded<'a, S: crate::state::StateValue, A: crate::state::StateValue>(
    g: &ReachableGraph<S>,
    kt: &Vec<bool>,
    cs: &Vec<bool>,
    f: &'a CtlFormula<A>,
    duals: &'a Vec<CtlFormula<A>>,
    state: usize,
    truth: BoundedCtlTruth,
    top_lower: &Vec<bool>,
    atoms: &Vec<A>,
    table: &Vec<Vec<bool>>,
    memo: &mut Vec<&'a CtlFormula<A>>,
) -> (r: Option<CtlEvidence<S>>)
    requires
        g.wf(),
        terminals_bare(*g, kt@),
        cs@.len() == g.states.len(),
        state < g.states.len(),
        top_lower@.len() == g.states.len(),
        atoms@.len() == table@.len(),
        forall|i: int| 0 <= i < table@.len() ==> (#[trigger] table@[i])@.len() == g.states.len(),
        atoms_listed(*f, atoms@),
        duals_ok(*f, duals@),
    ensures
        final(memo)@.map_values(|x: &CtlFormula<A>| fview(*x)) == explain_memo(
            *g,
            kt@,
            cs@,
            *f,
            atoms@,
            table@,
            truth,
            state as int,
            old(memo)@.map_values(|x: &CtlFormula<A>| fview(*x)),
        ),
        r matches Some(ev) ==> evidence_ok(*g, state as int, ev),
{
    let n = g.states.len();
    let yes = truth == BoundedCtlTruth::True;
    let no = truth == BoundedCtlTruth::False;
    match f {
        CtlFormula::Ex(i) => {
            if !yes {
                return None;
            }
            crate::ctl::memo_formulas(i, memo);
            let (l, _) = approx_states(g, kt, cs, i, atoms, table);
            crate::ctl::one_step_evidence(g, state, &l)
        },
        CtlFormula::Ef(i) => {
            if !yes {
                return None;
            }
            crate::ctl::memo_formulas(i, memo);
            let (l, _) = approx_states(g, kt, cs, i, atoms, table);
            let every = crate::graph::all_true(n);
            crate::ctl::finite_path_evidence(g, state, &every, &l)
        },
        CtlFormula::Eg(_) => {
            if !yes {
                return None;
            }
            crate::ctl::lasso_evidence(g, state, top_lower)
        },
        CtlFormula::Eu(x, y) => {
            if !yes {
                return None;
            }
            crate::ctl::memo_formulas(x, memo);
            crate::ctl::memo_formulas(y, memo);
            let (l1, _) = approx_states(g, kt, cs, x, atoms, table);
            let (l2, _) = approx_states(g, kt, cs, y, atoms, table);
            crate::ctl::finite_path_evidence(g, state, &l1, &l2)
        },
        CtlFormula::Ax(i) => {
            if !no {
                return None;
            }
            let d = &duals[0];
            proof {
                lemma_dual_bounds(*g, kt@, cs@, *d, CtlFormula::Not(*i), atoms@, table@);
            }
            crate::ctl::memo_formulas(d, memo);
            let (l, _) = approx_states(g, kt, cs, d, atoms, table);
            crate::ctl::one_step_evidence(g, state, &l)
        },
        CtlFormula::Ag(i) => {
            if !no {
                return None;
            }
            let d = &duals[0];
            proof {
                lemma_dual_bounds(*g, kt@, cs@, *d, CtlFormula::Not(*i), atoms@, table@);
            }
            crate::ctl::memo_formulas(d, memo);
            let (l, _) = approx_states(g, kt, cs, d, atoms, table);
            let every = crate::graph::all_true(n);
            crate::ctl::finite_path_evidence(g, state, &every, &l)
        },
        CtlFormula::Af(i) => {
            if !no {
                return None;
            }
            let d = &duals[0];
            proof {
                assert(atoms_listed(CtlFormula::Not(*i), atoms@));
                assert(atoms_listed(CtlFormula::Eg(Box::new(CtlFormula::Not(*i))), atoms@));
                lemma_dual_bounds(*g, kt@, cs@, *d, CtlFormula::Eg(Box::new(CtlFormula::Not(*i))), atoms@, table@);
            }
            crate::ctl::memo_formulas(d, memo);
            let (l, _) = approx_states(g, kt, cs, d, atoms, table);
            crate::ctl::lasso_evidence(g, state, &l)
        },
        CtlFormula::Au(x, y) => {
            if !no {
                return None;
            }
            let ghost nr = CtlFormula::Not(*y);
            let ghost bad = CtlFormula::And(Box::new(CtlFormula::Not(*x)), Box::new(nr));
            let ghost fin = CtlFormula::Eu(Box::new(nr), Box::new(bad));
            proof {
                assert(atoms_listed(nr, atoms@));
                assert(atoms_listed(CtlFormula::Not(*x), atoms@));
                assert(atoms_listed(bad, atoms@));
                assert(atoms_listed(fin, atoms@));
                assert(atoms_listed(CtlFormula::Eg(Box::new(nr)), atoms@));
                lemma_dual_bounds(*g, kt@, cs@, duals@[0], fin, atoms@, table@);
                lemma_dual_bounds(*g, kt@, cs@, duals@[1], nr, atoms@, table@);
                lemma_dual_bounds(*g, kt@, cs@, duals@[2], bad, atoms@, table@);
                lemma_dual_bounds(*g, kt@, cs@, duals@[3], CtlFormula::Eg(Box::new(nr)), atoms@, table@);
            }
            crate::ctl::memo_formulas(&duals[0], memo);
            let (finite, _) = approx_states(g, kt, cs, &duals[0], atoms, table);
            if finite[state] {
                crate::ctl::memo_formulas(&duals[1], memo);
                crate::ctl::memo_formulas(&duals[2], memo);
                let (allowed, _) = approx_states(g, kt, cs, &duals[1], atoms, table);
                let (target, _) = approx_states(g, kt, cs, &duals[2], atoms, table);
                crate::ctl::finite_path_evidence(g, state, &allowed, &target)
            } else {
                crate::ctl::memo_formulas(&duals[3], memo);
                let (allowed, _) = approx_states(g, kt, cs, &duals[3], atoms, table);
                crate::ctl::lasso_evidence(g, state, &allowed)
            }
        },
        _ => None,
    }
}

/// The number of distinct values in `v`.
pub open spec fn distinct_count<V>(v: Seq<V>) -> nat
    decreases v.len(),
{
    if v.len() == 0 {
        0
    } else {
        distinct_count(v.drop_last()) + if v.drop_last().contains(v.last()) {
            0nat
        } else {
            1nat
        }
    }
}

/// The number of distinct states in `states`.
pub(crate) fn count_distinct<S: crate::state::StateValue>(states: &[S]) -> (count: usize)
    ensures
        count == distinct_count(crate::state::views_of(states@)),
{
    let ghost views = crate::state::views_of(states@);
    let mut count: usize = 0;
    let mut i: usize = 0;
    assert(views.subrange(0, 0) =~= Seq::<S::V>::empty());
    while i < states.len()
        invariant
            views == crate::state::views_of(states@),
            i <= states@.len(),
            count == distinct_count(views.subrange(0, i as int)),
            count <= i,
        decreases states.len() - i,
    {
        let mut j: usize = 0;
        let mut seen = false;
        while j < i
            invariant
                views == crate::state::views_of(states@),
                i < states@.len(),
                j <= i,
                seen == exists|k: int| 0 <= k < j && views[k] == views[i as int],
            decreases i - j,
        {
            proof {
                assert(views[j as int] == states@[j as int]@);
                assert(views[i as int] == states@[i as int]@);
            }
            if states[j].same_value(&states[i]) {
                seen = true;
            }
            proof {
                if !seen {
                    assert forall|k: int| 0 <= k < j + 1 implies views[k] != views[i as int] by {}
                }
            }
            j += 1;
        }
        proof {
            let pre = views.subrange(0, i as int);
            let next = views.subrange(0, i + 1);
            assert(next.drop_last() =~= pre);
            assert(next.last() == views[i as int]);
            if seen {
                let k = choose|k: int| 0 <= k < i && views[k] == views[i as int];
                assert(pre[k] == views[i as int]);
            } else {
                assert forall|k: int| 0 <= k < pre.len() implies pre[k] != views[i as int] by {}
            }
        }
        if !seen {
            count = count + 1;
        }
        i += 1;
    }
    assert(views.subrange(0, states@.len() as int) =~= views);
    count
}

/// The states whose flag is set, by index.
pub open spec fn flagged(v: Seq<bool>) -> Seq<int> {
    crate::graph::selected(v)
}

/// `idx` lists the indices where `v` holds, in increasing order.
pub open spec fn lists(idx: Seq<usize>, v: Seq<bool>) -> bool {
    &&& idx.len() == flagged(v).len()
    &&& forall|j: int| 0 <= j < idx.len() ==> idx[j] as int == #[trigger] flagged(v)[j]
}

/// `ev` reports the bounded CTL evaluation of `formula` over `c`, the
/// bounded capture of `model` under `limits`, with atom table `table` over
/// the distinct atoms `atoms`.
///
/// A complete capture is judged exactly (`ctl_value`, both index lists
/// equal, a conclusive outcome). Otherwise the lower and upper bounds of
/// `approx_value` decide each initial state's truth; the outcome is
/// `Violated` when some initial state is definitely false, `Satisfied` when
/// all initial states were found and all are definitely true, and
/// inconclusive, for the capture's reason, otherwise. Every definitely
/// satisfying state is possibly satisfying.
pub open spec fn bounded_ctl_ok<S: View, A: View>(
    model: crate::model::TransitionSystem<S>,
    formula: CtlFormula<A>,
    limits: ExplorationLimits,
    c: crate::graph::BoundedCapturedReachableGraph<S>,
    atoms: Seq<A>,
    table: Seq<Vec<bool>>,
    ev: BoundedCtlEvaluation<S>,
) -> bool {
    let g = c.graph;
    let n = g.states.len();
    let kt = c.known_terminal@;
    let ids = g.initial_ids@;
    &&& g.wf() && crate::graph::distinct_states(g) && terminals_bare(g, kt)
    &&& crate::graph::enabled_actions_ok(g, kt, c.complete_enabled_actions@)
    &&& (limits.max_states matches Some(l) ==> n <= l)
    &&& (c.completion is Complete ==> crate::graph::roots_of_initial(g, model.initial()))
    &&& forall|r: int|
        0 <= r < ids.len() ==> crate::state::views_of(model.initial()).contains(g.states@[(#[trigger] ids[r]) as int]@)
    &&& atoms.len() == table.len()
    &&& forall|i: int| 0 <= i < table.len() ==> (#[trigger] table[i])@.len() == n
    &&& atoms_listed(formula, atoms)
    &&& ev.reachable_states@ == g.states@
    &&& ev.initial_states_complete == (ids.len() == distinct_count(crate::state::views_of(model.initial())))
    &&& ev.discovered_states == n
    &&& ev.checked_states == c.checked_states
    &&& ev.explored_transitions == c.explored_transitions
    &&& ev.max_depth_reached == c.max_depth_reached
    &&& ev.initial@.len() == ids.len()
    &&& forall|k: int|
        0 <= k < ev.initial@.len() ==> {
            let e = #[trigger] ev.initial@[k];
            &&& e.state_index == ids[k]
            &&& e.state@ == g.states@[e.state_index as int]@
            &&& e.evidence matches Some(x) ==> evidence_ok(g, e.state_index as int, x)
        }
    &&& match c.completion {
        crate::graph::GraphCaptureCompletion::Complete => {
            let values = ctl_value(g, formula, atoms, table);
            &&& lists(ev.definitely_satisfying_state_indices@, values)
            &&& lists(ev.possibly_satisfying_state_indices@, values)
            &&& forall|k: int|
                0 <= k < ev.initial@.len() ==> (#[trigger] ev.initial@[k]).truth == if values[ids[k] as int] {
                    BoundedCtlTruth::True
                } else {
                    BoundedCtlTruth::False
                }
            &&& ev.outcome == BoundedOutcome::Conclusive(
                if forall|k: int| 0 <= k < ids.len() ==> values[#[trigger] ids[k] as int] {
                    BoundedCtlStatus::Satisfied
                } else {
                    BoundedCtlStatus::Violated
                },
            )
            &&& ev.memoized_subformulas == memo_after(fview(formula), Seq::empty()).len()
        },
        crate::graph::GraphCaptureCompletion::Inconclusive(reason) => {
            let cs = successor_complete(g, kt, c.complete_enabled_actions@);
            let (lower, upper) = approx_value(g, kt, cs, formula, atoms, table);
            &&& subset(lower, upper)
            &&& lists(ev.definitely_satisfying_state_indices@, lower)
            &&& lists(ev.possibly_satisfying_state_indices@, upper)
            &&& forall|k: int|
                0 <= k < ev.initial@.len() ==> (#[trigger] ev.initial@[k]).truth == classify(
                    lower[ids[k] as int],
                    upper[ids[k] as int],
                )
            &&& ev.outcome == if exists|k: int| 0 <= k < ids.len() && !upper[#[trigger] ids[k] as int] {
                BoundedOutcome::Conclusive(BoundedCtlStatus::Violated)
            } else if ev.initial_states_complete && forall|k: int| 0 <= k < ids.len() ==> lower[#[trigger] ids[k] as int] {
                BoundedOutcome::Conclusive(BoundedCtlStatus::Satisfied)
            } else {
                BoundedOutcome::Inconclusive(reason)
            }
            &&& ev.memoized_subformulas == explained_memo(
                g,
                kt,
                cs,
                formula,
                atoms,
                table,
                ids,
                memo_after(fview(formula), Seq::empty()),
            ).len()
        },
    }
}

pub(crate) fn successor_flags<S>(g: &ReachableGraph<S>, kt: &Vec<bool>, enabled: &Vec<Option<Vec<String>>>) -> (cs: Vec<bool>)
    requires
        g.wf(),
        kt@.len() == g.states.len(),
        enabled@.len() == g.states.len(),
    ensures
        cs@ == successor_complete(*g, kt@, enabled@),
{
    let n = g.states.len();
    let mut cs: Vec<bool> = Vec::new();
    let mut s: usize = 0;
    while s < n
        invariant
            g.wf(),
            n == g.states.len(),
            kt@.len() == n,
            enabled@.len() == n,
            s <= n,
            cs@ == successor_complete(*g, kt@, enabled@).subrange(0, s as int),
        decreases n - s,
    {
        let full = match &enabled[s] {
            Some(a) => a.len() == g.outgoing[s].len(),
            None => false,
        };
        cs.push(kt[s] || full);
        s += 1;
        assert(cs@ =~= successor_complete(*g, kt@, enabled@).subrange(0, s as int));
    }
    assert(cs@ =~= successor_complete(*g, kt@, enabled@));
    cs
}

/// Evaluate CTL over one canonical bounded reachable-graph capture.
///
/// A complete capture is evaluated exactly. Otherwise incomplete successor
/// sets are read conservatively through lower and upper satisfaction sets:
/// a retained state is definitely true when it is in the lower set,
/// definitely false when it is outside the upper set, and unknown
/// otherwise. Known terminals keep the synthetic self-loop; states cut off
/// by the limits are never totalized.
pub fn evaluate_ctl_with_limits<S: crate::state::StateValue, A: crate::state::StateValue, F: Fn(&A, &S) -> bool>(
    model: &crate::model::TransitionSystem<S>,
    formula: &CtlFormula<A>,
    atom_holds: F,
    limits: ExplorationLimits,
) -> (r: Result<BoundedCtlEvaluation<S>, BoundedCtlError>)
    requires
        forall|a: &A, s: &S| atom_holds.requires((a, s)),
    ensures
        r matches Ok(ev) ==> exists|
            c: crate::graph::BoundedCapturedReachableGraph<S>,
            atoms: Seq<A>,
            table: Seq<Vec<bool>>,
        | #[trigger] bounded_ctl_ok(*model, *formula, limits, c, atoms, table, ev) && crate::ctl::table_answers(
            atom_holds,
            c.graph,
            atoms,
            table,
        ),
        r matches Err(e) ==> e is Model,
{
    let expected = count_distinct(model.initial_states());
    let captured = match crate::graph::capture_reachable_graph_with_limits(model, limits) {
        Ok(c) => c,
        Err(e) => {
            return Err(
                match e {
                    crate::graph::GraphCaptureError::Model(m) => BoundedCtlError::Model(m),
                    _ => BoundedCtlError::SnapshotInvariant,
                },
            );
        },
    };
    let ghost c = captured;
    let initial_complete = captured.graph.initial_ids.len() == expected;
    let n = captured.graph.states.len();
    match captured.completion {
        crate::graph::GraphCaptureCompletion::Complete => {
            let exact = crate::ctl::evaluate_captured_ctl(
                captured.graph,
                captured.discovered_states,
                captured.explored_transitions,
                captured.max_depth_reached,
                formula,
                &atom_holds,
            );
            let ghost (atoms, table) = choose|atoms: Seq<A>, table: Seq<Vec<bool>>| #[trigger] crate::ctl::captured_ctl_ok(
                *formula,
                c.graph,
                atoms,
                table,
                exact,
            ) && crate::ctl::table_answers(atom_holds, c.graph, atoms, table);
            let all_hold = exact.all_initial_states_satisfy();
            let definitely = copy_indices(&exact.satisfying_state_indices);
            let ghost values = ctl_value(c.graph, *formula, atoms, table);
            let mut source = exact.initial;
            let mut initial: Vec<BoundedCtlInitialEvaluation<S>> = Vec::new();
            let ghost original = source@;
            while source.len() > 0
                invariant
                    initial@.len() + source@.len() == original.len(),
                    source@ == original.subrange(initial@.len() as int, original.len() as int),
                    forall|k: int|
                        0 <= k < initial@.len() ==> {
                            let e = #[trigger] initial@[k];
                            let o = original[k];
                            &&& e.state_index == o.state_index
                            &&& e.state == o.state
                            &&& e.evidence == o.evidence
                            &&& e.truth == if o.satisfied {
                                BoundedCtlTruth::True
                            } else {
                                BoundedCtlTruth::False
                            }
                        },
                decreases source.len(),
            {
                let ghost before = source@;
                let e = source.remove(0);
                assert(source@ =~= original.subrange(initial@.len() as int + 1, original.len() as int));
                let truth = if e.satisfied {
                    BoundedCtlTruth::True
                } else {
                    BoundedCtlTruth::False
                };
                initial.push(
                    BoundedCtlInitialEvaluation {
                        state_index: e.state_index,
                        state: e.state,
                        truth,
                        evidence: e.evidence,
                    },
                );
            }
            let outcome = if all_hold {
                BoundedOutcome::Conclusive(BoundedCtlStatus::Satisfied)
            } else {
                BoundedOutcome::Conclusive(BoundedCtlStatus::Violated)
            };
            let possibly = copy_indices(&exact.satisfying_state_indices);
            let ev = BoundedCtlEvaluation {
                outcome,
                reachable_states: exact.reachable_states,
                definitely_satisfying_state_indices: definitely,
                possibly_satisfying_state_indices: possibly,
                initial,
                initial_states_complete: initial_complete,
                discovered_states: captured.discovered_states,
                checked_states: captured.checked_states,
                explored_transitions: exact.explored_transitions,
                max_depth_reached: exact.max_depth_reached,
                memoized_subformulas: exact.memoized_subformulas,
            };
            proof {
                let ids = c.graph.initial_ids@;
                assert(original.len() == ids.len());
                if all_hold {
                    assert forall|k: int| 0 <= k < ids.len() implies values[#[trigger] ids[k] as int] by {
                        assert(original[k].satisfied);
                        assert(original[k].state_index == ids[k]);
                    }
                } else {
                    let j = choose|j: int| 0 <= j < original.len() && !(#[trigger] original[j]).satisfied;
                    assert(original[j].state_index == ids[j]);
                    assert(!values[ids[j] as int]);
                }
                assert(bounded_ctl_ok(*model, *formula, limits, c, atoms, table, ev));
            }
            Ok(ev)
        },
        crate::graph::GraphCaptureCompletion::Inconclusive(reason) => {
            let g = &captured.graph;
            let kt = &captured.known_terminal;
            let cs = successor_flags(g, kt, &captured.complete_enabled_actions);
            let mut atoms: Vec<A> = Vec::new();
            crate::ctl::collect_atoms(formula, &mut atoms);
            let table = crate::ctl::atom_table(g, &atoms, &atom_holds);
            let (lower, upper) = approx_states(g, kt, &cs, formula, &atoms, &table);
            let duals = duals_of(formula);
            let mut memo: Vec<&CtlFormula<A>> = Vec::new();
            crate::ctl::memo_formulas(formula, &mut memo);
            proof {
                assert(Seq::<&CtlFormula<A>>::empty().map_values(|x: &CtlFormula<A>| fview(*x)) =~= Seq::empty());
            }
            let ghost memo0 = memo@.map_values(|x: &CtlFormula<A>| fview(*x));
            let ids = &g.initial_ids;
            let mut initial: Vec<BoundedCtlInitialEvaluation<S>> = Vec::new();
            let mut any_false = false;
            let mut all_true = true;
            let mut k: usize = 0;
            while k < ids.len()
                invariant
                    g.wf(),
                    terminals_bare(*g, kt@),
                    cs@ == successor_complete(*g, kt@, c.complete_enabled_actions@),
                    cs@.len() == g.states.len(),
                    atoms@.len() == table@.len(),
                    forall|i: int| 0 <= i < table@.len() ==> (#[trigger] table@[i])@.len() == g.states.len(),
                    atoms_listed(*formula, atoms@),
                    duals_ok(*formula, duals@),
                    (lower@, upper@) == approx_value(*g, kt@, cs@, *formula, atoms@, table@),
                    subset(lower@, upper@),
                    lower@.len() == g.states.len(),
                    upper@.len() == g.states.len(),
                    forall|r: int| 0 <= r < ids@.len() ==> #[trigger] ids@[r] < g.states.len(),
                    k <= ids@.len(),
                    initial@.len() == k,
                    memo@.map_values(|x: &CtlFormula<A>| fview(*x)) == explained_memo(
                        *g,
                        kt@,
                        cs@,
                        *formula,
                        atoms@,
                        table@,
                        ids@.subrange(0, k as int),
                        memo0,
                    ),
                    any_false == exists|j: int| 0 <= j < k && !upper@[#[trigger] ids@[j] as int],
                    all_true == forall|j: int| 0 <= j < k ==> lower@[#[trigger] ids@[j] as int],
                    forall|j: int|
                        0 <= j < k ==> {
                            let e = #[trigger] initial@[j];
                            &&& e.state_index == ids@[j]
                            &&& e.state@ == g.states@[e.state_index as int]@
                            &&& e.truth == classify(lower@[ids@[j] as int], upper@[ids@[j] as int])
                            &&& e.evidence matches Some(x) ==> evidence_ok(*g, e.state_index as int, x)
                        },
                decreases ids.len() - k,
            {
                let idx = ids[k];
                let truth = classify_exec(lower[idx], upper[idx]);
                let ghost sub = ids@.subrange(0, k + 1);
                proof {
                    assert(sub.drop_last() =~= ids@.subrange(0, k as int));
                    assert(sub.last() == idx);
                }
                let evidence = explain_bounded(g, kt, &cs, formula, &duals, idx, truth, &lower, &atoms, &table, &mut memo);
                if !upper[idx] {
                    any_false = true;
                }
                if !lower[idx] {
                    all_true = false;
                }
                initial.push(
                    BoundedCtlInitialEvaluation { state_index: idx, state: g.states[idx].copy_value(), truth, evidence },
                );
                k += 1;
            }
            proof {
                assert(ids@.subrange(0, ids@.len() as int) =~= ids@);
            }
            let outcome = if any_false {
                BoundedOutcome::Conclusive(BoundedCtlStatus::Violated)
            } else if initial_complete && all_true {
                BoundedOutcome::Conclusive(BoundedCtlStatus::Satisfied)
            } else {
                BoundedOutcome::Inconclusive(reason)
            };
            let definitely = crate::fairness::selected_ids(&lower);
            let possibly = crate::fairness::selected_ids(&upper);
            let memoized = memo.len();
            let ghost table_view = table@;
            let ghost atoms_view = atoms@;
            let ev = BoundedCtlEvaluation {
                outcome,
                reachable_states: captured.graph.states,
                definitely_satisfying_state_indices: definitely,
                possibly_satisfying_state_indices: possibly,
                initial,
                initial_states_complete: initial_complete,
                discovered_states: captured.discovered_states,
                checked_states: captured.checked_states,
                explored_transitions: captured.explored_transitions,
                max_depth_reached: captured.max_depth_reached,
                memoized_subformulas: memoized,
            };
            proof {
                assert(memo@.map_values(|x: &CtlFormula<A>| fview(*x)).len() == memo@.len());
                assert(bounded_ctl_ok(*model, *formula, limits, c, atoms_view, table_view, ev));
                assert(crate::ctl::table_answers(atom_holds, c.graph, atoms_view, table_view));
            }
            Ok(ev)
        },
    }
}

pub(crate) fn copy_indices(v: &Vec<usize>) -> (c: Vec<usize>)
    ensures
        c@ == v@,
{
    let mut c: Vec<usize> = Vec::new();
    let mut i: usize = 0;
    while i < v.len()
        invariant
            i <= v@.len(),
            c@ == v@.subrange(0, i as int),
        decreases v.len() - i,
    {
        c.push(v[i]);
        i += 1;
        assert(c@ =~= v@.subrange(0, i as int));
    }
    assert(c@ =~= v@);
    c
}

} // verus!
