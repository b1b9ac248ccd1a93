//! The modal mu-calculus over one bounded reachable-graph capture: where
//! the capture is incomplete, a formula denotes a lower and an upper
//! satisfaction set, as in the bounded CTL evaluation.
use crate::bounded::BoundedOutcome;
use crate::checker::ExplorationLimits;
use crate::ctl_bounded::{bonus_of, bpre_set, distinct_count, lists, successor_complete, terminals_bare};
use crate::fixpoint::subset;
use crate::graph::{everything, ReachableGraph};
use crate::model::ModelError;
use crate::mu_calculus::{monotone_body, mu_atom_row, negated, paired, MuFormula, MuValidationError};
use crate::state::StateValue;
use vstd::prelude::*;

verus! {

#[derive(Debug, Clone, Copy, PartialEq, Eq, Structural)]
pub enum BoundedMuStatus {
    Satisfied,
    Violated,
}

#[derive(Debug, Clone, Copy, PartialEq, Eq, Structural)]
pub enum BoundedMuTruth {
    True,
    False,
    Unknown,
}

#[derive(Debug, Clone, PartialEq, Eq)]
pub struct BoundedMuInitialEvaluation<S> {
    pub state_index: usize,
    pub state: S,
    pub truth: BoundedMuTruth,
}

#[derive(Debug, Clone, PartialEq, Eq)]
pub struct BoundedMuEvaluation<S> {
    pub outcome: BoundedOutcome<BoundedMuStatus>,
    pub reachable_states: Vec<S>,
    pub definitely_satisfying_state_indices: Vec<usize>,
    pub possibly_satisfying_state_indices: Vec<usize>,
    pub initial: Vec<BoundedMuInitialEvaluation<S>>,
    pub initial_states_complete: bool,
    pub discovered_states: usize,
    pub checked_states: usize,
    pub explored_transitions: usize,
    pub max_depth_reached: Option<usize>,
    pub fixpoint_iterations: usize,
}

#[derive(Debug)]
pub enum BoundedMuError<V> {
    Validation(MuValidationError<V>),
    Model(ModelError),
    SnapshotInvariant,
}

/// Three-valued truth from a lower and an upper bound.
pub open spec fn mu_classify(lower: bool, upper: bool) -> BoundedMuTruth {
    if lower {
        BoundedMuTruth::True
    } else if !upper {
        BoundedMuTruth::False
    } else {
        BoundedMuTruth::Unknown
    }
}

/// A lower and an upper satisfaction set.
pub type Bounds = (Seq<bool>, Seq<bool>);

/// The bounds bound to `x` by the latest binding in `env`.
pub open spec fn bounds_lookup<V>(env: Seq<(V, Bounds)>, x: V) -> Option<Bounds>
    decreases env.len(),
{
    if env.len() == 0 {
        None
    } else if env.last().0 == x {
        Some(env.last().1)
    } else {
        bounds_lookup(env.drop_last(), x)
    }
}

/// The view of a bounds environment.
pub open spec fn bounds_views<V: View>(env: Seq<(V, (Vec<bool>, Vec<bool>))>) -> Seq<(V::V, Bounds)> {
    env.map_values(|p: (V, (Vec<bool>, Vec<bool>))| (p.0@, (p.1.0@, p.1.1@)))
}

/// Negation swaps and complements the bounds.
pub open spec fn bounds_not(w: Bounds) -> Bounds {
    (negated(w.1), negated(w.0))
}

/// Conjunction (`conj`) or disjunction acts on each bound.
pub open spec fn bounds_pair(x: Bounds, y: Bounds, conj: bool) -> Bounds {
    (paired(x.0, y.0, conj), paired(x.1, y.1, conj))
}

/// The bounded `<>` (`all == false`) or `[]` of the bounds, each with its
/// bonus for successors the capture may have missed.
pub open spec fn bounds_pre<S>(g: ReachableGraph<S>, kt: Seq<bool>, cs: Seq<bool>, all: bool, w: Bounds) -> Bounds {
    (bpre_set(g, kt, bonus_of(cs, all, false), all, w.0), bpre_set(g, kt, bonus_of(cs, all, true), all, w.1))
}

/// `v` is a pair of bounds that `f` denotes over the bounded capture `g`
/// (known terminals `kt`, successor completeness `cs`) under `env`: the
/// connectives act as in the bounded CTL evaluation, and a `mu`/`nu`
/// binder denotes bounds that are a fixpoint of its body.
pub open spec fn mu_bounds<S, A: View, V: View>(
    g: ReachableGraph<S>,
    kt: Seq<bool>,
    cs: Seq<bool>,
    f: MuFormula<A, V>,
    env: Seq<(V::V, Bounds)>,
    atoms: Seq<A>,
    table: Seq<Vec<bool>>,
    v: Bounds,
) -> bool
    decreases f,
{
    let n = g.states.len() as nat;
    match f {
        MuFormula::True => v == (everything(n), everything(n)),
        MuFormula::False => v == (Seq::new(n, |s: int| false), Seq::new(n, |s: int| false)),
        MuFormula::Atom(a) => v == (mu_atom_row(atoms, table, a), mu_atom_row(atoms, table, a)),
        MuFormula::Var(x) => bounds_lookup(env, x@) == Some(v),
        MuFormula::Not(i) => exists|w: Bounds|
            mu_bounds(g, kt, cs, *i, env, atoms, table, w) && w.0.len() == n && w.1.len() == n && v
                == #[trigger] bounds_not(w),
        MuFormula::And(l, r) => exists|x: Bounds, y: Bounds|
            mu_bounds(g, kt, cs, *l, env, atoms, table, x) && mu_bounds(g, kt, cs, *r, env, atoms, table, y) && x.0.len()
                == n && x.1.len() == n && v == #[trigger] bounds_pair(x, y, true),
        MuFormula::Or(l, r) => exists|x: Bounds, y: Bounds|
            mu_bounds(g, kt, cs, *l, env, atoms, table, x) && mu_bounds(g, kt, cs, *r, env, atoms, table, y) && x.0.len()
                == n && x.1.len() == n && v == #[trigger] bounds_pair(x, y, false),
        MuFormula::Diamond(i) => exists|w: Bounds|
            mu_bounds(g, kt, cs, *i, env, atoms, table, w) && w.0.len() == n && w.1.len() == n && v
                == #[trigger] bounds_pre(g, kt, cs, false, w),
        MuFormula::Box(i) => exists|w: Bounds|
            mu_bounds(g, kt, cs, *i, env, atoms, table, w) && w.0.len() == n && w.1.len() == n && v
                == #[trigger] bounds_pre(g, kt, cs, true, w),
        MuFormula::Mu { variable, body } => {
            &&& v.0.len() == n && v.1.len() == n
            &&& mu_bounds(g, kt, cs, *body, env.push((variable@, v)), atoms, table, v)
            &&& monotone_body(*body, variable@, true) ==> forall|p: Bounds, w: Bounds|
                bounds_sized(p, n) && bounds_sized(w, n) && mu_bounds(g, kt, cs, *body, env.push((variable@, p)), atoms, table, w)
                    && #[trigger] bounds_within(w, p) ==> bounds_within(v, p)
        },
        MuFormula::Nu { variable, body } => {
            &&& v.0.len() == n && v.1.len() == n
            &&& mu_bounds(g, kt, cs, *body, env.push((variable@, v)), atoms, table, v)
            &&& monotone_body(*body, variable@, true) ==> forall|p: Bounds, w: Bounds|
                bounds_sized(p, n) && bounds_sized(w, n) && mu_bounds(g, kt, cs, *body, env.push((variable@, p)), atoms, table, w)
                    && #[trigger] bounds_within(p, w) ==> bounds_within(p, v)
        },
    }
}

/// Both bounds range over `n` states.
pub open spec fn bounds_sized(b: Bounds, n: nat) -> bool {
    b.0.len() == n && b.1.len() == n
}

/// Each bound of `a` lies inside the same bound of `b`.
pub open spec fn bounds_within(a: Bounds, b: Bounds) -> bool {
    subset(a.0, b.0) && subset(a.1, b.1)
}

proof fn lemma_bpre_monotone<S>(
    g: ReachableGraph<S>,
    kt: Seq<bool>,
    bonus: Seq<bool>,
    all: bool,
    x: Seq<bool>,
    y: Seq<bool>,
    s: int,
)
    requires
        g.wf(),
        x.len() == g.states.len(),
        y.len() == g.states.len(),
        subset(x, y),
        0 <= s < g.states.len(),
        crate::ctl_bounded::bpre(g, kt, bonus, all, x, s),
    ensures
        crate::ctl_bounded::bpre(g, kt, bonus, all, y, s),
{
    if kt[s] {
    } else if all {
        assert forall|k: int| 0 <= k < g.outgoing@[s].len() implies y[(#[trigger] g.outgoing@[s]@[k]).target as int] by {
            assert(x[g.outgoing@[s]@[k].target as int]);
        }
    } else if !bonus[s] {
        let k = choose|k: int| 0 <= k < g.outgoing@[s].len() && x[(#[trigger] g.outgoing@[s]@[k]).target as int];
        assert(y[g.outgoing@[s]@[k].target as int]);
    }
}

/// Over a binder-free formula in which `x` occurs only with polarity
/// `positive`, enlarging both bounds bound to `x` enlarges (or, for
/// negative polarity, shrinks) both bounds the formula denotes.
pub proof fn lemma_bounds_monotone<S, A: View, V: View>(
    g: ReachableGraph<S>,
    kt: Seq<bool>,
    cs: Seq<bool>,
    f: MuFormula<A, V>,
    env: Seq<(V::V, Bounds)>,
    x: V::V,
    small: Bounds,
    large: Bounds,
    atoms: Seq<A>,
    table: Seq<Vec<bool>>,
    a: Bounds,
    b: Bounds,
    positive: bool,
)
    requires
        g.wf(),
        cs.len() == g.states.len(),
        monotone_body(f, x, positive),
        bounds_sized(small, g.states.len() as nat),
        bounds_sized(large, g.states.len() as nat),
        bounds_within(small, large),
        mu_bounds(g, kt, cs, f, env.push((x, small)), atoms, table, a),
        mu_bounds(g, kt, cs, f, env.push((x, large)), atoms, table, b),
    ensures
        positive ==> forall|s: int| 0 <= s < g.states.len() && #[trigger] a.0[s] ==> b.0[s],
        positive ==> forall|s: int| 0 <= s < g.states.len() && #[trigger] a.1[s] ==> b.1[s],
        !positive ==> forall|s: int| 0 <= s < g.states.len() && #[trigger] b.0[s] ==> a.0[s],
        !positive ==> forall|s: int| 0 <= s < g.states.len() && #[trigger] b.1[s] ==> a.1[s],
    decreases f,
{
    let n = g.states.len();
    let e1 = env.push((x, small));
    let e2 = env.push((x, large));
    match f {
        MuFormula::Var(y) => {
            if y@ == x {
                assert(e1.last() == (x, small));
                assert(e2.last() == (x, large));
                assert(a == small && b == large);
            } else {
                assert(e1.drop_last() == env);
                assert(e2.drop_last() == env);
                assert(a == b);
            }
        },
        MuFormula::Not(i) => {
            let w1 = choose|w: Bounds|
                mu_bounds(g, kt, cs, *i, e1, atoms, table, w) && w.0.len() == n && w.1.len() == n && a == #[trigger] bounds_not(w);
            let w2 = choose|w: Bounds|
                mu_bounds(g, kt, cs, *i, e2, atoms, table, w) && w.0.len() == n && w.1.len() == n && b == #[trigger] bounds_not(w);
            lemma_bounds_monotone(g, kt, cs, *i, env, x, small, large, atoms, table, w1, w2, !positive);
            if positive {
                assert forall|s: int| 0 <= s < n && #[trigger] a.0[s] implies b.0[s] by {
                    if w2.1[s] { assert(w1.1[s]); }
                }
                assert forall|s: int| 0 <= s < n && #[trigger] a.1[s] implies b.1[s] by {
                    if w2.0[s] { assert(w1.0[s]); }
                }
            } else {
                assert forall|s: int| 0 <= s < n && #[trigger] b.0[s] implies a.0[s] by {
                    if w1.1[s] { assert(w2.1[s]); }
                }
                assert forall|s: int| 0 <= s < n && #[trigger] b.1[s] implies a.1[s] by {
                    if w1.0[s] { assert(w2.0[s]); }
                }
            }
        },
        MuFormula::And(l, r) | MuFormula::Or(l, r) => {
            let conj = f is And;
            let (x1, y1) = choose|x1: Bounds, y1: Bounds|
                mu_bounds(g, kt, cs, *l, e1, atoms, table, x1) && mu_bounds(g, kt, cs, *r, e1, atoms, table, y1)
                    && x1.0.len() == n && x1.1.len() == n && a == #[trigger] bounds_pair(x1, y1, conj);
            let (x2, y2) = choose|x2: Bounds, y2: Bounds|
                mu_bounds(g, kt, cs, *l, e2, atoms, table, x2) && mu_bounds(g, kt, cs, *r, e2, atoms, table, y2)
                    && x2.0.len() == n && x2.1.len() == n && b == #[trigger] bounds_pair(x2, y2, conj);
            lemma_bounds_monotone(g, kt, cs, *l, env, x, small, large, atoms, table, x1, x2, positive);
            lemma_bounds_monotone(g, kt, cs, *r, env, x, small, large, atoms, table, y1, y2, positive);
            if positive {
                assert forall|s: int| 0 <= s < n && #[trigger] a.0[s] implies b.0[s] by {
                    if x1.0[s] { assert(x2.0[s]); }
                    if y1.0[s] { assert(y2.0[s]); }
                }
                assert forall|s: int| 0 <= s < n && #[trigger] a.1[s] implies b.1[s] by {
                    if x1.1[s] { assert(x2.1[s]); }
                    if y1.1[s] { assert(y2.1[s]); }
                }
            } else {
                assert forall|s: int| 0 <= s < n && #[trigger] b.0[s] implies a.0[s] by {
                    if x2.0[s] { assert(x1.0[s]); }
                    if y2.0[s] { assert(y1.0[s]); }
                }
                assert forall|s: int| 0 <= s < n && #[trigger] b.1[s] implies a.1[s] by {
                    if x2.1[s] { assert(x1.1[s]); }
                    if y2.1[s] { assert(y1.1[s]); }
                }
            }
        },
        MuFormula::Diamond(i) | MuFormula::Box(i) => {
            let all = f is Box;
            let w1 = choose|w: Bounds|
                mu_bounds(g, kt, cs, *i, e1, atoms, table, w) && w.0.len() == n && w.1.len() == n && a
                    == #[trigger] bounds_pre(g, kt, cs, all, w);
            let w2 = choose|w: Bounds|
                mu_bounds(g, kt, cs, *i, e2, atoms, table, w) && w.0.len() == n && w.1.len() == n && b
                    == #[trigger] bounds_pre(g, kt, cs, all, w);
            lemma_bounds_monotone(g, kt, cs, *i, env, x, small, large, atoms, table, w1, w2, positive);
            let lob = crate::ctl_bounded::bonus_of(cs, all, false);
            let hib = crate::ctl_bounded::bonus_of(cs, all, true);
            if positive {
                assert(subset(w1.0, w2.0) && subset(w1.1, w2.1));
                assert forall|s: int| 0 <= s < n && #[trigger] a.0[s] implies b.0[s] by {
                    lemma_bpre_monotone(g, kt, lob, all, w1.0, w2.0, s);
                }
                assert forall|s: int| 0 <= s < n && #[trigger] a.1[s] implies b.1[s] by {
                    lemma_bpre_monotone(g, kt, hib, all, w1.1, w2.1, s);
                }
            } else {
                assert(subset(w2.0, w1.0) && subset(w2.1, w1.1));
                assert forall|s: int| 0 <= s < n && #[trigger] b.0[s] implies a.0[s] by {
                    lemma_bpre_monotone(g, kt, lob, all, w2.0, w1.0, s);
                }
                assert forall|s: int| 0 <= s < n && #[trigger] b.1[s] implies a.1[s] by {
                    lemma_bpre_monotone(g, kt, hib, all, w2.1, w1.1, s);
                }
            }
        },
        _ => {},
    }
}

/// Law: over a bounded capture, a `mu` binder whose body is binder-free and
/// monotone in its variable denotes the least fixpoint of the body: both
/// of its bounds lie inside the bounds of every pair `p` that the body maps
/// inside itself.
pub proof fn lemma_bounded_mu_least_fixpoint<S, A: View, V: View>(
    g: ReachableGraph<S>,
    kt: Seq<bool>,
    cs: Seq<bool>,
    variable: V,
    body: MuFormula<A, V>,
    env: Seq<(V::V, Bounds)>,
    atoms: Seq<A>,
    table: Seq<Vec<bool>>,
    v: Bounds,
    p: Bounds,
    w: Bounds,
)
    requires
        mu_bounds(g, kt, cs, MuFormula::Mu { variable, body: Box::new(body) }, env, atoms, table, v),
        monotone_body(body, variable@, true),
        p.0.len() == g.states.len() && p.1.len() == g.states.len(),
        w.0.len() == g.states.len() && w.1.len() == g.states.len(),
        mu_bounds(g, kt, cs, body, env.push((variable@, p)), atoms, table, w),
        forall|s: int| 0 <= s < w.0.len() && #[trigger] w.0[s] ==> p.0[s],
        forall|s: int| 0 <= s < w.1.len() && #[trigger] w.1[s] ==> p.1[s],
    ensures
        mu_bounds(g, kt, cs, body, env.push((variable@, v)), atoms, table, v),
        forall|s: int| 0 <= s < v.0.len() && #[trigger] v.0[s] ==> p.0[s],
        forall|s: int| 0 <= s < v.1.len() && #[trigger] v.1[s] ==> p.1[s],
{
    assert(bounds_within(w, p));
}

/// Law: over a bounded capture, a `nu` binder whose body is binder-free and
/// monotone in its variable denotes the greatest fixpoint of the body: both
/// of its bounds contain the bounds of every pair `p` that the body maps
/// onto a pair containing it.
pub proof fn lemma_bounded_nu_greatest_fixpoint<S, A: View, V: View>(
    g: ReachableGraph<S>,
    kt: Seq<bool>,
    cs: Seq<bool>,
    variable: V,
    body: MuFormula<A, V>,
    env: Seq<(V::V, Bounds)>,
    atoms: Seq<A>,
    table: Seq<Vec<bool>>,
    v: Bounds,
    p: Bounds,
    w: Bounds,
)
    requires
        mu_bounds(g, kt, cs, MuFormula::Nu { variable, body: Box::new(body) }, env, atoms, table, v),
        monotone_body(body, variable@, true),
        p.0.len() == g.states.len() && p.1.len() == g.states.len(),
        w.0.len() == g.states.len() && w.1.len() == g.states.len(),
        mu_bounds(g, kt, cs, body, env.push((variable@, p)), atoms, table, w),
        forall|s: int| 0 <= s < p.0.len() && #[trigger] p.0[s] ==> w.0[s],
        forall|s: int| 0 <= s < p.1.len() && #[trigger] p.1[s] ==> w.1[s],
    ensures
        mu_bounds(g, kt, cs, body, env.push((variable@, v)), atoms, table, v),
        forall|s: int| 0 <= s < p.0.len() && #[trigger] p.0[s] ==> v.0[s],
        forall|s: int| 0 <= s < p.1.len() && #[trigger] p.1[s] ==> v.1[s],
{
    assert(bounds_within(p, w));
}

/// A pair of bounds that is a fixpoint of the body and lies below every
/// pre-fixpoint (above every post-fixpoint, for `nu`) is what the binder
/// denotes.
proof fn lemma_bounds_binder<S, A: View, V: View>(
    g: ReachableGraph<S>,
    kt: Seq<bool>,
    cs: Seq<bool>,
    variable: V,
    body: MuFormula<A, V>,
    greatest: bool,
    env: Seq<(V::V, Bounds)>,
    atoms: Seq<A>,
    table: Seq<Vec<bool>>,
    v: Bounds,
)
    requires
        bounds_sized(v, g.states.len() as nat),
        mu_bounds(g, kt, cs, body, env.push((variable@, v)), atoms, table, v),
        monotone_body(body, variable@, true) && !greatest ==> forall|p: Bounds, w: Bounds|
            bounds_sized(p, g.states.len() as nat) && bounds_sized(w, g.states.len() as nat) && mu_bounds(
                g,
                kt,
                cs,
                body,
                env.push((variable@, p)),
                atoms,
                table,
                w,
            ) && #[trigger] bounds_within(w, p) ==> bounds_within(v, p),
        monotone_body(body, variable@, true) && greatest ==> forall|p: Bounds, w: Bounds|
            bounds_sized(p, g.states.len() as nat) && bounds_sized(w, g.states.len() as nat) && mu_bounds(
                g,
                kt,
                cs,
                body,
                env.push((variable@, p)),
                atoms,
                table,
                w,
            ) && #[trigger] bounds_within(p, w) ==> bounds_within(p, v),
    ensures
        !greatest ==> mu_bounds(g, kt, cs, MuFormula::Mu { variable, body: Box::new(body) }, env, atoms, table, v),
        greatest ==> mu_bounds(g, kt, cs, MuFormula::Nu { variable, body: Box::new(body) }, env, atoms, table, v),
{
}

/// Every binding holds two bounds over `n` states, the lower inside the
/// upper.
pub open spec fn env_ok<V>(env: Seq<(V, (Vec<bool>, Vec<bool>))>, n: nat) -> bool {
    forall|i: int|
        0 <= i < env.len() ==> (#[trigger] env[i]).1.0@.len() == n && env[i].1.1@.len() == n && subset(
            env[i].1.0@,
            env[i].1.1@,
        )
}

fn copy_bits(v: &Vec<bool>) -> (c: Vec<bool>)
    ensures
        c@ == v@,
{
    let mut c: Vec<bool> = Vec::new();
    let mut i: usize = 0;
    while i < v.len()
        invariant
            i <= v@.len(),
            c@ == v@.subrange(0, i as int),
        decreases v.len() - i,
    {
        c.push(v[i]);
        i += 1;
        assert(c@ =~= v@.subrange(0, i as int));
    }
    assert(c@ =~= v@);
    c
}

fn lookup_bounds<V: StateValue>(env: &Vec<(V, (Vec<bool>, Vec<bool>))>, x: &V) -> (r: Option<(Vec<bool>, Vec<bool>)>)
    ensures
        match bounds_lookup(bounds_views(env@), x@) {
            Some(v) => r matches Some(w) && (w.0@, w.1@) == v,
            None => r is None,
        },
        r matches Some(w) ==> exists|i: int| 0 <= i < env@.len() && (#[trigger] env@[i]).1.0@ == w.0@ && env@[i].1.1@ == w.1@,
{
    let mut k: usize = env.len();
    proof {
        assert(bounds_views(env@).subrange(0, k as int) =~= bounds_views(env@));
    }
    while k > 0
        invariant
            k <= env@.len(),
            bounds_lookup(bounds_views(env@), x@) == bounds_lookup(bounds_views(env@).subrange(0, k as int), x@),
        decreases k,
    {
        let ghost sub = bounds_views(env@).subrange(0, k as int);
        assert(sub.drop_last() =~= bounds_views(env@).subrange(0, k - 1));
        if env[k - 1].0.same_value(x) {
            let lo = copy_bits(&env[k - 1].1.0);
            let hi = copy_bits(&env[k - 1].1.1);
            return Some((lo, hi));
        }
        k -= 1;
    }
    None
}

/// Evaluate `f` under `env` to a pair of bounds; `Err` when a variable is
/// unbound or a fixpoint iteration fails to settle within `2n + 2` rounds.
fn bounds_eval<S, A: StateValue, V: StateValue>(
    g: &ReachableGraph<S>,
    kt: &Vec<bool>,
    cs: &Vec<bool>,
    f: &MuFormula<A, V>,
    env: &mut Vec<(V, (Vec<bool>, Vec<bool>))>,
    atoms: &Vec<A>,
    table: &Vec<Vec<bool>>,
    iterations: &mut usize,
) -> (r: Result<(Vec<bool>, Vec<bool>), ()>)
    requires
        g.wf(),
        terminals_bare(*g, kt@),
        cs@.len() == g.states.len(),
        forall|i: int| 0 <= i < table@.len() ==> (#[trigger] table@[i])@.len() == g.states.len(),
        env_ok(old(env)@, g.states.len() as nat),
    ensures
        final(env)@ == old(env)@,
        r matches Ok(v) ==> mu_bounds(*g, kt@, cs@, *f, bounds_views(old(env)@), atoms@, table@, (v.0@, v.1@))
            && v.0@.len() == g.states.len() && v.1@.len() == g.states.len() && subset(v.0@, v.1@),
    decreases f, 1int,
{
    let n = g.states.len();
    let ghost e0 = bounds_views(env@);
    match f {
        MuFormula::True => {
            let lo = crate::graph::all_true(n);
            let hi = crate::graph::all_true(n);
            assert(lo@ =~= everything(n as nat));
            assert(hi@ =~= everything(n as nat));
            Ok((lo, hi))
        },
        MuFormula::False => {
            let lo = crate::mu_calculus::bits_of(n, false);
            let hi = crate::mu_calculus::bits_of(n, false);
            assert(lo@ =~= hi@);
            Ok((lo, hi))
        },
        MuFormula::Atom(a) => {
            match crate::state::position_of(atoms, a) {
                Some(i) => {
                    if i < table.len() {
                        let lo = copy_bits(&table[i]);
                        let hi = copy_bits(&table[i]);
                        proof {
                            crate::state::lemma_first_index_of(crate::state::views_of(atoms@), a@);
                        }
                        assert(mu_bounds(*g, kt@, cs@, *f, e0, atoms@, table@, (lo@, hi@)));
                        Ok((lo, hi))
                    } else {
                        Err(())
                    }
                },
                None => Err(()),
            }
        },
        MuFormula::Var(x) => {
            match lookup_bounds(env, x) {
                Some(v) => Ok(v),
                None => Err(()),
            }
        },
        MuFormula::Not(i) => {
            let w = bounds_eval(g, kt, cs, i, env, atoms, table, iterations)?;
            let lo = crate::mu_calculus::negate_bits(&w.1);
            let hi = crate::mu_calculus::negate_bits(&w.0);
            proof {
                let wv = (w.0@, w.1@);
                assert(mu_bounds(*g, kt@, cs@, **i, e0, atoms@, table@, wv));
                assert(lo@ =~= negated(w.1@));
                assert(hi@ =~= negated(w.0@));
                assert((lo@, hi@) == bounds_not(wv));
                assert(*f == MuFormula::Not(*i));
            }
            Ok((lo, hi))
        },
        MuFormula::And(l, r) | MuFormula::Or(l, r) => {
            let x = bounds_eval(g, kt, cs, l, env, atoms, table, iterations)?;
            let y = bounds_eval(g, kt, cs, r, env, atoms, table, iterations)?;
            let conj = match f {
                MuFormula::And(_, _) => true,
                _ => false,
            };
            let lo = crate::mu_calculus::pair_bits(&x.0, &y.0, conj);
            let hi = crate::mu_calculus::pair_bits(&x.1, &y.1, conj);
            proof {
                let xv = (x.0@, x.1@);
                let yv = (y.0@, y.1@);
                assert(mu_bounds(*g, kt@, cs@, **l, e0, atoms@, table@, xv));
                assert(mu_bounds(*g, kt@, cs@, **r, e0, atoms@, table@, yv));
                assert(lo@ =~= paired(x.0@, y.0@, conj));
                assert(hi@ =~= paired(x.1@, y.1@, conj));
                assert((lo@, hi@) == bounds_pair(xv, yv, conj));
                if conj {
                    assert(*f == MuFormula::And(*l, *r));
                } else {
                    assert(*f == MuFormula::Or(*l, *r));
                }
            }
            Ok((lo, hi))
        },
        MuFormula::Diamond(i) | MuFormula::Box(i) => {
            let all = match f {
                MuFormula::Box(_) => true,
                _ => false,
            };
            let w = bounds_eval(g, kt, cs, i, env, atoms, table, iterations)?;
            let lob = crate::ctl_bounded::bonus_vec(cs, all, false);
            let hib = crate::ctl_bounded::bonus_vec(cs, all, true);
            let lo = crate::ctl_bounded::bpre_vec(g, kt, &lob, all, &w.0);
            let hi = crate::ctl_bounded::bpre_vec(g, kt, &hib, all, &w.1);
            proof {
                let wv = (w.0@, w.1@);
                let none = Seq::new(n as nat, |s: int| false);
                let every = everything(n as nat);
                assert(mu_bounds(*g, kt@, cs@, **i, e0, atoms@, table@, wv));
                assert((lo@, hi@) == bounds_pre(*g, kt@, cs@, all, wv));
                if all {
                    assert(*f == MuFormula::Box(*i));
                } else {
                    assert(*f == MuFormula::Diamond(*i));
                }
                crate::ctl_bounded::lemma_bonus_ordered(cs@, all);
                crate::ctl_bounded::lemma_bounded_dominated(*g, kt@, lob@, hib@, all, none, none, every, every);
                crate::ctl_bounded::lemma_step_dominated(
                    *g,
                    all,
                    crate::ctl_bounded::bounded_seed(*g, kt@, lob@, all, none, every),
                    crate::ctl_bounded::bounded_guard(*g, kt@, lob@, all, every),
                    crate::ctl_bounded::bounded_seed(*g, kt@, hib@, all, none, every),
                    crate::ctl_bounded::bounded_guard(*g, kt@, hib@, all, every),
                    w.0@,
                    w.1@,
                );
            }
            Ok((lo, hi))
        },
        MuFormula::Mu { variable, body } => {
            let r = bounds_fixpoint(g, kt, cs, variable, body, false, env, atoms, table, iterations);
            proof {
                if let Ok(v) = &r {
                    lemma_bounds_binder(*g, kt@, cs@, *variable, **body, false, e0, atoms@, table@, (v.0@, v.1@));
                }
            }
            r
        },
        MuFormula::Nu { variable, body } => {
            let r = bounds_fixpoint(g, kt, cs, variable, body, true, env, atoms, table, iterations);
            proof {
                if let Ok(v) = &r {
                    lemma_bounds_binder(*g, kt@, cs@, *variable, **body, true, e0, atoms@, table@, (v.0@, v.1@));
                }
            }
            r
        },
    }
}

/// Iterate the body of a `mu` (from empty bounds) or `nu` (from full
/// bounds) binder until the bounds repeat; `Err` after `2n + 2` unsettled
/// rounds.
fn bounds_fixpoint<S, A: StateValue, V: StateValue>(
    g: &ReachableGraph<S>,
    kt: &Vec<bool>,
    cs: &Vec<bool>,
    variable: &V,
    body: &MuFormula<A, V>,
    greatest: bool,
    env: &mut Vec<(V, (Vec<bool>, Vec<bool>))>,
    atoms: &Vec<A>,
    table: &Vec<Vec<bool>>,
    iterations: &mut usize,
) -> (r: Result<(Vec<bool>, Vec<bool>), ()>)
    requires
        g.wf(),
        terminals_bare(*g, kt@),
        cs@.len() == g.states.len(),
        forall|i: int| 0 <= i < table@.len() ==> (#[trigger] table@[i])@.len() == g.states.len(),
        env_ok(old(env)@, g.states.len() as nat),
    ensures
        final(env)@ == old(env)@,
        r matches Ok(v) ==> v.0@.len() == g.states.len() && v.1@.len() == g.states.len() && subset(v.0@, v.1@)
            && mu_bounds(*g, kt@, cs@, *body, bounds_views(old(env)@).push((variable@, (v.0@, v.1@))), atoms@, table@, (v.0@, v.1@)),
        r matches Ok(v) ==> (monotone_body(*body, variable@, true) && !greatest ==> forall|p: Bounds, w: Bounds|
            bounds_sized(p, g.states.len() as nat) && bounds_sized(w, g.states.len() as nat) && mu_bounds(
                *g,
                kt@,
                cs@,
                *body,
                bounds_views(old(env)@).push((variable@, p)),
                atoms@,
                table@,
                w,
            ) && #[trigger] bounds_within(w, p) ==> bounds_within((v.0@, v.1@), p)),
        r matches Ok(v) ==> (monotone_body(*body, variable@, true) && greatest ==> forall|p: Bounds, w: Bounds|
            bounds_sized(p, g.states.len() as nat) && bounds_sized(w, g.states.len() as nat) && mu_bounds(
                *g,
                kt@,
                cs@,
                *body,
                bounds_views(old(env)@).push((variable@, p)),
                atoms@,
                table@,
                w,
            ) && #[trigger] bounds_within(p, w) ==> bounds_within(p, (v.0@, v.1@))),
    decreases body, 2int,
{
    let n = g.states.len();
    let ghost e0 = bounds_views(env@);
    let ghost env0 = env@;
    let mut lo = crate::mu_calculus::bits_of(n, greatest);
    let mut hi = crate::mu_calculus::bits_of(n, greatest);
    let mut fuel: usize = if n <= (usize::MAX - 2) / 2 { 2 * n + 2 } else { usize::MAX };
    loop
        invariant
            g.wf(),
            terminals_bare(*g, kt@),
            cs@.len() == g.states.len(),
            n == g.states.len(),
            forall|i: int| 0 <= i < table@.len() ==> (#[trigger] table@[i])@.len() == g.states.len(),
            env_ok(env@, n as nat),
            env@ == env0,
            env0 == old(env)@,
            e0 == bounds_views(env0),
            lo@.len() == n,
            hi@.len() == n,
            subset(lo@, hi@),
            monotone_body(*body, variable@, true) && !greatest ==> forall|p: Bounds, w: Bounds|
                bounds_sized(p, n as nat) && bounds_sized(w, n as nat) && mu_bounds(
                    *g,
                    kt@,
                    cs@,
                    *body,
                    e0.push((variable@, p)),
                    atoms@,
                    table@,
                    w,
                ) && #[trigger] bounds_within(w, p) ==> bounds_within((lo@, hi@), p),
            monotone_body(*body, variable@, true) && greatest ==> forall|p: Bounds, w: Bounds|
                bounds_sized(p, n as nat) && bounds_sized(w, n as nat) && mu_bounds(
                    *g,
                    kt@,
                    cs@,
                    *body,
                    e0.push((variable@, p)),
                    atoms@,
                    table@,
                    w,
                ) && #[trigger] bounds_within(p, w) ==> bounds_within(p, (lo@, hi@)),
        decreases fuel,
    {
        let ghost cur = (lo@, hi@);
        env.push((variable.copy_value(), (copy_bits(&lo), copy_bits(&hi))));
        proof {
            assert(bounds_views(env@) =~= e0.push((variable@, cur)));
            assert forall|i: int| 0 <= i < env@.len() implies (#[trigger] env@[i]).1.0@.len() == n && env@[i].1.1@.len() == n
                && subset(env@[i].1.0@, env@[i].1.1@) by {
                if i < env0.len() {
                    assert(env@[i] == env0[i]);
                }
            }
        }
        if *iterations < usize::MAX {
            *iterations = *iterations + 1;
        }
        let result = bounds_eval(g, kt, cs, body, env, atoms, table, iterations);
        env.pop();
        proof {
            assert(env@ =~= env0);
        }
        let next = match result {
            Ok(v) => v,
            Err(()) => {
                return Err(());
            },
        };
        if crate::mu_calculus::same_bits(&next.0, &lo) && crate::mu_calculus::same_bits(&next.1, &hi) {
            return Ok((lo, hi));
        }
        if fuel == 0 {
            return Err(());
        }
        fuel -= 1;
        proof {
            let nv = (next.0@, next.1@);
            if monotone_body(*body, variable@, true) {
                if !greatest {
                    assert forall|p: Bounds, w: Bounds|
                        bounds_sized(p, n as nat) && bounds_sized(w, n as nat) && mu_bounds(
                            *g,
                            kt@,
                            cs@,
                            *body,
                            e0.push((variable@, p)),
                            atoms@,
                            table@,
                            w,
                        ) && #[trigger] bounds_within(w, p) implies bounds_within(nv, p) by {
                        assert(bounds_within(cur, p));
                        lemma_bounds_monotone(*g, kt@, cs@, *body, e0, variable@, cur, p, atoms@, table@, nv, w, true);
                        assert forall|s: int| 0 <= s < nv.0.len() && #[trigger] nv.0[s] implies p.0[s] by {
                            assert(w.0[s]);
                        }
                        assert forall|s: int| 0 <= s < nv.1.len() && #[trigger] nv.1[s] implies p.1[s] by {
                            assert(w.1[s]);
                        }
                    }
                } else {
                    assert forall|p: Bounds, w: Bounds|
                        bounds_sized(p, n as nat) && bounds_sized(w, n as nat) && mu_bounds(
                            *g,
                            kt@,
                            cs@,
                            *body,
                            e0.push((variable@, p)),
                            atoms@,
                            table@,
                            w,
                        ) && #[trigger] bounds_within(p, w) implies bounds_within(p, nv) by {
                        assert(bounds_within(p, cur));
                        lemma_bounds_monotone(*g, kt@, cs@, *body, e0, variable@, p, cur, atoms@, table@, w, nv, true);
                        assert forall|s: int| 0 <= s < p.0.len() && #[trigger] p.0[s] implies nv.0[s] by {
                            assert(w.0[s]);
                        }
                        assert forall|s: int| 0 <= s < p.1.len() && #[trigger] p.1[s] implies nv.1[s] by {
                            assert(w.1[s]);
                        }
                    }
                }
            }
        }
        lo = next.0;
        hi = next.1;
    }
}

/// `ev` reports the bounded mu-calculus evaluation of `formula` over `c`,
/// the bounded capture of `model` under `limits`, with atom table `table`
/// over the distinct atoms `atoms`; `v` holds the lower and upper bounds of
/// the formula. A complete capture is judged exactly (`mu_denotes`, equal
/// bounds, a conclusive outcome); otherwise the bounds are those of
/// `mu_bounds`, and the outcome is `Violated` when some initial state is
/// definitely false, `Satisfied` when all initial states were found and all
/// are definitely true, and inconclusive, for the capture's reason,
/// otherwise. The lower bound always lies inside the upper one.
pub open spec fn bounded_mu_ok<S: View, A: View, V: View>(
    model: crate::model::TransitionSystem<S>,
    formula: MuFormula<A, V>,
    limits: ExplorationLimits,
    c: crate::graph::BoundedCapturedReachableGraph<S>,
    atoms: Seq<A>,
    table: Seq<Vec<bool>>,
    v: Bounds,
    ev: BoundedMuEvaluation<S>,
) -> bool {
    let g = c.graph;
    let n = g.states.len();
    let kt = c.known_terminal@;
    let ids = g.initial_ids@;
    &&& g.wf() && crate::graph::distinct_states(g) && terminals_bare(g, kt)
    &&& crate::graph::enabled_actions_ok(g, kt, c.complete_enabled_actions@)
    &&& (limits.max_states matches Some(l) ==> n <= l)
    &&& (c.completion is Complete ==> crate::graph::roots_of_initial(g, model.initial()))
    &&& forall|r: int|
        0 <= r < ids.len() ==> crate::state::views_of(model.initial()).contains(g.states@[(#[trigger] ids[r]) as int]@)
    &&& v.0.len() == n && v.1.len() == n && subset(v.0, v.1)
    &&& ev.reachable_states@ == g.states@
    &&& ev.initial_states_complete == (ids.len() == distinct_count(crate::state::views_of(model.initial())))
    &&& ev.discovered_states == n
    &&& ev.checked_states == c.checked_states
    &&& ev.explored_transitions == c.explored_transitions
    &&& ev.max_depth_reached == c.max_depth_reached
    &&& ev.initial@.len() == ids.len()
    &&& lists(ev.definitely_satisfying_state_indices@, v.0)
    &&& lists(ev.possibly_satisfying_state_indices@, v.1)
    &&& forall|k: int|
        0 <= k < ev.initial@.len() ==> {
            let e = #[trigger] ev.initial@[k];
            &&& e.state_index == ids[k]
            &&& e.state@ == g.states@[e.state_index as int]@
            &&& e.truth == mu_classify(v.0[ids[k] as int], v.1[ids[k] as int])
        }
    &&& match c.completion {
        crate::graph::GraphCaptureCompletion::Complete => {
            &&& v.0 == v.1
            &&& crate::mu_calculus::mu_denotes(g, formula, Seq::empty(), atoms, table, v.0)
            &&& ev.outcome == BoundedOutcome::Conclusive(
                if forall|k: int| 0 <= k < ids.len() ==> v.0[#[trigger] ids[k] as int] {
                    BoundedMuStatus::Satisfied
                } else {
                    BoundedMuStatus::Violated
                },
            )
        },
        crate::graph::GraphCaptureCompletion::Inconclusive(reason) => {
            &&& mu_bounds(g, kt, successor_complete(g, kt, c.complete_enabled_actions@), formula, Seq::empty(), atoms, table, v)
            &&& ev.outcome == if exists|k: int| 0 <= k < ids.len() && !v.1[#[trigger] ids[k] as int] {
                BoundedOutcome::Conclusive(BoundedMuStatus::Violated)
            } else if ev.initial_states_complete && forall|k: int| 0 <= k < ids.len() ==> v.0[#[trigger] ids[k] as int] {
                BoundedOutcome::Conclusive(BoundedMuStatus::Satisfied)
            } else {
                BoundedOutcome::Inconclusive(reason)
            }
        },
    }
}

/// Evaluate a validated mu-calculus formula over one canonical bounded
/// reachable-graph capture: exactly when the capture is complete, and
/// otherwise through lower and upper bounds in which states cut off by the
/// limits stay open. Fixpoints that do not settle within `2n + 2` rounds
/// report `SnapshotInvariant`.
pub fn evaluate_mu_with_limits<S: StateValue, A: StateValue, V: StateValue, F: Fn(&A, &S) -> bool>(
    model: &crate::model::TransitionSystem<S>,
    formula: &MuFormula<A, V>,
    atom_holds: F,
    limits: ExplorationLimits,
) -> (r: Result<BoundedMuEvaluation<S>, BoundedMuError<V>>)
    requires
        forall|a: &A, s: &S| atom_holds.requires((a, s)),
    ensures
        crate::mu_calculus::first_problem(crate::mu_calculus::mview_vars(*formula), true, Seq::empty()) is Some
            <==> r matches Err(BoundedMuError::Validation(_)),
        r matches Ok(ev) ==> exists|
            c: crate::graph::BoundedCapturedReachableGraph<S>,
            atoms: Seq<A>,
            table: Seq<Vec<bool>>,
            v: Bounds,
        | #[trigger] bounded_mu_ok(*model, *formula, limits, c, atoms, table, v, ev) && crate::ctl::table_answers(
            atom_holds,
            c.graph,
            atoms,
            table,
        ),
{
    match crate::mu_calculus::validate_mu_formula(formula) {
        Ok(()) => {},
        Err(e) => {
            return Err(BoundedMuError::Validation(e));
        },
    }
    let expected = crate::ctl_bounded::count_distinct(model.initial_states());
    let captured = match crate::graph::capture_reachable_graph_with_limits(model, limits) {
        Ok(c) => c,
        Err(e) => {
            return Err(
                match e {
                    crate::graph::GraphCaptureError::Model(m) => BoundedMuError::Model(m),
                    _ => BoundedMuError::SnapshotInvariant,
                },
            );
        },
    };
    let ghost c = captured;
    let initial_complete = captured.graph.initial_ids.len() == expected;
    match captured.completion {
        crate::graph::GraphCaptureCompletion::Complete => {
            let exact = match crate::mu_calculus::evaluate_captured_mu(
                captured.graph,
                captured.discovered_states,
                captured.explored_transitions,
                captured.max_depth_reached,
                formula,
                &atom_holds,
            ) {
                Ok(e) => e,
                Err(()) => {
                    return Err(BoundedMuError::SnapshotInvariant);
                },
            };
            let ghost (atoms, table, values) = choose|atoms: Seq<A>, table: Seq<Vec<bool>>, v: Seq<bool>|
                #[trigger] crate::mu_calculus::captured_mu_ok(*formula, c.graph, atoms, table, v, exact)
                    && crate::ctl::table_answers(atom_holds, c.graph, atoms, table);
            let all_hold = exact.all_initial_states_satisfy();
            let mut initial: Vec<BoundedMuInitialEvaluation<S>> = Vec::new();
            let mut k: usize = 0;
            while k < exact.initial.len()
                invariant
                    k <= exact.initial@.len(),
                    initial@.len() == k,
                    forall|j: int|
                        0 <= j < k ==> {
                            let e = #[trigger] initial@[j];
                            let o = exact.initial@[j];
                            &&& e.state_index == o.state_index
                            &&& e.state@ == o.state@
                            &&& e.truth == if o.satisfied {
                                BoundedMuTruth::True
                            } else {
                                BoundedMuTruth::False
                            }
                        },
                decreases exact.initial.len() - k,
            {
                let o = &exact.initial[k];
                let truth = if o.satisfied {
                    BoundedMuTruth::True
                } else {
                    BoundedMuTruth::False
                };
                initial.push(BoundedMuInitialEvaluation { state_index: o.state_index, state: o.state.copy_value(), truth });
                k += 1;
            }
            let outcome = if all_hold {
                BoundedOutcome::Conclusive(BoundedMuStatus::Satisfied)
            } else {
                BoundedOutcome::Conclusive(BoundedMuStatus::Violated)
            };
            let definitely = crate::ctl_bounded::copy_indices(&exact.satisfying_state_indices);
            let possibly = crate::ctl_bounded::copy_indices(&exact.satisfying_state_indices);
            let ev = BoundedMuEvaluation {
                outcome,
                reachable_states: exact.reachable_states,
                definitely_satisfying_state_indices: definitely,
                possibly_satisfying_state_indices: possibly,
                initial,
                initial_states_complete: initial_complete,
                discovered_states: captured.discovered_states,
                checked_states: captured.checked_states,
                explored_transitions: exact.explored_transitions,
                max_depth_reached: exact.max_depth_reached,
                fixpoint_iterations: exact.fixpoint_iterations,
            };
            proof {
                let ids = c.graph.initial_ids@;
                assert(exact.initial@.len() == ids.len());
                if all_hold {
                    assert forall|k: int| 0 <= k < ids.len() implies values[#[trigger] ids[k] as int] by {
                        assert(exact.initial@[k].satisfied);
                    }
                } else {
                    let j = choose|j: int| 0 <= j < exact.initial@.len() && !(#[trigger] exact.initial@[j]).satisfied;
                    assert(!values[ids[j] as int]);
                }
                assert(subset(values, values));
                assert(bounded_mu_ok(*model, *formula, limits, c, atoms, table, (values, values), ev));
            }
            Ok(ev)
        },
        crate::graph::GraphCaptureCompletion::Inconclusive(reason) => {
            let g = &captured.graph;
            let kt = &captured.known_terminal;
            let cs = crate::ctl_bounded::successor_flags(g, kt, &captured.complete_enabled_actions);
            let mut atoms: Vec<A> = Vec::new();
            crate::mu_calculus::collect_mu_atoms(formula, &mut atoms);
            let table = crate::ctl::atom_table(g, &atoms, &atom_holds);
            let mut env: Vec<(V, (Vec<bool>, Vec<bool>))> = Vec::new();
            let mut iterations: usize = 0;
            let (lower, upper) = match bounds_eval(g, kt, &cs, formula, &mut env, &atoms, &table, &mut iterations) {
                Ok(v) => v,
                Err(()) => {
                    return Err(BoundedMuError::SnapshotInvariant);
                },
            };
            proof {
                assert(bounds_views(Seq::<(V, (Vec<bool>, Vec<bool>))>::empty()) =~= Seq::empty());
            }
            let ids = &g.initial_ids;
            let mut initial: Vec<BoundedMuInitialEvaluation<S>> = Vec::new();
            let mut any_false = false;
            let mut all_true = true;
            let mut k: usize = 0;
            while k < ids.len()
                invariant
                    g.wf(),
                    lower@.len() == g.states.len(),
                    upper@.len() == g.states.len(),
                    forall|r: int| 0 <= r < ids@.len() ==> #[trigger] ids@[r] < g.states.len(),
                    k <= ids@.len(),
                    initial@.len() == k,
                    any_false == exists|j: int| 0 <= j < k && !upper@[#[trigger] ids@[j] as int],
                    all_true == forall|j: int| 0 <= j < k ==> lower@[#[trigger] ids@[j] as int],
                    forall|j: int|
                        0 <= j < k ==> {
                            let e = #[trigger] initial@[j];
                            &&& e.state_index == ids@[j]
                            &&& e.state@ == g.states@[e.state_index as int]@
                            &&& e.truth == mu_classify(lower@[ids@[j] as int], upper@[ids@[j] as int])
                        },
                decreases ids.len() - k,
            {
                let idx = ids[k];
                let truth = if lower[idx] {
                    BoundedMuTruth::True
                } else if !upper[idx] {
                    BoundedMuTruth::False
                } else {
                    BoundedMuTruth::Unknown
                };
                if !upper[idx] {
                    any_false = true;
                }
                if !lower[idx] {
                    all_true = false;
                }
                initial.push(BoundedMuInitialEvaluation { state_index: idx, state: g.states[idx].copy_value(), truth });
                k += 1;
            }
            let outcome = if any_false {
                BoundedOutcome::Conclusive(BoundedMuStatus::Violated)
            } else if initial_complete && all_true {
                BoundedOutcome::Conclusive(BoundedMuStatus::Satisfied)
            } else {
                BoundedOutcome::Inconclusive(reason)
            };
            let definitely = crate::fairness::selected_ids(&lower);
            let possibly = crate::fairness::selected_ids(&upper);
            let ghost atoms_view = atoms@;
            let ghost table_view = table@;
            let ghost v = (lower@, upper@);
            let ev = BoundedMuEvaluation {
                outcome,
                reachable_states: captured.graph.states,
                definitely_satisfying_state_indices: definitely,
                possibly_satisfying_state_indices: possibly,
                initial,
                initial_states_complete: initial_complete,
                discovered_states: captured.discovered_states,
                checked_states: captured.checked_states,
                explored_transitions: captured.explored_transitions,
                max_depth_reached: captured.max_depth_reached,
                fixpoint_iterations: iterations,
            };
            proof {
                assert(bounded_mu_ok(*model, *formula, limits, c, atoms_view, table_view, v, ev));
                assert(crate::ctl::table_answers(atom_holds, c.graph, atoms_view, table_view));
            }
            Ok(ev)
        },
    }
}

} // verus!
