//! Typed modal mu-calculus formulas over one captured reachable graph.
use crate::ctl::CtlFormula;
use crate::fixpoint::{pre_set, subset};
use crate::graph::{capture_reachable_graph, everything, GraphCaptureError, ReachableGraph};
use crate::model::{ModelError, TransitionSystem};
use crate::state::{first_index_of, position_of, views_of, StateValue};
use vstd::prelude::*;

verus! {

/// Typed modal mu-calculus formula. Negation is general, but fixpoint
/// variables must occur positively relative to their nearest binder.
#[derive(Debug, PartialEq, Eq)]
pub enum MuFormula<A, V> {
    True,
    False,
    Atom(A),
    Var(V),
    Not(Box<MuFormula<A, V>>),
    And(Box<MuFormula<A, V>>, Box<MuFormula<A, V>>),
    Or(Box<MuFormula<A, V>>, Box<MuFormula<A, V>>),
    Diamond(Box<MuFormula<A, V>>),
    Box(Box<MuFormula<A, V>>),
    Mu { variable: V, body: Box<MuFormula<A, V>> },
    Nu { variable: V, body: Box<MuFormula<A, V>> },
}

impl<A, V> MuFormula<A, V> {
    pub fn atom(atom: A) -> (f: Self)
        ensures
            f == MuFormula::<A, V>::Atom(atom),
    {
        MuFormula::Atom(atom)
    }

    pub fn var(variable: V) -> (f: Self)
        ensures
            f == MuFormula::<A, V>::Var(variable),
    {
        MuFormula::Var(variable)
    }

    pub fn negate(inner: Self) -> (f: Self)
        ensures
            f == MuFormula::Not(Box::new(inner)),
    {
        MuFormula::Not(Box::new(inner))
    }

    pub fn and(left: Self, right: Self) -> (f: Self)
        ensures
            f == MuFormula::And(Box::new(left), Box::new(right)),
    {
        MuFormula::And(Box::new(left), Box::new(right))
    }

    pub fn or(left: Self, right: Self) -> (f: Self)
        ensures
            f == MuFormula::Or(Box::new(left), Box::new(right)),
    {
        MuFormula::Or(Box::new(left), Box::new(right))
    }

    pub fn diamond(inner: Self) -> (f: Self)
        ensures
            f == MuFormula::Diamond(Box::new(inner)),
    {
        MuFormula::Diamond(Box::new(inner))
    }

    pub fn boxed(inner: Self) -> (f: Self)
        ensures
            f == MuFormula::Box(Box::new(inner)),
    {
        MuFormula::Box(Box::new(inner))
    }

    pub fn mu(variable: V, body: Self) -> (f: Self)
        ensures
            f == (MuFormula::Mu { variable, body: Box::new(body) }),
    {
        MuFormula::Mu { variable, body: Box::new(body) }
    }

    pub fn nu(variable: V, body: Self) -> (f: Self)
        ensures
            f == (MuFormula::Nu { variable, body: Box::new(body) }),
    {
        MuFormula::Nu { variable, body: Box::new(body) }
    }
}

#[derive(Debug, Clone, Copy, PartialEq, Eq, Structural)]
pub enum MuTerminalPolicy {
    TotalizeWithSelfLoop,
}

#[derive(Debug, Clone, PartialEq, Eq)]
pub struct MuInitialEvaluation<S> {
    pub state_index: usize,
    pub state: S,
    pub satisfied: bool,
}

#[derive(Debug, Clone, PartialEq, Eq)]
pub struct MuEvaluation<S> {
    pub terminal_policy: MuTerminalPolicy,
    pub reachable_states: Vec<S>,
    pub satisfying_state_indices: Vec<usize>,
    pub initial: Vec<MuInitialEvaluation<S>>,
    pub discovered_states: usize,
    pub explored_transitions: usize,
    pub max_depth_reached: Option<usize>,
    /// Total number of fixpoint body evaluations.
    pub fixpoint_iterations: usize,
}

impl<S> MuEvaluation<S> {
    pub fn all_initial_states_satisfy(&self) -> (r: bool)
        ensures
            r == forall|i: int| 0 <= i < self.initial@.len() ==> (#[trigger] self.initial@[i]).satisfied,
    {
        let mut i: usize = 0;
        while i < self.initial.len()
            invariant
                i <= self.initial@.len(),
                forall|j: int| 0 <= j < i ==> (#[trigger] self.initial@[j]).satisfied,
            decreases self.initial.len() - i,
        {
            if !self.initial[i].satisfied {
                return false;
            }
            i += 1;
        }
        true
    }

    pub fn any_initial_state_satisfies(&self) -> (r: bool)
        ensures
            r == exists|i: int| 0 <= i < self.initial@.len() && (#[trigger] self.initial@[i]).satisfied,
    {
        let mut i: usize = 0;
        while i < self.initial.len()
            invariant
                i <= self.initial@.len(),
                forall|j: int| 0 <= j < i ==> !(#[trigger] self.initial@[j]).satisfied,
            decreases self.initial.len() - i,
        {
            if self.initial[i].satisfied {
                return true;
            }
            i += 1;
        }
        false
    }
}

#[derive(Debug, Clone, PartialEq, Eq)]
pub enum MuValidationError<V> {
    UnboundVariable { variable: V },
    NonMonotoneVariable { variable: V },
}

#[derive(Debug)]
pub enum MuError<V> {
    Validation(MuValidationError<V>),
    Model(ModelError),
    SnapshotInvariant,
}

/// The polarity of the nearest binding of `x` in `bindings` (the last one).
pub open spec fn binding_of<V>(bindings: Seq<(V, bool)>, x: V) -> Option<bool>
    decreases bindings.len(),
{
    if bindings.len() == 0 {
        None
    } else if bindings.last().0 == x {
        Some(bindings.last().1)
    } else {
        binding_of(bindings.drop_last(), x)
    }
}

/// The first problem (left to right) in `f` under `bindings` at polarity
/// `positive`: a variable with no binder, or one whose polarity differs
/// from its nearest binder's.
pub open spec fn first_problem<A, V>(f: MuFormula<A, V>, positive: bool, bindings: Seq<(V, bool)>) -> Option<
    MuValidationError<V>,
>
    decreases f,
{
    match f {
        MuFormula::True | MuFormula::False | MuFormula::Atom(_) => None,
        MuFormula::Var(x) => match binding_of(bindings, x) {
            None => Some(MuValidationError::UnboundVariable { variable: x }),
            Some(p) => if p == positive {
                None
            } else {
                Some(MuValidationError::NonMonotoneVariable { variable: x })
            },
        },
        MuFormula::Not(i) => first_problem(*i, !positive, bindings),
        MuFormula::And(l, r) | MuFormula::Or(l, r) => match first_problem(*l, positive, bindings) {
            Some(e) => Some(e),
            None => first_problem(*r, positive, bindings),
        },
        MuFormula::Diamond(i) | MuFormula::Box(i) => first_problem(*i, positive, bindings),
        MuFormula::Mu { variable, body } | MuFormula::Nu { variable, body } => first_problem(
            *body,
            positive,
            bindings.push((variable, positive)),
        ),
    }
}

/// The view of a binding list.
pub open spec fn binding_views<V: View>(b: Seq<(V, bool)>) -> Seq<(V::V, bool)> {
    b.map_values(|p: (V, bool)| (p.0@, p.1))
}

/// The formula with atoms and variables replaced by their views.
pub open spec fn mview<A: View, V: View>(f: MuFormula<A, V>) -> MuFormula<A::V, V::V>
    decreases f,
{
    match f {
        MuFormula::True => MuFormula::True,
        MuFormula::False => MuFormula::False,
        MuFormula::Atom(a) => MuFormula::Atom(a@),
        MuFormula::Var(x) => MuFormula::Var(x@),
        MuFormula::Not(i) => MuFormula::Not(Box::new(mview(*i))),
        MuFormula::And(l, r) => MuFormula::And(Box::new(mview(*l)), Box::new(mview(*r))),
        MuFormula::Or(l, r) => MuFormula::Or(Box::new(mview(*l)), Box::new(mview(*r))),
        MuFormula::Diamond(i) => MuFormula::Diamond(Box::new(mview(*i))),
        MuFormula::Box(i) => MuFormula::Box(Box::new(mview(*i))),
        MuFormula::Mu { variable, body } => MuFormula::Mu { variable: variable@, body: Box::new(mview(*body)) },
        MuFormula::Nu { variable, body } => MuFormula::Nu { variable: variable@, body: Box::new(mview(*body)) },
    }
}

fn nearest_binding<V: StateValue>(bindings: &Vec<(V, bool)>, x: &V) -> (r: Option<bool>)
    ensures
        r == binding_of(binding_views(bindings@), x@),
{
    let mut k: usize = bindings.len();
    proof {
        assert(binding_views(bindings@).subrange(0, k as int) =~= binding_views(bindings@));
    }
    while k > 0
        invariant
            k <= bindings@.len(),
            binding_of(binding_views(bindings@), x@) == binding_of(binding_views(bindings@).subrange(0, k as int), x@),
        decreases k,
    {
        let ghost sub = binding_views(bindings@).subrange(0, k as int);
        assert(sub.drop_last() =~= binding_views(bindings@).subrange(0, k - 1));
        if bindings[k - 1].0.same_value(x) {
            return Some(bindings[k - 1].1);
        }
        k -= 1;
    }
    None
}

fn validate_inner<A, V: StateValue>(f: &MuFormula<A, V>, positive: bool, bindings: &mut Vec<(V, bool)>) -> (r: Result<
    (),
    MuValidationError<V>,
>)
    ensures
        final(bindings)@ == old(bindings)@,
        match first_problem(mview_vars(*f), positive, binding_views(old(bindings)@)) {
            None => r is Ok,
            Some(MuValidationError::UnboundVariable { variable }) => r matches Err(
                MuValidationError::UnboundVariable { variable: v },
            ) && v@ == variable,
            Some(MuValidationError::NonMonotoneVariable { variable }) => r matches Err(
                MuValidationError::NonMonotoneVariable { variable: v },
            ) && v@ == variable,
        },
    decreases f,
{
    match f {
        MuFormula::True | MuFormula::False | MuFormula::Atom(_) => Ok(()),
        MuFormula::Var(x) => match nearest_binding(bindings, x) {
            None => Err(MuValidationError::UnboundVariable { variable: x.copy_value() }),
            Some(p) => if p == positive {
                Ok(())
            } else {
                Err(MuValidationError::NonMonotoneVariable { variable: x.copy_value() })
            },
        },
        MuFormula::Not(i) => validate_inner(i, !positive, bindings),
        MuFormula::And(l, r) | MuFormula::Or(l, r) => {
            match validate_inner(l, positive, bindings) {
                Ok(()) => {},
                Err(e) => {
                    return Err(e);
                },
            }
            validate_inner(r, positive, bindings)
        },
        MuFormula::Diamond(i) | MuFormula::Box(i) => validate_inner(i, positive, bindings),
        MuFormula::Mu { variable, body } | MuFormula::Nu { variable, body } => {
            let ghost before = bindings@;
            bindings.push((variable.copy_value(), positive));
            proof {
                assert(binding_views(bindings@) =~= binding_views(before).push((variable@, positive)));
            }
            let r = validate_inner(body, positive, bindings);
            bindings.pop();
            proof {
                assert(bindings@ =~= before);
            }
            r
        },
    }
}

/// The formula with only the variables replaced by their views (atoms are
/// irrelevant to binding).
pub open spec fn mview_vars<A, V: View>(f: MuFormula<A, V>) -> MuFormula<(), V::V>
    decreases f,
{
    match f {
        MuFormula::True => MuFormula::True,
        MuFormula::False => MuFormula::False,
        MuFormula::Atom(_) => MuFormula::Atom(()),
        MuFormula::Var(x) => MuFormula::Var(x@),
        MuFormula::Not(i) => MuFormula::Not(Box::new(mview_vars(*i))),
        MuFormula::And(l, r) => MuFormula::And(Box::new(mview_vars(*l)), Box::new(mview_vars(*r))),
        MuFormula::Or(l, r) => MuFormula::Or(Box::new(mview_vars(*l)), Box::new(mview_vars(*r))),
        MuFormula::Diamond(i) => MuFormula::Diamond(Box::new(mview_vars(*i))),
        MuFormula::Box(i) => MuFormula::Box(Box::new(mview_vars(*i))),
        MuFormula::Mu { variable, body } => MuFormula::Mu { variable: variable@, body: Box::new(mview_vars(*body)) },
        MuFormula::Nu { variable, body } => MuFormula::Nu { variable: variable@, body: Box::new(mview_vars(*body)) },
    }
}

/// Validate lexical binding and fixpoint-variable positivity: the first
/// problem, left to right, is reported. A variable occurrence is positive
/// when the negation parity at the occurrence matches the parity at its
/// nearest binder; the nearest binder with the same name wins.
pub fn validate_mu_formula<A, V: StateValue>(formula: &MuFormula<A, V>) -> (r: Result<(), MuValidationError<V>>)
    ensures
        match first_problem(mview_vars(*formula), true, Seq::empty()) {
            None => r is Ok,
            Some(MuValidationError::UnboundVariable { variable }) => r matches Err(
                MuValidationError::UnboundVariable { variable: v },
            ) && v@ == variable,
            Some(MuValidationError::NonMonotoneVariable { variable }) => r matches Err(
                MuValidationError::NonMonotoneVariable { variable: v },
            ) && v@ == variable,
        },
{
    let mut bindings: Vec<(V, bool)> = Vec::new();
    proof {
        assert(binding_views(bindings@) =~= Seq::empty());
    }
    validate_inner(formula, true, &mut bindings)
}

/// The value bound to `x` by the latest binding in `env`.
pub open spec fn env_lookup<V>(env: Seq<(V, Seq<bool>)>, x: V) -> Option<Seq<bool>>
    decreases env.len(),
{
    if env.len() == 0 {
        None
    } else if env.last().0 == x {
        Some(env.last().1)
    } else {
        env_lookup(env.drop_last(), x)
    }
}

/// The view of an environment.
pub open spec fn env_views<V: View>(env: Seq<(V, Vec<bool>)>) -> Seq<(V::V, Seq<bool>)> {
    env.map_values(|p: (V, Vec<bool>)| (p.0@, p.1@))
}

/// The row of the atom table for `a` (first listed atom with its view).
pub open spec fn mu_atom_row<A: View>(atoms: Seq<A>, table: Seq<Vec<bool>>, a: A) -> Seq<bool> {
    match first_index_of(views_of(atoms), a@) {
        Some(i) => table[i]@,
        None => Seq::empty(),
    }
}

/// Pointwise negation.
pub open spec fn negated(w: Seq<bool>) -> Seq<bool> {
    Seq::new(w.len(), |s: int| !w[s])
}

/// Pointwise conjunction (`conj`) or disjunction.
pub open spec fn paired(x: Seq<bool>, y: Seq<bool>, conj: bool) -> Seq<bool> {
    Seq::new(x.len(), |s: int| if conj { x[s] && y[s] } else { x[s] || y[s] })
}

/// `v` is a value that `f` denotes on the totalized graph `g` under `env`
/// (latest binding wins): connectives pointwise, `<>`/`[]` by predecessors,
/// and a `mu`/`nu` binder denotes a fixpoint of its body.
pub open spec fn mu_denotes<S, A: View, V: View>(
    g: ReachableGraph<S>,
    f: MuFormula<A, V>,
    env: Seq<(V::V, Seq<bool>)>,
    atoms: Seq<A>,
    table: Seq<Vec<bool>>,
    v: Seq<bool>,
) -> bool
    decreases f,
{
    let n = g.states.len() as nat;
    match f {
        MuFormula::True => v == everything(n),
        MuFormula::False => v == Seq::new(n, |s: int| false),
        MuFormula::Atom(a) => v == mu_atom_row(atoms, table, a),
        MuFormula::Var(x) => env_lookup(env, x@) == Some(v),
        MuFormula::Not(i) => exists|w: Seq<bool>|
            mu_denotes(g, *i, env, atoms, table, w) && w.len() == n && v == #[trigger] negated(w),
        MuFormula::And(l, r) => exists|x: Seq<bool>, y: Seq<bool>|
            mu_denotes(g, *l, env, atoms, table, x) && mu_denotes(g, *r, env, atoms, table, y) && x.len() == n && v
                == #[trigger] paired(x, y, true),
        MuFormula::Or(l, r) => exists|x: Seq<bool>, y: Seq<bool>|
            mu_denotes(g, *l, env, atoms, table, x) && mu_denotes(g, *r, env, atoms, table, y) && x.len() == n && v
                == #[trigger] paired(x, y, false),
        MuFormula::Diamond(i) => exists|w: Seq<bool>|
            mu_denotes(g, *i, env, atoms, table, w) && w.len() == n && v == #[trigger] pre_set(g, false, w),
        MuFormula::Box(i) => exists|w: Seq<bool>|
            mu_denotes(g, *i, env, atoms, table, w) && w.len() == n && v == #[trigger] pre_set(g, true, w),
        MuFormula::Mu { variable, body } => {
            &&& v.len() == n
            &&& mu_denotes(g, *body, env.push((variable@, v)), atoms, table, v)
            &&& monotone_body(*body, variable@, true) ==> forall|p: Seq<bool>, w: Seq<bool>|
                p.len() == n && w.len() == n && mu_denotes(g, *body, env.push((variable@, p)), atoms, table, w)
                    && #[trigger] subset(w, p) ==> subset(v, p)
        },
        MuFormula::Nu { variable, body } => {
            &&& v.len() == n
            &&& mu_denotes(g, *body, env.push((variable@, v)), atoms, table, v)
            &&& monotone_body(*body, variable@, true) ==> forall|p: Seq<bool>, w: Seq<bool>|
                p.len() == n && w.len() == n && mu_denotes(g, *body, env.push((variable@, p)), atoms, table, w)
                    && #[trigger] subset(p, w) ==> subset(p, v)
        },
    }
}

/// `f` has no fixpoint binder, and every occurrence of the variable `x` in
/// it lies under an even (`positive`) or odd (`!positive`) number of
/// negations: the body of a binder of `x` on which iteration is monotone.
pub open spec fn monotone_body<A, V: View>(f: MuFormula<A, V>, x: V::V, positive: bool) -> bool
    decreases f,
{
    match f {
        MuFormula::True | MuFormula::False | MuFormula::Atom(_) => true,
        MuFormula::Var(y) => y@ == x ==> positive,
        MuFormula::Not(i) => monotone_body(*i, x, !positive),
        MuFormula::And(l, r) | MuFormula::Or(l, r) => monotone_body(*l, x, positive) && monotone_body(*r, x, positive),
        MuFormula::Diamond(i) | MuFormula::Box(i) => monotone_body(*i, x, positive),
        MuFormula::Mu { .. } | MuFormula::Nu { .. } => false,
    }
}

/// Over a binder-free formula in which `x` occurs only with polarity
/// `positive`, enlarging the value bound to `x` enlarges (or, for negative
/// polarity, shrinks) the value the formula denotes.
pub proof fn lemma_denotes_monotone<S, A: View, V: View>(
    g: ReachableGraph<S>,
    f: MuFormula<A, V>,
    env: Seq<(V::V, Seq<bool>)>,
    x: V::V,
    small: Seq<bool>,
    large: Seq<bool>,
    atoms: Seq<A>,
    table: Seq<Vec<bool>>,
    a: Seq<bool>,
    b: Seq<bool>,
    positive: bool,
)
    requires
        g.wf(),
        monotone_body(f, x, positive),
        small.len() == g.states.len(),
        large.len() == g.states.len(),
        subset(small, large),
        mu_denotes(g, f, env.push((x, small)), atoms, table, a),
        mu_denotes(g, f, env.push((x, large)), atoms, table, b),
    ensures
        positive ==> forall|s: int| 0 <= s < g.states.len() && #[trigger] a[s] ==> b[s],
        !positive ==> forall|s: int| 0 <= s < g.states.len() && #[trigger] b[s] ==> a[s],
    decreases f,
{
    let n = g.states.len();
    let e1 = env.push((x, small));
    let e2 = env.push((x, large));
    match f {
        MuFormula::Var(y) => {
            if y@ == x {
                assert(e1.last() == (x, small));
                assert(e2.last() == (x, large));
                assert(a == small && b == large);
            } else {
                assert(e1.drop_last() == env);
                assert(e2.drop_last() == env);
                assert(env_lookup(e1, y@) == env_lookup(env, y@));
                assert(env_lookup(e2, y@) == env_lookup(env, y@));
                assert(a == b);
            }
        },
        MuFormula::Not(i) => {
            let w1 = choose|w: Seq<bool>| mu_denotes(g, *i, e1, atoms, table, w) && w.len() == n && a == #[trigger] negated(w);
            let w2 = choose|w: Seq<bool>| mu_denotes(g, *i, e2, atoms, table, w) && w.len() == n && b == #[trigger] negated(w);
            lemma_denotes_monotone(g, *i, env, x, small, large, atoms, table, w1, w2, !positive);
            assert(a.len() == n && b.len() == n);
        },
        MuFormula::And(l, r) | MuFormula::Or(l, r) => {
            let conj = f is And;
            let (x1, y1) = choose|x1: Seq<bool>, y1: Seq<bool>|
                mu_denotes(g, *l, e1, atoms, table, x1) && mu_denotes(g, *r, e1, atoms, table, y1) && x1.len() == n
                    && a == #[trigger] paired(x1, y1, conj);
            let (x2, y2) = choose|x2: Seq<bool>, y2: Seq<bool>|
                mu_denotes(g, *l, e2, atoms, table, x2) && mu_denotes(g, *r, e2, atoms, table, y2) && x2.len() == n
                    && b == #[trigger] paired(x2, y2, conj);
            lemma_denotes_monotone(g, *l, env, x, small, large, atoms, table, x1, x2, positive);
            lemma_denotes_monotone(g, *r, env, x, small, large, atoms, table, y1, y2, positive);
            if positive {
                assert forall|s: int| 0 <= s < n && #[trigger] a[s] implies b[s] by {
                    if x1[s] { assert(x2[s]); }
                    if y1[s] { assert(y2[s]); }
                }
            } else {
                assert forall|s: int| 0 <= s < n && #[trigger] b[s] implies a[s] by {
                    if x2[s] { assert(x1[s]); }
                    if y2[s] { assert(y1[s]); }
                }
            }
        },
        MuFormula::Diamond(i) | MuFormula::Box(i) => {
            let all = f is Box;
            let w1 = choose|w: Seq<bool>|
                mu_denotes(g, *i, e1, atoms, table, w) && w.len() == n && a == #[trigger] pre_set(g, all, w);
            let w2 = choose|w: Seq<bool>|
                mu_denotes(g, *i, e2, atoms, table, w) && w.len() == n && b == #[trigger] pre_set(g, all, w);
            lemma_denotes_monotone(g, *i, env, x, small, large, atoms, table, w1, w2, positive);
            if positive {
                assert(subset(w1, w2));
                assert forall|s: int| 0 <= s < n && #[trigger] a[s] implies b[s] by {
                    crate::fixpoint::lemma_pre_monotone(g, all, w1, w2, s);
                }
            } else {
                assert(subset(w2, w1));
                assert forall|s: int| 0 <= s < n && #[trigger] b[s] implies a[s] by {
                    crate::fixpoint::lemma_pre_monotone(g, all, w2, w1, s);
                }
            }
        },
        _ => {},
    }
}


/// Law: a `mu` binder whose body is binder-free and monotone in its
/// variable denotes the least fixpoint of the body: a fixpoint that lies
/// inside every set `p` the body maps into itself.
pub proof fn lemma_mu_least_fixpoint<S, A: View, V: View>(
    g: ReachableGraph<S>,
    variable: V,
    body: MuFormula<A, V>,
    env: Seq<(V::V, Seq<bool>)>,
    atoms: Seq<A>,
    table: Seq<Vec<bool>>,
    v: Seq<bool>,
    p: Seq<bool>,
    w: Seq<bool>,
)
    requires
        mu_denotes(g, MuFormula::Mu { variable, body: Box::new(body) }, env, atoms, table, v),
        monotone_body(body, variable@, true),
        p.len() == g.states.len(),
        w.len() == g.states.len(),
        mu_denotes(g, body, env.push((variable@, p)), atoms, table, w),
        forall|s: int| 0 <= s < w.len() && #[trigger] w[s] ==> p[s],
    ensures
        mu_denotes(g, body, env.push((variable@, v)), atoms, table, v),
        forall|s: int| 0 <= s < v.len() && #[trigger] v[s] ==> p[s],
{
    assert(subset(w, p));
}

/// Law: a `nu` binder whose body is binder-free and monotone in its
/// variable denotes the greatest fixpoint of the body: a fixpoint that
/// contains every set `p` the body maps onto a superset of itself.
pub proof fn lemma_nu_greatest_fixpoint<S, A: View, V: View>(
    g: ReachableGraph<S>,
    variable: V,
    body: MuFormula<A, V>,
    env: Seq<(V::V, Seq<bool>)>,
    atoms: Seq<A>,
    table: Seq<Vec<bool>>,
    v: Seq<bool>,
    p: Seq<bool>,
    w: Seq<bool>,
)
    requires
        mu_denotes(g, MuFormula::Nu { variable, body: Box::new(body) }, env, atoms, table, v),
        monotone_body(body, variable@, true),
        p.len() == g.states.len(),
        w.len() == g.states.len(),
        mu_denotes(g, body, env.push((variable@, p)), atoms, table, w),
        forall|s: int| 0 <= s < p.len() && #[trigger] p[s] ==> w[s],
    ensures
        mu_denotes(g, body, env.push((variable@, v)), atoms, table, v),
        forall|s: int| 0 <= s < p.len() && #[trigger] p[s] ==> v[s],
{
    assert(subset(p, w));
}

/// A value that is a fixpoint of the body and lies below every pre-fixpoint
/// (above every post-fixpoint, for `nu`) is what the binder denotes.
proof fn lemma_binder_denotes<S, A: View, V: View>(
    g: ReachableGraph<S>,
    variable: V,
    body: MuFormula<A, V>,
    greatest: bool,
    env: Seq<(V::V, Seq<bool>)>,
    atoms: Seq<A>,
    table: Seq<Vec<bool>>,
    v: Seq<bool>,
)
    requires
        v.len() == g.states.len(),
        mu_denotes(g, body, env.push((variable@, v)), atoms, table, v),
        monotone_body(body, variable@, true) && !greatest ==> forall|p: Seq<bool>, w: Seq<bool>|
            p.len() == g.states.len() && w.len() == g.states.len() && mu_denotes(g, body, env.push((variable@, p)), atoms, table, w)
                && #[trigger] subset(w, p) ==> subset(v, p),
        monotone_body(body, variable@, true) && greatest ==> forall|p: Seq<bool>, w: Seq<bool>|
            p.len() == g.states.len() && w.len() == g.states.len() && mu_denotes(g, body, env.push((variable@, p)), atoms, table, w)
                && #[trigger] subset(p, w) ==> subset(p, v),
    ensures
        !greatest ==> mu_denotes(g, MuFormula::Mu { variable, body: Box::new(body) }, env, atoms, table, v),
        greatest ==> mu_denotes(g, MuFormula::Nu { variable, body: Box::new(body) }, env, atoms, table, v),
{
}

pub(crate) fn bits_of(n: usize, value: bool) -> (v: Vec<bool>)
    ensures
        v@ == Seq::new(n as nat, |s: int| value),
{
    let mut v: Vec<bool> = Vec::new();
    let mut i: usize = 0;
    while i < n
        invariant
            i <= n,
            v@ == Seq::new(i as nat, |s: int| value),
        decreases n - i,
    {
        v.push(value);
        i += 1;
        assert(v@ =~= Seq::new(i as nat, |s: int| value));
    }
    v
}

pub(crate) fn same_bits(x: &Vec<bool>, y: &Vec<bool>) -> (same: bool)
    ensures
        same == (x@ == y@),
{
    if x.len() != y.len() {
        return false;
    }
    let mut i: usize = 0;
    while i < x.len()
        invariant
            x@.len() == y@.len(),
            i <= x@.len(),
            forall|j: int| 0 <= j < i ==> x@[j] == y@[j],
        decreases x.len() - i,
    {
        if x[i] != y[i] {
            return false;
        }
        i += 1;
    }
    assert(x@ =~= y@);
    true
}

fn lookup_env<V: StateValue>(env: &Vec<(V, Vec<bool>)>, x: &V) -> (r: Option<Vec<bool>>)
    ensures
        match env_lookup(env_views(env@), x@) {
            Some(v) => r matches Some(w) && w@ == v,
            None => r is None,
        },
{
    let mut k: usize = env.len();
    proof {
        assert(env_views(env@).subrange(0, k as int) =~= env_views(env@));
    }
    while k > 0
        invariant
            k <= env@.len(),
            env_lookup(env_views(env@), x@) == env_lookup(env_views(env@).subrange(0, k as int), x@),
        decreases k,
    {
        let ghost sub = env_views(env@).subrange(0, k as int);
        assert(sub.drop_last() =~= env_views(env@).subrange(0, k - 1));
        if env[k - 1].0.same_value(x) {
            let v = env[k - 1].1.clone();
            assert(v@ =~= env@[k - 1].1@);
            return Some(v);
        }
        k -= 1;
    }
    None
}

/// Evaluate `f` under `env`; `Err` when a variable is unbound or a fixpoint
/// iteration fails to settle within `n + 1` rounds.
fn mu_eval<S, A: StateValue, V: StateValue>(
    g: &ReachableGraph<S>,
    f: &MuFormula<A, V>,
    env: &mut Vec<(V, Vec<bool>)>,
    atoms: &Vec<A>,
    table: &Vec<Vec<bool>>,
    iterations: &mut usize,
) -> (r: Result<Vec<bool>, ()>)
    requires
        g.wf(),
        forall|i: int| 0 <= i < table@.len() ==> (#[trigger] table@[i])@.len() == g.states.len(),
        forall|i: int| 0 <= i < old(env)@.len() ==> (#[trigger] old(env)@[i]).1@.len() == g.states.len(),
    ensures
        final(env)@ == old(env)@,
        r matches Ok(v) ==> mu_denotes(*g, *f, env_views(old(env)@), atoms@, table@, v@) && v@.len() == g.states.len(),
    decreases f, 1int,
{
    let n = g.states.len();
    let ghost e0 = env_views(env@);
    match f {
        MuFormula::True => {
            let v = crate::graph::all_true(n);
            assert(v@ =~= everything(g.states.len() as nat));
            assert(mu_denotes(*g, *f, e0, atoms@, table@, v@));
            Ok(v)
        },
        MuFormula::False => {
            let v = bits_of(n, false);
            assert(v@ =~= Seq::new(g.states.len() as nat, |s: int| false));
            assert(mu_denotes(*g, *f, e0, atoms@, table@, v@));
            Ok(v)
        },
        MuFormula::Atom(a) => {
            match position_of(atoms, a) {
                Some(i) => {
                    if i < table.len() {
                        let v = table[i].clone();
                        proof {
                            assert(v@ =~= table@[i as int]@);
                            crate::state::lemma_first_index_of(views_of(atoms@), a@);
                        }
                        assert(mu_denotes(*g, *f, e0, atoms@, table@, v@));
                        Ok(v)
                    } else {
                        Err(())
                    }
                },
                None => Err(()),
            }
        },
        MuFormula::Var(x) => {
            match lookup_env(env, x) {
                Some(v) => {
                    if v.len() == n {
                        Ok(v)
                    } else {
                        Err(())
                    }
                },
                None => Err(()),
            }
        },
        MuFormula::Not(i) => {
            let w = mu_eval(g, i, env, atoms, table, iterations)?;
            let v = negate_bits(&w);
            proof {
                assert(mu_denotes(*g, **i, e0, atoms@, table@, w@));
                assert(v@ =~= negated(w@));
                assert(exists|w2: Seq<bool>|
                    #[trigger] mu_denotes(*g, **i, e0, atoms@, table@, w2) && w2.len() == g.states.len() && v@ == negated(w2));
                assert(*f == MuFormula::Not(*i));
                lemma_denotes_not(*g, **i, e0, atoms@, table@, w@);
            }
            assert(mu_denotes(*g, *f, e0, atoms@, table@, v@));
            Ok(v)
        },
        MuFormula::And(l, r) | MuFormula::Or(l, r) => {
            let x = mu_eval(g, l, env, atoms, table, iterations)?;
            let y = mu_eval(g, r, env, atoms, table, iterations)?;
            let conj = match f {
                MuFormula::And(_, _) => true,
                _ => false,
            };
            let v = pair_bits(&x, &y, conj);
            proof {
                assert(mu_denotes(*g, **l, e0, atoms@, table@, x@));
                assert(mu_denotes(*g, **r, e0, atoms@, table@, y@));
                assert(v@ =~= paired(x@, y@, conj));
                assert(exists|x2: Seq<bool>, y2: Seq<bool>|
                    #[trigger] mu_denotes(*g, **l, e0, atoms@, table@, x2) && #[trigger] mu_denotes(*g, **r, e0, atoms@, table@, y2)
                        && x2.len() == g.states.len() && v@ == paired(x2, y2, conj));
                lemma_denotes_pair(*g, **l, **r, e0, atoms@, table@, x@, y@);
                if conj {
                    assert(*f == MuFormula::And(*l, *r));
                } else {
                    assert(*f == MuFormula::Or(*l, *r));
                }
            }
            assert(mu_denotes(*g, *f, e0, atoms@, table@, v@));
            Ok(v)
        },
        MuFormula::Diamond(i) => {
            let w = mu_eval(g, i, env, atoms, table, iterations)?;
            let v = crate::fixpoint::pre_vec(g, false, &w);
            proof {
                assert(mu_denotes(*g, **i, e0, atoms@, table@, w@));
            }
            assert(mu_denotes(*g, *f, e0, atoms@, table@, v@));
            Ok(v)
        },
        MuFormula::Box(i) => {
            let w = mu_eval(g, i, env, atoms, table, iterations)?;
            let v = crate::fixpoint::pre_vec(g, true, &w);
            proof {
                assert(mu_denotes(*g, **i, e0, atoms@, table@, w@));
            }
            assert(mu_denotes(*g, *f, e0, atoms@, table@, v@));
            Ok(v)
        },
        MuFormula::Mu { variable, body } => {
            let r = mu_fixpoint(g, variable, body, false, env, atoms, table, iterations);
            proof {
                if let Ok(v) = &r {
                    lemma_binder_denotes(*g, *variable, **body, false, e0, atoms@, table@, v@);
                }
            }
            r
        },
        MuFormula::Nu { variable, body } => {
            let r = mu_fixpoint(g, variable, body, true, env, atoms, table, iterations);
            proof {
                if let Ok(v) = &r {
                    lemma_binder_denotes(*g, *variable, **body, true, e0, atoms@, table@, v@);
                }
            }
            r
        },
    }
}

/// Iterate the body of a `mu` (from the empty set) or `nu` (from the full
/// set) binder until it settles; `Err` after `n + 1` unsettled rounds.
fn mu_fixpoint<S, A: StateValue, V: StateValue>(
    g: &ReachableGraph<S>,
    variable: &V,
    body: &MuFormula<A, V>,
    greatest: bool,
    env: &mut Vec<(V, Vec<bool>)>,
    atoms: &Vec<A>,
    table: &Vec<Vec<bool>>,
    iterations: &mut usize,
) -> (r: Result<Vec<bool>, ()>)
    requires
        g.wf(),
        forall|i: int| 0 <= i < table@.len() ==> (#[trigger] table@[i])@.len() == g.states.len(),
        forall|i: int| 0 <= i < old(env)@.len() ==> (#[trigger] old(env)@[i]).1@.len() == g.states.len(),
    ensures
        final(env)@ == old(env)@,
        r matches Ok(v) ==> v@.len() == g.states.len() && mu_denotes(
            *g,
            *body,
            env_views(old(env)@).push((variable@, v@)),
            atoms@,
            table@,
            v@,
        ),
        r matches Ok(v) ==> (monotone_body(*body, variable@, true) && !greatest ==> forall|p: Seq<bool>, w: Seq<bool>|
            p.len() == g.states.len() && w.len() == g.states.len() && #[trigger] mu_denotes(
                *g,
                *body,
                env_views(old(env)@).push((variable@, p)),
                atoms@,
                table@,
                w,
            ) && subset(w, p) ==> subset(v@, p)),
        r matches Ok(v) ==> (monotone_body(*body, variable@, true) && greatest ==> forall|p: Seq<bool>, w: Seq<bool>|
            p.len() == g.states.len() && w.len() == g.states.len() && #[trigger] mu_denotes(
                *g,
                *body,
                env_views(old(env)@).push((variable@, p)),
                atoms@,
                table@,
                w,
            ) && subset(p, w) ==> subset(p, v@)),
    decreases body, 2int,
{
    let n = g.states.len();
    let ghost e0 = env_views(env@);
    let ghost env0 = env@;
    let mut current = bits_of(n, greatest);
    let mut fuel: usize = if n < usize::MAX { n + 1 } else { n };
    loop
        invariant
            g.wf(),
            n == g.states.len(),
            forall|i: int| 0 <= i < table@.len() ==> (#[trigger] table@[i])@.len() == g.states.len(),
            forall|i: int| 0 <= i < env@.len() ==> (#[trigger] env@[i]).1@.len() == g.states.len(),
            env@ == env0,
            env0 == old(env)@,
            e0 == env_views(env0),
            current@.len() == n,
            monotone_body(*body, variable@, true) && !greatest ==> forall|p: Seq<bool>, w: Seq<bool>|
                p.len() == n && w.len() == n && #[trigger] mu_denotes(*g, *body, e0.push((variable@, p)), atoms@, table@, w) && subset(w, p)
                    ==> subset(current@, p),
            monotone_body(*body, variable@, true) && greatest ==> forall|p: Seq<bool>, w: Seq<bool>|
                p.len() == n && w.len() == n && #[trigger] mu_denotes(*g, *body, e0.push((variable@, p)), atoms@, table@, w) && subset(p, w)
                    ==> subset(p, current@),
        decreases fuel,
    {
        env.push((variable.copy_value(), current.clone()));
        proof {
            assert(env@.last().1@ =~= current@);
            assert(env_views(env@) =~= e0.push((variable@, current@)));
        }
        if *iterations < usize::MAX {
            *iterations = *iterations + 1;
        }
        let result = mu_eval(g, body, env, atoms, table, iterations);
        env.pop();
        proof {
            assert(env@ =~= env0);
        }
        let next = match result {
            Ok(v) => v,
            Err(()) => {
                return Err(());
            },
        };
        if same_bits(&next, &current) {
            return Ok(current);
        }
        if fuel == 0 {
            return Err(());
        }
        fuel -= 1;
        proof {
            if monotone_body(*body, variable@, true) {
                if !greatest {
                    assert forall|p: Seq<bool>, w: Seq<bool>|
                        p.len() == n && w.len() == n && #[trigger] mu_denotes(*g, *body, e0.push((variable@, p)), atoms@, table@, w)
                            && subset(w, p) implies subset(next@, p) by {
                        assert(subset(current@, p));
                        assert(mu_denotes(*g, *body, e0.push((variable@, current@)), atoms@, table@, next@));
                        lemma_denotes_monotone(*g, *body, e0, variable@, current@, p, atoms@, table@, next@, w, true);
                        assert forall|s: int| 0 <= s < next@.len() && #[trigger] next@[s] implies p[s] by {
                            assert(w[s]);
                        }
                    }
                } else {
                    assert forall|p: Seq<bool>, w: Seq<bool>|
                        p.len() == n && w.len() == n && #[trigger] mu_denotes(*g, *body, e0.push((variable@, p)), atoms@, table@, w)
                            && subset(p, w) implies subset(p, next@) by {
                        assert(subset(p, current@));
                        assert(mu_denotes(*g, *body, e0.push((variable@, current@)), atoms@, table@, next@));
                        lemma_denotes_monotone(*g, *body, e0, variable@, p, current@, atoms@, table@, w, next@, true);
                        assert forall|s: int| 0 <= s < p.len() && #[trigger] p[s] implies next@[s] by {
                            assert(w[s]);
                        }
                    }
                }
            }
        }
        current = next;
    }
}

pub(crate) fn negate_bits(w: &Vec<bool>) -> (v: Vec<bool>)
    ensures
        v@.len() == w@.len(),
        forall|s: int| 0 <= s < w@.len() ==> v@[s] == !w@[s],
{
    let mut v: Vec<bool> = Vec::new();
    let mut s: usize = 0;
    while s < w.len()
        invariant
            s <= w@.len(),
            v@.len() == s,
            forall|j: int| 0 <= j < s ==> v@[j] == !w@[j],
        decreases w.len() - s,
    {
        v.push(!w[s]);
        s += 1;
    }
    v
}

pub(crate) fn pair_bits(x: &Vec<bool>, y: &Vec<bool>, conj: bool) -> (v: Vec<bool>)
    requires
        x@.len() == y@.len(),
    ensures
        v@.len() == x@.len(),
        forall|s: int| 0 <= s < x@.len() ==> v@[s] == if conj { x@[s] && y@[s] } else { x@[s] || y@[s] },
{
    let mut v: Vec<bool> = Vec::new();
    let mut s: usize = 0;
    while s < x.len()
        invariant
            x@.len() == y@.len(),
            s <= x@.len(),
            v@.len() == s,
            forall|j: int| 0 <= j < s ==> v@[j] == if conj { x@[j] && y@[j] } else { x@[j] || y@[j] },
        decreases x.len() - s,
    {
        v.push(if conj { x[s] && y[s] } else { x[s] || y[s] });
        s += 1;
    }
    v
}

proof fn lemma_denotes_not<S, A: View, V: View>(
    g: ReachableGraph<S>,
    i: MuFormula<A, V>,
    env: Seq<(V::V, Seq<bool>)>,
    atoms: Seq<A>,
    table: Seq<Vec<bool>>,
    w: Seq<bool>,
)
    requires
        mu_denotes(g, i, env, atoms, table, w),
        w.len() == g.states.len(),
    ensures
        mu_denotes(g, MuFormula::Not(Box::new(i)), env, atoms, table, negated(w)),
{
}

proof fn lemma_denotes_pair<S, A: View, V: View>(
    g: ReachableGraph<S>,
    l: MuFormula<A, V>,
    r: MuFormula<A, V>,
    env: Seq<(V::V, Seq<bool>)>,
    atoms: Seq<A>,
    table: Seq<Vec<bool>>,
    x: Seq<bool>,
    y: Seq<bool>,
)
    requires
        mu_denotes(g, l, env, atoms, table, x),
        mu_denotes(g, r, env, atoms, table, y),
        x.len() == g.states.len(),
    ensures
        mu_denotes(g, MuFormula::And(Box::new(l), Box::new(r)), env, atoms, table, paired(x, y, true)),
        mu_denotes(g, MuFormula::Or(Box::new(l), Box::new(r)), env, atoms, table, paired(x, y, false)),
{
}

/// `acc` followed by the atoms of `f` that it does not list yet, in order
/// of first occurrence.
pub open spec fn atoms_added<B, W>(f: MuFormula<B, W>, acc: Seq<B>) -> Seq<B>
    decreases f,
{
    match f {
        MuFormula::Atom(a) => if acc.contains(a) {
            acc
        } else {
            acc.push(a)
        },
        MuFormula::Not(i) | MuFormula::Diamond(i) | MuFormula::Box(i) => atoms_added(*i, acc),
        MuFormula::Mu { body, .. } | MuFormula::Nu { body, .. } => atoms_added(*body, acc),
        MuFormula::And(l, r) | MuFormula::Or(l, r) => atoms_added(*r, atoms_added(*l, acc)),
        _ => acc,
    }
}

/// Add the atoms of `f` not yet listed, in order of first occurrence.
pub(crate) fn collect_mu_atoms<A: StateValue, V: View>(f: &MuFormula<A, V>, atoms: &mut Vec<A>)
    ensures
        views_of(final(atoms)@) == atoms_added(mview(*f), views_of(old(atoms)@)),
    decreases f,
{
    match f {
        MuFormula::Atom(a) => {
            match position_of(atoms, a) {
                None => {
                    let ghost before = views_of(atoms@);
                    assert(!before.contains(a@)) by {
                        if before.contains(a@) {
                            let j = choose|j: int| 0 <= j < before.len() && before[j] == a@;
                            assert(atoms@[j]@ == a@);
                        }
                    }
                    atoms.push(a.copy_value());
                    assert(views_of(atoms@) =~= before.push(a@));
                },
                Some(j) => {
                    assert(views_of(atoms@)[j as int] == a@);
                },
            }
        },
        MuFormula::Not(i) | MuFormula::Diamond(i) | MuFormula::Box(i) => collect_mu_atoms(i, atoms),
        MuFormula::Mu { body, .. } | MuFormula::Nu { body, .. } => collect_mu_atoms(body, atoms),
        MuFormula::And(l, r) | MuFormula::Or(l, r) => {
            collect_mu_atoms(l, atoms);
            collect_mu_atoms(r, atoms);
        },
        _ => {},
    }
}

/// `ev` is the evaluation of `formula` over `c`, the captured reachable
/// graph of `model`: `v` is a value the formula denotes there (each binder
/// a fixpoint of its body) under the atom table, and the satisfying set and
/// the initial verdicts are read off `v`.
pub open spec fn mu_report_ok<S: View, A: View, V: View>(
    model: TransitionSystem<S>,
    formula: MuFormula<A, V>,
    c: ReachableGraph<S>,
    atoms: Seq<A>,
    table: Seq<Vec<bool>>,
    v: Seq<bool>,
    ev: MuEvaluation<S>,
) -> bool {
    &&& crate::graph::distinct_states(c) && crate::graph::roots_of_initial(c, model.initial())
    &&& captured_mu_ok(formula, c, atoms, table, v, ev)
}

/// `ev` reports `formula` over the reachable graph `c`: `v` is a value the
/// formula denotes there under the atom table, and the satisfying set and
/// the initial verdicts are read off `v`.
pub open spec fn captured_mu_ok<S: View, A: View, V: View>(
    formula: MuFormula<A, V>,
    c: ReachableGraph<S>,
    atoms: Seq<A>,
    table: Seq<Vec<bool>>,
    v: Seq<bool>,
    ev: MuEvaluation<S>,
) -> bool {
    &&& c.wf()
    &&& v.len() == c.states.len()
    &&& mu_denotes(c, formula, Seq::empty(), atoms, table, v)
    &&& ev.terminal_policy == MuTerminalPolicy::TotalizeWithSelfLoop
    &&& ev.reachable_states == c.states
    &&& ev.discovered_states == c.states.len()
    &&& ev.satisfying_state_indices@.len() == crate::graph::selected(v).len()
    &&& forall|j: int|
        0 <= j < ev.satisfying_state_indices@.len() ==> ev.satisfying_state_indices@[j] as int
            == #[trigger] crate::graph::selected(v)[j]
    &&& ev.initial@.len() == c.initial_ids@.len()
    &&& forall|k: int|
        0 <= k < ev.initial@.len() ==> {
            let e = #[trigger] ev.initial@[k];
            &&& e.state_index == c.initial_ids@[k]
            &&& e.state@ == c.states@[e.state_index as int]@
            &&& e.satisfied == v[e.state_index as int]
        }
}

/// Evaluate a validated modal mu-calculus formula over one complete
/// reachable graph; terminal states are totalized with a self-loop.
///
/// Fixpoints are computed by iteration from the empty (`mu`) or full
/// (`nu`) set until the body's value repeats; an iteration that has not
/// settled after one round per state reports `SnapshotInvariant`.
pub fn evaluate_mu<S: StateValue, A: StateValue, V: StateValue, F: Fn(&A, &S) -> bool>(
    model: &TransitionSystem<S>,
    formula: &MuFormula<A, V>,
    atom_holds: F,
) -> (r: Result<MuEvaluation<S>, MuError<V>>)
    requires
        forall|a: &A, s: &S| atom_holds.requires((a, s)),
    ensures
        first_problem(mview_vars(*formula), true, Seq::empty()) is Some <==> r matches Err(MuError::Validation(_)),
        r matches Ok(ev) ==> exists|c: ReachableGraph<S>, atoms: Seq<A>, table: Seq<Vec<bool>>, v: Seq<bool>|
            #[trigger] mu_report_ok(*model, *formula, c, atoms, table, v, ev) && crate::ctl::table_answers(
                atom_holds,
                c,
                atoms,
                table,
            ),
        r matches Err(e) ==> e is Validation || e is Model || e is SnapshotInvariant,
{
    match validate_mu_formula(formula) {
        Ok(()) => {},
        Err(e) => {
            return Err(MuError::Validation(e));
        },
    }
    let captured = match capture_reachable_graph(model) {
        Ok(c) => c,
        Err(e) => {
            return Err(
                match e {
                    GraphCaptureError::Model(m) => MuError::Model(m),
                    _ => MuError::SnapshotInvariant,
                },
            );
        },
    };
    let ghost c = captured.graph;
    match evaluate_captured_mu(
        captured.graph,
        captured.discovered_states,
        captured.explored_transitions,
        captured.max_depth_reached,
        formula,
        &atom_holds,
    ) {
        Ok(ev) => {
            proof {
                let (atoms, table, v) = choose|atoms: Seq<A>, table: Seq<Vec<bool>>, v: Seq<bool>| #[trigger] captured_mu_ok(
                    *formula,
                    c,
                    atoms,
                    table,
                    v,
                    ev,
                ) && crate::ctl::table_answers(atom_holds, c, atoms, table);
                assert(mu_report_ok(*model, *formula, c, atoms, table, v, ev));
            }
            Ok(ev)
        },
        Err(()) => Err(MuError::SnapshotInvariant),
    }
}

/// Evaluate `formula` over one reachable graph already captured; `Err`
/// when a variable is unbound or a fixpoint iteration does not settle.
pub(crate) fn evaluate_captured_mu<S: StateValue, A: StateValue, V: StateValue, F: Fn(&A, &S) -> bool>(
    graph: ReachableGraph<S>,
    discovered_states: usize,
    explored_transitions: usize,
    max_depth_reached: Option<usize>,
    formula: &MuFormula<A, V>,
    atom_holds: &F,
) -> (r: Result<MuEvaluation<S>, ()>)
    requires
        graph.wf(),
        discovered_states == graph.states.len(),
        forall|a: &A, s: &S| atom_holds.requires((a, s)),
    ensures
        r matches Ok(ev) ==> (exists|atoms: Seq<A>, table: Seq<Vec<bool>>, v: Seq<bool>|
            #[trigger] captured_mu_ok(*formula, graph, atoms, table, v, ev) && crate::ctl::table_answers(
                *atom_holds,
                graph,
                atoms,
                table,
            )) && ev.explored_transitions
            == explored_transitions && ev.max_depth_reached == max_depth_reached,
{
    let mut atoms: Vec<A> = Vec::new();
    collect_mu_atoms(formula, &mut atoms);
    let table = crate::ctl::atom_table(&graph, &atoms, atom_holds);
    let mut env: Vec<(V, Vec<bool>)> = Vec::new();
    let mut iterations: usize = 0;
    let values = match mu_eval(&graph, formula, &mut env, &atoms, &table, &mut iterations) {
        Ok(v) => v,
        Err(()) => {
            return Err(());
        },
    };
    proof {
        assert(env_views(Seq::<(V, Vec<bool>)>::empty()) =~= Seq::empty());
    }
    let satisfying = crate::fairness::selected_ids(&values);
    let mut initial: Vec<MuInitialEvaluation<S>> = Vec::new();
    let mut k: usize = 0;
    while k < graph.initial_ids.len()
        invariant
            graph.wf(),
            values@.len() == graph.states.len(),
            k <= graph.initial_ids@.len(),
            initial@.len() == k,
            forall|j: int|
                0 <= j < k ==> {
                    let e = #[trigger] initial@[j];
                    &&& e.state_index == graph.initial_ids@[j]
                    &&& e.state@ == graph.states@[e.state_index as int]@
                    &&& e.satisfied == values@[e.state_index as int]
                },
        decreases graph.initial_ids.len() - k,
    {
        let idx = graph.initial_ids[k];
        initial.push(MuInitialEvaluation { state_index: idx, state: graph.states[idx].copy_value(), satisfied: values[idx] });
        k += 1;
    }
    let ghost c = graph;
    let ev = MuEvaluation {
        terminal_policy: MuTerminalPolicy::TotalizeWithSelfLoop,
        reachable_states: graph.states,
        satisfying_state_indices: satisfying,
        initial,
        discovered_states,
        explored_transitions,
        max_depth_reached,
        fixpoint_iterations: iterations,
    };
    proof {
        assert(captured_mu_ok(*formula, c, atoms@, table@, values@, ev));
        assert(crate::ctl::table_answers(*atom_holds, c, atoms@, table@));
    }
    Ok(ev)
}

/// `f` has no binding problem in any context: every variable is bound
/// inside `f`, positively.
pub open spec fn closed_ok<A>(f: MuFormula<A, usize>) -> bool {
    forall|pos: bool, b: Seq<(usize, bool)>| #[trigger] first_problem(mview_vars(f), pos, b) is None
}

fn fresh_variable(next: &mut usize) -> (v: usize)
    requires
        *old(next) < usize::MAX,
    ensures
        v == *old(next),
        *final(next) == *old(next) + 1,
{
    let v = *next;
    *next = *next + 1;
    v
}

/// Number of temporal operators in a CTL formula: the fresh variables its
/// translation needs.
pub open spec fn temporal_count<A>(f: CtlFormula<A>) -> nat
    decreases f,
{
    match f {
        CtlFormula::True | CtlFormula::False | CtlFormula::Atom(_) => 0,
        CtlFormula::Not(i) | CtlFormula::Ex(i) | CtlFormula::Ax(i) => temporal_count(*i),
        CtlFormula::Ef(i) | CtlFormula::Af(i) | CtlFormula::Eg(i) | CtlFormula::Ag(i) => temporal_count(*i) + 1,
        CtlFormula::And(l, r) | CtlFormula::Or(l, r) => temporal_count(*l) + temporal_count(*r),
        CtlFormula::Eu(l, r) | CtlFormula::Au(l, r) => temporal_count(*l) + temporal_count(*r) + 1,
    }
}

/// The translation of `f` whose fresh variables are numbered from `n` on,
/// left to right in the order `compile_ctl_to_mu` takes them (the right
/// operand of an until before its left one).
pub open spec fn ctl_to_mu<A: View>(f: CtlFormula<A>, n: int) -> MuFormula<A::V, usize>
    decreases f,
{
    let v = n as usize;
    match f {
        CtlFormula::True => MuFormula::True,
        CtlFormula::False => MuFormula::False,
        CtlFormula::Atom(a) => MuFormula::Atom(a@),
        CtlFormula::Not(i) => MuFormula::Not(Box::new(ctl_to_mu(*i, n))),
        CtlFormula::And(l, r) => MuFormula::And(
            Box::new(ctl_to_mu(*l, n)),
            Box::new(ctl_to_mu(*r, n + temporal_count(*l))),
        ),
        CtlFormula::Or(l, r) => MuFormula::Or(
            Box::new(ctl_to_mu(*l, n)),
            Box::new(ctl_to_mu(*r, n + temporal_count(*l))),
        ),
        CtlFormula::Ex(i) => MuFormula::Diamond(Box::new(ctl_to_mu(*i, n))),
        CtlFormula::Ax(i) => MuFormula::Box(Box::new(ctl_to_mu(*i, n))),
        CtlFormula::Ef(i) => MuFormula::Mu {
            variable: v,
            body: Box::new(MuFormula::Or(Box::new(ctl_to_mu(*i, n + 1)), Box::new(MuFormula::Diamond(Box::new(MuFormula::Var(v)))))),
        },
        CtlFormula::Af(i) => MuFormula::Mu {
            variable: v,
            body: Box::new(MuFormula::Or(Box::new(ctl_to_mu(*i, n + 1)), Box::new(MuFormula::Box(Box::new(MuFormula::Var(v)))))),
        },
        CtlFormula::Eg(i) => MuFormula::Nu {
            variable: v,
            body: Box::new(MuFormula::And(Box::new(ctl_to_mu(*i, n + 1)), Box::new(MuFormula::Diamond(Box::new(MuFormula::Var(v)))))),
        },
        CtlFormula::Ag(i) => MuFormula::Nu {
            variable: v,
            body: Box::new(MuFormula::And(Box::new(ctl_to_mu(*i, n + 1)), Box::new(MuFormula::Box(Box::new(MuFormula::Var(v)))))),
        },
        CtlFormula::Eu(l, r) => MuFormula::Mu {
            variable: v,
            body: Box::new(
                MuFormula::Or(
                    Box::new(ctl_to_mu(*r, n + 1)),
                    Box::new(
                        MuFormula::And(
                            Box::new(ctl_to_mu(*l, n + 1 + temporal_count(*r))),
                            Box::new(MuFormula::Diamond(Box::new(MuFormula::Var(v)))),
                        ),
                    ),
                ),
            ),
        },
        CtlFormula::Au(l, r) => MuFormula::Mu {
            variable: v,
            body: Box::new(
                MuFormula::Or(
                    Box::new(ctl_to_mu(*r, n + 1)),
                    Box::new(
                        MuFormula::And(
                            Box::new(ctl_to_mu(*l, n + 1 + temporal_count(*r))),
                            Box::new(MuFormula::Box(Box::new(MuFormula::Var(v)))),
                        ),
                    ),
                ),
            ),
        },
    }
}

fn compile_inner<A: StateValue>(f: &CtlFormula<A>, next: &mut usize) -> (m: MuFormula<A, usize>)
    requires
        *old(next) + temporal_count(*f) <= usize::MAX,
    ensures
        *final(next) == *old(next) + temporal_count(*f),
        closed_ok(m),
        mview(m) == ctl_to_mu(*f, *old(next) as int),
    decreases f,
{
    match f {
        CtlFormula::True => {
            let m = MuFormula::True;
            assert(mview(m) == ctl_to_mu(*f, *old(next) as int));
            m
        },
        CtlFormula::False => {
            let m = MuFormula::False;
            assert(mview(m) == ctl_to_mu(*f, *old(next) as int));
            m
        },
        CtlFormula::Atom(a) => {
            let m = MuFormula::Atom(a.copy_value());
            assert(mview(m) == ctl_to_mu(*f, *old(next) as int));
            m
        },
        CtlFormula::Not(i) => {
            let x = compile_inner(i, next);
            let m = MuFormula::negate(x);
            proof {
                assert forall|pos: bool, b: Seq<(usize, bool)>| #[trigger] first_problem(mview_vars(m), pos, b) is None by {
                    assert(first_problem(mview_vars(x), !pos, b) is None);
                }
            }
            assert(mview(m) == ctl_to_mu(*f, *old(next) as int));
            m
        },
        CtlFormula::And(l, r) | CtlFormula::Or(l, r) => {
            let x = compile_inner(l, next);
            let y = compile_inner(r, next);
            let m = match f {
                CtlFormula::And(_, _) => MuFormula::and(x, y),
                _ => MuFormula::or(x, y),
            };
            proof {
                assert forall|pos: bool, b: Seq<(usize, bool)>| #[trigger] first_problem(mview_vars(m), pos, b) is None by {
                    assert(first_problem(mview_vars(x), pos, b) is None);
                    assert(first_problem(mview_vars(y), pos, b) is None);
                }
            }
            assert(mview(m) == ctl_to_mu(*f, *old(next) as int));
            m
        },
        CtlFormula::Ex(i) | CtlFormula::Ax(i) => {
            let x = compile_inner(i, next);
            let m = match f {
                CtlFormula::Ex(_) => MuFormula::diamond(x),
                _ => MuFormula::boxed(x),
            };
            proof {
                assert forall|pos: bool, b: Seq<(usize, bool)>| #[trigger] first_problem(mview_vars(m), pos, b) is None by {
                    assert(first_problem(mview_vars(x), pos, b) is None);
                }
            }
            assert(mview(m) == ctl_to_mu(*f, *old(next) as int));
            m
        },
        CtlFormula::Ef(i) | CtlFormula::Af(i) | CtlFormula::Eg(i) | CtlFormula::Ag(i) => {
            let v = fresh_variable(next);
            let x = compile_inner(i, next);
            let m = match f {
                CtlFormula::Ef(_) => MuFormula::mu(v, MuFormula::or(x, MuFormula::diamond(MuFormula::var(v)))),
                CtlFormula::Af(_) => MuFormula::mu(v, MuFormula::or(x, MuFormula::boxed(MuFormula::var(v)))),
                CtlFormula::Eg(_) => MuFormula::nu(v, MuFormula::and(x, MuFormula::diamond(MuFormula::var(v)))),
                _ => MuFormula::nu(v, MuFormula::and(x, MuFormula::boxed(MuFormula::var(v)))),
            };
            proof {
                assert forall|pos: bool, b: Seq<(usize, bool)>| #[trigger] first_problem(mview_vars(m), pos, b) is None by {
                    reveal_with_fuel(first_problem, 4);
                    reveal_with_fuel(mview_vars, 4);
                    let b2 = b.push((v, pos));
                    assert(first_problem(mview_vars(x), pos, b2) is None);
                    assert(binding_of(b2, v) == Some(pos));
                }
            }
            assert(mview(m) == ctl_to_mu(*f, *old(next) as int)) by {
                reveal_with_fuel(mview, 5);
            }
            m
        },
        CtlFormula::Eu(l, r) | CtlFormula::Au(l, r) => {
            let v = fresh_variable(next);
            let y = compile_inner(r, next);
            let x = compile_inner(l, next);
            let m = match f {
                CtlFormula::Eu(_, _) => MuFormula::mu(
                    v,
                    MuFormula::or(y, MuFormula::and(x, MuFormula::diamond(MuFormula::var(v)))),
                ),
                _ => MuFormula::mu(v, MuFormula::or(y, MuFormula::and(x, MuFormula::boxed(MuFormula::var(v))))),
            };
            proof {
                assert forall|pos: bool, b: Seq<(usize, bool)>| #[trigger] first_problem(mview_vars(m), pos, b) is None by {
                    reveal_with_fuel(first_problem, 5);
                    reveal_with_fuel(mview_vars, 5);
                    let b2 = b.push((v, pos));
                    assert(first_problem(mview_vars(x), pos, b2) is None);
                    assert(first_problem(mview_vars(y), pos, b2) is None);
                    assert(binding_of(b2, v) == Some(pos));
                }
            }
            assert(mview(m) == ctl_to_mu(*f, *old(next) as int)) by {
                reveal_with_fuel(mview, 5);
            }
            m
        },
    }
}

/// Translate a CTL formula into the modal mu-calculus: `EF p` becomes
/// `mu X. p or <>X`, `AF p` `mu X. p or []X`, `EG p` `nu X. p and <>X`,
/// `AG p` `nu X. p and []X`, `E[p U q]` `mu X. q or (p and <>X)` and
/// `A[p U q]` `mu X. q or (p and []X)`, with fresh numbered variables.
/// The result is always well formed: every variable is bound, positively.
pub fn compile_ctl_to_mu<A: StateValue>(formula: &CtlFormula<A>) -> (m: MuFormula<A, usize>)
    requires
        temporal_count(*formula) <= usize::MAX,
    ensures
        closed_ok(m),
        first_problem(mview_vars(m), true, Seq::empty()) is None,
        mview(m) == ctl_to_mu(*formula, 0),
{
    let mut next: usize = 0;
    let m = compile_inner(formula, &mut next);
    proof {
        assert(first_problem(mview_vars(m), true, Seq::empty()) is None);
    }
    m
}

} // verus!
