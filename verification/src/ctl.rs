//! Typed CTL state formulas evaluated over one captured reachable graph.
use crate::fixpoint::{gfp, greatest_fixpoint, is_gfp, is_lfp, least_fixpoint, lfp, pre_set, pre_vec};
use crate::graph::{capture_reachable_graph, everything, GraphCaptureError, ReachableGraph};
use crate::model::{ModelError, TransitionSystem};
use crate::state::{first_index_of, position_of, views_of, StateValue};
use vstd::prelude::*;

verus! {

/// Typed CTL state formulas. Atoms are caller-defined values interpreted by
/// the callback given to `evaluate_ctl`.
#[derive(Debug, PartialEq, Eq)]
pub enum CtlFormula<A> {
    True,
    False,
    Atom(A),
    Not(Box<CtlFormula<A>>),
    And(Box<CtlFormula<A>>, Box<CtlFormula<A>>),
    Or(Box<CtlFormula<A>>, Box<CtlFormula<A>>),
    Ex(Box<CtlFormula<A>>),
    Ax(Box<CtlFormula<A>>),
    Ef(Box<CtlFormula<A>>),
    Af(Box<CtlFormula<A>>),
    Eg(Box<CtlFormula<A>>),
    Ag(Box<CtlFormula<A>>),
    Eu(Box<CtlFormula<A>>, Box<CtlFormula<A>>),
    Au(Box<CtlFormula<A>>, Box<CtlFormula<A>>),
}

impl<A> CtlFormula<A> {
    pub fn atom(atom: A) -> (f: Self)
        ensures
            f == CtlFormula::Atom(atom),
    {
        CtlFormula::Atom(atom)
    }

    pub fn negate(inner: Self) -> (f: Self)
        ensures
            f == CtlFormula::Not(Box::new(inner)),
    {
        CtlFormula::Not(Box::new(inner))
    }

    pub fn and(left: Self, right: Self) -> (f: Self)
        ensures
            f == CtlFormula::And(Box::new(left), Box::new(right)),
    {
        CtlFormula::And(Box::new(left), Box::new(right))
    }

    pub fn or(left: Self, right: Self) -> (f: Self)
        ensures
            f == CtlFormula::Or(Box::new(left), Box::new(right)),
    {
        CtlFormula::Or(Box::new(left), Box::new(right))
    }

    pub fn ex(inner: Self) -> (f: Self)
        ensures
            f == CtlFormula::Ex(Box::new(inner)),
    {
        CtlFormula::Ex(Box::new(inner))
    }

    pub fn ax(inner: Self) -> (f: Self)
        ensures
            f == CtlFormula::Ax(Box::new(inner)),
    {
        CtlFormula::Ax(Box::new(inner))
    }

    pub fn ef(inner: Self) -> (f: Self)
        ensures
            f == CtlFormula::Ef(Box::new(inner)),
    {
        CtlFormula::Ef(Box::new(inner))
    }

    pub fn af(inner: Self) -> (f: Self)
        ensures
            f == CtlFormula::Af(Box::new(inner)),
    {
        CtlFormula::Af(Box::new(inner))
    }

    pub fn eg(inner: Self) -> (f: Self)
        ensures
            f == CtlFormula::Eg(Box::new(inner)),
    {
        CtlFormula::Eg(Box::new(inner))
    }

    pub fn ag(inner: Self) -> (f: Self)
        ensures
            f == CtlFormula::Ag(Box::new(inner)),
    {
        CtlFormula::Ag(Box::new(inner))
    }

    pub fn eu(left: Self, right: Self) -> (f: Self)
        ensures
            f == CtlFormula::Eu(Box::new(left), Box::new(right)),
    {
        CtlFormula::Eu(Box::new(left), Box::new(right))
    }

    pub fn au(left: Self, right: Self) -> (f: Self)
        ensures
            f == CtlFormula::Au(Box::new(left), Box::new(right)),
    {
        CtlFormula::Au(Box::new(left), Box::new(right))
    }
}

/// CTL is evaluated on a totalized graph: a terminal state gets one
/// synthetic self-loop, so every path is infinite.
#[derive(Debug, Clone, Copy, PartialEq, Eq, Structural)]
pub enum CtlTerminalPolicy {
    TotalizeWithSelfLoop,
}

#[derive(Debug, Clone, PartialEq, Eq)]
pub enum CtlEvidenceAction {
    Model(String),
    TerminalSelfLoop,
}

/// One state in CTL evidence; the first step has no action.
#[derive(Debug, Clone, PartialEq, Eq)]
pub struct CtlEvidenceStep<S> {
    pub action: Option<CtlEvidenceAction>,
    pub state: S,
}

/// Evidence for a top-level verdict. A lasso stores the repeated closing
/// state as its last step; `cycle_start` indexes its earlier occurrence.
#[derive(Debug, Clone, PartialEq, Eq)]
pub enum CtlEvidence<S> {
    Finite { trace: Vec<CtlEvidenceStep<S>> },
    Lasso { trace: Vec<CtlEvidenceStep<S>>, cycle_start: usize },
}

#[derive(Debug, Clone, PartialEq, Eq)]
pub struct CtlInitialEvaluation<S> {
    pub state_index: usize,
    pub state: S,
    pub satisfied: bool,
    pub evidence: Option<CtlEvidence<S>>,
}

/// The complete CTL state-set result over one reachable-graph snapshot.
#[derive(Debug, Clone, PartialEq, Eq)]
pub struct CtlEvaluation<S> {
    pub terminal_policy: CtlTerminalPolicy,
    pub reachable_states: Vec<S>,
    pub satisfying_state_indices: Vec<usize>,
    pub initial: Vec<CtlInitialEvaluation<S>>,
    pub discovered_states: usize,
    pub explored_transitions: usize,
    pub max_depth_reached: Option<usize>,
    /// Number of distinct subformulas whose state sets were computed.
    pub memoized_subformulas: usize,
}

impl<S> CtlEvaluation<S> {
    pub fn all_initial_states_satisfy(&self) -> (r: bool)
        ensures
            r == forall|i: int| 0 <= i < self.initial@.len() ==> (#[trigger] self.initial@[i]).satisfied,
    {
        let mut i: usize = 0;
        while i < self.initial.len()
            invariant
                i <= self.initial@.len(),
                forall|j: int| 0 <= j < i ==> (#[trigger] self.initial@[j]).satisfied,
            decreases self.initial.len() - i,
        {
            if !self.initial[i].satisfied {
                return false;
            }
            i += 1;
        }
        true
    }

    pub fn any_initial_state_satisfies(&self) -> (r: bool)
        ensures
            r == exists|i: int| 0 <= i < self.initial@.len() && (#[trigger] self.initial@[i]).satisfied,
    {
        let mut i: usize = 0;
        while i < self.initial.len()
            invariant
                i <= self.initial@.len(),
                forall|j: int| 0 <= j < i ==> !(#[trigger] self.initial@[j]).satisfied,
            decreases self.initial.len() - i,
        {
            if self.initial[i].satisfied {
                return true;
            }
            i += 1;
        }
        false
    }
}

#[derive(Debug, Clone, PartialEq, Eq)]
pub enum CtlError {
    Model(ModelError),
    SnapshotInvariant,
}

/// The human-readable description of a CTL backend error.
pub open spec fn ctl_error_text(e: CtlError) -> Seq<char> {
    match e {
        CtlError::Model(m) => "CTL model capture failed: "@ + crate::model::model_error_text(m),
        CtlError::SnapshotInvariant => "CTL reachable-graph snapshot invariant failed"@,
    }
}

impl CtlError {
    pub fn message(&self) -> (text: String)
        ensures
            text@ == ctl_error_text(*self),
    {
        let mut out = String::new();
        match self {
            CtlError::Model(e) => {
                crate::text::append(&mut out, "CTL model capture failed: ");
                let t = e.message();
                crate::text::append(&mut out, t.as_str());
            },
            CtlError::SnapshotInvariant => crate::text::append(&mut out, "CTL reachable-graph snapshot invariant failed"),
        }
        assert(out@ =~= ctl_error_text(*self));
        out
    }
}

/// The row of the atom table for atom `a`: the row of the first listed atom
/// with the same view.
pub open spec fn atom_row<A: View>(atoms: Seq<A>, table: Seq<Vec<bool>>, a: A) -> Seq<bool> {
    match first_index_of(views_of(atoms), a@) {
        Some(i) => table[i]@,
        None => Seq::empty(),
    }
}

/// Every atom of `f` is listed in `atoms` (by view).
pub open spec fn atoms_listed<A: View>(f: CtlFormula<A>, atoms: Seq<A>) -> bool
    decreases f,
{
    match f {
        CtlFormula::True | CtlFormula::False => true,
        CtlFormula::Atom(a) => views_of(atoms).contains(a@),
        CtlFormula::Not(i) | CtlFormula::Ex(i) | CtlFormula::Ax(i) | CtlFormula::Ef(i) | CtlFormula::Af(i)
        | CtlFormula::Eg(i) | CtlFormula::Ag(i) => atoms_listed(*i, atoms),
        CtlFormula::And(l, r) | CtlFormula::Or(l, r) | CtlFormula::Eu(l, r) | CtlFormula::Au(l, r) => atoms_listed(
            *l,
            atoms,
        ) && atoms_listed(*r, atoms),
    }
}

/// The set of states satisfying `f` on the totalized graph `g`, given the
/// atom table: Boolean connectives pointwise, `EX`/`AX` by predecessors,
/// `EF`/`AF`/`EU`/`AU` as least and `EG`/`AG` as greatest fixpoints.
pub open spec fn ctl_value<S, A: View>(
    g: ReachableGraph<S>,
    f: CtlFormula<A>,
    atoms: Seq<A>,
    table: Seq<Vec<bool>>,
) -> Seq<bool>
    decreases f,
{
    let n = g.states.len() as nat;
    match f {
        CtlFormula::True => everything(n),
        CtlFormula::False => Seq::new(n, |s: int| false),
        CtlFormula::Atom(a) => atom_row(atoms, table, a),
        CtlFormula::Not(i) => {
            let v = ctl_value(g, *i, atoms, table);
            Seq::new(n, |s: int| !v[s])
        },
        CtlFormula::And(l, r) => {
            let x = ctl_value(g, *l, atoms, table);
            let y = ctl_value(g, *r, atoms, table);
            Seq::new(n, |s: int| x[s] && y[s])
        },
        CtlFormula::Or(l, r) => {
            let x = ctl_value(g, *l, atoms, table);
            let y = ctl_value(g, *r, atoms, table);
            Seq::new(n, |s: int| x[s] || y[s])
        },
        CtlFormula::Ex(i) => pre_set(g, false, ctl_value(g, *i, atoms, table)),
        CtlFormula::Ax(i) => pre_set(g, true, ctl_value(g, *i, atoms, table)),
        CtlFormula::Ef(i) => lfp(g, false, ctl_value(g, *i, atoms, table), everything(n)),
        CtlFormula::Af(i) => lfp(g, true, ctl_value(g, *i, atoms, table), everything(n)),
        CtlFormula::Eg(i) => gfp(g, false, Seq::new(n, |s: int| false), ctl_value(g, *i, atoms, table)),
        CtlFormula::Ag(i) => gfp(g, true, Seq::new(n, |s: int| false), ctl_value(g, *i, atoms, table)),
        CtlFormula::Eu(l, r) => lfp(g, false, ctl_value(g, *r, atoms, table), ctl_value(g, *l, atoms, table)),
        CtlFormula::Au(l, r) => lfp(g, true, ctl_value(g, *r, atoms, table), ctl_value(g, *l, atoms, table)),
    }
}

/// `t` is a successor of `s` in the totalized graph: the target of an edge
/// leaving `s`, or `s` itself when no edge leaves it.
pub open spec fn totalized_successor<S>(g: ReachableGraph<S>, s: int, t: int) -> bool {
    ||| g.outgoing@[s].len() == 0 && t == s
    ||| exists|k: int| 0 <= k < g.outgoing@[s].len() && (#[trigger] g.outgoing@[s]@[k]).target == t
}

/// The next-state operators of CTL: `AX f` holds at a state exactly when
/// `f` holds at every successor, and `EX f` exactly when `f` holds at some
/// successor (a state without outgoing edges is its own successor).
pub proof fn lemma_next_operators<S, A: View>(
    g: ReachableGraph<S>,
    f: CtlFormula<A>,
    atoms: Seq<A>,
    table: Seq<Vec<bool>>,
    s: int,
)
    requires
        g.wf(),
        0 <= s < g.states.len(),
    ensures
        ctl_value(g, CtlFormula::Ax(Box::new(f)), atoms, table)[s] <==> forall|t: int|
            0 <= t < g.states.len() && #[trigger] totalized_successor(g, s, t) ==> ctl_value(g, f, atoms, table)[t],
        ctl_value(g, CtlFormula::Ex(Box::new(f)), atoms, table)[s] <==> exists|t: int|
            0 <= t < g.states.len() && #[trigger] totalized_successor(g, s, t) && ctl_value(g, f, atoms, table)[t],
{
    let x = ctl_value(g, f, atoms, table);
    let n = g.states.len();
    let out = g.outgoing@[s];
    if out.len() == 0 {
        assert(totalized_successor(g, s, s));
        assert forall|t: int| 0 <= t < n && #[trigger] totalized_successor(g, s, t) implies t == s by {}
    } else {
        if crate::fixpoint::pre(g, true, x, s) {
            assert forall|t: int| 0 <= t < n && #[trigger] totalized_successor(g, s, t) implies x[t] by {
                let k = choose|k: int| 0 <= k < out.len() && (#[trigger] g.outgoing@[s]@[k]).target == t;
                assert(x[g.outgoing@[s]@[k].target as int]);
            }
        } else {
            let k = choose|k: int| 0 <= k < out.len() && !x[(#[trigger] g.outgoing@[s]@[k]).target as int];
            let t = g.outgoing@[s]@[k].target as int;
            assert(totalized_successor(g, s, t));
        }
        if crate::fixpoint::pre(g, false, x, s) {
            let k = choose|k: int| 0 <= k < out.len() && x[(#[trigger] g.outgoing@[s]@[k]).target as int];
            let t = g.outgoing@[s]@[k].target as int;
            assert(totalized_successor(g, s, t));
        } else {
            assert forall|t: int| 0 <= t < n && #[trigger] totalized_successor(g, s, t) implies !x[t] by {
                let k = choose|k: int| 0 <= k < out.len() && (#[trigger] g.outgoing@[s]@[k]).target == t;
                assert(!x[g.outgoing@[s]@[k].target as int]);
            }
        }
    }
}

/// `x` holds at some successor of `s` (`all == false`), or at every
/// successor (`all == true`), in the totalized graph.
pub open spec fn successors_satisfy<S>(g: ReachableGraph<S>, all: bool, x: Seq<bool>, s: int) -> bool {
    if all {
        forall|t: int| 0 <= t < g.states.len() && #[trigger] totalized_successor(g, s, t) ==> x[t]
    } else {
        exists|t: int| 0 <= t < g.states.len() && #[trigger] totalized_successor(g, s, t) && x[t]
    }
}

proof fn lemma_pre_successors<S>(g: ReachableGraph<S>, all: bool, x: Seq<bool>, s: int)
    requires
        g.wf(),
        0 <= s < g.states.len(),
    ensures
        crate::fixpoint::pre(g, all, x, s) == successors_satisfy(g, all, x, s),
{
    let n = g.states.len();
    let out = g.outgoing@[s];
    if out.len() == 0 {
        assert(totalized_successor(g, s, s));
        assert forall|t: int| 0 <= t < n && #[trigger] totalized_successor(g, s, t) implies t == s by {}
    } else if all {
        if crate::fixpoint::pre(g, true, x, s) {
            assert forall|t: int| 0 <= t < n && #[trigger] totalized_successor(g, s, t) implies x[t] by {
                let k = choose|k: int| 0 <= k < out.len() && (#[trigger] g.outgoing@[s]@[k]).target == t;
                assert(x[g.outgoing@[s]@[k].target as int]);
            }
        } else {
            let k = choose|k: int| 0 <= k < out.len() && !x[(#[trigger] g.outgoing@[s]@[k]).target as int];
            assert(totalized_successor(g, s, g.outgoing@[s]@[k].target as int));
        }
    } else {
        if crate::fixpoint::pre(g, false, x, s) {
            let k = choose|k: int| 0 <= k < out.len() && x[(#[trigger] g.outgoing@[s]@[k]).target as int];
            assert(totalized_successor(g, s, g.outgoing@[s]@[k].target as int));
        } else {
            assert forall|t: int| 0 <= t < n && #[trigger] totalized_successor(g, s, t) implies !x[t] by {
                let k = choose|k: int| 0 <= k < out.len() && (#[trigger] g.outgoing@[s]@[k]).target == t;
                assert(!x[g.outgoing@[s]@[k].target as int]);
            }
        }
    }
}

/// The path operators of CTL satisfy their expansion laws at every state:
/// `EF f = f ∨ EX EF f`, `AF f = f ∨ AX AF f`, `EG f = f ∧ EX EG f`,
/// `AG f = f ∧ AX AG f`, `E[l U r] = r ∨ (l ∧ EX E[l U r])` and
/// `A[l U r] = r ∨ (l ∧ AX A[l U r])`.
pub proof fn lemma_path_operator_expansions<S, A: View>(
    g: ReachableGraph<S>,
    l: CtlFormula<A>,
    f: CtlFormula<A>,
    atoms: Seq<A>,
    table: Seq<Vec<bool>>,
    s: int,
)
    requires
        g.wf(),
        0 <= s < g.states.len(),
    ensures
        ({
            let n = g.states.len() as nat;
            let fv = ctl_value(g, f, atoms, table);
            let lv = ctl_value(g, l, atoms, table);
            let ef = ctl_value(g, CtlFormula::Ef(Box::new(f)), atoms, table);
            let af = ctl_value(g, CtlFormula::Af(Box::new(f)), atoms, table);
            let eg = ctl_value(g, CtlFormula::Eg(Box::new(f)), atoms, table);
            let ag = ctl_value(g, CtlFormula::Ag(Box::new(f)), atoms, table);
            let eu = ctl_value(g, CtlFormula::Eu(Box::new(l), Box::new(f)), atoms, table);
            let au = ctl_value(g, CtlFormula::Au(Box::new(l), Box::new(f)), atoms, table);
            &&& ef[s] == (fv[s] || successors_satisfy(g, false, ef, s))
            &&& af[s] == (fv[s] || successors_satisfy(g, true, af, s))
            &&& eg[s] == (fv[s] && successors_satisfy(g, false, eg, s))
            &&& ag[s] == (fv[s] && successors_satisfy(g, true, ag, s))
            &&& eu[s] == (fv[s] || (lv[s] && successors_satisfy(g, false, eu, s)))
            &&& au[s] == (fv[s] || (lv[s] && successors_satisfy(g, true, au, s)))
        }),
{
    let n = g.states.len() as nat;
    let fv = ctl_value(g, f, atoms, table);
    let lv = ctl_value(g, l, atoms, table);
    let every = everything(n);
    let none = Seq::new(n, |t: int| false);
    crate::fixpoint::lemma_fixpoints_exist(g, false, fv, every);
    crate::fixpoint::lemma_fixpoints_exist(g, true, fv, every);
    crate::fixpoint::lemma_fixpoints_exist(g, false, none, fv);
    crate::fixpoint::lemma_fixpoints_exist(g, true, none, fv);
    crate::fixpoint::lemma_fixpoints_exist(g, false, fv, lv);
    crate::fixpoint::lemma_fixpoints_exist(g, true, fv, lv);
    let ef = lfp(g, false, fv, every);
    let af = lfp(g, true, fv, every);
    let eg = gfp(g, false, none, fv);
    let ag = gfp(g, true, none, fv);
    let eu = lfp(g, false, fv, lv);
    let au = lfp(g, true, fv, lv);
    lemma_pre_successors(g, false, ef, s);
    lemma_pre_successors(g, true, af, s);
    lemma_pre_successors(g, false, eg, s);
    lemma_pre_successors(g, true, ag, s);
    lemma_pre_successors(g, false, eu, s);
    lemma_pre_successors(g, true, au, s);
    assert(ef[s] == crate::fixpoint::step_of(g, false, fv, every, ef)[s]);
    assert(af[s] == crate::fixpoint::step_of(g, true, fv, every, af)[s]);
    assert(eg[s] == crate::fixpoint::step_of(g, false, none, fv, eg)[s]);
    assert(ag[s] == crate::fixpoint::step_of(g, true, none, fv, ag)[s]);
    assert(eu[s] == crate::fixpoint::step_of(g, false, fv, lv, eu)[s]);
    assert(au[s] == crate::fixpoint::step_of(g, true, fv, lv, au)[s]);
}

/// `A[l U r]` when `all`, else `E[l U r]`.
pub open spec fn until_of<A>(all: bool, l: CtlFormula<A>, r: CtlFormula<A>) -> CtlFormula<A> {
    if all {
        CtlFormula::Au(Box::new(l), Box::new(r))
    } else {
        CtlFormula::Eu(Box::new(l), Box::new(r))
    }
}

/// `AF f` when `all`, else `EF f`.
pub open spec fn eventually_of<A>(all: bool, f: CtlFormula<A>) -> CtlFormula<A> {
    if all {
        CtlFormula::Af(Box::new(f))
    } else {
        CtlFormula::Ef(Box::new(f))
    }
}

/// `AG f` when `all`, else `EG f`.
pub open spec fn globally_of<A>(all: bool, f: CtlFormula<A>) -> CtlFormula<A> {
    if all {
        CtlFormula::Ag(Box::new(f))
    } else {
        CtlFormula::Eg(Box::new(f))
    }
}

/// `E[l U r]` (`all == false`) or `A[l U r]` is the least solution of its
/// expansion law: it lies inside every set `x` that contains every
/// `r`-state and every `l`-state some (or all) of whose successors are in
/// `x`.
pub proof fn lemma_until_least<S, A: View>(
    g: ReachableGraph<S>,
    all: bool,
    l: CtlFormula<A>,
    r: CtlFormula<A>,
    atoms: Seq<A>,
    table: Seq<Vec<bool>>,
    x: Seq<bool>,
)
    requires
        g.wf(),
        x.len() == g.states.len(),
        forall|s: int|
            0 <= s < x.len() && (ctl_value(g, r, atoms, table)[s] || (ctl_value(g, l, atoms, table)[s]
                && #[trigger] successors_satisfy(g, all, x, s))) ==> x[s],
    ensures
        forall|s: int|
            0 <= s < x.len() && #[trigger] ctl_value(
                g,
                until_of(all, l, r),
                atoms,
                table,
            )[s] ==> x[s],
{
    let rv = ctl_value(g, r, atoms, table);
    let lv = ctl_value(g, l, atoms, table);
    let until = ctl_value(g, until_of(all, l, r), atoms, table);
    crate::fixpoint::lemma_fixpoints_exist(g, all, rv, lv);
    assert(until == lfp(g, all, rv, lv));
    assert forall|s: int| 0 <= s < x.len() && #[trigger] crate::fixpoint::step_of(g, all, rv, lv, x)[s] implies x[s] by {
        lemma_pre_successors(g, all, x, s);
    }
    assert(crate::fixpoint::subset(crate::fixpoint::step_of(g, all, rv, lv, x), x));
    assert(crate::fixpoint::subset(until, x));
}

/// `EF f` (`all == false`) or `AF f` is the least solution of its expansion
/// law: it lies inside every set `x` that contains every `f`-state and
/// every state some (or all) of whose successors are in `x`.
pub proof fn lemma_eventually_least<S, A: View>(
    g: ReachableGraph<S>,
    all: bool,
    f: CtlFormula<A>,
    atoms: Seq<A>,
    table: Seq<Vec<bool>>,
    x: Seq<bool>,
)
    requires
        g.wf(),
        x.len() == g.states.len(),
        forall|s: int|
            0 <= s < x.len() && (ctl_value(g, f, atoms, table)[s] || #[trigger] successors_satisfy(g, all, x, s)) ==> x[s],
    ensures
        forall|s: int|
            0 <= s < x.len() && #[trigger] ctl_value(
                g,
                eventually_of(all, f),
                atoms,
                table,
            )[s] ==> x[s],
{
    let n = g.states.len() as nat;
    let fv = ctl_value(g, f, atoms, table);
    let every = everything(n);
    let eventually = ctl_value(g, eventually_of(all, f), atoms, table);
    crate::fixpoint::lemma_fixpoints_exist(g, all, fv, every);
    assert(eventually == lfp(g, all, fv, every));
    assert forall|s: int| 0 <= s < x.len() && #[trigger] crate::fixpoint::step_of(g, all, fv, every, x)[s] implies x[s] by {
        lemma_pre_successors(g, all, x, s);
    }
    assert(crate::fixpoint::subset(crate::fixpoint::step_of(g, all, fv, every, x), x));
    assert(crate::fixpoint::subset(eventually, x));
}

/// `EG f` (`all == false`) or `AG f` is the greatest solution of its
/// expansion law: it contains every set `x` of `f`-states some (or all) of
/// whose successors are in `x`.
pub proof fn lemma_globally_greatest<S, A: View>(
    g: ReachableGraph<S>,
    all: bool,
    f: CtlFormula<A>,
    atoms: Seq<A>,
    table: Seq<Vec<bool>>,
    x: Seq<bool>,
)
    requires
        g.wf(),
        x.len() == g.states.len(),
        forall|s: int|
            0 <= s < x.len() && #[trigger] x[s] ==> ctl_value(g, f, atoms, table)[s] && successors_satisfy(g, all, x, s),
    ensures
        forall|s: int|
            0 <= s < x.len() && #[trigger] x[s] ==> ctl_value(
                g,
                globally_of(all, f),
                atoms,
                table,
            )[s],
{
    let n = g.states.len() as nat;
    let fv = ctl_value(g, f, atoms, table);
    let none = Seq::new(n, |t: int| false);
    let globally = ctl_value(g, globally_of(all, f), atoms, table);
    crate::fixpoint::lemma_fixpoints_exist(g, all, none, fv);
    assert(globally == gfp(g, all, none, fv));
    assert forall|s: int| 0 <= s < x.len() && #[trigger] x[s] implies crate::fixpoint::step_of(g, all, none, fv, x)[s] by {
        lemma_pre_successors(g, all, x, s);
    }
    assert(crate::fixpoint::subset(x, crate::fixpoint::step_of(g, all, none, fv, x)));
    assert(crate::fixpoint::subset(x, globally));
}

pub proof fn lemma_lfp_unique<S>(g: ReachableGraph<S>, all: bool, a: Seq<bool>, b: Seq<bool>, r: Seq<bool>)
    requires
        is_lfp(g, all, a, b, r),
    ensures
        lfp(g, all, a, b) == r,
{
    let q = lfp(g, all, a, b);
    assert(is_lfp(g, all, a, b, q));
    assert(crate::fixpoint::subset(crate::fixpoint::step_of(g, all, a, b, r), r));
    assert(crate::fixpoint::subset(crate::fixpoint::step_of(g, all, a, b, q), q));
    assert(crate::fixpoint::subset(q, r));
    assert(crate::fixpoint::subset(r, q));
    assert(q =~= r) by {
        assert forall|i: int| 0 <= i < q.len() implies q[i] == r[i] by {
            if q[i] {
                assert(r[i]);
            }
            if r[i] {
                assert(q[i]);
            }
        }
    }
}

pub proof fn lemma_gfp_unique<S>(g: ReachableGraph<S>, all: bool, a: Seq<bool>, b: Seq<bool>, r: Seq<bool>)
    requires
        is_gfp(g, all, a, b, r),
    ensures
        gfp(g, all, a, b) == r,
{
    let q = gfp(g, all, a, b);
    assert(is_gfp(g, all, a, b, q));
    assert(crate::fixpoint::subset(r, crate::fixpoint::step_of(g, all, a, b, r)));
    assert(crate::fixpoint::subset(q, crate::fixpoint::step_of(g, all, a, b, q)));
    assert(crate::fixpoint::subset(q, r));
    assert(crate::fixpoint::subset(r, q));
    assert(q =~= r) by {
        assert forall|i: int| 0 <= i < q.len() implies q[i] == r[i] by {
            if q[i] {
                assert(r[i]);
            }
            if r[i] {
                assert(q[i]);
            }
        }
    }
}

pub(crate) fn constant_bits(n: usize, value: bool) -> (v: Vec<bool>)
    ensures
        v@ == Seq::new(n as nat, |s: int| value),
{
    let mut v: Vec<bool> = Vec::new();
    let mut i: usize = 0;
    while i < n
        invariant
            i <= n,
            v@ == Seq::new(i as nat, |s: int| value),
        decreases n - i,
    {
        v.push(value);
        i += 1;
        assert(v@ =~= Seq::new(i as nat, |s: int| value));
    }
    v
}

/// Pointwise combination: 0 = not `x`, 1 = `x` and `y`, 2 = `x` or `y`.
pub(crate) fn combine_bits(x: &Vec<bool>, y: &Vec<bool>, op: u8) -> (v: Vec<bool>)
    requires
        x@.len() == y@.len(),
    ensures
        v@ == Seq::new(
            x@.len(),
            |s: int|
                if op == 0 {
                    !x@[s]
                } else if op == 1 {
                    x@[s] && y@[s]
                } else {
                    x@[s] || y@[s]
                },
        ),
{
    let mut v: Vec<bool> = Vec::new();
    let mut i: usize = 0;
    while i < x.len()
        invariant
            x@.len() == y@.len(),
            i <= x@.len(),
            v@ == Seq::new(
                i as nat,
                |s: int|
                    if op == 0 {
                        !x@[s]
                    } else if op == 1 {
                        x@[s] && y@[s]
                    } else {
                        x@[s] || y@[s]
                    },
            ),
        decreases x.len() - i,
    {
        let b = if op == 0 {
            !x[i]
        } else if op == 1 {
            x[i] && y[i]
        } else {
            x[i] || y[i]
        };
        v.push(b);
        i += 1;
        assert(v@ =~= Seq::new(
            i as nat,
            |s: int|
                if op == 0 {
                    !x@[s]
                } else if op == 1 {
                    x@[s] && y@[s]
                } else {
                    x@[s] || y@[s]
                },
        ));
    }
    v
}

/// The state set of `f`, computed bottom-up from the atom table.
pub fn ctl_states<S, A: StateValue>(
    g: &ReachableGraph<S>,
    f: &CtlFormula<A>,
    atoms: &Vec<A>,
    table: &Vec<Vec<bool>>,
) -> (v: Vec<bool>)
    requires
        g.wf(),
        atoms@.len() == table@.len(),
        forall|i: int| 0 <= i < table@.len() ==> (#[trigger] table@[i])@.len() == g.states.len(),
        atoms_listed(*f, atoms@),
    ensures
        v@ == ctl_value(*g, *f, atoms@, table@),
        v@.len() == g.states.len(),
    decreases f,
{
    let n = g.states.len();
    match f {
        CtlFormula::True => {
            let v = crate::graph::all_true(n);
            assert(v@ =~= ctl_value(*g, *f, atoms@, table@));
            v
        },
        CtlFormula::False => {
            let v = constant_bits(n, false);
            assert(v@ =~= ctl_value(*g, *f, atoms@, table@));
            v
        },
        CtlFormula::Atom(a) => {
            let found = position_of(atoms, a);
            match found {
                Some(i) => {
                    let v = table[i].clone();
                    assert(v@ =~= table@[i as int]@);
                    proof {
                        crate::state::lemma_first_index_of(views_of(atoms@), a@);
                    }
                    assert(v@ =~= ctl_value(*g, *f, atoms@, table@));
                    v
                },
                None => {
                    proof {
                        let j = choose|j: int| 0 <= j < views_of(atoms@).len() && views_of(atoms@)[j] == a@;
                        assert(atoms@[j]@ == a@);
                    }
                    Vec::new()
                },
            }
        },
        CtlFormula::Not(i) => {
            let x = ctl_states(g, i, atoms, table);
            let v = combine_bits(&x, &x, 0);
            proof {
                assert(v@ =~= ctl_value(*g, *f, atoms@, table@));
            }
            v
        },
        CtlFormula::And(l, r) => {
            let x = ctl_states(g, l, atoms, table);
            let y = ctl_states(g, r, atoms, table);
            let v = combine_bits(&x, &y, 1);
            proof {
                assert(v@ =~= ctl_value(*g, *f, atoms@, table@));
            }
            v
        },
        CtlFormula::Or(l, r) => {
            let x = ctl_states(g, l, atoms, table);
            let y = ctl_states(g, r, atoms, table);
            let v = combine_bits(&x, &y, 2);
            proof {
                assert(v@ =~= ctl_value(*g, *f, atoms@, table@));
            }
            v
        },
        CtlFormula::Ex(i) => {
            let x = ctl_states(g, i, atoms, table);
            let v = pre_vec(g, false, &x);
            assert(v@ =~= ctl_value(*g, *f, atoms@, table@));
            v
        },
        CtlFormula::Ax(i) => {
            let x = ctl_states(g, i, atoms, table);
            let v = pre_vec(g, true, &x);
            assert(v@ =~= ctl_value(*g, *f, atoms@, table@));
            v
        },
        CtlFormula::Ef(i) => {
            let x = ctl_states(g, i, atoms, table);
            let t = crate::graph::all_true(n);
            let v = least_fixpoint(g, false, &x, &t);
            proof {
                lemma_lfp_unique(*g, false, x@, t@, v@);
            }
            v
        },
        CtlFormula::Af(i) => {
            let x = ctl_states(g, i, atoms, table);
            let t = crate::graph::all_true(n);
            let v = least_fixpoint(g, true, &x, &t);
            proof {
                lemma_lfp_unique(*g, true, x@, t@, v@);
            }
            v
        },
        CtlFormula::Eg(i) => {
            let x = ctl_states(g, i, atoms, table);
            let z = constant_bits(n, false);
            let v = greatest_fixpoint(g, false, &z, &x);
            proof {
                lemma_gfp_unique(*g, false, z@, x@, v@);
            }
            v
        },
        CtlFormula::Ag(i) => {
            let x = ctl_states(g, i, atoms, table);
            let z = constant_bits(n, false);
            let v = greatest_fixpoint(g, true, &z, &x);
            proof {
                lemma_gfp_unique(*g, true, z@, x@, v@);
            }
            v
        },
        CtlFormula::Eu(l, r) => {
            let x = ctl_states(g, l, atoms, table);
            let y = ctl_states(g, r, atoms, table);
            let v = least_fixpoint(g, false, &y, &x);
            proof {
                lemma_lfp_unique(*g, false, y@, x@, v@);
            }
            v
        },
        CtlFormula::Au(l, r) => {
            let x = ctl_states(g, l, atoms, table);
            let y = ctl_states(g, r, atoms, table);
            let v = least_fixpoint(g, true, &y, &x);
            proof {
                lemma_lfp_unique(*g, true, y@, x@, v@);
            }
            v
        },
    }
}

/// `action` follows an edge of the totalized graph from `from` to `to`:
/// a model edge with that label, or the synthetic self-loop of a terminal.
pub open spec fn ctl_step<S>(g: ReachableGraph<S>, from: int, action: Option<CtlEvidenceAction>, to: int) -> bool {
    match action {
        Some(CtlEvidenceAction::Model(a)) => g.edge(from, a@, to),
        Some(CtlEvidenceAction::TerminalSelfLoop) => g.outgoing@[from].len() == 0 && to == from,
        None => false,
    }
}

/// `trace` walks the totalized graph along the node ids `path`, each step
/// holding its node's state.
pub open spec fn ctl_walk<S: View>(g: ReachableGraph<S>, trace: Seq<CtlEvidenceStep<S>>, path: Seq<int>) -> bool {
    &&& trace.len() == path.len()
    &&& trace.len() > 0
    &&& trace[0].action is None
    &&& forall|i: int| 0 <= i < path.len() ==> 0 <= #[trigger] path[i] < g.states.len()
    &&& forall|i: int| 0 <= i < trace.len() ==> (#[trigger] trace[i]).state@ == g.states@[path[i]]@
    &&& forall|i: int| 0 < i < trace.len() ==> ctl_step(g, path[i - 1], (#[trigger] trace[i]).action, path[i])
}

/// `ev` is real evidence from `source`: a finite walk, or a lasso whose
/// last node repeats the node at `cycle_start`.
pub open spec fn evidence_ok<S: View>(g: ReachableGraph<S>, source: int, ev: CtlEvidence<S>) -> bool {
    match ev {
        CtlEvidence::Finite { trace } => walks_from(g, trace@, source),
        CtlEvidence::Lasso { trace, cycle_start } => loops_from(g, trace@, source, cycle_start as int),
    }
}

/// `trace` walks the totalized graph from `source`.
pub open spec fn walks_from<S: View>(g: ReachableGraph<S>, trace: Seq<CtlEvidenceStep<S>>, source: int) -> bool {
    exists|path: Seq<int>| #[trigger] ctl_walk(g, trace, path) && path[0] == source
}

/// `trace` walks the totalized graph from `source` and its last node
/// repeats the node at `cycle_start`.
pub open spec fn loops_from<S: View>(
    g: ReachableGraph<S>,
    trace: Seq<CtlEvidenceStep<S>>,
    source: int,
    cycle_start: int,
) -> bool {
    exists|path: Seq<int>|
        #[trigger] ctl_walk(g, trace, path) && path[0] == source && 0 <= cycle_start < path.len() - 1 && path.last()
            == path[cycle_start]
}

/// One step from `source` lands in `target`: along an edge, or, at a
/// terminal, along its self-loop.
pub open spec fn one_step_into<S>(g: ReachableGraph<S>, source: int, target: Seq<bool>) -> bool {
    if g.outgoing@[source].len() == 0 {
        target[source]
    } else {
        exists|k: int| 0 <= k < g.outgoing@[source].len() && target[(#[trigger] g.outgoing@[source]@[k]).target as int]
    }
}

/// A one-step witness from `source` into `target`.
pub(crate) fn one_step_evidence<S: StateValue>(g: &ReachableGraph<S>, source: usize, target: &Vec<bool>) -> (r: Option<CtlEvidence<S>>)
    requires
        g.wf(),
        source < g.states.len(),
        target@.len() == g.states.len(),
    ensures
        r matches Some(ev) ==> evidence_ok(*g, source as int, ev) && (ev matches CtlEvidence::Finite { trace } && trace@.len()
            == 2),
        r is None <==> !one_step_into(*g, source as int, target@),
{
    let edges = &g.outgoing[source];
    if edges.len() == 0 {
        if !target[source] {
            return None;
        }
        let mut trace: Vec<CtlEvidenceStep<S>> = Vec::new();
        trace.push(CtlEvidenceStep { action: None, state: g.states[source].copy_value() });
        trace.push(
            CtlEvidenceStep { action: Some(CtlEvidenceAction::TerminalSelfLoop), state: g.states[source].copy_value() },
        );
        let ev = CtlEvidence::Finite { trace };
        proof {
            let path = seq![source as int, source as int];
            assert(ctl_walk(*g, trace@, path));
            assert(path[0] == source as int);
            assert(walks_from(*g, trace@, source as int));
        }
        return Some(ev);
    }
    let mut k: usize = 0;
    while k < edges.len()
        invariant
            g.wf(),
            source < g.states.len(),
            target@.len() == g.states.len(),
            edges@ == g.outgoing@[source as int]@,
            edges.len() > 0,
            k <= edges.len(),
            forall|j: int| 0 <= j < k ==> !target@[(#[trigger] edges@[j]).target as int],
        decreases edges.len() - k,
    {
        let t = edges[k].target;
        assert(g.outgoing@[source as int]@[k as int].target < g.states.len());
        if target[t] {
            let mut trace: Vec<CtlEvidenceStep<S>> = Vec::new();
            trace.push(CtlEvidenceStep { action: None, state: g.states[source].copy_value() });
            trace.push(
                CtlEvidenceStep {
                    action: Some(CtlEvidenceAction::Model(edges[k].action.clone())),
                    state: g.states[t].copy_value(),
                },
            );
            let ev = CtlEvidence::Finite { trace };
            proof {
                let path = seq![source as int, t as int];
                assert(g.edge(source as int, edges@[k as int].action@, t as int));
                assert(ctl_walk(*g, trace@, path));
                assert(path[0] == source as int);
                assert(walks_from(*g, trace@, source as int));
            }
            return Some(ev);
        }
        k += 1;
    }
    None
}

/// Every node of `allowed` is terminal or has an edge into `allowed`.
pub open spec fn allowed_closed<S>(g: ReachableGraph<S>, allowed: Seq<bool>) -> bool {
    forall|v: int|
        0 <= v < g.states.len() && #[trigger] allowed[v] ==> g.outgoing@[v].len() == 0 || exists|k: int|
            0 <= k < g.outgoing@[v].len() && allowed[(#[trigger] g.outgoing@[v]@[k]).target as int]
}

/// A lasso from `source` that stays in `allowed`, following the first
/// allowed edge (or the terminal self-loop) until a node repeats.
pub(crate) fn lasso_evidence<S: StateValue>(g: &ReachableGraph<S>, source: usize, allowed: &Vec<bool>) -> (r: Option<CtlEvidence<S>>)
    requires
        g.wf(),
        source < g.states.len(),
        allowed@.len() == g.states.len(),
    ensures
        r matches Some(ev) ==> evidence_ok(*g, source as int, ev) && ev is Lasso,
        r is None ==> !allowed@[source as int] || !allowed_closed(*g, allowed@),
{
    if !allowed[source] {
        return None;
    }
    let n = g.states.len();
    let mut position: Vec<Option<usize>> = Vec::new();
    let mut i: usize = 0;
    while i < n
        invariant
            i <= n,
            position@.len() == i,
            forall|j: int| 0 <= j < i ==> (#[trigger] position@[j]) is None,
        decreases n - i,
    {
        position.push(None);
        i += 1;
    }
    let mut trace: Vec<CtlEvidenceStep<S>> = Vec::new();
    trace.push(CtlEvidenceStep { action: None, state: g.states[source].copy_value() });
    position.set(source, Some(0));
    let ghost mut path: Seq<int> = seq![source as int];
    let mut current = source;
    let ghost mut visited: int = 1;
    proof {
        assert(ctl_walk(*g, trace@, path));
        assert(crate::graph::count_true(Seq::new(n as nat, |v: int| position@[v] is Some)) >= 0) by {
            crate::graph::lemma_count_true_bound(Seq::new(n as nat, |v: int| position@[v] is Some));
        }
    }
    loop
        invariant
            g.wf(),
            n == g.states.len(),
            source < n,
            current < n,
            position@.len() == n,
            allowed@.len() == n,
            ctl_walk(*g, trace@, path),
            path[0] == source,
            path.last() == current,
            trace@.len() <= n,
            forall|v: int| 0 <= v < n ==> (#[trigger] position@[v] matches Some(p) ==> p < trace@.len() && path[p as int] == v),
            forall|j: int| 0 <= j < path.len() ==> position@[#[trigger] path[j]] is Some,
            forall|j: int, k: int| 0 <= j < k < path.len() ==> #[trigger] path[j] != #[trigger] path[k],
            allowed@[current as int],
        decreases n - trace@.len(),
    {
        let edges = &g.outgoing[current];
        let mut next = current;
        let mut action = CtlEvidenceAction::TerminalSelfLoop;
        if edges.len() > 0 {
            let mut k: usize = 0;
            while k < edges.len() && !allowed[edges[k].target]
                invariant
                    g.wf(),
                    current < n,
                    n == g.states.len(),
                    allowed@.len() == n,
                    edges@ == g.outgoing@[current as int]@,
                    k <= edges.len(),
                    forall|j: int| 0 <= j < k ==> !allowed@[(#[trigger] edges@[j]).target as int],
                decreases edges.len() - k,
            {
                assert(g.outgoing@[current as int]@[k as int].target < n);
                k += 1;
            }
            if k == edges.len() {
                proof {
                    if allowed_closed(*g, allowed@) {
                        assert(allowed@[current as int]);
                        let j = choose|j: int|
                            0 <= j < g.outgoing@[current as int].len() && allowed@[(#[trigger] g.outgoing@[current as int]@[j]).target as int];
                        assert(edges@[j] == g.outgoing@[current as int]@[j]);
                    }
                }
                return None;
            }
            next = edges[k].target;
            action = CtlEvidenceAction::Model(edges[k].action.clone());
            proof {
                assert(g.edge(current as int, edges@[k as int].action@, next as int));
            }
        }
        let ghost act = Some(action);
        let ghost before_len = trace@.len();
        let ghost before_path = path;
        trace.push(CtlEvidenceStep { action: Some(action), state: g.states[next].copy_value() });
        proof {
            let old_path = path;
            path = path.push(next as int);
            assert(ctl_step(*g, current as int, act, next as int));
            assert forall|i: int| 0 < i < trace@.len() implies ctl_step(*g, path[i - 1], (#[trigger] trace@[i]).action, path[i]) by {
                if i < trace@.len() - 1 {
                    assert(path[i - 1] == old_path[i - 1] && path[i] == old_path[i]);
                }
            }
            assert(ctl_walk(*g, trace@, path));
        }
        match position[next] {
            Some(p) => {
                let ev = CtlEvidence::Lasso { trace, cycle_start: p };
                proof {
                    assert(path.last() == next as int);
                    assert(p < before_len && before_path[p as int] == next as int);
                    assert(path[p as int] == before_path[p as int]);
                    assert(loops_from(*g, trace@, source as int, p as int));
                }
                return Some(ev);
            },
            None => {},
        }
        proof {
            if trace@.len() > n {
                // the path's nodes are distinct ids below n
                let ids = path.to_set();
                assert(path.no_duplicates()) by {
                    assert forall|j: int, k: int| 0 <= j < path.len() && 0 <= k < path.len() && j != k implies path[j] != path[k] by {
                        if j < k {
                            assert(path[j] != path[k]);
                        } else {
                            assert(path[k] != path[j]);
                        }
                    }
                }
                path.unique_seq_to_set();
                assert(ids.subset_of(vstd::set_lib::set_int_range(0, n as int)));
                vstd::set_lib::lemma_int_range(0, n as int);
                vstd::set_lib::lemma_len_subset(ids, vstd::set_lib::set_int_range(0, n as int));
            }
        }
        let pos = trace.len() - 1;
        position.set(next, Some(pos));
        current = next;
    }
}

/// The BFS tree so far: discovered nodes lead back to `source` through
/// recorded model edges, each predecessor strictly shallower.
spec fn bfs_tree<S>(
    g: ReachableGraph<S>,
    source: int,
    seen: Seq<bool>,
    depth: Seq<nat>,
    pred: Seq<Option<(usize, usize)>>,
) -> bool {
    let n = g.states.len();
    &&& seen.len() == n && depth.len() == n && pred.len() == n
    &&& seen[source] && depth[source] == 0
    &&& forall|v: int|
        0 <= v < n && v != source && #[trigger] seen[v] ==> (pred[v] matches Some(pk) && pk.0 < n && seen[pk.0 as int]
            && pk.1 < g.outgoing@[pk.0 as int].len() && g.outgoing@[pk.0 as int]@[pk.1 as int].target == v && depth[pk.0 as int]
            < depth[v])
}

/// Rebuild the walk from `source` to `goal` along BFS predecessors.
fn tree_trace<S: StateValue>(
    g: &ReachableGraph<S>,
    source: usize,
    goal: usize,
    Ghost(seen): Ghost<Seq<bool>>,
    Ghost(depth): Ghost<Seq<nat>>,
    pred: &Vec<Option<(usize, usize)>>,
) -> (trace: Vec<CtlEvidenceStep<S>>)
    requires
        g.wf(),
        source < g.states.len(),
        goal < g.states.len(),
        bfs_tree(*g, source as int, seen, depth, pred@),
        seen[goal as int],
    ensures
        walks_from(*g, trace@, source as int),
        exists|path: Seq<int>| #[trigger] ctl_walk(*g, trace@, path) && path[0] == source && path.last() == goal,
{
    // collect the nodes and edges from goal back to source
    let mut back: Vec<(usize, usize)> = Vec::new();
    let mut v = goal;
    let ghost mut rpath: Seq<int> = seq![goal as int];
    while v != source
        invariant
            g.wf(),
            source < g.states.len(),
            v < g.states.len(),
            bfs_tree(*g, source as int, seen, depth, pred@),
            seen[v as int],
            rpath.len() == back@.len() + 1,
            rpath[0] == goal,
            rpath.last() == v,
            forall|j: int| 0 <= j < rpath.len() ==> 0 <= #[trigger] rpath[j] < g.states.len(),
            forall|j: int|
                0 <= j < back@.len() ==> (#[trigger] back@[j]).0 == rpath[j + 1] && back@[j].1 < g.outgoing@[back@[j].0 as int].len()
                    && g.outgoing@[back@[j].0 as int]@[back@[j].1 as int].target == rpath[j],
        decreases depth[v as int],
    {
        let pk = pred[v].unwrap();
        back.push(pk);
        proof {
            rpath = rpath.push(pk.0 as int);
        }
        v = pk.0;
    }
    let mut trace: Vec<CtlEvidenceStep<S>> = Vec::new();
    trace.push(CtlEvidenceStep { action: None, state: g.states[source].copy_value() });
    let ghost mut path: Seq<int> = seq![source as int];
    let mut j: usize = back.len();
    proof {
        assert(path[0] == rpath[back@.len() as int]);
    }
    while j > 0
        invariant
            g.wf(),
            source < g.states.len(),
            j <= back@.len(),
            rpath.len() == back@.len() + 1,
            rpath.last() == source,
            rpath[0] == goal,
            forall|x: int| 0 <= x < rpath.len() ==> 0 <= #[trigger] rpath[x] < g.states.len(),
            forall|x: int|
                0 <= x < back@.len() ==> (#[trigger] back@[x]).0 == rpath[x + 1] && back@[x].1 < g.outgoing@[back@[x].0 as int].len()
                    && g.outgoing@[back@[x].0 as int]@[back@[x].1 as int].target == rpath[x],
            ctl_walk(*g, trace@, path),
            path[0] == source,
            path.last() == rpath[j as int],
        decreases j,
    {
        let (u, k) = back[j - 1];
        let t = g.outgoing[u][k].target;
        let step = CtlEvidenceStep {
            action: Some(CtlEvidenceAction::Model(g.outgoing[u][k].action.clone())),
            state: g.states[t].copy_value(),
        };
        proof {
            let old_path = path;
            let old_trace = trace@;
            path = path.push(t as int);
            assert(g.edge(u as int, g.outgoing@[u as int]@[k as int].action@, t as int));
            assert(ctl_step(*g, old_path.last(), step.action, t as int));
            let nt = old_trace.push(step);
            assert forall|i: int| 0 < i < nt.len() implies ctl_step(*g, path[i - 1], (#[trigger] nt[i]).action, path[i]) by {
                if i < nt.len() - 1 {
                    assert(path[i - 1] == old_path[i - 1] && path[i] == old_path[i] && nt[i] == old_trace[i]);
                }
            }
            assert forall|i: int| 0 <= i < nt.len() implies (#[trigger] nt[i]).state@ == g.states@[path[i]]@ by {
                if i < nt.len() - 1 {
                    assert(nt[i] == old_trace[i]);
                }
            }
            assert(ctl_walk(*g, nt, path));
        }
        trace.push(step);
        j -= 1;
    }
    proof {
        assert(walks_from(*g, trace@, source as int));
    }
    trace
}

/// `p` is a walk of `g` along edges whose nodes before the last are all in
/// `allowed`.
pub open spec fn guarded_path<S>(g: ReachableGraph<S>, p: Seq<int>, allowed: Seq<bool>) -> bool {
    &&& p.len() >= 1
    &&& forall|j: int| 0 <= j < p.len() ==> 0 <= #[trigger] p[j] < g.states.len()
    &&& forall|j: int| 0 <= j < p.len() - 1 ==> allowed[#[trigger] p[j]] && g.step(p[j], p[j + 1])
}

/// Where every edge out of a `seen` node ends in a `seen` node or in one
/// that is neither allowed nor a target, a guarded path from a seen node
/// stays in `seen` or ends outside `target`.
proof fn lemma_guarded_stays<S>(g: ReachableGraph<S>, p: Seq<int>, allowed: Seq<bool>, target: Seq<bool>, seen: Seq<bool>, j: int)
    requires
        guarded_path(g, p, allowed),
        seen.len() == g.states.len(),
        allowed.len() == g.states.len(),
        target.len() == g.states.len(),
        seen[p[0]],
        0 <= j < p.len(),
        forall|v: int| 0 <= v < g.states.len() && #[trigger] seen[v] ==> !target[v],
        forall|v: int, k: int|
            0 <= v < g.states.len() && seen[v] && 0 <= k < g.outgoing@[v].len() ==> seen[(#[trigger] g.outgoing@[v]@[k]).target as int]
                || (!target[g.outgoing@[v]@[k].target as int] && !allowed[g.outgoing@[v]@[k].target as int]),
    ensures
        j < p.len() - 1 ==> seen[p[j]],
        j == p.len() - 1 ==> !target[p[j]],
    decreases j,
{
    if j > 0 {
        lemma_guarded_stays(g, p, allowed, target, seen, j - 1);
        assert(g.step(p[j - 1], p[j]));
        let k = choose|k: int| 0 <= k < g.outgoing@[p[j - 1]].len() && (#[trigger] g.outgoing@[p[j - 1]]@[k]).target == p[j];
        assert(p[j - 1] == p[j - 1]);
        assert(seen[p[j - 1]]);
        if j < p.len() - 1 {
            assert(allowed[p[j]]);
        }
    } else {
        assert(p[0] == p[j]);
    }
}

/// A shortest-first walk from `source` to a node of `target`, whose nodes
/// before the last are in `allowed`: the first target that breadth-first
/// search discovers.
pub(crate) fn finite_path_evidence<S: StateValue>(
    g: &ReachableGraph<S>,
    source: usize,
    allowed: &Vec<bool>,
    target: &Vec<bool>,
) -> (r: Option<CtlEvidence<S>>)
    requires
        g.wf(),
        source < g.states.len(),
        allowed@.len() == g.states.len(),
        target@.len() == g.states.len(),
    ensures
        r matches Some(ev) ==> ev is Finite && evidence_ok(*g, source as int, ev),
        r is None ==> forall|p: Seq<int>|
            #[trigger] guarded_path(*g, p, allowed@) && p[0] == source ==> !target@[p.last()],
{
    let n = g.states.len();
    if target[source] {
        let mut trace: Vec<CtlEvidenceStep<S>> = Vec::new();
        trace.push(CtlEvidenceStep { action: None, state: g.states[source].copy_value() });
        proof {
            let path = seq![source as int];
            assert(ctl_walk(*g, trace@, path));
            assert(walks_from(*g, trace@, source as int));
        }
        return Some(CtlEvidence::Finite { trace });
    }
    if !allowed[source] {
        proof {
            assert forall|p: Seq<int>| #[trigger] guarded_path(*g, p, allowed@) && p[0] == source implies !target@[p.last()] by {
                if p.len() > 1 {
                    assert(allowed@[p[0]]);
                }
            }
        }
        return None;
    }
    let mut seen: Vec<bool> = Vec::new();
    let mut pred: Vec<Option<(usize, usize)>> = Vec::new();
    let ghost mut depth: Seq<nat> = Seq::empty();
    let mut i: usize = 0;
    while i < n
        invariant
            i <= n,
            seen@.len() == i,
            pred@.len() == i,
            depth.len() == i,
            forall|j: int| 0 <= j < i ==> !(#[trigger] seen@[j]),
            forall|j: int| 0 <= j < i ==> #[trigger] depth[j] == 0,
        decreases n - i,
    {
        seen.push(false);
        pred.push(None);
        proof {
            depth = depth.push(0);
        }
        i += 1;
    }
    let ghost before = seen@;
    proof {
        crate::graph::lemma_count_true_set(before, source as int);
        crate::graph::lemma_count_true_bound(before);
    }
    seen.set(source, true);
    let mut queue: Vec<usize> = Vec::new();
    queue.push(source);
    let mut head: usize = 0;
    proof {
        assert(seen@ == before.update(source as int, true));
        assert forall|v: int| 0 <= v < n && v != source implies !#[trigger] seen@[v] by {
            assert(!before[v]);
        }
        assert(bfs_tree(*g, source as int, seen@, depth, pred@));
        assert forall|v: int| 0 <= v < n && #[trigger] seen@[v] implies exists|q: int| 0 <= q < queue@.len() && queue@[q] == v by {
            assert(v == source);
            assert(queue@[0] == v);
        }
    }
    while head < queue.len()
        invariant
            g.wf(),
            n == g.states.len(),
            source < n,
            allowed@.len() == n,
            target@.len() == n,
            bfs_tree(*g, source as int, seen@, depth, pred@),
            head <= queue@.len(),
            forall|q: int| 0 <= q < queue@.len() ==> #[trigger] queue@[q] < n && seen@[queue@[q] as int],
            queue@.len() <= crate::graph::count_true(seen@),
            forall|q1: int, q2: int| 0 <= q1 < q2 < queue@.len() ==> #[trigger] queue@[q1] != #[trigger] queue@[q2],
            forall|v: int| 0 <= v < n && #[trigger] seen@[v] ==> !target@[v] && allowed@[v],
            forall|v: int| 0 <= v < n && #[trigger] seen@[v] ==> exists|q: int| 0 <= q < queue@.len() && queue@[q] == v,
            forall|q: int, k: int|
                0 <= q < head && 0 <= k < g.outgoing@[queue@[q] as int].len() ==> seen@[(#[trigger] g.outgoing@[
                    #[trigger] queue@[q] as int]@[k]).target as int] || (!target@[g.outgoing@[queue@[q] as int]@[k].target as int]
                    && !allowed@[g.outgoing@[queue@[q] as int]@[k].target as int]),
        decreases n - head,
    {
        let state = queue[head];
        let edges = &g.outgoing[state];
        let mut k: usize = 0;
        while k < edges.len()
            invariant
                g.wf(),
                n == g.states.len(),
                source < n,
                state < n,
                seen@[state as int],
                allowed@.len() == n,
                target@.len() == n,
                edges@ == g.outgoing@[state as int]@,
                bfs_tree(*g, source as int, seen@, depth, pred@),
                k <= edges.len(),
                head < queue@.len(),
                queue@[head as int] == state,
                forall|q: int| 0 <= q < queue@.len() ==> #[trigger] queue@[q] < n && seen@[queue@[q] as int],
                queue@.len() <= crate::graph::count_true(seen@),
                forall|q1: int, q2: int| 0 <= q1 < q2 < queue@.len() ==> #[trigger] queue@[q1] != #[trigger] queue@[q2],
                forall|v: int| 0 <= v < n && #[trigger] seen@[v] ==> !target@[v] && allowed@[v],
                forall|v: int| 0 <= v < n && #[trigger] seen@[v] ==> exists|q: int| 0 <= q < queue@.len() && queue@[q] == v,
                forall|q: int, k: int|
                    0 <= q < head && 0 <= k < g.outgoing@[queue@[q] as int].len() ==> seen@[(#[trigger] g.outgoing@[
                        #[trigger] queue@[q] as int]@[k]).target as int] || (!target@[g.outgoing@[queue@[q] as int]@[k].target as int]
                        && !allowed@[g.outgoing@[queue@[q] as int]@[k].target as int]),
                forall|j: int|
                    0 <= j < k ==> seen@[(#[trigger] edges@[j]).target as int] || (!target@[edges@[j].target as int]
                        && !allowed@[edges@[j].target as int]),
            decreases edges.len() - k,
        {
            let next = edges[k].target;
            assert(g.outgoing@[state as int]@[k as int].target < n);
            if !seen[next] && (target[next] || allowed[next]) {
                proof {
                    crate::graph::lemma_count_true_set(seen@, next as int);
                    depth = depth.update(next as int, depth[state as int] + 1);
                }
                seen.set(next, true);
                pred.set(next, Some((state, k)));
                proof {
                    assert(bfs_tree(*g, source as int, seen@, depth, pred@)) by {
                        assert forall|v: int|
                            0 <= v < n && v != source && #[trigger] seen@[v] implies (pred@[v] matches Some(pk) && pk.0 < n
                                && seen@[pk.0 as int] && pk.1 < g.outgoing@[pk.0 as int].len() && g.outgoing@[pk.0 as int]@[
                                pk.1 as int].target == v && depth[pk.0 as int] < depth[v]) by {
                            if v != next {
                                let pk = pred@[v]->0;
                            }
                        }
                    }
                }
                if target[next] {
                    let trace = tree_trace(g, source, next, Ghost(seen@), Ghost(depth), &pred);
                    return Some(CtlEvidence::Finite { trace });
                }
                proof {
                    assert forall|q: int| 0 <= q < queue@.len() implies #[trigger] queue@[q] != next by {
                        assert(seen@[queue@[q] as int]);
                    }
                }
                let ghost qbefore = queue@;
                queue.push(next);
                proof {
                    assert forall|v: int| 0 <= v < n && #[trigger] seen@[v] implies exists|q: int|
                        0 <= q < queue@.len() && queue@[q] == v by {
                        if v == next {
                            assert(queue@[qbefore.len() as int] == v);
                        } else {
                            let q = choose|q: int| 0 <= q < qbefore.len() && qbefore[q] == v;
                            assert(queue@[q] == v);
                        }
                    }
                }
            }
            k += 1;
        }
        proof {
            crate::graph::lemma_count_true_bound(seen@);
        }
        head += 1;
    }
    proof {
        assert forall|v: int, k: int|
            0 <= v < g.states.len() && seen@[v] && 0 <= k < g.outgoing@[v].len() implies seen@[(#[trigger] g.outgoing@[
                v]@[k]).target as int] || (!target@[g.outgoing@[v]@[k].target as int] && !allowed@[g.outgoing@[v]@[k].target as int]) by {
            let q = choose|q: int| 0 <= q < queue@.len() && queue@[q] == v;
            assert(g.outgoing@[queue@[q] as int]@[k] == g.outgoing@[v]@[k]);
        }
        assert forall|p: Seq<int>| #[trigger] guarded_path(*g, p, allowed@) && p[0] == source implies !target@[p.last()] by {
            lemma_guarded_stays(*g, p, allowed@, target@, seen@, p.len() - 1);
        }
    }
    None
}

/// The formula with every atom replaced by its view.
pub open spec fn fview<A: View>(f: CtlFormula<A>) -> CtlFormula<A::V>
    decreases f,
{
    match f {
        CtlFormula::True => CtlFormula::True,
        CtlFormula::False => CtlFormula::False,
        CtlFormula::Atom(a) => CtlFormula::Atom(a@),
        CtlFormula::Not(i) => CtlFormula::Not(Box::new(fview(*i))),
        CtlFormula::And(l, r) => CtlFormula::And(Box::new(fview(*l)), Box::new(fview(*r))),
        CtlFormula::Or(l, r) => CtlFormula::Or(Box::new(fview(*l)), Box::new(fview(*r))),
        CtlFormula::Ex(i) => CtlFormula::Ex(Box::new(fview(*i))),
        CtlFormula::Ax(i) => CtlFormula::Ax(Box::new(fview(*i))),
        CtlFormula::Ef(i) => CtlFormula::Ef(Box::new(fview(*i))),
        CtlFormula::Af(i) => CtlFormula::Af(Box::new(fview(*i))),
        CtlFormula::Eg(i) => CtlFormula::Eg(Box::new(fview(*i))),
        CtlFormula::Ag(i) => CtlFormula::Ag(Box::new(fview(*i))),
        CtlFormula::Eu(l, r) => CtlFormula::Eu(Box::new(fview(*l)), Box::new(fview(*r))),
        CtlFormula::Au(l, r) => CtlFormula::Au(Box::new(fview(*l)), Box::new(fview(*r))),
    }
}

/// Whether two formulas are the same once atoms are compared by view.
pub fn same_formula<A: StateValue>(a: &CtlFormula<A>, b: &CtlFormula<A>) -> (same: bool)
    ensures
        same == (fview(*a) == fview(*b)),
    decreases a,
{
    match (a, b) {
        (CtlFormula::True, CtlFormula::True) => true,
        (CtlFormula::False, CtlFormula::False) => true,
        (CtlFormula::Atom(x), CtlFormula::Atom(y)) => x.same_value(y),
        (CtlFormula::Not(x), CtlFormula::Not(y)) => same_formula(x, y),
        (CtlFormula::Ex(x), CtlFormula::Ex(y)) => same_formula(x, y),
        (CtlFormula::Ax(x), CtlFormula::Ax(y)) => same_formula(x, y),
        (CtlFormula::Ef(x), CtlFormula::Ef(y)) => same_formula(x, y),
        (CtlFormula::Af(x), CtlFormula::Af(y)) => same_formula(x, y),
        (CtlFormula::Eg(x), CtlFormula::Eg(y)) => same_formula(x, y),
        (CtlFormula::Ag(x), CtlFormula::Ag(y)) => same_formula(x, y),
        (CtlFormula::And(x1, x2), CtlFormula::And(y1, y2)) => same_formula(x1, y1) && same_formula(x2, y2),
        (CtlFormula::Or(x1, x2), CtlFormula::Or(y1, y2)) => same_formula(x1, y1) && same_formula(x2, y2),
        (CtlFormula::Eu(x1, x2), CtlFormula::Eu(y1, y2)) => same_formula(x1, y1) && same_formula(x2, y2),
        (CtlFormula::Au(x1, x2), CtlFormula::Au(y1, y2)) => same_formula(x1, y1) && same_formula(x2, y2),
        _ => false,
    }
}

/// The distinct subformulas (by view) in the order a memoizing evaluator
/// first completes them: children before parents, left before right,
/// each kept once.
pub open spec fn memo_after<V>(f: CtlFormula<V>, memo: Seq<CtlFormula<V>>) -> Seq<CtlFormula<V>>
    decreases f,
{
    if memo.contains(f) {
        memo
    } else {
        let inner = match f {
            CtlFormula::True | CtlFormula::False | CtlFormula::Atom(_) => memo,
            CtlFormula::Not(i) | CtlFormula::Ex(i) | CtlFormula::Ax(i) | CtlFormula::Ef(i) | CtlFormula::Af(i)
            | CtlFormula::Eg(i) | CtlFormula::Ag(i) => memo_after(*i, memo),
            CtlFormula::And(l, r) | CtlFormula::Or(l, r) | CtlFormula::Eu(l, r) | CtlFormula::Au(l, r) => memo_after(
                *r,
                memo_after(*l, memo),
            ),
        };
        inner.push(f)
    }
}

/// Record the distinct subformulas of `f` after those already in `memo`.
pub(crate) fn memo_formulas<'a, A: StateValue>(f: &'a CtlFormula<A>, memo: &mut Vec<&'a CtlFormula<A>>)
    ensures
        final(memo)@.map_values(|x: &CtlFormula<A>| fview(*x)) == memo_after(
            fview(*f),
            old(memo)@.map_values(|x: &CtlFormula<A>| fview(*x)),
        ),
    decreases f,
{
    let ghost start = memo@.map_values(|x: &CtlFormula<A>| fview(*x));
    let mut k: usize = 0;
    while k < memo.len()
        invariant
            start == memo@.map_values(|x: &CtlFormula<A>| fview(*x)),
            k <= memo@.len(),
            forall|j: int| 0 <= j < k ==> start[j] != fview(*f),
        decreases memo.len() - k,
    {
        if same_formula(memo[k], f) {
            assert(start[k as int] == fview(*f));
            assert(start.contains(fview(*f)));
            return;
        }
        k += 1;
    }
    assert(!start.contains(fview(*f)));
    match f {
        CtlFormula::True | CtlFormula::False | CtlFormula::Atom(_) => {},
        CtlFormula::Not(i) | CtlFormula::Ex(i) | CtlFormula::Ax(i) | CtlFormula::Ef(i) | CtlFormula::Af(i)
        | CtlFormula::Eg(i) | CtlFormula::Ag(i) => {
            memo_formulas(i, memo);
        },
        CtlFormula::And(l, r) | CtlFormula::Or(l, r) | CtlFormula::Eu(l, r) | CtlFormula::Au(l, r) => {
            memo_formulas(l, memo);
            memo_formulas(r, memo);
        },
    }
    let ghost mid = memo@.map_values(|x: &CtlFormula<A>| fview(*x));
    memo.push(f);
    assert(memo@.map_values(|x: &CtlFormula<A>| fview(*x)) =~= mid.push(fview(*f)));
}

proof fn lemma_atoms_listed_extend<A: View>(f: CtlFormula<A>, a: Seq<A>, b: Seq<A>)
    requires
        atoms_listed(f, a),
        a.len() <= b.len(),
        b.subrange(0, a.len() as int) == a,
    ensures
        atoms_listed(f, b),
    decreases f,
{
    match f {
        CtlFormula::Atom(x) => {
            let j = choose|j: int| 0 <= j < views_of(a).len() && views_of(a)[j] == x@;
            assert(b[j] == a[j]);
            assert(views_of(b)[j] == x@);
        },
        CtlFormula::Not(i) | CtlFormula::Ex(i) | CtlFormula::Ax(i) | CtlFormula::Ef(i) | CtlFormula::Af(i)
        | CtlFormula::Eg(i) | CtlFormula::Ag(i) => {
            lemma_atoms_listed_extend(*i, a, b);
        },
        CtlFormula::And(l, r) | CtlFormula::Or(l, r) | CtlFormula::Eu(l, r) | CtlFormula::Au(l, r) => {
            lemma_atoms_listed_extend(*l, a, b);
            lemma_atoms_listed_extend(*r, a, b);
        },
        _ => {},
    }
}

/// Add the atoms of `f` not yet listed, in order of first occurrence.
pub(crate) fn collect_atoms<A: StateValue>(f: &CtlFormula<A>, atoms: &mut Vec<A>)
    ensures
        atoms_listed(*f, final(atoms)@),
        final(atoms)@.len() >= old(atoms)@.len(),
        final(atoms)@.subrange(0, old(atoms)@.len() as int) == old(atoms)@,
    decreases f,
{
    match f {
        CtlFormula::True | CtlFormula::False => {},
        CtlFormula::Atom(a) => {
            let found = position_of(atoms, a);
            if found.is_none() {
                let ghost before = atoms@;
                atoms.push(a.copy_value());
                assert(views_of(atoms@)[before.len() as int] == a@);
                assert(atoms@.subrange(0, before.len() as int) =~= before);
            } else {
                let j = found.unwrap();
                assert(views_of(atoms@)[j as int] == a@);
                assert(atoms@.subrange(0, atoms@.len() as int) =~= atoms@);
            }
        },
        CtlFormula::Not(i) | CtlFormula::Ex(i) | CtlFormula::Ax(i) | CtlFormula::Ef(i) | CtlFormula::Af(i)
        | CtlFormula::Eg(i) | CtlFormula::Ag(i) => {
            collect_atoms(i, atoms);
        },
        CtlFormula::And(l, r) | CtlFormula::Or(l, r) | CtlFormula::Eu(l, r) | CtlFormula::Au(l, r) => {
            let ghost start = atoms@;
            collect_atoms(l, atoms);
            let ghost mid = atoms@;
            collect_atoms(r, atoms);
            proof {
                lemma_atoms_listed_extend(**l, mid, atoms@);
                assert(atoms@.subrange(0, start.len() as int) =~= mid.subrange(0, start.len() as int));
            }
        },
    }
}

/// `table[i][k]` is an answer the callback `f` gives for atom `i` on state
/// `k` of `c`.
pub open spec fn table_answers<S, A, F: Fn(&A, &S) -> bool>(
    f: F,
    c: ReachableGraph<S>,
    atoms: Seq<A>,
    table: Seq<Vec<bool>>,
) -> bool {
    forall|i: int, k: int|
        0 <= i < atoms.len() && 0 <= k < c.states.len() ==> call_ensures(f, (&atoms[i], &c.states@[k]), #[trigger] table[i]@[k])
}

/// The caller's atom valuation on every state: `table[i][s]` is the
/// callback's answer for atom `i` on state `s`.
pub(crate) fn atom_table<S, A, F: Fn(&A, &S) -> bool>(g: &ReachableGraph<S>, atoms: &Vec<A>, atom_holds: &F) -> (table: Vec<
    Vec<bool>,
>)
    requires
        forall|a: &A, s: &S| atom_holds.requires((a, s)),
    ensures
        table@.len() == atoms@.len(),
        forall|i: int| 0 <= i < table@.len() ==> (#[trigger] table@[i])@.len() == g.states.len(),
        table_answers(*atom_holds, *g, atoms@, table@),
{
    let mut table: Vec<Vec<bool>> = Vec::new();
    let mut i: usize = 0;
    while i < atoms.len()
        invariant
            forall|a: &A, s: &S| atom_holds.requires((a, s)),
            i <= atoms@.len(),
            table@.len() == i,
            forall|j: int| 0 <= j < table@.len() ==> (#[trigger] table@[j])@.len() == g.states.len(),
            forall|j: int, k: int|
                0 <= j < i && 0 <= k < g.states.len() ==> call_ensures(*atom_holds, (&atoms@[j], &g.states@[k]), #[trigger] table@[j]@[k]),
        decreases atoms.len() - i,
    {
        let mut row: Vec<bool> = Vec::new();
        let mut s: usize = 0;
        while s < g.states.len()
            invariant
                forall|a: &A, s: &S| atom_holds.requires((a, s)),
                i < atoms@.len(),
                s <= g.states.len(),
                row@.len() == s,
                forall|k: int| 0 <= k < s ==> call_ensures(*atom_holds, (&atoms@[i as int], &g.states@[k]), #[trigger] row@[k]),
            decreases g.states.len() - s,
        {
            let v = atom_holds(&atoms[i], &g.states[s]);
            row.push(v);
            s += 1;
        }
        let ghost before = table@;
        table.push(row);
        proof {
            assert forall|j: int, k: int|
                0 <= j < i + 1 && 0 <= k < g.states.len() implies call_ensures(*atom_holds, (&atoms@[j], &g.states@[k]), #[trigger] table@[j]@[k]) by {
                if j < i {
                    assert(table@[j] == before[j]);
                }
            }
        }
        i += 1;
    }
    table
}

fn complement_bits(x: &Vec<bool>) -> (v: Vec<bool>)
    ensures
        v@ == Seq::new(x@.len(), |s: int| !x@[s]),
{
    let v = combine_bits(x, x, 0);
    assert(v@ =~= Seq::new(x@.len(), |s: int| !x@[s]));
    v
}

/// The pointwise complement.
pub open spec fn not_bits(x: Seq<bool>) -> Seq<bool> {
    Seq::new(x.len(), |s: int| !x[s])
}

/// No guarded path from `source` through `allowed` ends in `target`.
pub open spec fn no_path_witness<S>(g: ReachableGraph<S>, source: int, allowed: Seq<bool>, target: Seq<bool>) -> bool {
    forall|p: Seq<int>| #[trigger] guarded_path(g, p, allowed) && p[0] == source ==> !target[p.last()]
}

/// No lasso from `source` can be read off `allowed`: the source is outside
/// it, or some node of it has edges that all leave it.
pub open spec fn no_lasso_witness<S>(g: ReachableGraph<S>, source: int, allowed: Seq<bool>) -> bool {
    !allowed[source] || !allowed_closed(g, allowed)
}

/// Where the top-level evidence for `f` at `state` is missing, no witness
/// of the shape that the verdict calls for exists: a step, a guarded path
/// or a lasso through the relevant state sets. Other forms and other
/// verdicts have no top-level evidence.
pub open spec fn unexplained<S, A: View>(
    g: ReachableGraph<S>,
    f: CtlFormula<A>,
    state: int,
    satisfied: bool,
    top: Seq<bool>,
    atoms: Seq<A>,
    table: Seq<Vec<bool>>,
) -> bool {
    let n = g.states.len();
    let none = Seq::new(n as nat, |s: int| false);
    match f {
        CtlFormula::Ex(i) => !satisfied || !one_step_into(g, state, ctl_value(g, *i, atoms, table)),
        CtlFormula::Ef(i) => !satisfied || no_path_witness(g, state, everything(n as nat), ctl_value(g, *i, atoms, table)),
        CtlFormula::Eg(_) => !satisfied || no_lasso_witness(g, state, top),
        CtlFormula::Eu(l, r) => !satisfied || no_path_witness(
            g,
            state,
            ctl_value(g, *l, atoms, table),
            ctl_value(g, *r, atoms, table),
        ),
        CtlFormula::Ax(i) => satisfied || !one_step_into(g, state, not_bits(ctl_value(g, *i, atoms, table))),
        CtlFormula::Af(i) => satisfied || no_lasso_witness(
            g,
            state,
            gfp(g, false, none, not_bits(ctl_value(g, *i, atoms, table))),
        ),
        CtlFormula::Ag(i) => satisfied || no_path_witness(
            g,
            state,
            everything(n as nat),
            not_bits(ctl_value(g, *i, atoms, table)),
        ),
        CtlFormula::Au(l, r) => satisfied || {
            let nr = not_bits(ctl_value(g, *r, atoms, table));
            let bad = Seq::new(nr.len(), |s: int| nr[s] && !ctl_value(g, *l, atoms, table)[s]);
            if lfp(g, false, bad, nr)[state] {
                no_path_witness(g, state, nr, bad)
            } else {
                no_lasso_witness(g, state, gfp(g, false, none, nr))
            }
        },
        _ => true,
    }
}

/// Evidence for the top-level verdict at `state`, where the formula's form
/// allows a direct witness: `EX`, `EF`, `EG`, `EU` when satisfied; `AX`,
/// `AF`, `AG`, `AU` when refuted.
fn explain_top_level<S: StateValue, A: StateValue>(
    g: &ReachableGraph<S>,
    f: &CtlFormula<A>,
    state: usize,
    satisfied: bool,
    top: &Vec<bool>,
    atoms: &Vec<A>,
    table: &Vec<Vec<bool>>,
) -> (r: Option<CtlEvidence<S>>)
    requires
        g.wf(),
        state < g.states.len(),
        top@.len() == g.states.len(),
        atoms@.len() == table@.len(),
        forall|i: int| 0 <= i < table@.len() ==> (#[trigger] table@[i])@.len() == g.states.len(),
        atoms_listed(*f, atoms@),
    ensures
        r matches Some(ev) ==> evidence_ok(*g, state as int, ev),
        r is None ==> unexplained(*g, *f, state as int, satisfied, top@, atoms@, table@),
{
    let n = g.states.len();
    match f {
        CtlFormula::Ex(i) => {
            if !satisfied {
                return None;
            }
            let inner = ctl_states(g, i, atoms, table);
            let r = one_step_evidence(g, state, &inner);
            assert(r is None ==> unexplained(*g, *f, state as int, satisfied, top@, atoms@, table@));
            r
        },
        CtlFormula::Ef(i) => {
            if !satisfied {
                return None;
            }
            let target = ctl_states(g, i, atoms, table);
            let all = crate::graph::all_true(n);
            let r = finite_path_evidence(g, state, &all, &target);
            assert(r is None ==> unexplained(*g, *f, state as int, satisfied, top@, atoms@, table@));
            r
        },
        CtlFormula::Eg(_) => {
            if !satisfied {
                return None;
            }
            let r = lasso_evidence(g, state, top);
            assert(r is None ==> unexplained(*g, *f, state as int, satisfied, top@, atoms@, table@));
            r
        },
        CtlFormula::Eu(l, r) => {
            if !satisfied {
                return None;
            }
            let left = ctl_states(g, l, atoms, table);
            let right = ctl_states(g, r, atoms, table);
            let r = finite_path_evidence(g, state, &left, &right);
            assert(r is None ==> unexplained(*g, *f, state as int, satisfied, top@, atoms@, table@));
            r
        },
        CtlFormula::Ax(i) => {
            if satisfied {
                return None;
            }
            let inner = ctl_states(g, i, atoms, table);
            let bad = complement_bits(&inner);
            let r = one_step_evidence(g, state, &bad);
            assert(r is None ==> unexplained(*g, *f, state as int, satisfied, top@, atoms@, table@));
            r
        },
        CtlFormula::Af(i) => {
            if satisfied {
                return None;
            }
            let inner = ctl_states(g, i, atoms, table);
            let bad = complement_bits(&inner);
            let none = constant_bits(n, false);
            let never = greatest_fixpoint(g, false, &none, &bad);
            proof {
                lemma_gfp_unique(*g, false, none@, bad@, never@);
                assert(none@ =~= Seq::new(g.states.len() as nat, |s: int| false));
            }
            let r = lasso_evidence(g, state, &never);
            assert(r is None ==> unexplained(*g, *f, state as int, satisfied, top@, atoms@, table@));
            r
        },
        CtlFormula::Ag(i) => {
            if satisfied {
                return None;
            }
            let inner = ctl_states(g, i, atoms, table);
            let bad = complement_bits(&inner);
            let all = crate::graph::all_true(n);
            let r = finite_path_evidence(g, state, &all, &bad);
            assert(r is None ==> unexplained(*g, *f, state as int, satisfied, top@, atoms@, table@));
            r
        },
        CtlFormula::Au(l, r) => {
            if satisfied {
                return None;
            }
            let left = ctl_states(g, l, atoms, table);
            let right = ctl_states(g, r, atoms, table);
            let not_right = complement_bits(&right);
            let not_left = complement_bits(&left);
            let bad = combine_bits(&not_right, &not_left, 1);
            let finite_bad = least_fixpoint(g, false, &bad, &not_right);
            proof {
                lemma_lfp_unique(*g, false, bad@, not_right@, finite_bad@);
                let nr = not_bits(ctl_value(*g, **r, atoms@, table@));
                assert(bad@ =~= Seq::new(nr.len(), |s: int| nr[s] && !ctl_value(*g, **l, atoms@, table@)[s]));
            }
            if finite_bad[state] {
                finite_path_evidence(g, state, &not_right, &bad)
            } else {
                let none = constant_bits(n, false);
                let forever = greatest_fixpoint(g, false, &none, &not_right);
                proof {
                    lemma_gfp_unique(*g, false, none@, not_right@, forever@);
                    assert(none@ =~= Seq::new(g.states.len() as nat, |s: int| false));
                }
                lasso_evidence(g, state, &forever)
            }
        },
        _ => None,
    }
}

/// `ev` is the evaluation of `formula` over `c`, the captured reachable
/// graph of `model`, with atom table `table` over the distinct atoms
/// `atoms`: the satisfying set is exactly `ctl_value`, each initial state
/// is judged by it, and evidence, where given, is a real walk.
pub open spec fn ctl_report_ok<S: View, A: View>(
    model: TransitionSystem<S>,
    formula: CtlFormula<A>,
    c: ReachableGraph<S>,
    atoms: Seq<A>,
    table: Seq<Vec<bool>>,
    ev: CtlEvaluation<S>,
) -> bool {
    &&& crate::graph::distinct_states(c) && crate::graph::roots_of_initial(c, model.initial())
    &&& captured_ctl_ok(formula, c, atoms, table, ev)
}

/// `ev` is the evaluation of `formula` over the reachable graph `c` with
/// atom table `table` over the distinct atoms `atoms`.
pub open spec fn captured_ctl_ok<S: View, A: View>(
    formula: CtlFormula<A>,
    c: ReachableGraph<S>,
    atoms: Seq<A>,
    table: Seq<Vec<bool>>,
    ev: CtlEvaluation<S>,
) -> bool {
    let values = ctl_value(c, formula, atoms, table);
    &&& c.wf()
    &&& atoms.len() == table.len()
    &&& forall|i: int| 0 <= i < table.len() ==> (#[trigger] table[i])@.len() == c.states.len()
    &&& atoms_listed(formula, atoms)
    &&& values.len() == c.states.len()
    &&& ev.terminal_policy == CtlTerminalPolicy::TotalizeWithSelfLoop
    &&& ev.reachable_states == c.states
    &&& ev.discovered_states == c.states.len()
    &&& ev.satisfying_state_indices@.len() == crate::graph::selected(values).len()
    &&& forall|j: int|
        0 <= j < ev.satisfying_state_indices@.len() ==> ev.satisfying_state_indices@[j] as int
            == #[trigger] crate::graph::selected(values)[j]
    &&& ev.initial@.len() == c.initial_ids@.len()
    &&& forall|k: int|
        0 <= k < ev.initial@.len() ==> {
            let e = #[trigger] ev.initial@[k];
            &&& e.state_index == c.initial_ids@[k]
            &&& e.state@ == c.states@[e.state_index as int]@
            &&& e.satisfied == values[e.state_index as int]
            &&& e.evidence matches Some(x) ==> evidence_ok(c, e.state_index as int, x)
        }
    &&& ev.memoized_subformulas == memo_after(fview(formula), Seq::empty()).len()
}

/// Evaluate one typed CTL formula over exactly one complete reachable graph.
///
/// The model's transitions are evaluated only by the capture; every
/// subformula is then computed over that snapshot as a state set, with the
/// atom callback asked once per distinct atom and state.
pub fn evaluate_ctl<S: StateValue, A: StateValue, F: Fn(&A, &S) -> bool>(
    model: &TransitionSystem<S>,
    formula: &CtlFormula<A>,
    atom_holds: F,
) -> (r: Result<CtlEvaluation<S>, CtlError>)
    requires
        forall|a: &A, s: &S| atom_holds.requires((a, s)),
    ensures
        r matches Ok(ev) ==> exists|c: ReachableGraph<S>, atoms: Seq<A>, table: Seq<Vec<bool>>|
            #[trigger] ctl_report_ok(*model, *formula, c, atoms, table, ev) && table_answers(atom_holds, c, atoms, table),
        r matches Err(e) ==> e is Model || (e is SnapshotInvariant && crate::graph::capture_saturates(*model)),
{
    let captured = match capture_reachable_graph(model) {
        Ok(c) => c,
        Err(e) => {
            return Err(
                match e {
                    GraphCaptureError::Model(m) => CtlError::Model(m),
                    _ => CtlError::SnapshotInvariant,
                },
            );
        },
    };
    let ev = evaluate_captured_ctl(
        captured.graph,
        captured.discovered_states,
        captured.explored_transitions,
        captured.max_depth_reached,
        formula,
        &atom_holds,
    );
    proof {
        let (atoms, table) = choose|atoms: Seq<A>, table: Seq<Vec<bool>>| #[trigger] captured_ctl_ok(*formula, captured.graph, atoms, table, ev) && table_answers(atom_holds, captured.graph, atoms, table);
        assert(ctl_report_ok(*model, *formula, captured.graph, atoms, table, ev));
    }
    Ok(ev)
}

/// Evaluate `formula` over one reachable graph already captured.
pub(crate) fn evaluate_captured_ctl<S: StateValue, A: StateValue, F: Fn(&A, &S) -> bool>(
    graph: ReachableGraph<S>,
    discovered_states: usize,
    explored_transitions: usize,
    max_depth_reached: Option<usize>,
    formula: &CtlFormula<A>,
    atom_holds: &F,
) -> (ev: CtlEvaluation<S>)
    requires
        graph.wf(),
        discovered_states == graph.states.len(),
        forall|a: &A, s: &S| atom_holds.requires((a, s)),
    ensures
        exists|atoms: Seq<A>, table: Seq<Vec<bool>>| #[trigger] captured_ctl_ok(*formula, graph, atoms, table, ev) && table_answers(*atom_holds, graph, atoms, table),
        ev.explored_transitions == explored_transitions,
        ev.max_depth_reached == max_depth_reached,
{
    let mut atoms: Vec<A> = Vec::new();
    collect_atoms(formula, &mut atoms);
    let table = atom_table(&graph, &atoms, atom_holds);
    let values = ctl_states(&graph, formula, &atoms, &table);
    let satisfying = crate::fairness::selected_ids(&values);
    let mut initial: Vec<CtlInitialEvaluation<S>> = Vec::new();
    let mut k: usize = 0;
    while k < graph.initial_ids.len()
        invariant
            graph.wf(),
            values@.len() == graph.states.len(),
            atoms@.len() == table@.len(),
            forall|i: int| 0 <= i < table@.len() ==> (#[trigger] table@[i])@.len() == graph.states.len(),
            atoms_listed(*formula, atoms@),
            values@ == ctl_value(graph, *formula, atoms@, table@),
            k <= graph.initial_ids@.len(),
            initial@.len() == k,
            forall|j: int|
                0 <= j < k ==> {
                    let e = #[trigger] initial@[j];
                    &&& e.state_index == graph.initial_ids@[j]
                    &&& e.state@ == graph.states@[e.state_index as int]@
                    &&& e.satisfied == values@[e.state_index as int]
                    &&& e.evidence matches Some(x) ==> evidence_ok(graph, e.state_index as int, x)
                },
        decreases graph.initial_ids.len() - k,
    {
        let idx = graph.initial_ids[k];
        let satisfied = values[idx];
        let evidence = explain_top_level(&graph, formula, idx, satisfied, &values, &atoms, &table);
        initial.push(
            CtlInitialEvaluation { state_index: idx, state: graph.states[idx].copy_value(), satisfied, evidence },
        );
        k += 1;
    }
    let mut memo: Vec<&CtlFormula<A>> = Vec::new();
    memo_formulas(formula, &mut memo);
    let memoized = memo.len();
    proof {
        assert(memo@.map_values(|x: &CtlFormula<A>| fview(*x)).len() == memo@.len());
        assert(Seq::<&CtlFormula<A>>::empty().map_values(|x: &CtlFormula<A>| fview(*x)) =~= Seq::empty());
    }
    let ghost c = graph;
    let ev = CtlEvaluation {
        terminal_policy: CtlTerminalPolicy::TotalizeWithSelfLoop,
        reachable_states: graph.states,
        satisfying_state_indices: satisfying,
        initial,
        discovered_states,
        explored_transitions,
        max_depth_reached,
        memoized_subformulas: memoized,
    };
    proof {
        assert(captured_ctl_ok(*formula, c, atoms@, table@, ev));
        assert(table_answers(*atom_holds, c, atoms@, table@));
    }
    ev
}

} // verus!
