//! Combined weak and strong exact-action fairness profiles.
use crate::bounded::BoundedOutcome;
use crate::buchi::{
    acceptance_membership, bounded_report_ok, buchi_report_ok, check_buchi_with_weak_fairness,
    check_buchi_with_weak_fairness_and_product_limits, count_edges, edge_total, enablement_of, model_enablement,
    product_complete, set_names, BoundedBuchiResult, BuchiAutomaton, BuchiCounterexample, BuchiError, BuchiResult,
    BuchiStatus, FiniteRunPolicy,
};
use crate::checker::ExplorationLimits;
use crate::model::TransitionSystem;
use crate::product::{build_action_product, build_action_product_with_limits, product_wf, terminal_marks, BoundedActionProduct, BuchiProductState};
use crate::checker::TraceStep;
use crate::fairness::{
    action_enabled, action_witnessed, enabled, fair_component, find_disabled, find_internal, holds_member_state, honours,
    fair_lasso_cycle, honours_in, induced_by, internal_edge, lasso_ok, lemma_honours_extend, lemma_lift_honours, lemma_root_walk, lemma_spells_push,
    outside, outside_mask, selected_ids, takes, terminal_violation, text_repeats, violation_ok, weak_rejection,
    FairnessError, Violation, WeakFairness,
};
use crate::graph::{kept_edges, rank, capture_reachable_graph, distinct_states, roots_of_initial, everything, induced_graph, is_walk, reachable_from, selected, shortest_path, trace_spells, ReachableGraph};
use crate::recurrence::{
    append_path, component_is_cyclic, covered, cyclic, is_scc_partition, member_mask, members_of, mutual, reaches,
    spells_walk, strongly_connected_components, whole_component, RecurrenceError,
};
use crate::state::StateValue;
use crate::text::{append, owned, same_text, trim};
use vstd::prelude::*;

verus! {

/// The names of a list of actions.
pub open spec fn names(v: Seq<String>) -> Seq<Seq<char>> {
    v.map_values(|s: String| s@)
}

/// The names of declared action texts.
pub open spec fn declared(v: Seq<&str>) -> Seq<Seq<char>> {
    v.map_values(|s: &str| s@)
}

/// Every declared name is non-blank and none repeats an earlier one.
pub open spec fn valid_actions(actions: Seq<&str>) -> bool {
    forall|i: int| 0 <= i < actions.len() ==> trim((#[trigger] actions[i])@).len() > 0 && !text_repeats(actions, i)
}

/// `w` without the names listed in `s`, in the order of `w`.
pub open spec fn without(w: Seq<Seq<char>>, s: Seq<Seq<char>>) -> Seq<Seq<char>>
    decreases w.len(),
{
    if w.len() == 0 {
        Seq::empty()
    } else {
        let rest = without(w.drop_last(), s);
        if s.contains(w.last()) {
            rest
        } else {
            rest.push(w.last())
        }
    }
}

/// Exact-action strong-fairness assumptions for infinite executions.
///
/// An infinite execution is strongly fair for an action when it does not
/// keep meeting states that enable the action without ever taking it: on a
/// repeated finite recurrent walk, each configured action that is enabled
/// at some recurrent state is taken on the walk.
#[derive(Debug, Clone, PartialEq, Eq)]
pub struct StrongFairness {
    actions: Vec<String>,
}

#[derive(Debug, Clone, PartialEq, Eq)]
pub enum StrongFairnessError {
    EmptyActionName,
    DuplicateAction { action: String },
}

/// What a strong-fairness failure's message says.
pub open spec fn strong_fairness_error_text(e: StrongFairnessError) -> Seq<char> {
    match e {
        StrongFairnessError::EmptyActionName => "strong-fair action name must not be empty"@,
        StrongFairnessError::DuplicateAction { action } => "duplicate strong-fair action '"@ + action@ + "'"@,
    }
}

/// The strong-fairness error that corresponds to a rejected declaration.
pub open spec fn as_strong(e: FairnessError) -> StrongFairnessError {
    match e {
        FairnessError::EmptyActionName => StrongFairnessError::EmptyActionName,
        FairnessError::DuplicateAction { action } => StrongFairnessError::DuplicateAction { action },
    }
}

impl StrongFairnessError {
    pub fn message(&self) -> (text: String)
        ensures
            text@ == strong_fairness_error_text(*self),
    {
        let mut out = String::new();
        match self {
            StrongFairnessError::EmptyActionName => append(&mut out, "strong-fair action name must not be empty"),
            StrongFairnessError::DuplicateAction { action } => {
                append(&mut out, "duplicate strong-fair action '");
                append(&mut out, action.as_str());
                append(&mut out, "'");
            },
        }
        assert(out@ =~= strong_fairness_error_text(*self));
        out
    }
}

fn copy_names(v: &[String]) -> (c: Vec<String>)
    ensures
        names(c@) == names(v@),
{
    let mut c: Vec<String> = Vec::new();
    let mut k: usize = 0;
    while k < v.len()
        invariant
            k <= v@.len(),
            c@.len() == k,
            forall|x: int| 0 <= x < k ==> (#[trigger] c@[x])@ == v@[x]@,
        decreases v.len() - k,
    {
        c.push(owned(v[k].as_str()));
        k += 1;
    }
    assert(names(c@) =~= names(v@));
    c
}

/// A rejected declaration list is not valid.
proof fn lemma_rejected_invalid(actions: Seq<&str>, j: int, e: FairnessError)
    requires
        0 <= j < actions.len(),
        weak_rejection(actions, j, e),
    ensures
        !valid_actions(actions),
{
    assert(!(trim(actions[j]@).len() > 0 && !text_repeats(actions, j)));
}

/// An accepted declaration list is valid, and the accepted names are the
/// declared ones.
proof fn lemma_accepted(actions: Seq<&str>, f: Seq<String>)
    requires
        f.len() == actions.len(),
        forall|i: int| 0 <= i < actions.len() ==> #[trigger] f[i]@ == actions[i]@,
        forall|i: int| 0 <= i < actions.len() ==> trim((#[trigger] actions[i])@).len() > 0,
        forall|i: int| 0 <= i < actions.len() ==> !#[trigger] crate::text::repeats_earlier(f, i),
    ensures
        valid_actions(actions),
        names(f) == declared(actions),
{
    assert forall|i: int| 0 <= i < actions.len() implies trim((#[trigger] actions[i])@).len() > 0 && !text_repeats(
        actions,
        i,
    ) by {
        if text_repeats(actions, i) {
            let k = choose|k: int| 0 <= k < i && (#[trigger] actions[k])@ == actions[i]@;
            assert(f[k]@ == f[i]@);
            assert(crate::text::repeats_earlier(f, i));
        }
    }
    assert(names(f) =~= declared(actions));
}

impl StrongFairness {
    pub closed spec fn action_list(&self) -> Seq<String> {
        self.actions@
    }

    /// Strong fairness over the given actions, in order; names must not be
    /// blank and must not repeat.
    pub fn new(actions: &[&str]) -> (r: Result<Self, StrongFairnessError>)
        ensures
            match r {
                Ok(f) => valid_actions(actions@) && names(f.action_list()) == declared(actions@),
                Err(e) => !valid_actions(actions@) && exists|j: int, w: FairnessError|
                    0 <= j < actions@.len() && #[trigger] weak_rejection(actions@, j, w) && e == as_strong(w),
            },
    {
        match WeakFairness::new(actions) {
            Ok(w) => {
                proof {
                    lemma_accepted(actions@, w.action_list());
                }
                Ok(StrongFairness { actions: copy_names(w.actions()) })
            },
            Err(e) => {
                proof {
                    let j = choose|j: int| 0 <= j < actions@.len() && #[trigger] weak_rejection(actions@, j, e);
                    lemma_rejected_invalid(actions@, j, e);
                }
                Err(
                    match e {
                        FairnessError::EmptyActionName => StrongFairnessError::EmptyActionName,
                        FairnessError::DuplicateAction { action } => StrongFairnessError::DuplicateAction { action },
                    },
                )
            },
        }
    }

    /// No strong-fairness assumption.
    pub fn none() -> (f: Self)
        ensures
            f.action_list().len() == 0,
    {
        StrongFairness { actions: Vec::new() }
    }

    pub fn actions(&self) -> (actions: &[String])
        ensures
            actions@ == self.action_list(),
    {
        self.actions.as_slice()
    }

    pub fn is_empty(&self) -> (empty: bool)
        ensures
            empty == (self.action_list().len() == 0),
    {
        self.actions.len() == 0
    }
}

/// One validated profile of exact-action weak- and strong-fairness
/// assumptions for infinite executions.
///
/// Each class keeps its declaration order. An action named in both classes
/// is kept only as strong, since the stronger obligation subsumes the weak
/// one; the remaining weak actions keep their relative order. Finite
/// executions are never filtered by a profile.
#[derive(Debug, Clone, PartialEq, Eq)]
pub struct FairnessProfile {
    weak: WeakFairness,
    strong: StrongFairness,
}

#[derive(Debug, Clone, PartialEq, Eq)]
pub enum FairnessProfileError {
    Weak(FairnessError),
    Strong(StrongFairnessError),
}

/// What a profile failure's message says.
pub open spec fn profile_error_text(e: FairnessProfileError) -> Seq<char> {
    match e {
        FairnessProfileError::Weak(w) => "invalid weak-fair assumption: "@ + crate::fairness::fairness_error_text(w),
        FairnessProfileError::Strong(s) => "invalid strong-fair assumption: "@ + strong_fairness_error_text(s),
    }
}

impl FairnessProfileError {
    pub fn message(&self) -> (text: String)
        ensures
            text@ == profile_error_text(*self),
    {
        let mut out = String::new();
        match self {
            FairnessProfileError::Weak(w) => {
                append(&mut out, "invalid weak-fair assumption: ");
                let inner = w.message();
                append(&mut out, inner.as_str());
            },
            FairnessProfileError::Strong(s) => {
                append(&mut out, "invalid strong-fair assumption: ");
                let inner = s.message();
                append(&mut out, inner.as_str());
            },
        }
        assert(out@ =~= profile_error_text(*self));
        out
    }
}

impl FairnessProfile {
    /// The weak-fair actions kept by the profile.
    pub closed spec fn weak_list(&self) -> Seq<String> {
        self.weak.action_list()
    }

    /// The strong-fair actions of the profile.
    pub closed spec fn strong_list(&self) -> Seq<String> {
        self.strong.action_list()
    }

    /// A profile from weak and strong declarations. The weak list is
    /// validated first (its first blank or repeated name is reported), then
    /// the strong list; an action declared in both is kept only as strong.
    pub fn new(weak: &[&str], strong: &[&str]) -> (r: Result<Self, FairnessProfileError>)
        ensures
            match r {
                Ok(p) => {
                    &&& valid_actions(weak@) && valid_actions(strong@)
                    &&& names(p.strong_list()) == declared(strong@)
                    &&& names(p.weak_list()) == without(declared(weak@), declared(strong@))
                },
                Err(FairnessProfileError::Weak(e)) => exists|j: int|
                    0 <= j < weak@.len() && #[trigger] weak_rejection(weak@, j, e),
                Err(FairnessProfileError::Strong(e)) => valid_actions(weak@) && exists|j: int, w: FairnessError|
                    0 <= j < strong@.len() && #[trigger] weak_rejection(strong@, j, w) && e == as_strong(w),
            },
    {
        let w = match WeakFairness::new(weak) {
            Ok(w) => w,
            Err(e) => {
                return Err(FairnessProfileError::Weak(e));
            },
        };
        proof {
            lemma_accepted(weak@, w.action_list());
        }
        let s = match StrongFairness::new(strong) {
            Ok(s) => s,
            Err(e) => {
                return Err(FairnessProfileError::Strong(e));
            },
        };
        let weak_only = w.without(s.actions());
        proof {
            assert(names(weak_only.action_list()) == without(names(w.action_list()), names(s.action_list())));
        }
        Ok(FairnessProfile { weak: weak_only, strong: s })
    }

    /// The empty profile: no fairness assumption.
    pub fn none() -> (p: Self)
        ensures
            p.weak_list().len() == 0,
            p.strong_list().len() == 0,
    {
        FairnessProfile { weak: WeakFairness::none(), strong: StrongFairness::none() }
    }

    pub fn weak(&self) -> (w: &WeakFairness)
        ensures
            w.action_list() == self.weak_list(),
    {
        &self.weak
    }

    pub fn strong(&self) -> (s: &StrongFairness)
        ensures
            s.action_list() == self.strong_list(),
    {
        &self.strong
    }

    pub fn weak_actions(&self) -> (actions: &[String])
        ensures
            actions@ == self.weak_list(),
    {
        self.weak.actions()
    }

    pub fn strong_actions(&self) -> (actions: &[String])
        ensures
            actions@ == self.strong_list(),
    {
        self.strong.actions()
    }

    pub fn is_empty(&self) -> (empty: bool)
        ensures
            empty == (self.weak_list().len() == 0 && self.strong_list().len() == 0),
    {
        self.weak.is_empty() && self.strong.is_empty()
    }
}

impl Default for FairnessProfile {
    fn default() -> (p: Self)
        ensures
            p.weak_list().len() == 0,
            p.strong_list().len() == 0,
    {
        FairnessProfile::none()
    }
}

// ---------------------------------------------------------------------------
// Strongly fair recurrent components.
// ---------------------------------------------------------------------------

/// Some member of `component` enables `a` in the full graph.
pub open spec fn enabled_member<S>(full: ReachableGraph<S>, to_full: Seq<usize>, component: Seq<usize>, a: Seq<char>) -> bool {
    exists|i: int| 0 <= i < component.len() && enabled(full, to_full[#[trigger] component[i] as int] as int, a)
}

/// Strong action `a` is honoured by the component: when some member
/// enables it, an edge labelled `a` stays inside the component.
pub open spec fn strong_witnessed<S>(
    full: ReachableGraph<S>,
    residual: ReachableGraph<S>,
    to_full: Seq<usize>,
    component: Seq<usize>,
    a: Seq<char>,
) -> bool {
    enabled_member(full, to_full, component, a) ==> internal_edge(residual, component, a)
}

/// Every strong action enabled somewhere in the component can be taken
/// inside it.
pub open spec fn strong_closed<S>(
    full: ReachableGraph<S>,
    residual: ReachableGraph<S>,
    to_full: Seq<usize>,
    component: Seq<usize>,
    actions: Seq<String>,
) -> bool {
    forall|j: int| 0 <= j < actions.len() ==> #[trigger] strong_witnessed(full, residual, to_full, component, actions[j]@)
}

/// Node ids listed in strictly increasing order, each below `n`.
pub open spec fn sorted_below(c: Seq<usize>, n: nat) -> bool {
    &&& forall|i: int| 0 <= i < c.len() ==> #[trigger] c[i] < n
    &&& forall|i: int, j: int| 0 <= i < j < c.len() ==> #[trigger] c[i] < #[trigger] c[j]
}

/// A strictly increasing list below `m` has at most `m` entries.
proof fn lemma_increasing_len(s: Seq<usize>, m: int)
    requires
        m >= 0,
        forall|i: int| 0 <= i < s.len() ==> #[trigger] s[i] < m,
        forall|i: int, j: int| 0 <= i < j < s.len() ==> #[trigger] s[i] < #[trigger] s[j],
    ensures
        s.len() <= m,
    decreases s.len(),
{
    if s.len() > 0 {
        let d = s.drop_last();
        assert forall|i: int| 0 <= i < d.len() implies #[trigger] d[i] < s.last() by {
            assert(d[i] == s[i]);
        }
        assert forall|i: int, j: int| 0 <= i < j < d.len() implies #[trigger] d[i] < #[trigger] d[j] by {
            assert(d[i] == s[i] && d[j] == s[j]);
        }
        assert(s[s.len() - 1] < m);
        lemma_increasing_len(d, s.last() as int);
        assert(d.len() <= s.last() as int);
        assert(s.len() == d.len() + 1);
        assert(s.last() == s[s.len() - 1]);
    }
}

/// Strictly increasing ids drawn from `comp` minus one of its members are
/// fewer than the members of `comp`.
proof fn lemma_fewer(comp: Seq<usize>, sel: Seq<int>, r: usize)
    requires
        forall|i: int, j: int| 0 <= i < j < sel.len() ==> #[trigger] sel[i] < #[trigger] sel[j],
        forall|i: int|
            0 <= i < sel.len() ==> 0 <= #[trigger] sel[i] <= usize::MAX && comp.contains(sel[i] as usize) && sel[i] != r,
        comp.contains(r),
    ensures
        sel.len() < comp.len(),
{
    let ci = comp.map_values(|x: usize| x as int);
    assert(sel.no_duplicates()) by {
        assert forall|i: int, j: int| 0 <= i < sel.len() && 0 <= j < sel.len() && i != j implies sel[i] != sel[j] by {
            if i < j {
                assert(sel[i] < sel[j]);
            } else {
                assert(sel[j] < sel[i]);
            }
        }
    }
    sel.unique_seq_to_set();
    ci.lemma_cardinality_of_set();
    let k = comp.index_of(r);
    assert(ci[k] == r as int);
    assert(ci.to_set().contains(r as int));
    assert(sel.to_set().subset_of(ci.to_set().remove(r as int))) by {
        assert forall|x: int| sel.to_set().contains(x) implies ci.to_set().remove(r as int).contains(x) by {
            let i = choose|i: int| 0 <= i < sel.len() && sel[i] == x;
            let m = comp.index_of(sel[i] as usize);
            assert(comp[m] == sel[i] as usize);
            assert(ci[m] == comp[m] as int);
            assert(ci[m] == x);
        }
    }
    vstd::set_lib::lemma_len_subset(sel.to_set(), ci.to_set().remove(r as int));
}

/// Every node listed in `c` is listed in `o`.
pub open spec fn subset_of(c: Seq<usize>, o: Seq<usize>) -> bool {
    forall|i: int| 0 <= i < c.len() ==> o.contains(#[trigger] c[i])
}

/// `c` is a recurrent set of nodes of `g`: non-empty, without repeats,
/// some edge stays inside it, and each member reaches each member along a
/// walk that stays inside it. The nodes visited infinitely often by an
/// infinite execution form such a set.
#[verifier::opaque]
pub open spec fn recurrent_set<S>(g: ReachableGraph<S>, c: Seq<usize>) -> bool {
    &&& c.len() > 0
    &&& c.no_duplicates()
    &&& forall|i: int| 0 <= i < c.len() ==> #[trigger] c[i] < g.states.len()
    &&& exists|i: int, k: int|
        0 <= i < c.len() && 0 <= k < g.outgoing@[c[i] as int].len() && c.contains(
            (#[trigger] g.outgoing@[c[i] as int]@[k]).target,
        )
    &&& forall|i: int, j: int|
        0 <= i < c.len() && 0 <= j < c.len() ==> reachable_from(
            g,
            seq![#[trigger] c[i]],
            #[trigger] c[j] as int,
            member_mask(c, g.states@.len()),
        )
}

/// A walk inside `included`, renumbered by rank, is a walk of the induced
/// graph.
proof fn lemma_walk_ranks<S>(graph: ReachableGraph<S>, included: Seq<bool>, r: ReachableGraph<S>, p: Seq<int>)
    requires
        graph.wf(),
        r.wf(),
        included.len() == graph.states.len(),
        r.states.len() == selected(included).len(),
        forall|j: int|
            0 <= j < r.outgoing.len() ==> (#[trigger] r.outgoing@[j])@ == kept_edges(
                graph.outgoing@[selected(included)[j]]@,
                included,
            ),
        is_walk(graph, p, included),
    ensures
        is_walk(r, p.map_values(|v: int| rank(included, v)), everything(r.states@.len())),
{
    let q = p.map_values(|v: int| rank(included, v));
    assert forall|i: int| 0 <= i < q.len() implies 0 <= #[trigger] q[i] < r.states.len() && everything(
        r.states@.len(),
    )[q[i]] by {
        crate::graph::lemma_rank_included(included, p[i]);
    }
    assert forall|i: int| 0 <= i < q.len() - 1 implies r.step(#[trigger] q[i], q[i + 1]) by {
        assert(graph.step(p[i], p[i + 1]));
        let k = choose|k: int| 0 <= k < graph.outgoing@[p[i]].len() && (#[trigger] graph.outgoing@[p[i]]@[k]).target == p[i + 1];
        crate::graph::lemma_rank_included(included, p[i]);
        crate::graph::lemma_rank_included(included, p[i + 1]);
        crate::graph::lemma_kept_edge_present(graph.outgoing@[p[i]]@, included, k);
        let k2 = choose|k2: int|
            0 <= k2 < kept_edges(graph.outgoing@[p[i]]@, included).len() && (#[trigger] kept_edges(
                graph.outgoing@[p[i]]@,
                included,
            )[k2]).target == rank(included, p[i + 1]) as usize;
        assert(r.outgoing@[q[i]]@ == kept_edges(graph.outgoing@[p[i]]@, included));
        assert(r.outgoing@[q[i]]@[k2].target == q[i + 1]);
    }
}

/// Members of a recurrent set that lie inside `included` reach each other
/// in the induced graph.
#[verifier::spinoff_prover]
#[verifier::rlimit(30)]
proof fn lemma_recurrent_ranks_mutual<S>(
    graph: ReachableGraph<S>,
    included: Seq<bool>,
    r: ReachableGraph<S>,
    c: Seq<usize>,
    i: int,
    j: int,
)
    requires
        graph.wf(),
        r.wf(),
        included.len() == graph.states.len(),
        r.states.len() == selected(included).len(),
        forall|j: int|
            0 <= j < r.outgoing.len() ==> (#[trigger] r.outgoing@[j])@ == kept_edges(
                graph.outgoing@[selected(included)[j]]@,
                included,
            ),
        recurrent_set(graph, c),
        forall|x: int| 0 <= x < c.len() ==> included[#[trigger] c[x] as int],
        0 <= i < c.len(),
        0 <= j < c.len(),
    ensures
        reaches(r, rank(included, c[i] as int), rank(included, c[j] as int)),
{
    reveal(recurrent_set);
    let mask = member_mask(c, graph.states@.len());
    assert(reachable_from(graph, seq![c[i]], c[j] as int, mask));
    let p = choose|p: Seq<int>| #[trigger] is_walk(graph, p, mask) && seq![c[i]].contains(p[0] as usize) && p.last() == c[j] as int;
    assert(seq![c[i]][0] == c[i]);
    assert(p[0] == c[i] as int) by {
        assert(0 <= p[0] < graph.states.len());
    }
    assert forall|x: int| 0 <= x < p.len() implies 0 <= #[trigger] p[x] < graph.states.len() && included[p[x]] by {
        assert(mask[p[x]]);
        let m = c.index_of(p[x] as usize);
        assert(c[m] == p[x] as usize);
    }
    assert(is_walk(graph, p, included));
    lemma_walk_ranks(graph, included, r, p);
    let q = p.map_values(|v: int| rank(included, v));
    crate::graph::lemma_rank_included(included, c[i] as int);
    assert(seq![rank(included, c[i] as int) as usize][0] == q[0] as usize);
    assert(reachable_from(r, seq![rank(included, c[i] as int) as usize], rank(included, c[j] as int), everything(r.states@.len())));
}

/// A node that shares a component with a member of component `c` of an SCC
/// partition is itself a member of `c`.
proof fn lemma_same_component<S>(graph: ReachableGraph<S>, comps: Seq<Vec<usize>>, c: int, i: int, v: int)
    requires
        is_scc_partition(graph, comps),
        0 <= c < comps.len(),
        0 <= i < comps[c]@.len(),
        0 <= v < graph.states.len(),
        mutual(graph, comps[c]@[i] as int, v),
    ensures
        comps[c]@.contains(v as usize),
{
    assert(covered(comps, v));
    let (c2, j) = choose|c2: int, j: int| 0 <= c2 < comps.len() && 0 <= j < comps[c2].len() && comps[c2]@[j] == v;
    if c2 != c {
        assert(!mutual(graph, comps[c]@[i] as int, comps[c2]@[j] as int));
    }
    assert(comps[c]@[j] == v as usize);
}

/// A recurrent set lies inside one component of an SCC partition, and that
/// component is cyclic.
#[verifier::spinoff_prover]
#[verifier::rlimit(30)]
proof fn lemma_recurrent_in_component<S>(graph: ReachableGraph<S>, comps: Seq<Vec<usize>>, c: Seq<usize>)
    requires
        graph.wf(),
        is_scc_partition(graph, comps),
        recurrent_set(graph, c),
    ensures
        exists|x: int| 0 <= x < comps.len() && subset_of(c, #[trigger] comps[x]@) && cyclic(graph, comps[x]@),
{
    reveal(recurrent_set);
    let n = graph.states.len();
    assert(covered(comps, c[0] as int));
    let (x, i0) = choose|x: int, i0: int| 0 <= x < comps.len() && 0 <= i0 < comps[x].len() && comps[x]@[i0] == c[0] as int;
    assert forall|j: int| 0 <= j < c.len() implies comps[x]@.contains(#[trigger] c[j]) by {
        lemma_recurrent_reaches(graph, c, 0, j);
        lemma_recurrent_reaches(graph, c, j, 0);
        lemma_same_component(graph, comps, x, i0, c[j] as int);
    }
    if comps[x]@.len() <= 1 {
        let (i, k) = choose|i: int, k: int|
            0 <= i < c.len() && 0 <= k < graph.outgoing@[c[i] as int].len() && c.contains(
                (#[trigger] graph.outgoing@[c[i] as int]@[k]).target,
            );
        let t = graph.outgoing@[c[i] as int]@[k].target;
        let m = c.index_of(t);
        assert(comps[x]@.contains(c[i]));
        assert(comps[x]@.contains(c[m]));
        assert(comps[x]@[0] == c[i] && comps[x]@[0] == t);
        assert(graph.step(c[i] as int, c[i] as int));
    }
}

/// Members of a recurrent set reach each other in the whole graph.
proof fn lemma_recurrent_reaches<S>(graph: ReachableGraph<S>, c: Seq<usize>, i: int, j: int)
    requires
        graph.wf(),
        recurrent_set(graph, c),
        0 <= i < c.len(),
        0 <= j < c.len(),
    ensures
        reaches(graph, c[i] as int, c[j] as int),
{
    reveal(recurrent_set);
    let mask = member_mask(c, graph.states@.len());
    assert(reachable_from(graph, seq![c[i]], c[j] as int, mask));
    let p = choose|p: Seq<int>| #[trigger] is_walk(graph, p, mask) && seq![c[i]].contains(p[0] as usize) && p.last() == c[j] as int;
    assert(is_walk(graph, p, everything(graph.states@.len())));
    assert(seq![c[i]] =~= seq![c[i] as int as usize]);
}

/// Fairness of a component is inherited by every component containing it.
proof fn lemma_fair_grows<S>(
    full: ReachableGraph<S>,
    residual: ReachableGraph<S>,
    to_full: Seq<usize>,
    c: Seq<usize>,
    o: Seq<usize>,
    weak: Seq<String>,
)
    requires
        subset_of(c, o),
        fair_component(full, residual, to_full, c, weak),
    ensures
        fair_component(full, residual, to_full, o, weak),
{
    assert forall|j: int| 0 <= j < weak.len() implies #[trigger] action_witnessed(full, residual, to_full, o, weak[j]@) by {
        let a = weak[j]@;
        assert(action_witnessed(full, residual, to_full, c, a));
        if crate::fairness::disabled_member(full, to_full, c, a) {
            let i = choose|i: int| 0 <= i < c.len() && !enabled(full, to_full[#[trigger] c[i] as int] as int, a);
            let m = o.index_of(c[i]);
            assert(o[m] == c[i]);
            assert(crate::fairness::disabled_member(full, to_full, o, a));
        } else {
            let (i, k) = choose|i: int, k: int|
                0 <= i < c.len() && 0 <= k < residual.outgoing@[c[i] as int].len() && (#[trigger] residual.outgoing@[
                    c[i] as int]@[k]).action@ == a && c.contains(residual.outgoing@[c[i] as int]@[k].target);
            let m = o.index_of(c[i]);
            assert(o[m] == c[i]);
            let t = residual.outgoing@[c[i] as int]@[k].target;
            let mt = c.index_of(t);
            assert(o.contains(c[mt]));
            assert(residual.outgoing@[o[m] as int]@[k] == residual.outgoing@[c[i] as int]@[k]);
            assert(internal_edge(residual, o, a));
        }
    }
}

/// `c` is a recurrent set that honours every strong action.
pub open spec fn fair_recurrent<S>(
    full: ReachableGraph<S>,
    residual: ReachableGraph<S>,
    to_full: Seq<usize>,
    strong: Seq<String>,
    c: Seq<usize>,
) -> bool {
    recurrent_set(residual, c) && strong_closed(full, residual, to_full, c, strong)
}

/// `c` is a recurrent set inside `component` that honours every strong
/// action: the refinement of `component` must keep it.
pub open spec fn strong_candidate<S>(
    full: ReachableGraph<S>,
    residual: ReachableGraph<S>,
    to_full: Seq<usize>,
    component: Seq<usize>,
    strong: Seq<String>,
    c: Seq<usize>,
) -> bool {
    recurrent_set(residual, c) && subset_of(c, component) && strong_closed(full, residual, to_full, c, strong)
}

proof fn lemma_internal_grows<S>(residual: ReachableGraph<S>, c: Seq<usize>, o: Seq<usize>, a: Seq<char>)
    requires
        subset_of(c, o),
        internal_edge(residual, c, a),
    ensures
        internal_edge(residual, o, a),
{
    let (i, k) = choose|i: int, k: int|
        0 <= i < c.len() && 0 <= k < residual.outgoing@[c[i] as int].len() && (#[trigger] residual.outgoing@[
            c[i] as int]@[k]).action@ == a && c.contains(residual.outgoing@[c[i] as int]@[k].target);
    let m = o.index_of(c[i]);
    assert(o[m] == c[i]);
    let t = residual.outgoing@[c[i] as int]@[k].target;
    let mt = c.index_of(t);
    assert(o.contains(c[mt]));
    assert(residual.outgoing@[o[m] as int]@[k] == residual.outgoing@[c[i] as int]@[k]);
}

/// A recurrent set inside `included` whose first member's rank lies in
/// component `x` of the induced graph's SCC partition lies wholly in that
/// component, and the component is cyclic.
#[verifier::spinoff_prover]
#[verifier::rlimit(30)]
proof fn lemma_candidate_in_sub<S>(
    graph: ReachableGraph<S>,
    included: Seq<bool>,
    r: ReachableGraph<S>,
    subs: Seq<Vec<usize>>,
    x: int,
    c: Seq<usize>,
)
    requires
        graph.wf(),
        r.wf(),
        included.len() == graph.states.len(),
        r.states.len() == selected(included).len(),
        forall|j: int|
            0 <= j < r.outgoing.len() ==> (#[trigger] r.outgoing@[j])@ == kept_edges(
                graph.outgoing@[selected(included)[j]]@,
                included,
            ),
        is_scc_partition(r, subs),
        0 <= x < subs.len(),
        recurrent_set(graph, c),
        forall|y: int| 0 <= y < c.len() ==> included[#[trigger] c[y] as int],
        subs[x]@.contains(rank(included, c[0] as int) as usize),
    ensures
        forall|y: int| 0 <= y < c.len() ==> subs[x]@.contains(rank(included, #[trigger] c[y] as int) as usize),
        cyclic(r, subs[x]@),
{
    reveal(recurrent_set);
    let i0 = subs[x]@.index_of(rank(included, c[0] as int) as usize);
    crate::graph::lemma_rank_included(included, c[0] as int);
    assert forall|y: int| 0 <= y < c.len() implies subs[x]@.contains(rank(included, #[trigger] c[y] as int) as usize) by {
        lemma_recurrent_ranks_mutual(graph, included, r, c, 0, y);
        lemma_recurrent_ranks_mutual(graph, included, r, c, y, 0);
        crate::graph::lemma_rank_included(included, c[y] as int);
        lemma_same_component(r, subs, x, i0, rank(included, c[y] as int));
    }
    if subs[x]@.len() <= 1 {
        let (i, k) = choose|i: int, k: int|
            0 <= i < c.len() && 0 <= k < graph.outgoing@[c[i] as int].len() && c.contains(
                (#[trigger] graph.outgoing@[c[i] as int]@[k]).target,
            );
        let t = graph.outgoing@[c[i] as int]@[k].target;
        let m = c.index_of(t);
        assert(subs[x]@.contains(rank(included, c[i] as int) as usize));
        assert(subs[x]@.contains(rank(included, c[m] as int) as usize));
        crate::graph::lemma_rank_included(included, c[i] as int);
        crate::graph::lemma_rank_included(included, c[m] as int);
        assert(rank(included, c[i] as int) == rank(included, c[m] as int));
        assert(c[i] == c[m]);
        let ri = rank(included, c[i] as int);
        crate::graph::lemma_kept_edge_present(graph.outgoing@[c[i] as int]@, included, k);
        let k2 = choose|k2: int|
            0 <= k2 < kept_edges(graph.outgoing@[c[i] as int]@, included).len() && (#[trigger] kept_edges(
                graph.outgoing@[c[i] as int]@,
                included,
            )[k2]).target == rank(included, t as int) as usize;
        assert(selected(included)[ri] == c[i] as int);
        assert(r.outgoing@[ri]@ == kept_edges(graph.outgoing@[c[i] as int]@, included));
        assert(r.outgoing@[ri]@[k2].target == ri);
        assert(subs[x]@[0] == ri as usize);
        assert(r.step(ri, ri));
    }
}

/// A cyclic strongly connected component is a recurrent set.
#[verifier::spinoff_prover]
#[verifier::rlimit(30)]
proof fn lemma_whole_recurrent<S>(g: ReachableGraph<S>, c: Seq<usize>)
    requires
        g.wf(),
        whole_component(g, c),
        cyclic(g, c),
    ensures
        recurrent_set(g, c),
{
    reveal(recurrent_set);
    crate::recurrence::lemma_internal_edge_exists(g, c);
    let j = choose|j: int| 0 <= j < g.outgoing@[c[0] as int].len() && c.contains((#[trigger] g.outgoing@[c[0] as int]@[j]).target);
    assert(c.contains(g.outgoing@[c[0] as int]@[j].target));
    assert forall|i: int, j: int| 0 <= i < c.len() && 0 <= j < c.len() implies reachable_from(
        g,
        seq![#[trigger] c[i]],
        #[trigger] c[j] as int,
        member_mask(c, g.states@.len()),
    ) by {
        assert(c.contains(c[i]) && c.contains(c[j]));
        crate::recurrence::lemma_member_reach(g, c, c[i] as int, c[j] as int);
        assert(seq![c[i] as int as usize] =~= seq![c[i]]);
    }
    assert(c.no_duplicates()) by {
        assert forall|i: int, j: int| 0 <= i < c.len() && 0 <= j < c.len() && i != j implies c[i] != c[j] by {
            if i < j {
                assert(c[i] != c[j]);
            } else {
                assert(c[j] != c[i]);
            }
        }
    }
}

/// A step of the induced graph is a step of the enclosing graph between
/// the selected nodes.
proof fn lemma_step_lifts<S>(graph: ReachableGraph<S>, included: Seq<bool>, r: ReachableGraph<S>, u: int, v: int)
    requires
        graph.wf(),
        r.wf(),
        included.len() == graph.states.len(),
        r.states.len() == selected(included).len(),
        forall|j: int|
            0 <= j < r.outgoing.len() ==> (#[trigger] r.outgoing@[j])@ == kept_edges(
                graph.outgoing@[selected(included)[j]]@,
                included,
            ),
        0 <= u < r.states.len(),
        0 <= v < r.states.len(),
        r.step(u, v),
    ensures
        graph.step(selected(included)[u], selected(included)[v]),
{
    crate::graph::lemma_selected_bounds(included);
    let su = selected(included)[u];
    let k = choose|k: int| 0 <= k < r.outgoing@[u].len() && (#[trigger] r.outgoing@[u]@[k]).target == v;
    let edges = graph.outgoing@[su]@;
    assert(r.outgoing@[u]@ == kept_edges(edges, included));
    assert forall|j: int| 0 <= j < edges.len() implies (#[trigger] edges[j]).target < included.len() by {
        assert(graph.outgoing@[su]@[j].target < graph.states.len());
    }
    crate::graph::lemma_kept_edge_source(edges, included, k);
    let j = choose|j: int|
        0 <= j < edges.len() && included[(#[trigger] edges[j]).target as int] && edges[j].action == kept_edges(
            edges,
            included,
        )[k].action && rank(included, edges[j].target as int) == kept_edges(edges, included)[k].target;
    crate::graph::lemma_rank_included(included, edges[j].target as int);
    assert(edges[j].target as int == selected(included)[v]);
    assert(graph.outgoing@[su]@[j].target as int == selected(included)[v]);
}

/// The members of a cyclic strongly connected component of the induced
/// graph, mapped back to the nodes they came from, form a recurrent set there.
#[verifier::spinoff_prover]
#[verifier::rlimit(30)]
proof fn lemma_lifted_recurrent<S>(
    graph: ReachableGraph<S>,
    included: Seq<bool>,
    r: ReachableGraph<S>,
    sub: Seq<usize>,
    mapped: Seq<usize>,
)
    requires
        graph.wf(),
        r.wf(),
        included.len() == graph.states.len(),
        r.states.len() == selected(included).len(),
        forall|j: int|
            0 <= j < r.outgoing.len() ==> (#[trigger] r.outgoing@[j])@ == kept_edges(
                graph.outgoing@[selected(included)[j]]@,
                included,
            ),
        whole_component(r, sub),
        cyclic(r, sub),
        mapped.len() == sub.len(),
        forall|y: int| 0 <= y < mapped.len() ==> #[trigger] mapped[y] as int == selected(included)[sub[y] as int],
        forall|x: int, y: int| 0 <= x < y < mapped.len() ==> #[trigger] mapped[x] < #[trigger] mapped[y],
    ensures
        recurrent_set(graph, mapped),
{
    reveal(recurrent_set);
    let n = graph.states@.len();
    let mask = member_mask(mapped, n);
    crate::graph::lemma_selected_bounds(included);
    assert forall|y: int| 0 <= y < mapped.len() implies #[trigger] mapped[y] < graph.states.len() by {
        assert(sub[y] < r.states.len());
    }
    assert forall|i: int, j: int| 0 <= i < mapped.len() && 0 <= j < mapped.len() implies reachable_from(
        graph,
        seq![#[trigger] mapped[i]],
        #[trigger] mapped[j] as int,
        mask,
    ) by {
        assert(sub.contains(sub[i]) && sub.contains(sub[j]));
        crate::recurrence::lemma_member_reach(r, sub, sub[i] as int, sub[j] as int);
        let dm = member_mask(sub, r.states@.len());
        let p = choose|p: Seq<int>| #[trigger] is_walk(r, p, dm) && seq![sub[i]].contains(p[0] as usize) && p.last() == sub[j] as int;
        assert(seq![sub[i]][0] == sub[i]);
        assert(p[0] == sub[i] as int) by {
            assert(0 <= p[0] < r.states.len());
        }
        let q = p.map_values(|v: int| selected(included)[v]);
        assert forall|x: int| 0 <= x < q.len() implies 0 <= #[trigger] q[x] < graph.states.len() && mask[q[x]] by {
            assert(dm[p[x]]);
            let y = sub.index_of(p[x] as usize);
            assert(sub[y] as int == p[x]);
            assert(mapped[y] as int == q[x]);
        }
        assert forall|x: int| 0 <= x < q.len() - 1 implies graph.step(#[trigger] q[x], q[x + 1]) by {
            assert(r.step(p[x], p[x + 1]));
            lemma_step_lifts(graph, included, r, p[x], p[x + 1]);
        }
        assert(is_walk(graph, q, mask));
        assert(q[0] == mapped[i] as int);
        assert(q[0] as usize == mapped[i]);
        assert(seq![mapped[i]][0] == mapped[i]);
        assert(seq![mapped[i]].contains(q[0] as usize));
    }
    assert(mapped.no_duplicates()) by {
        assert forall|i: int, j: int| 0 <= i < mapped.len() && 0 <= j < mapped.len() && i != j implies mapped[i] != mapped[j] by {
            if i < j {
                assert(mapped[i] < mapped[j]);
            } else {
                assert(mapped[j] < mapped[i]);
            }
        }
    }
    if sub.len() == 1 {
        assert(r.step(sub[0] as int, sub[0] as int));
        lemma_step_lifts(graph, included, r, sub[0] as int, sub[0] as int);
        let k = choose|k: int| 0 <= k < graph.outgoing@[mapped[0] as int].len() && (#[trigger] graph.outgoing@[mapped[0] as int]@[k]).target == mapped[0] as int;
        assert(mapped.contains(graph.outgoing@[mapped[0] as int]@[k].target));
    } else {
        assert(reachable_from(graph, seq![mapped[0]], mapped[1] as int, mask));
        let p = choose|p: Seq<int>| #[trigger] is_walk(graph, p, mask) && seq![mapped[0]].contains(p[0] as usize) && p.last() == mapped[1] as int;
        assert(seq![mapped[0]][0] == mapped[0]);
        assert(p[0] == mapped[0] as int) by {
            assert(0 <= p[0] < graph.states.len());
        }
        assert(mapped[0] < mapped[1]);
        assert(p.len() >= 2);
        assert(graph.step(p[0], p[1]));
        let k = choose|k: int| 0 <= k < graph.outgoing@[p[0]].len() && (#[trigger] graph.outgoing@[p[0]]@[k]).target == p[1];
        assert(mask[p[1]]);
        assert(mapped.contains(graph.outgoing@[mapped[0] as int]@[k].target));
    }
}

/// Members of a recurrent set reach each other inside it.
proof fn lemma_recurrent_member_reach<S>(g: ReachableGraph<S>, c: Seq<usize>, u: usize, v: usize)
    requires
        recurrent_set(g, c),
        c.contains(u),
        c.contains(v),
    ensures
        reachable_from(g, seq![u], v as int, member_mask(c, g.states@.len())),
{
    reveal(recurrent_set);
    let i = c.index_of(u);
    let j = c.index_of(v);
    assert(reachable_from(g, seq![c[i]], c[j] as int, member_mask(c, g.states@.len())));
}

/// Every member of a recurrent set has an edge that stays inside it.
#[verifier::spinoff_prover]
#[verifier::rlimit(30)]
proof fn lemma_recurrent_edge<S>(g: ReachableGraph<S>, c: Seq<usize>, e: usize)
    requires
        g.wf(),
        recurrent_set(g, c),
        c.contains(e),
    ensures
        exists|k: int| 0 <= k < g.outgoing@[e as int].len() && c.contains((#[trigger] g.outgoing@[e as int]@[k]).target),
{
    reveal(recurrent_set);
    let mask = member_mask(c, g.states@.len());
    if c.len() == 1 {
        let (i, k) = choose|i: int, k: int|
            0 <= i < c.len() && 0 <= k < g.outgoing@[c[i] as int].len() && c.contains(
                (#[trigger] g.outgoing@[c[i] as int]@[k]).target,
            );
        assert(c[i] == e);
        assert(c.contains(g.outgoing@[e as int]@[k].target));
    } else {
        let other = if c[0] != e { c[0] } else { c[1] };
        assert(other != e) by {
            if c[0] == e {
                assert(c[0] != c[1]);
            }
        }
        assert(c.contains(other));
        lemma_recurrent_member_reach(g, c, e, other);
        let p = choose|p: Seq<int>| #[trigger] is_walk(g, p, mask) && seq![e].contains(p[0] as usize) && p.last() == other as int;
        assert(seq![e][0] == e);
        assert(p[0] == e as int) by {
            assert(0 <= p[0] < g.states.len());
        }
        assert(p.len() >= 2);
        assert(g.step(p[0], p[1]));
        let k = choose|k: int| 0 <= k < g.outgoing@[p[0]].len() && (#[trigger] g.outgoing@[p[0]]@[k]).target == p[1];
        assert(mask[p[1]]);
        assert(c.contains(g.outgoing@[e as int]@[k].target));
    }
}

/// The first member at which `a` is enabled in the full graph.
fn find_enabled<S>(full: &ReachableGraph<S>, to_full: &[usize], component: &[usize], a: &str) -> (r: Option<usize>)
    requires
        full.wf(),
        forall|i: int| 0 <= i < to_full@.len() ==> #[trigger] to_full@[i] < full.states.len(),
        forall|i: int| 0 <= i < component@.len() ==> #[trigger] component@[i] < to_full@.len(),
    ensures
        match r {
            Some(i) => i < component@.len() && enabled(*full, to_full@[component@[i as int] as int] as int, a@),
            None => !enabled_member(*full, to_full@, component@, a@),
        },
{
    let mut i: usize = 0;
    while i < component.len()
        invariant
            full.wf(),
            forall|i: int| 0 <= i < to_full@.len() ==> #[trigger] to_full@[i] < full.states.len(),
            forall|i: int| 0 <= i < component@.len() ==> #[trigger] component@[i] < to_full@.len(),
            i <= component@.len(),
            forall|j: int| 0 <= j < i ==> !enabled(*full, to_full@[#[trigger] component@[j] as int] as int, a@),
        decreases component.len() - i,
    {
        let v = component[i];
        if action_enabled(full, to_full[v], a) {
            return Some(i);
        }
        i += 1;
    }
    None
}

/// The first strong action that some member enables but no internal edge
/// takes.
fn unhonoured_strong<S>(
    full: &ReachableGraph<S>,
    residual: &ReachableGraph<S>,
    to_full: &[usize],
    component: &[usize],
    members: &Vec<bool>,
    strong: &StrongFairness,
) -> (r: Option<usize>)
    requires
        full.wf(),
        residual.wf(),
        to_full@.len() == residual.states.len(),
        forall|i: int| 0 <= i < to_full@.len() ==> #[trigger] to_full@[i] < full.states.len(),
        forall|i: int| 0 <= i < component@.len() ==> #[trigger] component@[i] < residual.states.len(),
        members@ == member_mask(component@, residual.states@.len()),
    ensures
        match r {
            Some(j) => j < strong.action_list().len() && enabled_member(*full, to_full@, component@, strong.action_list()[j as int]@)
                && !internal_edge(*residual, component@, strong.action_list()[j as int]@),
            None => strong_closed(*full, *residual, to_full@, component@, strong.action_list()),
        },
{
    let actions = strong.actions();
    let mut j: usize = 0;
    while j < actions.len()
        invariant
            full.wf(),
            residual.wf(),
            to_full@.len() == residual.states.len(),
            forall|i: int| 0 <= i < to_full@.len() ==> #[trigger] to_full@[i] < full.states.len(),
            forall|i: int| 0 <= i < component@.len() ==> #[trigger] component@[i] < residual.states.len(),
            members@ == member_mask(component@, residual.states@.len()),
            actions@ == strong.action_list(),
            j <= actions@.len(),
            forall|x: int| 0 <= x < j ==> #[trigger] strong_witnessed(*full, *residual, to_full@, component@, actions@[x]@),
        decreases actions.len() - j,
    {
        let a = actions[j].as_str();
        if find_enabled(full, to_full, component, a).is_some() {
            if find_internal(residual, members, component, a).is_none() {
                return Some(j);
            }
        }
        j += 1;
    }
    None
}

/// The membership of `component` minus the members enabling `a`.
fn kept_after_removal<S>(
    full: &ReachableGraph<S>,
    to_full: &[usize],
    members: &Vec<bool>,
    a: &str,
) -> (included: Vec<bool>)
    requires
        full.wf(),
        members@.len() == to_full@.len(),
        forall|i: int| 0 <= i < to_full@.len() ==> #[trigger] to_full@[i] < full.states.len(),
    ensures
        included@.len() == members@.len(),
        forall|v: int|
            0 <= v < included@.len() ==> #[trigger] included@[v] == (members@[v] && !enabled(
                *full,
                to_full@[v] as int,
                a@,
            )),
{
    let mut included: Vec<bool> = Vec::new();
    let mut v: usize = 0;
    while v < members.len()
        invariant
            full.wf(),
            members@.len() == to_full@.len(),
            forall|i: int| 0 <= i < to_full@.len() ==> #[trigger] to_full@[i] < full.states.len(),
            v <= members@.len(),
            included@.len() == v,
            forall|x: int|
                0 <= x < v ==> #[trigger] included@[x] == (members@[x] && !enabled(*full, to_full@[x] as int, a@)),
        decreases members.len() - v,
    {
        let keep = members[v] && !action_enabled(full, to_full[v], a);
        included.push(keep);
        v += 1;
    }
    included
}

/// Streett-style refinement of one candidate component. While some strong
/// action is enabled at a member but never taken inside, the members that
/// enable it are removed and the cyclic strongly connected components of
/// what is left are refined in turn. The components returned are those
/// that honour every strong action; a component that already does is
/// returned alone.
#[verifier::spinoff_prover]
#[verifier::rlimit(60)]
fn refine_strong<S: crate::state::StateValue>(
    full: &ReachableGraph<S>,
    residual: &ReachableGraph<S>,
    to_full: &[usize],
    component: Vec<usize>,
    strong: &StrongFairness,
) -> (out: Vec<Vec<usize>>)
    requires
        full.wf(),
        residual.wf(),
        to_full@.len() == residual.states.len(),
        forall|i: int| 0 <= i < to_full@.len() ==> #[trigger] to_full@[i] < full.states.len(),
        component@.len() > 0,
        sorted_below(component@, residual.states.len() as nat),
        recurrent_set(*residual, component@),
    ensures
        forall|k: int| 0 <= k < out@.len() ==> recurrent_set(*residual, #[trigger] out@[k]@),
        forall|k: int|
            0 <= k < out@.len() ==> (#[trigger] out@[k])@.len() > 0 && sorted_below(out@[k]@, residual.states.len() as nat)
                && strong_closed(*full, *residual, to_full@, out@[k]@, strong.action_list()),
        strong_closed(*full, *residual, to_full@, component@, strong.action_list()) ==> out@.len() == 1 && out@[0]@
            == component@,
        forall|c: Seq<usize>|
            #[trigger] strong_candidate(*full, *residual, to_full@, component@, strong.action_list(), c) ==> exists|k: int|
                0 <= k < out@.len() && subset_of(c, #[trigger] out@[k]@),
    decreases component@.len(),
{
    let n = residual.states.len();
    let members = members_of(component.as_slice(), n);
    match unhonoured_strong(full, residual, to_full, component.as_slice(), &members, strong) {
        None => {
            let mut out: Vec<Vec<usize>> = Vec::new();
            let ghost k0 = component@;
            out.push(component);
            proof {
                assert forall|c: Seq<usize>|
                    #[trigger] strong_candidate(*full, *residual, to_full@, k0, strong.action_list(), c) implies exists|k: int|
                        0 <= k < out@.len() && subset_of(c, #[trigger] out@[k]@) by {
                    assert(subset_of(c, out@[0]@));
                }
            }
            out
        },
        Some(j) => {
            let a = strong.actions()[j].as_str();
            let included = kept_after_removal(full, to_full, &members, a);
            proof {
                assert forall|c: Seq<usize>|
                    #[trigger] strong_candidate(*full, *residual, to_full@, component@, strong.action_list(), c) implies forall|y: int|
                        0 <= y < c.len() ==> included@[#[trigger] c[y] as int] by {
                    assert(strong_witnessed(*full, *residual, to_full@, c, strong.action_list()[j as int]@));
                    if internal_edge(*residual, c, a@) {
                        lemma_internal_grows(*residual, c, component@, a@);
                    }
                    assert forall|y: int| 0 <= y < c.len() implies included@[#[trigger] c[y] as int] by {
                        assert(c[y] < n);
                        assert(members@[c[y] as int]);
                        assert(!enabled(*full, to_full@[c[y] as int] as int, a@));
                    }
                }
            }
            let dense_to_residual = crate::fairness::selected_ids(&included);
            let mut out: Vec<Vec<usize>> = Vec::new();
            proof {
                assert(!strong_closed(*full, *residual, to_full@, component@, strong.action_list())) by {
                    assert(!strong_witnessed(*full, *residual, to_full@, component@, strong.action_list()[j as int]@));
                }
            }
            if dense_to_residual.len() == 0 {
                proof {
                    assert forall|c: Seq<usize>|
                        #[trigger] strong_candidate(*full, *residual, to_full@, component@, strong.action_list(), c) implies exists|k: int|
                            0 <= k < out@.len() && subset_of(c, #[trigger] out@[k]@) by {
                        reveal(recurrent_set);
                        assert(included@[c[0] as int]);
                        crate::graph::lemma_rank_included(included@, c[0] as int);
                    }
                }
                return out;
            }
            let dense = induced_graph(residual, included.as_slice());
            let subs = strongly_connected_components(&dense);
            proof {
                crate::graph::lemma_selected_bounds(included@);
                let ghost r = choose|i: int|
                    0 <= i < component@.len() && enabled(*full, to_full@[#[trigger] component@[i] as int] as int, a@);
                assert forall|i: int| 0 <= i < selected(included@).len() implies 0 <= #[trigger] selected(included@)[i]
                    && component@.contains(selected(included@)[i] as usize) && selected(included@)[i] != component@[r] by {
                    let v = selected(included@)[i];
                    assert(included@[v]);
                    assert(members@[v]);
                    assert(v < n);
                }
                lemma_fewer(component@, selected(included@), component@[r]);
            }
            let mut c: usize = 0;
            while c < subs.len()
                invariant
                    full.wf(),
                    residual.wf(),
                    dense.wf(),
                    n == residual.states.len(),
                    to_full@.len() == n,
                    forall|i: int| 0 <= i < to_full@.len() ==> #[trigger] to_full@[i] < full.states.len(),
                    included@.len() == n,
                    dense.states.len() == selected(included@).len(),
                    selected(included@).len() < component@.len(),
                    dense_to_residual@.len() == selected(included@).len(),
                    forall|j: int| 0 <= j < dense_to_residual@.len() ==> dense_to_residual@[j] as int == #[trigger] selected(included@)[j],
                    forall|i: int|
                        0 <= i < selected(included@).len() ==> 0 <= #[trigger] selected(included@)[i] < included@.len(),
                    forall|i: int, j: int|
                        0 <= i < j < selected(included@).len() ==> #[trigger] selected(included@)[i] < #[trigger] selected(
                            included@,
                        )[j],
                    crate::recurrence::is_scc_partition(dense, subs@),
                    c <= subs@.len(),
                    forall|k: int|
                        0 <= k < out@.len() ==> (#[trigger] out@[k])@.len() > 0 && sorted_below(out@[k]@, n as nat)
                            && strong_closed(*full, *residual, to_full@, out@[k]@, strong.action_list()),
                    forall|k: int| 0 <= k < out@.len() ==> recurrent_set(*residual, #[trigger] out@[k]@),
                    forall|j: int|
                        0 <= j < dense.outgoing.len() ==> (#[trigger] dense.outgoing@[j])@ == kept_edges(
                            residual.outgoing@[selected(included@)[j]]@,
                            included@,
                        ),
                    forall|cc: Seq<usize>|
                        #[trigger] strong_candidate(*full, *residual, to_full@, component@, strong.action_list(), cc) ==> forall|y: int|
                            0 <= y < cc.len() ==> included@[#[trigger] cc[y] as int],
                    forall|cc: Seq<usize>, x: int|
                        0 <= x < c && #[trigger] strong_candidate(*full, *residual, to_full@, component@, strong.action_list(), cc)
                            && (#[trigger] subs@[x])@.contains(rank(included@, cc[0] as int) as usize) ==> exists|k: int|
                            0 <= k < out@.len() && subset_of(cc, #[trigger] out@[k]@),
                decreases subs.len() - c,
            {
                let sub = &subs[c];
                let ghost before_out = out@;
                proof {
                    assert forall|cc: Seq<usize>|
                        #[trigger] strong_candidate(*full, *residual, to_full@, component@, strong.action_list(), cc)
                            && sub@.contains(rank(included@, cc[0] as int) as usize) implies cyclic(dense, sub@) by {
                        lemma_candidate_in_sub(*residual, included@, dense, subs@, c as int, cc);
                    }
                }
                if component_is_cyclic(&dense, sub.as_slice()) {
                    let mut mapped: Vec<usize> = Vec::new();
                    let mut i: usize = 0;
                    while i < sub.len()
                        invariant
                            sub@.len() > 0,
                            forall|x: int| 0 <= x < sub@.len() ==> #[trigger] sub@[x] < dense.states.len(),
                            forall|x: int, y: int| 0 <= x < y < sub@.len() ==> #[trigger] sub@[x] < #[trigger] sub@[y],
                            dense.states.len() == dense_to_residual@.len(),
                            dense_to_residual@.len() == selected(included@).len(),
                            forall|j: int| 0 <= j < dense_to_residual@.len() ==> dense_to_residual@[j] as int == #[trigger] selected(included@)[j],
                            forall|i: int|
                                0 <= i < selected(included@).len() ==> 0 <= #[trigger] selected(included@)[i] < n,
                            forall|i: int, j: int|
                                0 <= i < j < selected(included@).len() ==> #[trigger] selected(included@)[i]
                                    < #[trigger] selected(included@)[j],
                            i <= sub@.len(),
                            mapped@.len() == i,
                            forall|x: int| 0 <= x < i ==> #[trigger] mapped@[x] == dense_to_residual@[sub@[x] as int],
                        decreases sub.len() - i,
                    {
                        mapped.push(dense_to_residual[sub[i]]);
                        i += 1;
                    }
                    proof {
                        assert forall|x: int| 0 <= x < mapped@.len() implies #[trigger] mapped@[x] < n by {
                            assert(mapped@[x] as int == selected(included@)[sub@[x] as int]);
                        }
                        assert forall|x: int, y: int| 0 <= x < y < mapped@.len() implies #[trigger] mapped@[x] < #[trigger] mapped@[y] by {
                            assert(sub@[x] < sub@[y]);
                            assert(mapped@[x] as int == selected(included@)[sub@[x] as int]);
                            assert(mapped@[y] as int == selected(included@)[sub@[y] as int]);
                        }
                        lemma_increasing_len(sub@, dense.states.len() as int);
                        assert forall|cc: Seq<usize>|
                            #[trigger] strong_candidate(*full, *residual, to_full@, component@, strong.action_list(), cc)
                                && sub@.contains(rank(included@, cc[0] as int) as usize) implies strong_candidate(
                            *full,
                            *residual,
                            to_full@,
                            mapped@,
                            strong.action_list(),
                            cc,
                        ) by {
                            lemma_candidate_in_sub(*residual, included@, dense, subs@, c as int, cc);
                            reveal(recurrent_set);
                            assert forall|x: int| 0 <= x < cc.len() implies mapped@.contains(#[trigger] cc[x]) by {
                                let r = rank(included@, cc[x] as int);
                                assert(sub@.contains(r as usize));
                                let y = sub@.index_of(r as usize);
                                crate::graph::lemma_rank_included(included@, cc[x] as int);
                                assert(mapped@[y] as int == selected(included@)[sub@[y] as int]);
                                assert(mapped@[y] == cc[x]);
                            }
                        }
                    }
                    assert(recurrent_set(*residual, mapped@)) by {
                        crate::recurrence::lemma_scc_whole(dense, subs@, c as int);
                        assert forall|y: int| 0 <= y < mapped@.len() implies #[trigger] mapped@[y] as int == selected(
                            included@,
                        )[sub@[y] as int] by {}
                        lemma_lifted_recurrent(*residual, included@, dense, sub@, mapped@);
                    }
                    let ghost mapped_view = mapped@;
                    let more = refine_strong(full, residual, to_full, mapped, strong);
                    let mut k: usize = 0;
                    while k < more.len()
                        invariant
                            k <= more@.len(),
                            out@.len() == before_out.len() + k,
                            forall|x: int| 0 <= x < before_out.len() ==> #[trigger] out@[x] == before_out[x],
                            forall|x: int| 0 <= x < k ==> (#[trigger] out@[before_out.len() + x])@ == more@[x]@,
                            forall|k: int| 0 <= k < more@.len() ==> recurrent_set(*residual, #[trigger] more@[k]@),
                            forall|k: int| 0 <= k < out@.len() ==> recurrent_set(*residual, #[trigger] out@[k]@),
                            forall|k: int|
                                0 <= k < more@.len() ==> (#[trigger] more@[k])@.len() > 0 && sorted_below(more@[k]@, n as nat)
                                    && strong_closed(*full, *residual, to_full@, more@[k]@, strong.action_list()),
                            forall|k: int|
                                0 <= k < out@.len() ==> (#[trigger] out@[k])@.len() > 0 && sorted_below(out@[k]@, n as nat)
                                    && strong_closed(*full, *residual, to_full@, out@[k]@, strong.action_list()),
                        decreases more.len() - k,
                    {
                        let copy = crate::ctl_bounded::copy_indices(&more[k]);
                        out.push(copy);
                        proof {
                            assert(out@[before_out.len() + k]@ == more@[k as int]@);
                            assert forall|x: int| 0 <= x < out@.len() implies recurrent_set(*residual, #[trigger] out@[x]@) by {
                                if x < out@.len() - 1 {
                                    assert(out@[x] == out@.drop_last()[x]);
                                } else {
                                    assert(out@[x]@ == more@[k as int]@);
                                }
                            }
                        }
                        k += 1;
                    }
                    proof {
                        assert forall|cc: Seq<usize>|
                            #[trigger] strong_candidate(*full, *residual, to_full@, component@, strong.action_list(), cc)
                                && sub@.contains(rank(included@, cc[0] as int) as usize) implies exists|k: int|
                            0 <= k < out@.len() && subset_of(cc, #[trigger] out@[k]@) by {
                            assert(strong_candidate(*full, *residual, to_full@, mapped_view, strong.action_list(), cc));
                            let k = choose|k: int| 0 <= k < more@.len() && subset_of(cc, #[trigger] more@[k]@);
                            assert(out@[before_out.len() + k]@ == more@[k]@);
                        }
                    }
                }
                proof {
                    assert forall|cc: Seq<usize>, x: int|
                        0 <= x < c + 1 && #[trigger] strong_candidate(*full, *residual, to_full@, component@, strong.action_list(), cc)
                            && (#[trigger] subs@[x])@.contains(rank(included@, cc[0] as int) as usize) implies exists|k: int|
                        0 <= k < out@.len() && subset_of(cc, #[trigger] out@[k]@) by {
                        if x < c {
                            let k = choose|k: int| 0 <= k < before_out.len() && subset_of(cc, #[trigger] before_out[k]@);
                            assert(out@[k] == before_out[k]);
                        }
                    }
                }
                c += 1;
            }
            proof {
                assert forall|cc: Seq<usize>|
                    #[trigger] strong_candidate(*full, *residual, to_full@, component@, strong.action_list(), cc) implies exists|k: int|
                        0 <= k < out@.len() && subset_of(cc, #[trigger] out@[k]@) by {
                    reveal(recurrent_set);
                    assert(included@[cc[0] as int]);
                    crate::graph::lemma_rank_included(included@, cc[0] as int);
                    let r = rank(included@, cc[0] as int);
                    assert(covered(subs@, r));
                    let (x, i) = choose|x: int, i: int| 0 <= x < subs@.len() && 0 <= i < subs@[x].len() && subs@[x]@[i] == r;
                    assert(subs@[x]@.contains(r as usize));
                }
            }
            out
        },
    }
}

// ---------------------------------------------------------------------------
// Mixed-fair recurrent walks.
// ---------------------------------------------------------------------------

/// A later step of `cycle` takes `a`.
pub open spec fn taken<S>(cycle: Seq<TraceStep<S>>, a: Seq<char>) -> bool {
    exists|i: int| 1 <= i < cycle.len() && #[trigger] takes(cycle[i], a)
}

/// The walk spelled by `cycle` honours strong action `a` for the component:
/// when some member enables `a`, the walk takes it.
pub open spec fn strong_honours<S: View>(
    full: ReachableGraph<S>,
    to_full: Seq<usize>,
    component: Seq<usize>,
    cycle: Seq<TraceStep<S>>,
    a: Seq<char>,
) -> bool {
    enabled_member(full, to_full, component, a) ==> taken(cycle, a)
}

proof fn lemma_taken_extend<S: View>(c1: Seq<TraceStep<S>>, c2: Seq<TraceStep<S>>, a: Seq<char>)
    requires
        taken(c1, a),
        c2.len() >= c1.len(),
        c2.subrange(0, c1.len() as int) == c1,
    ensures
        taken(c2, a),
{
    let i = choose|i: int| 1 <= i < c1.len() && #[trigger] takes(c1[i], a);
    assert(c2[i] == c2.subrange(0, c1.len() as int)[i]);
    assert(takes(c2[i], a));
}

/// Walk inside `members` from `current` to the source of edge `k` of
/// `src`, then take that edge.
fn take_edge<S: StateValue>(
    residual: &ReachableGraph<S>,
    members: &Vec<bool>,
    current: usize,
    src: usize,
    k: usize,
    cycle: &mut Vec<TraceStep<S>>,
    Ghost(entry): Ghost<int>,
) -> (r: Result<usize, RecurrenceError>)
    requires
        residual.wf(),
        members@.len() == residual.states.len(),
        current < residual.states.len(),
        src < residual.states.len(),
        k < residual.outgoing@[src as int].len(),
        members@[residual.outgoing@[src as int]@[k as int].target as int],
        spells_walk(*residual, old(cycle)@, members@, entry, current as int),
    ensures
        r matches Ok(t) ==> {
            &&& t == residual.outgoing@[src as int]@[k as int].target
            &&& spells_walk(*residual, final(cycle)@, members@, entry, t as int)
            &&& final(cycle)@.len() > old(cycle)@.len()
            &&& final(cycle)@.subrange(0, old(cycle)@.len() as int) == old(cycle)@
            &&& takes(final(cycle)@.last(), residual.outgoing@[src as int]@[k as int].action@)
        },
        r matches Err(e) ==> e is CycleWitnessMissing,
        r is Err ==> !reachable_from(*residual, seq![current], src as int, members@),
{
    let ghost before = cycle@;
    append_path(residual, members.as_slice(), current, src, cycle, Ghost(entry))?;
    let ghost mid = cycle@;
    let edge = &residual.outgoing[src][k];
    let t = edge.target;
    let step = TraceStep { action: Some(edge.action.clone()), state: residual.states[t].copy_value() };
    proof {
        lemma_spells_push(*residual, mid, members@, entry, src as int, k as int, step);
    }
    cycle.push(step);
    proof {
        assert(cycle@.subrange(0, mid.len() as int) =~= mid);
        assert(cycle@.subrange(0, before.len() as int) =~= mid.subrange(0, before.len() as int));
    }
    Ok(t)
}

/// One closed walk through `entry` inside the component that honours every
/// weak action (by visiting a member that disables it, or taking it) and
/// every strong action that some member enables (by taking it). For each
/// weak action in order it visits the first disabling member, else takes
/// the first internal edge labelled with it; then it takes the first
/// internal edge of each enabled strong action; a walk that is still empty
/// takes the first internal edge of the entry; it then returns to the
/// entry along shortest paths inside the component.
#[verifier::spinoff_prover]
#[verifier::rlimit(30)]
fn combined_fair_cycle<S: StateValue>(
    full_graph: &ReachableGraph<S>,
    residual: &ReachableGraph<S>,
    residual_to_full: &[usize],
    component: &[usize],
    entry: usize,
    profile: &FairnessProfile,
) -> (r: Result<Vec<TraceStep<S>>, RecurrenceError>)
    requires
        full_graph.wf(),
        residual.wf(),
        residual_to_full@.len() == residual.states.len(),
        forall|i: int| 0 <= i < residual_to_full@.len() ==> #[trigger] residual_to_full@[i] < full_graph.states.len(),
        forall|i: int| 0 <= i < component@.len() ==> #[trigger] component@[i] < residual.states.len(),
        component@.contains(entry),
        recurrent_set(*residual, component@),
        fair_component(*full_graph, *residual, residual_to_full@, component@, profile.weak_list()),
        strong_closed(*full_graph, *residual, residual_to_full@, component@, profile.strong_list()),
    ensures
        r is Ok,
        r matches Ok(c) ==> {
            &&& c@.len() >= 2
            &&& spells_walk(*residual, c@, member_mask(component@, residual.states@.len()), entry as int, entry as int)
            &&& forall|j: int|
                0 <= j < profile.weak_list().len() ==> #[trigger] honours(
                    *full_graph,
                    *residual,
                    residual_to_full@,
                    component@,
                    c@,
                    profile.weak_list()[j]@,
                )
            &&& forall|j: int|
                0 <= j < profile.strong_list().len() ==> #[trigger] strong_honours(
                    *full_graph,
                    residual_to_full@,
                    component@,
                    c@,
                    profile.strong_list()[j]@,
                )
        },
        r matches Err(e) ==> e is CycleWitnessMissing,
{
    let n = residual.states.len();
    let members = members_of(component, n);
    let ghost mask = members@;
    let ghost full = *full_graph;
    let ghost res = *residual;
    let ghost to_full = residual_to_full@;
    let ghost comp = component@;
    let mut cycle: Vec<TraceStep<S>> = Vec::new();
    cycle.push(TraceStep { action: None, state: residual.states[entry].copy_value() });
    proof {
        let p = seq![entry as int];
        assert(is_walk(res, p, mask));
        assert(trace_spells(res, cycle@, p));
    }
    let mut current = entry;
    let weak = profile.weak_actions();
    let mut j: usize = 0;
    while j < weak.len()
        invariant
            full_graph.wf(),
            residual.wf(),
            full == *full_graph,
            res == *residual,
            to_full == residual_to_full@,
            comp == component@,
            residual_to_full@.len() == residual.states.len(),
            forall|i: int| 0 <= i < residual_to_full@.len() ==> #[trigger] residual_to_full@[i] < full_graph.states.len(),
            forall|i: int| 0 <= i < component@.len() ==> #[trigger] component@[i] < residual.states.len(),
            n == residual.states.len(),
            mask == members@,
            members@ == member_mask(comp, n as nat),
            weak@ == profile.weak_list(),
            j <= weak@.len(),
            current < n,
            comp.contains(current),
            recurrent_set(res, comp),
            fair_component(full, res, to_full, comp, profile.weak_list()),
            strong_closed(full, res, to_full, comp, profile.strong_list()),
            cycle@.len() >= 1,
            spells_walk(res, cycle@, mask, entry as int, current as int),
            forall|x: int| 0 <= x < j ==> #[trigger] honours(full, res, to_full, comp, cycle@, weak@[x]@),
        decreases weak.len() - j,
    {
        let a = weak[j].as_str();
        let ghost before = cycle@;
        match find_disabled(full_graph, residual_to_full, component, a) {
            Some(i) => {
                let d = component[i];
                proof {
                    assert(comp.contains(d));
                    lemma_recurrent_member_reach(res, comp, current, d);
                }
                append_path(residual, members.as_slice(), current, d, &mut cycle, Ghost(entry as int))?;
                proof {
                    let p = choose|p: Seq<int>| #[trigger] is_walk(res, p, mask) && p[0] == entry && p.last() == d && trace_spells(res, cycle@, p);
                    let last = cycle@.len() - 1;
                    assert(holds_member_state(res, cycle@[last], comp[i as int]));
                    assert(honours(full, res, to_full, comp, cycle@, a@));
                    assert forall|x: int| 0 <= x < j implies #[trigger] honours(full, res, to_full, comp, cycle@, weak@[x]@) by {
                        lemma_honours_extend(full, res, to_full, comp, before, cycle@, weak@[x]@);
                    }
                }
                current = d;
            },
            None => {
                match find_internal(residual, &members, component, a) {
                    Some((i, k)) => {
                        let src = component[i];
                        proof {
                            assert(comp.contains(src));
                            lemma_recurrent_member_reach(res, comp, current, src);
                        }
                        let t = take_edge(residual, &members, current, src, k, &mut cycle, Ghost(entry as int))?;
                        proof {
                            let last = cycle@.len() - 1;
                            assert(takes(cycle@[last], a@));
                            assert(honours(full, res, to_full, comp, cycle@, a@));
                            assert forall|x: int| 0 <= x < j implies #[trigger] honours(full, res, to_full, comp, cycle@, weak@[x]@) by {
                                lemma_honours_extend(full, res, to_full, comp, before, cycle@, weak@[x]@);
                            }
                        }
                        current = t;
                    },
                    None => {
                        proof {
                            assert(action_witnessed(full, res, to_full, comp, weak@[j as int]@));
                        }
                        return Err(RecurrenceError::CycleWitnessMissing);
                    },
                }
            },
        }
        j += 1;
    }
    let strong = profile.strong_actions();
    let mut j: usize = 0;
    while j < strong.len()
        invariant
            full_graph.wf(),
            residual.wf(),
            full == *full_graph,
            res == *residual,
            to_full == residual_to_full@,
            comp == component@,
            residual_to_full@.len() == residual.states.len(),
            forall|i: int| 0 <= i < residual_to_full@.len() ==> #[trigger] residual_to_full@[i] < full_graph.states.len(),
            forall|i: int| 0 <= i < component@.len() ==> #[trigger] component@[i] < residual.states.len(),
            n == residual.states.len(),
            mask == members@,
            members@ == member_mask(comp, n as nat),
            weak@ == profile.weak_list(),
            strong@ == profile.strong_list(),
            j <= strong@.len(),
            current < n,
            comp.contains(current),
            recurrent_set(res, comp),
            fair_component(full, res, to_full, comp, profile.weak_list()),
            strong_closed(full, res, to_full, comp, profile.strong_list()),
            cycle@.len() >= 1,
            spells_walk(res, cycle@, mask, entry as int, current as int),
            forall|x: int| 0 <= x < weak@.len() ==> #[trigger] honours(full, res, to_full, comp, cycle@, weak@[x]@),
            forall|x: int| 0 <= x < j ==> #[trigger] strong_honours(full, to_full, comp, cycle@, strong@[x]@),
        decreases strong.len() - j,
    {
        let a = strong[j].as_str();
        let ghost before = cycle@;
        if find_enabled(full_graph, residual_to_full, component, a).is_some() {
            match find_internal(residual, &members, component, a) {
                Some((i, k)) => {
                    let src = component[i];
                    proof {
                        assert(comp.contains(src));
                        lemma_recurrent_member_reach(res, comp, current, src);
                    }
                    let t = take_edge(residual, &members, current, src, k, &mut cycle, Ghost(entry as int))?;
                    proof {
                        let last = cycle@.len() - 1;
                        assert(takes(cycle@[last], a@));
                        assert(taken(cycle@, a@));
                        assert forall|x: int| 0 <= x < weak@.len() implies #[trigger] honours(full, res, to_full, comp, cycle@, weak@[x]@) by {
                            lemma_honours_extend(full, res, to_full, comp, before, cycle@, weak@[x]@);
                        }
                        assert forall|x: int| 0 <= x < j implies #[trigger] strong_honours(full, to_full, comp, cycle@, strong@[x]@) by {
                            if enabled_member(full, to_full, comp, strong@[x]@) {
                                assert(strong_honours(full, to_full, comp, before, strong@[x]@));
                                lemma_taken_extend(before, cycle@, strong@[x]@);
                            }
                        }
                    }
                    current = t;
                },
                None => {
                    proof {
                        assert(strong_witnessed(full, res, to_full, comp, strong@[j as int]@));
                    }
                    return Err(RecurrenceError::CycleWitnessMissing);
                },
            }
        }
        j += 1;
    }
    if cycle.len() == 1 {
        let edges = &residual.outgoing[entry];
        let mut k: usize = 0;
        while k < edges.len() && !members[edges[k].target]
            invariant
                residual.wf(),
                entry < n,
                n == residual.states.len(),
                members@.len() == n,
                edges@ == residual.outgoing@[entry as int]@,
                k <= edges.len(),
                members@ == member_mask(comp, n as nat),
                forall|x: int| 0 <= x < k ==> !members@[(#[trigger] edges@[x]).target as int],
            decreases edges.len() - k,
        {
            k += 1;
        }
        if k == edges.len() {
            proof {
                lemma_recurrent_edge(res, comp, entry);
                let x = choose|x: int| 0 <= x < res.outgoing@[entry as int].len() && comp.contains((#[trigger] res.outgoing@[entry as int]@[x]).target);
                assert(members@[edges@[x].target as int]);
            }
            return Err(RecurrenceError::CycleWitnessMissing);
        }
        let ghost mid = cycle@;
        let t = edges[k].target;
        let step = TraceStep { action: Some(edges[k].action.clone()), state: residual.states[t].copy_value() };
        proof {
            let p = choose|p: Seq<int>| #[trigger] is_walk(res, p, mask) && p[0] == entry && p.last() == current && trace_spells(res, mid, p);
            assert(p.len() == 1);
            assert(current == entry);
            lemma_spells_push(res, mid, mask, entry as int, entry as int, k as int, step);
        }
        cycle.push(step);
        proof {
            assert(cycle@.subrange(0, mid.len() as int) =~= mid);
            assert forall|x: int| 0 <= x < weak@.len() implies #[trigger] honours(full, res, to_full, comp, cycle@, weak@[x]@) by {
                lemma_honours_extend(full, res, to_full, comp, mid, cycle@, weak@[x]@);
            }
            assert forall|x: int| 0 <= x < strong@.len() implies #[trigger] strong_honours(full, to_full, comp, cycle@, strong@[x]@) by {
                if enabled_member(full, to_full, comp, strong@[x]@) {
                    assert(strong_honours(full, to_full, comp, mid, strong@[x]@));
                    lemma_taken_extend(mid, cycle@, strong@[x]@);
                }
            }
        }
        current = t;
    }
    let ghost before = cycle@;
    proof {
        lemma_recurrent_member_reach(res, comp, current, entry);
    }
    append_path(residual, members.as_slice(), current, entry, &mut cycle, Ghost(entry as int))?;
    proof {
        assert forall|x: int| 0 <= x < weak@.len() implies #[trigger] honours(full, res, to_full, comp, cycle@, weak@[x]@) by {
            lemma_honours_extend(full, res, to_full, comp, before, cycle@, weak@[x]@);
        }
        assert forall|x: int| 0 <= x < strong@.len() implies #[trigger] strong_honours(full, to_full, comp, cycle@, strong@[x]@) by {
            if enabled_member(full, to_full, comp, strong@[x]@) {
                assert(strong_honours(full, to_full, comp, before, strong@[x]@));
                lemma_taken_extend(before, cycle@, strong@[x]@);
            }
        }
    }
    Ok(cycle)
}

// ---------------------------------------------------------------------------
// The counterexample search.
// ---------------------------------------------------------------------------

/// Every weak action is disabled at some member or taken inside: the
/// component admits a weakly fair recurrent walk.
fn weak_admissible<S>(
    full: &ReachableGraph<S>,
    residual: &ReachableGraph<S>,
    to_full: &[usize],
    component: &[usize],
    members: &Vec<bool>,
    weak: &[String],
) -> (r: bool)
    requires
        full.wf(),
        residual.wf(),
        to_full@.len() == residual.states.len(),
        forall|i: int| 0 <= i < to_full@.len() ==> #[trigger] to_full@[i] < full.states.len(),
        forall|i: int| 0 <= i < component@.len() ==> #[trigger] component@[i] < residual.states.len(),
        members@ == member_mask(component@, residual.states@.len()),
    ensures
        r == fair_component(*full, *residual, to_full@, component@, weak@),
{
    let mut j: usize = 0;
    while j < weak.len()
        invariant
            full.wf(),
            residual.wf(),
            to_full@.len() == residual.states.len(),
            forall|i: int| 0 <= i < to_full@.len() ==> #[trigger] to_full@[i] < full.states.len(),
            forall|i: int| 0 <= i < component@.len() ==> #[trigger] component@[i] < residual.states.len(),
            members@ == member_mask(component@, residual.states@.len()),
            j <= weak@.len(),
            forall|x: int| 0 <= x < j ==> #[trigger] action_witnessed(*full, *residual, to_full@, component@, weak@[x]@),
        decreases weak.len() - j,
    {
        let a = weak[j].as_str();
        if find_disabled(full, to_full, component, a).is_none() && find_internal(residual, members, component, a).is_none() {
            proof {
                assert(!action_witnessed(*full, *residual, to_full@, component@, weak@[j as int]@));
            }
            return false;
        }
        j += 1;
    }
    true
}

/// The cyclic strongly connected components of the residual, refined until
/// every strong action is honoured; a component that honours them from the
/// start is kept whole.
#[verifier::spinoff_prover]
#[verifier::rlimit(30)]
fn strong_fair_components<S: StateValue>(
    full: &ReachableGraph<S>,
    residual: &ReachableGraph<S>,
    to_full: &[usize],
    comps: &Vec<Vec<usize>>,
    strong: &StrongFairness,
) -> (out: Vec<Vec<usize>>)
    requires
        full.wf(),
        residual.wf(),
        to_full@.len() == residual.states.len(),
        forall|i: int| 0 <= i < to_full@.len() ==> #[trigger] to_full@[i] < full.states.len(),
        is_scc_partition(*residual, comps@),
    ensures
        forall|k: int|
            0 <= k < out@.len() ==> (#[trigger] out@[k])@.len() > 0 && sorted_below(out@[k]@, residual.states.len() as nat)
                && strong_closed(*full, *residual, to_full@, out@[k]@, strong.action_list()),
        forall|c: int|
            0 <= c < comps@.len() && #[trigger] cyclic(*residual, comps@[c]@) && strong_closed(
                *full,
                *residual,
                to_full@,
                comps@[c]@,
                strong.action_list(),
            ) ==> exists|k: int| 0 <= k < out@.len() && (#[trigger] out@[k])@ == comps@[c]@,
        forall|cc: Seq<usize>|
            #[trigger] fair_recurrent(*full, *residual, to_full@, strong.action_list(), cc)
                ==> exists|k: int| 0 <= k < out@.len() && subset_of(cc, #[trigger] out@[k]@),
        forall|k: int| 0 <= k < out@.len() ==> recurrent_set(*residual, #[trigger] out@[k]@),
{
    let n = residual.states.len();
    let mut out: Vec<Vec<usize>> = Vec::new();
    let mut c: usize = 0;
    while c < comps.len()
        invariant
            full.wf(),
            residual.wf(),
            n == residual.states.len(),
            to_full@.len() == n,
            forall|i: int| 0 <= i < to_full@.len() ==> #[trigger] to_full@[i] < full.states.len(),
            is_scc_partition(*residual, comps@),
            c <= comps@.len(),
            forall|k: int| 0 <= k < out@.len() ==> recurrent_set(*residual, #[trigger] out@[k]@),
            forall|k: int|
                0 <= k < out@.len() ==> (#[trigger] out@[k])@.len() > 0 && sorted_below(out@[k]@, n as nat)
                    && strong_closed(*full, *residual, to_full@, out@[k]@, strong.action_list()),
            forall|x: int|
                0 <= x < c && #[trigger] cyclic(*residual, comps@[x]@) && strong_closed(
                    *full,
                    *residual,
                    to_full@,
                    comps@[x]@,
                    strong.action_list(),
                ) ==> exists|k: int| 0 <= k < out@.len() && (#[trigger] out@[k])@ == comps@[x]@,
            forall|cc: Seq<usize>, x: int|
                0 <= x < c && #[trigger] fair_recurrent(*full, *residual, to_full@, strong.action_list(), cc) && subset_of(cc, #[trigger] comps@[x]@) && cyclic(*residual, comps@[x]@) ==> exists|k: int|
                    0 <= k < out@.len() && subset_of(cc, #[trigger] out@[k]@),
        decreases comps.len() - c,
    {
        let ghost start_out = out@;
        proof {
            assert(comps@[c as int]@.len() > 0);
        }
        if component_is_cyclic(residual, comps[c].as_slice()) {
            let comp = crate::ctl_bounded::copy_indices(&comps[c]);
            let ghost comp_view = comp@;
            proof {
                crate::recurrence::lemma_scc_whole(*residual, comps@, c as int);
                lemma_whole_recurrent(*residual, comps@[c as int]@);
            }
            let more = refine_strong(full, residual, to_full, comp, strong);
            let ghost before = out@;
            let mut k: usize = 0;
            while k < more.len()
                invariant
                    k <= more@.len(),
                    out@.len() == before.len() + k,
                    forall|x: int| 0 <= x < before.len() ==> #[trigger] out@[x] == before[x],
                    forall|x: int| 0 <= x < k ==> (#[trigger] out@[before.len() + x])@ == more@[x]@,
                    forall|k: int| 0 <= k < more@.len() ==> recurrent_set(*residual, #[trigger] more@[k]@),
                    forall|k: int| 0 <= k < out@.len() ==> recurrent_set(*residual, #[trigger] out@[k]@),
                    forall|k: int|
                        0 <= k < more@.len() ==> (#[trigger] more@[k])@.len() > 0 && sorted_below(more@[k]@, n as nat)
                            && strong_closed(*full, *residual, to_full@, more@[k]@, strong.action_list()),
                    forall|k: int|
                        0 <= k < before.len() ==> (#[trigger] before[k])@.len() > 0 && sorted_below(before[k]@, n as nat)
                            && strong_closed(*full, *residual, to_full@, before[k]@, strong.action_list()),
                decreases more.len() - k,
            {
                let copy = crate::ctl_bounded::copy_indices(&more[k]);
                out.push(copy);
                proof {
                    assert(out@[before.len() + k]@ == more@[k as int]@);
                    assert forall|x: int| 0 <= x < out@.len() implies recurrent_set(*residual, #[trigger] out@[x]@) by {
                        if x < out@.len() - 1 {
                            assert(out@[x] == out@.drop_last()[x]);
                        } else {
                            assert(out@[x]@ == more@[k as int]@);
                        }
                    }
                }
                k += 1;
            }
            proof {
                assert forall|x: int| 0 <= x < out@.len() implies (#[trigger] out@[x])@.len() > 0 && sorted_below(
                    out@[x]@,
                    n as nat,
                ) && strong_closed(*full, *residual, to_full@, out@[x]@, strong.action_list()) by {
                    if x < before.len() {
                        assert(out@[x] == before[x]);
                    } else {
                        assert(out@[before.len() + (x - before.len())]@ == more@[x - before.len()]@);
                    }
                }
                assert forall|x: int|
                    0 <= x < c + 1 && #[trigger] cyclic(*residual, comps@[x]@) && strong_closed(
                        *full,
                        *residual,
                        to_full@,
                        comps@[x]@,
                        strong.action_list(),
                    ) implies exists|k: int| 0 <= k < out@.len() && (#[trigger] out@[k])@ == comps@[x]@ by {
                    if x < c {
                        let k = choose|k: int| 0 <= k < before.len() && (#[trigger] before[k])@ == comps@[x]@;
                        assert(out@[k] == before[k]);
                    } else {
                        assert(more@[0]@ == comps@[x]@);
                        assert(out@[before.len() + 0int]@ == more@[0int]@);
                        assert(out@[before.len() as int]@ == more@[0]@);
                    }
                }
                assert forall|cc: Seq<usize>, x: int|
                    0 <= x < c + 1 && #[trigger] fair_recurrent(*full, *residual, to_full@, strong.action_list(), cc) && subset_of(cc, #[trigger] comps@[x]@) && cyclic(*residual, comps@[x]@) implies exists|k: int|
                    0 <= k < out@.len() && subset_of(cc, #[trigger] out@[k]@) by {
                    if x < c {
                        let k = choose|k: int| 0 <= k < before.len() && subset_of(cc, #[trigger] before[k]@);
                        assert(out@[k] == before[k]);
                    } else {
                        assert(strong_candidate(*full, *residual, to_full@, comp_view, strong.action_list(), cc));
                        let k = choose|k: int| 0 <= k < more@.len() && subset_of(cc, #[trigger] more@[k]@);
                        assert(out@[before.len() + k]@ == more@[k]@);
                    }
                }
            }
        } else {
            proof {
                assert forall|cc: Seq<usize>, x: int|
                    0 <= x < c + 1 && #[trigger] fair_recurrent(*full, *residual, to_full@, strong.action_list(), cc) && subset_of(cc, #[trigger] comps@[x]@) && cyclic(*residual, comps@[x]@) implies exists|k: int|
                    0 <= k < out@.len() && subset_of(cc, #[trigger] out@[k]@) by {
                    if x < c {
                        let k = choose|k: int| 0 <= k < out@.len() && subset_of(cc, #[trigger] out@[k]@);
                    }
                }
            }
        }
        c += 1;
    }
    proof {
        assert forall|cc: Seq<usize>|
            #[trigger] fair_recurrent(*full, *residual, to_full@, strong.action_list(), cc)
                implies exists|k: int| 0 <= k < out@.len() && subset_of(cc, #[trigger] out@[k]@) by {
            lemma_recurrent_in_component(*residual, comps@, cc);
            let x = choose|x: int| 0 <= x < comps@.len() && subset_of(cc, #[trigger] comps@[x]@) && cyclic(*residual, comps@[x]@);
        }
    }
    out
}

/// The member nearest to a root, by returned stem length and then by
/// graph id, with its stem.
fn nearest_entry<S: StateValue>(
    g: &ReachableGraph<S>,
    to_full: &[usize],
    component: &[usize],
) -> (r: Option<(usize, usize, Vec<TraceStep<S>>)>)
    requires
        g.wf(),
        forall|i: int| 0 <= i < component@.len() ==> #[trigger] component@[i] < to_full@.len(),
        forall|i: int| 0 <= i < to_full@.len() ==> #[trigger] to_full@[i] < g.states.len(),
        component@.len() > 0,
    ensures
        match r {
            Some((entry, full_entry, stem)) => {
                &&& component@.contains(entry)
                &&& full_entry == to_full@[entry as int]
                &&& exists|root: int|
                    0 <= root < g.initial_ids.len() && spells_walk(
                        *g,
                        stem@,
                        everything(g.states@.len()),
                        #[trigger] g.initial_ids@[root] as int,
                        full_entry as int,
                    )
            },
            None => !reachable_from(*g, g.initial_ids@, to_full@[component@[0] as int] as int, everything(g.states@.len())),
        },
{
    let mut best: Option<(usize, usize, Vec<TraceStep<S>>)> = None;
    let mut i: usize = 0;
    while i < component.len()
        invariant
            g.wf(),
            forall|i: int| 0 <= i < component@.len() ==> #[trigger] component@[i] < to_full@.len(),
            forall|i: int| 0 <= i < to_full@.len() ==> #[trigger] to_full@[i] < g.states.len(),
            component@.len() > 0,
            i <= component@.len(),
            best is None && i > 0 ==> !reachable_from(*g, g.initial_ids@, to_full@[component@[0] as int] as int, everything(g.states@.len())),
            best matches Some((entry, full_entry, stem)) ==> {
                &&& component@.contains(entry)
                &&& full_entry == to_full@[entry as int]
                &&& exists|root: int|
                    0 <= root < g.initial_ids.len() && spells_walk(
                        *g,
                        stem@,
                        everything(g.states@.len()),
                        #[trigger] g.initial_ids@[root] as int,
                        full_entry as int,
                    )
            },
        decreases component.len() - i,
    {
        let entry = component[i];
        let full_entry = to_full[entry];
        match shortest_path(g, g.initial_ids.as_slice(), full_entry, None) {
            Some(stem) => {
                proof {
                    lemma_root_walk(*g, stem@, full_entry as int);
                    assert(component@.contains(entry)) by {
                        assert(component@[i as int] == entry);
                    }
                }
                let len = if stem.len() > 0 { stem.len() - 1 } else { 0 };
                let better = match &best {
                    None => true,
                    Some(b) => {
                        let blen = if b.2.len() > 0 { b.2.len() - 1 } else { 0 };
                        len < blen || (len == blen && full_entry < b.1)
                    },
                };
                if better {
                    best = Some((entry, full_entry, stem));
                }
            },
            None => {},
        }
        i += 1;
    }
    best
}

/// Under the profile, outside acceptance set `s`, no recurrent set of
/// nodes honours every strong action and admits a weakly fair walk: no
/// infinite execution that stays outside the set is fair.
pub open spec fn profile_unfair_outside<P: View>(
    e: ReachableGraph<P>,
    g: ReachableGraph<P>,
    member: Seq<Vec<bool>>,
    s: int,
    weak: Seq<String>,
    strong: Seq<String>,
) -> bool {
    exists|res: ReachableGraph<P>, to_full: Seq<usize>|
        #[trigger] induced_by(g, outside(member, s, g.states.len() as nat), res, to_full) && forall|c: Seq<usize>|
            #[trigger] recurrent_set(res, c) && strong_closed(e, res, to_full, c, strong) ==> !fair_component(
                e,
                res,
                to_full,
                c,
                weak,
            )
}

/// Along the walk `p` spelled by `cycle`, strong action `a` is taken when
/// some node of `p` enables it.
pub open spec fn strong_on_path<P>(e: ReachableGraph<P>, p: Seq<int>, cycle: Seq<TraceStep<P>>, a: Seq<char>) -> bool {
    (exists|i: int| 0 <= i < p.len() && enabled(e, #[trigger] p[i], a)) ==> taken(cycle, a)
}

/// A lasso avoiding acceptance set `set` under the profile: `stem` reaches
/// `entry` from a root, and `cycle` is a closed walk of at least one edge
/// through `entry` outside the set that honours every weak action (taken,
/// or disabled at a state on it) and takes every strong action that some
/// node of the walk enables.
pub open spec fn profile_lasso_ok<P: View>(
    e: ReachableGraph<P>,
    g: ReachableGraph<P>,
    member: Seq<Vec<bool>>,
    weak: Seq<String>,
    strong: Seq<String>,
    set: usize,
    entry: usize,
    stem: Seq<TraceStep<P>>,
    cycle: Seq<TraceStep<P>>,
) -> bool {
    let n = g.states.len();
    &&& entry < n && set < member.len()
    &&& !member[set as int]@[entry as int]
    &&& exists|root: int|
        0 <= root < g.initial_ids.len() && spells_walk(
            g,
            stem,
            everything(n as nat),
            #[trigger] g.initial_ids@[root] as int,
            entry as int,
        )
    &&& cycle.len() >= 2
    &&& forall|j: int| 0 <= j < weak.len() ==> #[trigger] honours_in(e, g, cycle, weak[j]@)
    &&& exists|p: Seq<int>|
        #[trigger] is_walk(g, p, outside(member, set as int, n as nat)) && p[0] == entry && p.last() == entry
            && trace_spells(g, cycle, p) && forall|j: int| 0 <= j < strong.len() ==> #[trigger] strong_on_path(e, p, cycle, strong[j]@)
}

/// What the profile counterexample search promises of its answer.
pub open spec fn profile_violation_ok<P: View>(
    e: ReachableGraph<P>,
    g: ReachableGraph<P>,
    known_terminal: Seq<bool>,
    member: Seq<Vec<bool>>,
    strict: bool,
    weak: Seq<String>,
    strong: Seq<String>,
    r: Result<Option<Violation<P>>, BuchiError>,
) -> bool {
    let n = g.states.len();
    let frame = e.states.len() == n && known_terminal.len() == n;
    match r {
        Ok(None) => {
            &&& frame
            &&& strict ==> forall|i: int| 0 <= i < n ==> !#[trigger] terminal_violation(known_terminal, member, i)
            &&& forall|s: int| 0 <= s < member.len() ==> #[trigger] profile_unfair_outside(e, g, member, s, weak, strong)
        },
        Ok(Some(Violation::Terminal { set, node, trace })) => frame && violation_ok(e, g, known_terminal, member, strict, weak, r),
        Ok(Some(Violation::Lasso { set, entry, stem, cycle })) => {
            &&& frame
            &&& strict ==> forall|i: int| 0 <= i < n ==> !#[trigger] terminal_violation(known_terminal, member, i)
            &&& profile_lasso_ok(e, g, member, weak, strong, set, entry, stem@, cycle@)
        },
        Err(x) => {
            ||| !frame && x is MissingWitness
            ||| x is MissingWitness && exists|i: int| 0 <= i < n && !reachable_from(g, g.initial_ids@, i, everything(n as nat))
        },
    }
}

/// Search a product graph for a violation of generalized Büchi acceptance
/// under a fairness profile.
///
/// `enablement` and `g` share node ids: the first decides which actions
/// are enabled, the second supplies the edges of witnesses. Under the
/// strict policy the first known terminal missing an acceptance set wins,
/// with a shortest trace. Otherwise, for each acceptance set, the graph is
/// restricted to the nodes outside it; its cyclic strongly connected
/// components are refined until every strong action enabled in a component
/// is taken inside it, and each refined component that also admits every
/// weak action yields a lasso entered at its member nearest to a root. The
/// lasso with the shortest stem, then the lowest set index, then the lowest
/// entry wins; candidates differ in their entry, so the order in which
/// components are visited does not change the answer.
/// `member[s][i]` says whether node `i` lies in acceptance set `s`.
#[verifier::spinoff_prover]
#[verifier::rlimit(30)]
pub fn find_profile_buchi_counterexample<P: StateValue>(
    enablement: &ReachableGraph<P>,
    g: &ReachableGraph<P>,
    known_terminal: &[bool],
    member: &Vec<Vec<bool>>,
    strict: bool,
    profile: &FairnessProfile,
) -> (r: Result<Option<Violation<P>>, BuchiError>)
    requires
        g.wf(),
        enablement.wf(),
        forall|s: int| 0 <= s < member@.len() ==> (#[trigger] member@[s]).len() == g.states.len(),
    ensures
        profile_violation_ok(
            *enablement,
            *g,
            known_terminal@,
            member@,
            strict,
            profile.weak_list(),
            profile.strong_list(),
            r,
        ),
{
    let n = g.states.len();
    if enablement.states.len() != n || known_terminal.len() != n {
        return Err(BuchiError::MissingWitness);
    }
    let ghost weak = profile.weak_list();
    let ghost strong = profile.strong_list();
    if strict {
        let found = crate::fairness::find_terminal_violation(g, known_terminal, member);
        match found {
            Ok(Some(v)) => {
                proof {
                    assert(violation_ok(*enablement, *g, known_terminal@, member@, true, Seq::empty(), found));
                }
                return Ok(Some(v));
            },
            Err(e) => {
                proof {
                    assert(violation_ok(*enablement, *g, known_terminal@, member@, true, Seq::empty(), found));
                }
                return Err(e);
            },
            Ok(None) => {},
        }
    }
    let ghost no_terminal = strict ==> forall|i: int| 0 <= i < n ==> !#[trigger] terminal_violation(known_terminal@, member@, i);
    let mut best: Option<(usize, usize, Vec<TraceStep<P>>, Vec<TraceStep<P>>)> = None;
    let mut s: usize = 0;
    while s < member.len()
        invariant
            g.wf(),
            enablement.wf(),
            enablement.states.len() == n,
            n == g.states.len(),
            known_terminal@.len() == n,
            forall|s: int| 0 <= s < member@.len() ==> (#[trigger] member@[s]).len() == n,
            weak == profile.weak_list(),
            strong == profile.strong_list(),
            no_terminal,
            no_terminal == (strict ==> forall|i: int| 0 <= i < n ==> !#[trigger] terminal_violation(known_terminal@, member@, i)),
            s <= member@.len(),
            best matches Some(b) ==> profile_lasso_ok(*enablement, *g, member@, weak, strong, b.0, b.1, b.2@, b.3@),
            best is None ==> forall|x: int| 0 <= x < s ==> #[trigger] profile_unfair_outside(*enablement, *g, member@, x, weak, strong),
        decreases member.len() - s,
    {
        let included = outside_mask(member, s, n);
        let old_ids = selected_ids(&included);
        let residual = induced_graph(g, included.as_slice());
        let comps = strongly_connected_components(&residual);
        proof {
            crate::graph::lemma_selected_bounds(included@);
            assert forall|j: int| 0 <= j < old_ids@.len() implies #[trigger] old_ids@[j] < g.states.len() by {
                assert(old_ids@[j] as int == selected(included@)[j]);
            }
        }
        let fair = strong_fair_components(enablement, &residual, old_ids.as_slice(), &comps, profile.strong());
        let weak_actions = profile.weak_actions();
        let mut c: usize = 0;
        while c < fair.len()
            invariant
                g.wf(),
                enablement.wf(),
                enablement.states.len() == n,
                n == g.states.len(),
                forall|s: int| 0 <= s < member@.len() ==> (#[trigger] member@[s]).len() == n,
                weak == profile.weak_list(),
                strong == profile.strong_list(),
                weak_actions@ == weak,
                s < member@.len(),
                included@ == outside(member@, s as int, n as nat),
                old_ids@.len() == selected(included@).len(),
                forall|j: int| 0 <= j < old_ids@.len() ==> old_ids@[j] as int == #[trigger] selected(included@)[j],
                forall|j: int| 0 <= j < old_ids@.len() ==> #[trigger] old_ids@[j] < g.states.len(),
                forall|j: int|
                    0 <= j < selected(included@).len() ==> 0 <= #[trigger] selected(included@)[j] < included@.len()
                        && included@[selected(included@)[j]],
                residual.wf(),
                residual.states.len() == selected(included@).len(),
                forall|j: int|
                    0 <= j < residual.states.len() ==> (#[trigger] residual.states@[j])@ == g.states@[selected(
                        included@,
                    )[j]]@,
                forall|j: int|
                    0 <= j < residual.outgoing.len() ==> (#[trigger] residual.outgoing@[j])@
                        == crate::graph::kept_edges(g.outgoing@[selected(included@)[j]]@, included@),
                is_scc_partition(residual, comps@),
                forall|k: int|
                    0 <= k < fair@.len() ==> (#[trigger] fair@[k])@.len() > 0 && sorted_below(fair@[k]@, residual.states.len() as nat)
                        && strong_closed(*enablement, residual, old_ids@, fair@[k]@, strong),
                forall|x: int|
                    0 <= x < comps@.len() && #[trigger] cyclic(residual, comps@[x]@) && strong_closed(
                        *enablement,
                        residual,
                        old_ids@,
                        comps@[x]@,
                        strong,
                    ) ==> exists|k: int| 0 <= k < fair@.len() && (#[trigger] fair@[k])@ == comps@[x]@,
                forall|cc: Seq<usize>|
                    #[trigger] fair_recurrent(*enablement, residual, old_ids@, strong, cc)
                        ==> exists|k: int| 0 <= k < fair@.len() && subset_of(cc, #[trigger] fair@[k]@),
                forall|k: int| 0 <= k < fair@.len() ==> recurrent_set(residual, #[trigger] fair@[k]@),
                c <= fair@.len(),
                best matches Some(b) ==> profile_lasso_ok(*enablement, *g, member@, weak, strong, b.0, b.1, b.2@, b.3@),
                best is None ==> forall|x: int| 0 <= x < s ==> #[trigger] profile_unfair_outside(*enablement, *g, member@, x, weak, strong),
                best is None ==> forall|k: int| 0 <= k < c ==> !fair_component(*enablement, residual, old_ids@, #[trigger] fair@[k]@, weak),
            decreases fair.len() - c,
        {
            let comp = &fair[c];
            let members = members_of(comp.as_slice(), residual.states.len());
            if weak_admissible(enablement, &residual, old_ids.as_slice(), comp.as_slice(), &members, weak_actions) {
                let (entry, pe, stem) = match nearest_entry(g, old_ids.as_slice(), comp.as_slice()) {
                    Some(x) => x,
                    None => {
                        return Err(BuchiError::MissingWitness);
                    },
                };
                let cycle = match combined_fair_cycle(enablement, &residual, old_ids.as_slice(), comp.as_slice(), entry, profile) {
                    Ok(cy) => cy,
                    Err(e) => {
                        return Err(BuchiError::Graph(e));
                    },
                };
                proof {
                    let mask = member_mask(comp@, residual.states@.len());
                    let p = choose|p: Seq<int>|
                        #[trigger] is_walk(residual, p, mask) && p[0] == entry && p.last() == entry && trace_spells(residual, cycle@, p);
                    assert(is_walk(residual, p, mask));
                    crate::graph::lemma_induced_walk(*g, included@, residual, mask, p, cycle@);
                    let q = p.map_values(|v: int| selected(included@)[v]);
                    assert(q[0] == pe);
                    assert(q.last() == pe);
                    assert forall|j: int| 0 <= j < weak.len() implies #[trigger] honours_in(*enablement, *g, cycle@, weak[j]@) by {
                        assert(honours(*enablement, residual, old_ids@, comp@, cycle@, weak[j]@));
                        lemma_lift_honours(*enablement, *g, residual, included@, old_ids@, comp@, cycle@, weak[j]@);
                    }
                    assert forall|j: int| 0 <= j < strong.len() implies #[trigger] strong_on_path(*enablement, q, cycle@, strong[j]@) by {
                        assert(strong_honours(*enablement, old_ids@, comp@, cycle@, strong[j]@));
                        if exists|i: int| 0 <= i < q.len() && enabled(*enablement, #[trigger] q[i], strong[j]@) {
                            let i = choose|i: int| 0 <= i < q.len() && enabled(*enablement, #[trigger] q[i], strong[j]@);
                            assert(mask[p[i]]);
                            let m = comp@.index_of(p[i] as usize);
                            assert(comp@[m] as int == p[i]);
                            assert(old_ids@[comp@[m] as int] as int == q[i]);
                            assert(enabled(*enablement, old_ids@[comp@[m] as int] as int, strong[j]@));
                            assert(enabled_member(*enablement, old_ids@, comp@, strong[j]@));
                        }
                    }
                    assert(comp@.contains(entry));
                    assert(included@[selected(included@)[entry as int]]);
                    assert(is_walk(*g, q, outside(member@, s as int, n as nat)));
                    assert(profile_lasso_ok(*enablement, *g, member@, weak, strong, s, pe, stem@, cycle@));
                }
                let len = if stem.len() > 0 { stem.len() - 1 } else { 0 };
                let better = match &best {
                    None => true,
                    Some(b) => {
                        let blen = if b.2.len() > 0 { b.2.len() - 1 } else { 0 };
                        crate::fairness::candidate_less((len, s, pe), (blen, b.0, b.1))
                    },
                };
                if better {
                    best = Some((s, pe, stem, cycle));
                }
            }
            c += 1;
        }
        proof {
            if best is None {
                assert(induced_by(*g, outside(member@, s as int, n as nat), residual, old_ids@));
                assert forall|cc: Seq<usize>|
                    #[trigger] recurrent_set(residual, cc) && strong_closed(*enablement, residual, old_ids@, cc, strong)
                        implies !fair_component(*enablement, residual, old_ids@, cc, weak) by {
                    assert(fair_recurrent(*enablement, residual, old_ids@, strong, cc));
                    let k = choose|k: int| 0 <= k < fair@.len() && subset_of(cc, #[trigger] fair@[k]@);
                    assert(!fair_component(*enablement, residual, old_ids@, fair@[k]@, weak));
                    if fair_component(*enablement, residual, old_ids@, cc, weak) {
                        lemma_fair_grows(*enablement, residual, old_ids@, cc, fair@[k]@, weak);
                    }
                }
                assert(profile_unfair_outside(*enablement, *g, member@, s as int, weak, strong));
            }
        }
        s += 1;
    }
    match best {
        None => Ok(None),
        Some(b) => Ok(Some(Violation::Lasso { set: b.0, entry: b.1, stem: b.2, cycle: b.3 })),
    }
}

// ---------------------------------------------------------------------------
// The Büchi check under a profile.
// ---------------------------------------------------------------------------

/// The counterexample, if any, is the profile violation described with set
/// names.
pub open spec fn profile_counterexample_ok<S: View, A: View>(
    e: ReachableGraph<BuchiProductState<S, A>>,
    g: ReachableGraph<BuchiProductState<S, A>>,
    known_terminal: Seq<bool>,
    member: Seq<Vec<bool>>,
    strict: bool,
    weak: Seq<String>,
    strong: Seq<String>,
    names: Seq<Seq<char>>,
    cx: Option<BuchiCounterexample<S, A>>,
) -> bool {
    let n = g.states.len();
    match cx {
        None => {
            &&& strict ==> forall|i: int| 0 <= i < n ==> !#[trigger] terminal_violation(known_terminal, member, i)
            &&& forall|s: int| 0 <= s < member.len() ==> #[trigger] profile_unfair_outside(e, g, member, s, weak, strong)
        },
        Some(BuchiCounterexample::FiniteTerminal { missing_acceptance, trace }) => exists|set: usize, node: usize|
            set < member.len() && node < n && missing_acceptance@ == names[set as int] && #[trigger] violation_ok(
                e,
                g,
                known_terminal,
                member,
                strict,
                weak,
                Ok(Some(Violation::Terminal { set, node, trace })),
            ),
        Some(BuchiCounterexample::AcceptanceAvoidingCycle { acceptance, stem, cycle }) => exists|set: usize, entry: usize|
            set < member.len() && entry < n && acceptance@ == names[set as int] && (strict ==> forall|i: int|
                0 <= i < n ==> !#[trigger] terminal_violation(known_terminal, member, i)) && #[trigger] profile_lasso_ok(
                e,
                g,
                member,
                weak,
                strong,
                set,
                entry,
                stem@,
                cycle@,
            ),
    }
}

/// `res` reports the Büchi check of `model` against `automaton` under a
/// profile: `c` is the model's captured reachable graph, `p` the complete
/// product of `c` with the automaton, and `member[s][i]` the answer of
/// acceptance set `s`'s predicate on product state `i`.
pub open spec fn profile_report_ok<S: View, A: View>(
    model: TransitionSystem<S>,
    automaton: BuchiAutomaton<A>,
    weak: Seq<String>,
    strong: Seq<String>,
    c: ReachableGraph<S>,
    p: BoundedActionProduct<S, A>,
    member: Seq<Vec<bool>>,
    res: BuchiResult<S, A>,
) -> bool {
    &&& c.wf() && distinct_states(c) && roots_of_initial(c, model.initial())
    &&& product_wf(c, terminal_marks(c), automaton.initial_state()@, p)
    &&& product_complete(p)
    &&& member.len() == automaton.sets().len()
    &&& forall|s: int| 0 <= s < member.len() ==> (#[trigger] member[s]).len() == p.graph.states.len()
    &&& res.automaton@ == automaton.name_text()
    &&& res.finite_policy == automaton.policy()
    &&& res.acceptance_sets == automaton.sets().len()
    &&& res.model_states == c.states.len()
    &&& res.product_states == p.graph.states.len()
    &&& res.product_transitions == if edge_total(p.graph.outgoing@) <= usize::MAX {
        edge_total(p.graph.outgoing@)
    } else {
        usize::MAX as int
    }
    &&& (res.status == BuchiStatus::Violated <==> res.counterexample is Some)
    &&& profile_counterexample_ok(
        p.graph,
        p.graph,
        p.known_terminal@,
        member,
        automaton.policy() == FiniteRunPolicy::RequireAcceptingTerminal,
        weak,
        strong,
        set_names(automaton.sets()),
        res.counterexample,
    )
}

/// Universally verify generalized Büchi acceptance while admitting only
/// infinite executions that satisfy every weak and strong obligation of the
/// profile; finite terminals follow the automaton's policy.
///
/// A profile without strong actions is exactly the weakly fair check (and
/// the empty profile the plain one). Otherwise the model is captured once,
/// the automaton forms a finite product over its action labels, and a
/// violation is a known terminal missing an acceptance set (strict policy,
/// checked first) or a reachable mixed-fair cycle outside one acceptance
/// set.
pub fn check_buchi_with_fairness_profile<S: StateValue, A: StateValue>(
    model: &TransitionSystem<S>,
    automaton: &BuchiAutomaton<A>,
    profile: &FairnessProfile,
) -> (r: Result<BuchiResult<S, A>, BuchiError>)
    ensures
        profile.strong_list().len() == 0 ==> (r matches Ok(res) ==> exists|
            c: ReachableGraph<S>,
            p: BoundedActionProduct<S, A>,
            member: Seq<Vec<bool>>,
        | #[trigger] buchi_report_ok(*model, *automaton, profile.weak_list(), c, p, member, res)),
        profile.strong_list().len() > 0 ==> (r matches Ok(res) ==> exists|
            c: ReachableGraph<S>,
            p: BoundedActionProduct<S, A>,
            member: Seq<Vec<bool>>,
        | #[trigger] profile_report_ok(*model, *automaton, profile.weak_list(), profile.strong_list(), c, p, member, res)),
        r matches Err(e) ==> e matches BuchiError::Graph(RecurrenceError::Graph(g)) && (g is Model || (
        g is UnexpectedInconclusive && (crate::graph::capture_saturates(*model)
            || crate::product::product_saturates::<S, A>(*model, automaton.initial_state()@)))),
{
    if profile.strong().is_empty() {
        return check_buchi_with_weak_fairness(model, automaton, profile.weak());
    }
    let captured = match capture_reachable_graph(model) {
        Ok(c) => c,
        Err(e) => {
            return Err(BuchiError::Graph(RecurrenceError::Graph(e)));
        },
    };
    let product = build_action_product(&captured.graph, automaton.initial(), automaton.step_fn());
    if product.completion.inconclusive_reason().is_some() {
        proof {
            assert(product_wf(captured.graph, terminal_marks(captured.graph), automaton.initial_state()@, product));
        }
        return Err(BuchiError::Graph(RecurrenceError::Graph(crate::graph::GraphCaptureError::UnexpectedInconclusive)));
    }
    let member = acceptance_membership(automaton.acceptance_sets(), &product.graph.states);
    let strict = match automaton.finite_policy() {
        FiniteRunPolicy::RequireAcceptingTerminal => true,
        FiniteRunPolicy::IgnoreTerminals => false,
    };
    let found = find_profile_buchi_counterexample(
        &product.graph,
        &product.graph,
        product.known_terminal.as_slice(),
        &member,
        strict,
        profile,
    );
    let ghost weak = profile.weak_list();
    let ghost strong = profile.strong_list();
    let counterexample = match found {
        Err(e) => {
            proof {
                if exists|i: int| 0 <= i < product.graph.states.len() && !reachable_from(
                    product.graph,
                    product.graph.initial_ids@,
                    i,
                    everything(product.graph.states.len() as nat),
                ) {
                    let i = choose|i: int|
                        0 <= i < product.graph.states.len() && !reachable_from(
                            product.graph,
                            product.graph.initial_ids@,
                            i,
                            everything(product.graph.states.len() as nat),
                        );
                    assert(reachable_from(
                        product.graph,
                        product.graph.initial_ids@,
                        i,
                        everything(product.graph.states@.len()),
                    ));
                }
                assert(false);
            }
            return Err(e);
        },
        Ok(None) => {
            proof {
                assert(profile_counterexample_ok(
                    product.graph,
                    product.graph,
                    product.known_terminal@,
                    member@,
                    strict,
                    weak,
                    strong,
                    set_names(automaton.sets()),
                    None,
                ));
            }
            None
        },
        Ok(Some(Violation::Terminal { set, node, trace })) => {
            let ghost t = trace;
            let name = owned(automaton.acceptance_sets()[set].name());
            let cx = BuchiCounterexample::FiniteTerminal { missing_acceptance: name, trace };
            proof {
                assert(set_names(automaton.sets())[set as int] == automaton.sets()[set as int].name_text());
                assert(violation_ok(
                    product.graph,
                    product.graph,
                    product.known_terminal@,
                    member@,
                    strict,
                    weak,
                    Ok(Some(Violation::Terminal { set, node, trace: t })),
                ));
                assert(cx->missing_acceptance@ == set_names(automaton.sets())[set as int]);
                assert(cx->trace == t);
                assert(set < member@.len() && node < product.graph.states.len());
                assert(profile_counterexample_ok(
                    product.graph,
                    product.graph,
                    product.known_terminal@,
                    member@,
                    strict,
                    weak,
                    strong,
                    set_names(automaton.sets()),
                    Some(cx),
                ));
            }
            Some(cx)
        },
        Ok(Some(Violation::Lasso { set, entry, stem, cycle })) => {
            let ghost st = stem@;
            let ghost cy = cycle@;
            let name = owned(automaton.acceptance_sets()[set].name());
            let cx = BuchiCounterexample::AcceptanceAvoidingCycle { acceptance: name, stem, cycle };
            proof {
                assert(set_names(automaton.sets())[set as int] == automaton.sets()[set as int].name_text());
                assert(profile_lasso_ok(product.graph, product.graph, member@, weak, strong, set, entry, st, cy));
                assert(cx->acceptance@ == set_names(automaton.sets())[set as int]);
                assert(cx->stem@ == st && cx->cycle@ == cy);
                assert(strict ==> forall|i: int|
                    0 <= i < product.graph.states.len() ==> !#[trigger] terminal_violation(product.known_terminal@, member@, i));
                assert(set < member@.len() && entry < product.graph.states.len());

                assert(profile_counterexample_ok(
                    product.graph,
                    product.graph,
                    product.known_terminal@,
                    member@,
                    strict,
                    weak,
                    strong,
                    set_names(automaton.sets()),
                    Some(cx),
                ));
            }
            Some(cx)
        },
    };
    let product_transitions = count_edges(&product.graph.outgoing);
    let status = if counterexample.is_some() {
        BuchiStatus::Violated
    } else {
        BuchiStatus::Satisfied
    };
    let res = BuchiResult {
        automaton: owned(automaton.name()),
        status,
        finite_policy: automaton.finite_policy(),
        acceptance_sets: automaton.acceptance_sets().len(),
        model_states: captured.discovered_states,
        model_transitions: captured.explored_transitions,
        product_states: product.graph.states.len(),
        product_transitions,
        counterexample,
    };
    proof {
        assert(profile_report_ok(*model, *automaton, weak, strong, captured.graph, product, member@, res));
    }
    Ok(res)
}

/// `res` reports the Büchi check under a profile with the product bounded
/// by `limits`: `c` is the model's captured reachable graph, `p` the
/// product prefix built within `limits`, `e` the model-side enablement on
/// product ids, and `member[s][i]` the answer of acceptance set `s`'s
/// predicate on product state `i`. A retained violation is conclusive;
/// otherwise satisfaction needs a complete product.
pub open spec fn bounded_profile_report_ok<S: View, A: View>(
    model: TransitionSystem<S>,
    automaton: BuchiAutomaton<A>,
    weak: Seq<String>,
    strong: Seq<String>,
    limits: ExplorationLimits,
    c: ReachableGraph<S>,
    p: BoundedActionProduct<S, A>,
    e: ReachableGraph<BuchiProductState<S, A>>,
    member: Seq<Vec<bool>>,
    res: BoundedBuchiResult<S, A>,
) -> bool {
    &&& c.wf() && distinct_states(c) && roots_of_initial(c, model.initial())
    &&& product_wf(c, terminal_marks(c), automaton.initial_state()@, p)
    &&& enablement_of(c, p, e)
    &&& p.completion is Conclusive ==> crate::product::roots_covered(c.initial_ids@, p.model_ids@, p.graph.initial_ids@)
    &&& limits.max_states matches Some(l) ==> p.graph.states.len() <= l
    &&& member.len() == automaton.sets().len()
    &&& forall|s: int| 0 <= s < member.len() ==> (#[trigger] member[s]).len() == p.graph.states.len()
    &&& res.automaton@ == automaton.name_text()
    &&& res.finite_policy == automaton.policy()
    &&& res.acceptance_sets == automaton.sets().len()
    &&& res.model_states == c.states.len()
    &&& res.product_states == p.graph.states.len()
    &&& res.checked_product_states == p.checked_states
    &&& res.explored_product_transitions == p.explored_transitions
    &&& res.max_product_depth_reached == p.max_depth_reached
    &&& res.retained_product_transitions == if edge_total(p.graph.outgoing@) <= usize::MAX {
        edge_total(p.graph.outgoing@)
    } else {
        usize::MAX as int
    }
    &&& profile_counterexample_ok(
        e,
        p.graph,
        p.known_terminal@,
        member,
        automaton.policy() == FiniteRunPolicy::RequireAcceptingTerminal,
        weak,
        strong,
        set_names(automaton.sets()),
        res.counterexample,
    )
    &&& res.outcome == if res.counterexample is Some {
        BoundedOutcome::Conclusive(BuchiStatus::Violated)
    } else {
        match p.completion {
            BoundedOutcome::Conclusive(_) => BoundedOutcome::Conclusive(BuchiStatus::Satisfied),
            BoundedOutcome::Inconclusive(reason) => BoundedOutcome::Inconclusive(reason),
        }
    }
    &&& p.completion matches BoundedOutcome::Inconclusive(reason) ==> match reason {
        crate::checker::InconclusiveReason::StateLimitReached { limit } => limits.max_states == Some(limit)
            && p.graph.states.len() == limit,
        crate::checker::InconclusiveReason::TransitionLimitReached { limit } => p.explored_transitions == limit
            && (limits.max_transitions == Some(limit) || (limits.max_transitions is None && limit == usize::MAX)),
        crate::checker::InconclusiveReason::DepthLimitReached { limit } => limits.max_depth == Some(limit),
    }
}

/// Generalized Büchi verification under a fairness profile, bounding only
/// the product construction after complete model capture.
///
/// The complete model snapshot decides action enablement, so a product
/// cutoff cannot make a weak action look disabled or a strong action look
/// absent. A retained violation is conclusive; with none retained an
/// incomplete product stays inconclusive. A profile without strong actions
/// is exactly the weakly fair bounded check.
pub fn check_buchi_with_fairness_profile_and_product_limits<S: StateValue, A: StateValue>(
    model: &TransitionSystem<S>,
    automaton: &BuchiAutomaton<A>,
    profile: &FairnessProfile,
    limits: ExplorationLimits,
) -> (r: Result<BoundedBuchiResult<S, A>, BuchiError>)
    ensures
        profile.strong_list().len() == 0 ==> (r matches Ok(res) ==> exists|
            c: ReachableGraph<S>,
            p: BoundedActionProduct<S, A>,
            e: ReachableGraph<BuchiProductState<S, A>>,
            member: Seq<Vec<bool>>,
        | #[trigger] bounded_report_ok(*model, *automaton, profile.weak_list(), limits, c, p, e, member, res)),
        profile.strong_list().len() > 0 ==> (r matches Ok(res) ==> exists|
            c: ReachableGraph<S>,
            p: BoundedActionProduct<S, A>,
            e: ReachableGraph<BuchiProductState<S, A>>,
            member: Seq<Vec<bool>>,
        | #[trigger] bounded_profile_report_ok(
            *model,
            *automaton,
            profile.weak_list(),
            profile.strong_list(),
            limits,
            c,
            p,
            e,
            member,
            res,
        )),
        r matches Err(e) ==> e matches BuchiError::Graph(RecurrenceError::Graph(g)) && (g is Model || (
        g is UnexpectedInconclusive && crate::graph::capture_saturates(*model))),
{
    if profile.strong().is_empty() {
        return check_buchi_with_weak_fairness_and_product_limits(model, automaton, profile.weak(), limits);
    }
    let captured = match capture_reachable_graph(model) {
        Ok(c) => c,
        Err(e) => {
            return Err(BuchiError::Graph(RecurrenceError::Graph(e)));
        },
    };
    let product = build_action_product_with_limits(&captured.graph, automaton.initial(), automaton.step_fn(), limits);
    let enablement = model_enablement(&captured.graph, &product);
    let member = acceptance_membership(automaton.acceptance_sets(), &product.graph.states);
    let strict = match automaton.finite_policy() {
        FiniteRunPolicy::RequireAcceptingTerminal => true,
        FiniteRunPolicy::IgnoreTerminals => false,
    };
    let found = find_profile_buchi_counterexample(
        &enablement,
        &product.graph,
        product.known_terminal.as_slice(),
        &member,
        strict,
        profile,
    );
    let ghost weak = profile.weak_list();
    let ghost strong = profile.strong_list();
    let counterexample = match found {
        Err(e) => {
            proof {
                if exists|i: int| 0 <= i < product.graph.states.len() && !reachable_from(
                    product.graph,
                    product.graph.initial_ids@,
                    i,
                    everything(product.graph.states.len() as nat),
                ) {
                    let i = choose|i: int|
                        0 <= i < product.graph.states.len() && !reachable_from(
                            product.graph,
                            product.graph.initial_ids@,
                            i,
                            everything(product.graph.states.len() as nat),
                        );
                    assert(reachable_from(
                        product.graph,
                        product.graph.initial_ids@,
                        i,
                        everything(product.graph.states@.len()),
                    ));
                }
                assert(false);
            }
            return Err(e);
        },
        Ok(None) => {
            proof {
                assert(profile_counterexample_ok(
                    enablement,
                    product.graph,
                    product.known_terminal@,
                    member@,
                    strict,
                    weak,
                    strong,
                    set_names(automaton.sets()),
                    None,
                ));
            }
            None
        },
        Ok(Some(Violation::Terminal { set, node, trace })) => {
            let ghost t = trace;
            let name = owned(automaton.acceptance_sets()[set].name());
            let cx = BuchiCounterexample::FiniteTerminal { missing_acceptance: name, trace };
            proof {
                assert(set_names(automaton.sets())[set as int] == automaton.sets()[set as int].name_text());
                assert(violation_ok(
                    enablement,
                    product.graph,
                    product.known_terminal@,
                    member@,
                    strict,
                    weak,
                    Ok(Some(Violation::Terminal { set, node, trace: t })),
                ));
                assert(cx->missing_acceptance@ == set_names(automaton.sets())[set as int]);
                assert(cx->trace == t);
                assert(set < member@.len() && node < product.graph.states.len());
                assert(profile_counterexample_ok(
                    enablement,
                    product.graph,
                    product.known_terminal@,
                    member@,
                    strict,
                    weak,
                    strong,
                    set_names(automaton.sets()),
                    Some(cx),
                ));
            }
            Some(cx)
        },
        Ok(Some(Violation::Lasso { set, entry, stem, cycle })) => {
            let ghost st = stem@;
            let ghost cy = cycle@;
            let name = owned(automaton.acceptance_sets()[set].name());
            let cx = BuchiCounterexample::AcceptanceAvoidingCycle { acceptance: name, stem, cycle };
            proof {
                assert(set_names(automaton.sets())[set as int] == automaton.sets()[set as int].name_text());
                assert(profile_lasso_ok(enablement, product.graph, member@, weak, strong, set, entry, st, cy));
                assert(cx->acceptance@ == set_names(automaton.sets())[set as int]);
                assert(cx->stem@ == st && cx->cycle@ == cy);
                assert(set < member@.len() && entry < product.graph.states.len());
                assert(profile_counterexample_ok(
                    enablement,
                    product.graph,
                    product.known_terminal@,
                    member@,
                    strict,
                    weak,
                    strong,
                    set_names(automaton.sets()),
                    Some(cx),
                ));
            }
            Some(cx)
        },
    };
    let retained = count_edges(&product.graph.outgoing);
    let outcome = if counterexample.is_some() {
        BoundedOutcome::Conclusive(BuchiStatus::Violated)
    } else {
        match product.completion {
            BoundedOutcome::Conclusive(()) => BoundedOutcome::Conclusive(BuchiStatus::Satisfied),
            BoundedOutcome::Inconclusive(reason) => BoundedOutcome::Inconclusive(reason),
        }
    };
    let res = BoundedBuchiResult {
        automaton: owned(automaton.name()),
        outcome,
        finite_policy: automaton.finite_policy(),
        acceptance_sets: automaton.acceptance_sets().len(),
        model_states: captured.discovered_states,
        model_transitions: captured.explored_transitions,
        product_states: product.graph.states.len(),
        checked_product_states: product.checked_states,
        explored_product_transitions: product.explored_transitions,
        retained_product_transitions: retained,
        max_product_depth_reached: product.max_depth_reached,
        counterexample,
    };
    proof {
        assert(bounded_profile_report_ok(*model, *automaton, weak, strong, limits, captured.graph, product, enablement, member@, res));
    }
    Ok(res)
}

/// A lasso that is fair under a profile is a lasso of the check without
/// fairness: fairness only ever removes counterexamples.
pub proof fn lemma_profile_lasso_is_plain_lasso<P: View>(
    e: ReachableGraph<P>,
    g: ReachableGraph<P>,
    member: Seq<Vec<bool>>,
    weak: Seq<String>,
    strong: Seq<String>,
    set: usize,
    entry: usize,
    stem: Seq<TraceStep<P>>,
    cycle: Seq<TraceStep<P>>,
)
    requires
        profile_lasso_ok(e, g, member, weak, strong, set, entry, stem, cycle),
    ensures
        lasso_ok(e, g, member, Seq::empty(), set, entry, stem, cycle),
{
    let n = g.states.len();
    let p = choose|p: Seq<int>|
        #[trigger] is_walk(g, p, outside(member, set as int, n as nat)) && p[0] == entry && p.last() == entry && trace_spells(
            g,
            cycle,
            p,
        ) && forall|j: int| 0 <= j < strong.len() ==> #[trigger] strong_on_path(e, p, cycle, strong[j]@);
    assert(spells_walk(g, cycle, outside(member, set as int, n as nat), entry as int, entry as int));
    assert(fair_lasso_cycle(e, g, cycle, outside(member, set as int, n as nat), entry as int, Seq::empty()));
}

} // verus!
