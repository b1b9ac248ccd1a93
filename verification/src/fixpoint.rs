//! State-set predecessors and least/greatest fixpoints over a totalized
//! reachable graph: a terminal state counts as its own only successor.
use crate::graph::{count_true, ReachableGraph};
use vstd::prelude::*;

verus! {

/// Some successor of `s` is in `x` (`all == false`), or every successor is
/// (`all == true`); a terminal state is its own successor.
pub open spec fn pre<S>(g: ReachableGraph<S>, all: bool, x: Seq<bool>, s: int) -> bool {
    if g.outgoing@[s].len() == 0 {
        x[s]
    } else if all {
        forall|k: int| 0 <= k < g.outgoing@[s].len() ==> x[(#[trigger] g.outgoing@[s]@[k]).target as int]
    } else {
        exists|k: int| 0 <= k < g.outgoing@[s].len() && x[(#[trigger] g.outgoing@[s]@[k]).target as int]
    }
}

/// The predecessor set of `x`.
pub open spec fn pre_set<S>(g: ReachableGraph<S>, all: bool, x: Seq<bool>) -> Seq<bool> {
    Seq::new(g.states.len() as nat, |s: int| pre(g, all, x, s))
}

/// One fixpoint step: `a ∨ (b ∧ pre(x))`.
pub open spec fn step_of<S>(g: ReachableGraph<S>, all: bool, a: Seq<bool>, b: Seq<bool>, x: Seq<bool>) -> Seq<bool> {
    Seq::new(g.states.len() as nat, |s: int| a[s] || (b[s] && pre(g, all, x, s)))
}

/// `x ⊆ y`, pointwise.
pub open spec fn subset(x: Seq<bool>, y: Seq<bool>) -> bool {
    forall|i: int| 0 <= i < x.len() && #[trigger] x[i] ==> y[i]
}

/// `r` is the least fixpoint of the step: a fixpoint contained in every
/// set closed under the step.
pub open spec fn is_lfp<S>(g: ReachableGraph<S>, all: bool, a: Seq<bool>, b: Seq<bool>, r: Seq<bool>) -> bool {
    &&& r.len() == g.states.len()
    &&& r == step_of(g, all, a, b, r)
    &&& forall|x: Seq<bool>|
        x.len() == g.states.len() && #[trigger] subset(step_of(g, all, a, b, x), x) ==> subset(r, x)
}

/// `r` is the greatest fixpoint of the step: a fixpoint containing every
/// set that the step keeps.
pub open spec fn is_gfp<S>(g: ReachableGraph<S>, all: bool, a: Seq<bool>, b: Seq<bool>, r: Seq<bool>) -> bool {
    &&& r.len() == g.states.len()
    &&& r == step_of(g, all, a, b, r)
    &&& forall|x: Seq<bool>|
        x.len() == g.states.len() && #[trigger] subset(x, step_of(g, all, a, b, x)) ==> subset(x, r)
}

/// The least fixpoint (unique when it exists).
pub open spec fn lfp<S>(g: ReachableGraph<S>, all: bool, a: Seq<bool>, b: Seq<bool>) -> Seq<bool> {
    choose|r: Seq<bool>| is_lfp(g, all, a, b, r)
}

/// The greatest fixpoint (unique when it exists).
pub open spec fn gfp<S>(g: ReachableGraph<S>, all: bool, a: Seq<bool>, b: Seq<bool>) -> Seq<bool> {
    choose|r: Seq<bool>| is_gfp(g, all, a, b, r)
}

pub proof fn lemma_pre_monotone<S>(g: ReachableGraph<S>, all: bool, x: Seq<bool>, y: Seq<bool>, s: int)
    requires
        g.wf(),
        x.len() == g.states.len(),
        y.len() == g.states.len(),
        0 <= s < g.states.len(),
        subset(x, y),
        pre(g, all, x, s),
    ensures
        pre(g, all, y, s),
{
    if g.outgoing@[s].len() == 0 {
    } else if all {
        assert forall|k: int| 0 <= k < g.outgoing@[s].len() implies y[(#[trigger] g.outgoing@[s]@[k]).target as int] by {
            assert(x[g.outgoing@[s]@[k].target as int]);
        }
    } else {
        let k = choose|k: int| 0 <= k < g.outgoing@[s].len() && x[(#[trigger] g.outgoing@[s]@[k]).target as int];
        assert(y[g.outgoing@[s]@[k].target as int]);
    }
}

pub proof fn lemma_step_monotone<S>(g: ReachableGraph<S>, all: bool, a: Seq<bool>, b: Seq<bool>, x: Seq<bool>, y: Seq<bool>)
    requires
        g.wf(),
        x.len() == g.states.len(),
        y.len() == g.states.len(),
        subset(x, y),
    ensures
        subset(step_of(g, all, a, b, x), step_of(g, all, a, b, y)),
{
    assert forall|s: int| 0 <= s < step_of(g, all, a, b, x).len() && #[trigger] step_of(g, all, a, b, x)[s] implies step_of(
        g,
        all,
        a,
        b,
        y,
    )[s] by {
        if !a[s] {
            lemma_pre_monotone(g, all, x, y, s);
        }
    }
}

pub proof fn lemma_count_true_subset(x: Seq<bool>, y: Seq<bool>)
    requires
        x.len() == y.len(),
        subset(x, y),
    ensures
        count_true(x) <= count_true(y),
        x != y ==> count_true(x) < count_true(y),
    decreases x.len(),
{
    if x.len() > 0 {
        let dx = x.drop_last();
        let dy = y.drop_last();
        assert forall|i: int| 0 <= i < dx.len() && #[trigger] dx[i] implies dy[i] by {
            assert(x[i]);
        }
        lemma_count_true_subset(dx, dy);
        if x != y {
            if dx == dy {
                assert(x.last() != y.last()) by {
                    if x.last() == y.last() {
                        assert(x =~= y) by {
                            assert forall|i: int| 0 <= i < x.len() implies x[i] == y[i] by {
                                if i < dx.len() {
                                    assert(dx[i] == dy[i]);
                                }
                            }
                        }
                    }
                }
            }
        }
    } else {
        assert(x =~= y);
    }
}

/// The predecessor set of `x`, computed.
pub fn pre_vec<S>(g: &ReachableGraph<S>, all: bool, x: &Vec<bool>) -> (r: Vec<bool>)
    requires
        g.wf(),
        x@.len() == g.states.len(),
    ensures
        r@ == pre_set(*g, all, x@),
{
    let n = g.states.len();
    let mut r: Vec<bool> = Vec::new();
    let mut s: usize = 0;
    while s < n
        invariant
            g.wf(),
            n == g.states.len(),
            x@.len() == n,
            s <= n,
            r@ == pre_set(*g, all, x@).subrange(0, s as int),
        decreases n - s,
    {
        let edges = &g.outgoing[s];
        let value = if edges.len() == 0 {
            x[s]
        } else {
            let mut k: usize = 0;
            let mut found = if all { true } else { false };
            while k < edges.len()
                invariant
                    g.wf(),
                    s < n,
                    n == g.states.len(),
                    x@.len() == n,
                    edges@ == g.outgoing@[s as int]@,
                    k <= edges.len(),
                    all ==> (found == forall|j: int| 0 <= j < k ==> x@[(#[trigger] edges@[j]).target as int]),
                    !all ==> (found == exists|j: int| 0 <= j < k && x@[(#[trigger] edges@[j]).target as int]),
                decreases edges.len() - k,
            {
                let t = edges[k].target;
                assert(g.outgoing@[s as int]@[k as int].target < n);
                if all {
                    found = found && x[t];
                } else {
                    found = found || x[t];
                }
                proof {
                    if all {
                        if found {
                            assert forall|j: int| 0 <= j < k + 1 implies x@[(#[trigger] edges@[j]).target as int] by {}
                        }
                    } else {
                        if found && !x@[t as int] {
                            let j = choose|j: int| 0 <= j < k && x@[(#[trigger] edges@[j]).target as int];
                        }
                        if x@[t as int] {
                            assert(x@[edges@[k as int].target as int]);
                        }
                    }
                }
                k += 1;
            }
            found
        };
        proof {
            assert(value == pre(*g, all, x@, s as int));
        }
        r.push(value);
        s += 1;
        assert(r@ =~= pre_set(*g, all, x@).subrange(0, s as int));
    }
    assert(r@ =~= pre_set(*g, all, x@));
    r
}

/// One fixpoint step, computed.
pub fn step_vec<S>(g: &ReachableGraph<S>, all: bool, a: &Vec<bool>, b: &Vec<bool>, x: &Vec<bool>) -> (r: Vec<bool>)
    requires
        g.wf(),
        a@.len() == g.states.len(),
        b@.len() == g.states.len(),
        x@.len() == g.states.len(),
    ensures
        r@ == step_of(*g, all, a@, b@, x@),
{
    let p = pre_vec(g, all, x);
    let n = g.states.len();
    let mut r: Vec<bool> = Vec::new();
    let mut s: usize = 0;
    while s < n
        invariant
            n == g.states.len(),
            a@.len() == n,
            b@.len() == n,
            p@ == pre_set(*g, all, x@),
            s <= n,
            r@ == step_of(*g, all, a@, b@, x@).subrange(0, s as int),
        decreases n - s,
    {
        r.push(a[s] || (b[s] && p[s]));
        s += 1;
        assert(r@ =~= step_of(*g, all, a@, b@, x@).subrange(0, s as int));
    }
    assert(r@ =~= step_of(*g, all, a@, b@, x@));
    r
}

fn same_bits(x: &Vec<bool>, y: &Vec<bool>) -> (same: bool)
    requires
        x@.len() == y@.len(),
    ensures
        same == (x@ == y@),
{
    let mut i: usize = 0;
    while i < x.len()
        invariant
            x@.len() == y@.len(),
            i <= x@.len(),
            forall|j: int| 0 <= j < i ==> x@[j] == y@[j],
        decreases x.len() - i,
    {
        if x[i] != y[i] {
            return false;
        }
        i += 1;
    }
    assert(x@ =~= y@);
    true
}

/// Iterating the step upward from a set below every closed set reaches the
/// least fixpoint.
proof fn lemma_lfp_from<S>(g: ReachableGraph<S>, all: bool, a: Seq<bool>, b: Seq<bool>, current: Seq<bool>) -> (r: Seq<bool>)
    requires
        g.wf(),
        current.len() == g.states.len(),
        subset(current, step_of(g, all, a, b, current)),
        forall|x: Seq<bool>|
            x.len() == g.states.len() && #[trigger] subset(step_of(g, all, a, b, x), x) ==> subset(current, x),
    ensures
        is_lfp(g, all, a, b, r),
    decreases g.states.len() - count_true(current),
{
    let next = step_of(g, all, a, b, current);
    crate::graph::lemma_count_true_bound(current);
    crate::graph::lemma_count_true_bound(next);
    if next =~= current {
        current
    } else {
        lemma_count_true_subset(current, next);
        lemma_step_monotone(g, all, a, b, current, next);
        assert forall|x: Seq<bool>|
            x.len() == g.states.len() && #[trigger] subset(step_of(g, all, a, b, x), x) implies subset(next, x) by {
            lemma_step_monotone(g, all, a, b, current, x);
        }
        lemma_lfp_from(g, all, a, b, next)
    }
}

/// Iterating the step downward from a set above every kept set reaches the
/// greatest fixpoint.
proof fn lemma_gfp_from<S>(g: ReachableGraph<S>, all: bool, a: Seq<bool>, b: Seq<bool>, current: Seq<bool>) -> (r: Seq<bool>)
    requires
        g.wf(),
        current.len() == g.states.len(),
        subset(step_of(g, all, a, b, current), current),
        forall|x: Seq<bool>|
            x.len() == g.states.len() && #[trigger] subset(x, step_of(g, all, a, b, x)) ==> subset(x, current),
    ensures
        is_gfp(g, all, a, b, r),
    decreases count_true(current),
{
    let next = step_of(g, all, a, b, current);
    crate::graph::lemma_count_true_bound(current);
    crate::graph::lemma_count_true_bound(next);
    if next =~= current {
        current
    } else {
        lemma_count_true_subset(next, current);
        lemma_step_monotone(g, all, a, b, next, current);
        assert forall|x: Seq<bool>|
            x.len() == g.states.len() && #[trigger] subset(x, step_of(g, all, a, b, x)) implies subset(x, next) by {
            lemma_step_monotone(g, all, a, b, x, current);
        }
        lemma_gfp_from(g, all, a, b, next)
    }
}

/// Over a well-formed graph the step `x ↦ a ∨ (b ∧ pre(x))` has a least
/// and a greatest fixpoint.
pub proof fn lemma_fixpoints_exist<S>(g: ReachableGraph<S>, all: bool, a: Seq<bool>, b: Seq<bool>)
    requires
        g.wf(),
    ensures
        is_lfp(g, all, a, b, lfp(g, all, a, b)),
        is_gfp(g, all, a, b, gfp(g, all, a, b)),
{
    let n = g.states.len() as nat;
    let start = Seq::new(n, |s: int| a[s]);
    assert forall|x: Seq<bool>|
        x.len() == g.states.len() && #[trigger] subset(step_of(g, all, a, b, x), x) implies subset(start, x) by {
        assert forall|i: int| 0 <= i < start.len() && #[trigger] start[i] implies x[i] by {
            assert(step_of(g, all, a, b, x)[i]);
        }
    }
    let r = lemma_lfp_from(g, all, a, b, start);
    assert(is_lfp(g, all, a, b, r));
    let top = Seq::new(n, |s: int| true);
    let q = lemma_gfp_from(g, all, a, b, top);
    assert(is_gfp(g, all, a, b, q));
}

/// The least fixpoint of `x ↦ a ∨ (b ∧ pre(x))`, by iteration from `a`.
pub fn least_fixpoint<S>(g: &ReachableGraph<S>, all: bool, a: &Vec<bool>, b: &Vec<bool>) -> (r: Vec<bool>)
    requires
        g.wf(),
        a@.len() == g.states.len(),
        b@.len() == g.states.len(),
    ensures
        is_lfp(*g, all, a@, b@, r@),
{
    let n = g.states.len();
    let mut current = a.clone();
    assert(current@ =~= a@);
    proof {
        assert(subset(current@, step_of(*g, all, a@, b@, current@)));
        assert forall|x: Seq<bool>|
            x.len() == g.states.len() && #[trigger] subset(step_of(*g, all, a@, b@, x), x) implies subset(current@, x) by {
            assert forall|i: int| 0 <= i < current@.len() && #[trigger] current@[i] implies x[i] by {
                assert(step_of(*g, all, a@, b@, x)[i]);
            }
        }
        crate::graph::lemma_count_true_bound(current@);
    }
    loop
        invariant
            g.wf(),
            n == g.states.len(),
            a@.len() == n,
            b@.len() == n,
            current@.len() == n,
            subset(current@, step_of(*g, all, a@, b@, current@)),
            forall|x: Seq<bool>|
                x.len() == g.states.len() && #[trigger] subset(step_of(*g, all, a@, b@, x), x) ==> subset(current@, x),
        decreases n - count_true(current@),
    {
        let next = step_vec(g, all, a, b, &current);
        if same_bits(&next, &current) {
            return current;
        }
        proof {
            lemma_count_true_subset(current@, next@);
            lemma_step_monotone(*g, all, a@, b@, current@, next@);
            crate::graph::lemma_count_true_bound(next@);
            assert forall|x: Seq<bool>|
                x.len() == g.states.len() && #[trigger] subset(step_of(*g, all, a@, b@, x), x) implies subset(next@, x) by {
                lemma_step_monotone(*g, all, a@, b@, current@, x);
            }
        }
        current = next;
    }
}

/// The greatest fixpoint of `x ↦ a ∨ (b ∧ pre(x))`, by iteration from the
/// full set.
pub fn greatest_fixpoint<S>(g: &ReachableGraph<S>, all: bool, a: &Vec<bool>, b: &Vec<bool>) -> (r: Vec<bool>)
    requires
        g.wf(),
        a@.len() == g.states.len(),
        b@.len() == g.states.len(),
    ensures
        is_gfp(*g, all, a@, b@, r@),
{
    let n = g.states.len();
    let mut current = crate::graph::all_true(n);
    proof {
        assert(subset(step_of(*g, all, a@, b@, current@), current@));
        crate::graph::lemma_count_true_bound(current@);
    }
    loop
        invariant
            g.wf(),
            n == g.states.len(),
            a@.len() == n,
            b@.len() == n,
            current@.len() == n,
            subset(step_of(*g, all, a@, b@, current@), current@),
            forall|x: Seq<bool>|
                x.len() == g.states.len() && #[trigger] subset(x, step_of(*g, all, a@, b@, x)) ==> subset(x, current@),
        decreases count_true(current@),
    {
        let next = step_vec(g, all, a, b, &current);
        if same_bits(&next, &current) {
            return current;
        }
        proof {
            lemma_count_true_subset(next@, current@);
            lemma_step_monotone(*g, all, a@, b@, next@, current@);
            crate::graph::lemma_count_true_bound(next@);
            assert forall|x: Seq<bool>|
                x.len() == g.states.len() && #[trigger] subset(x, step_of(*g, all, a@, b@, x)) implies subset(x, next@) by {
                lemma_step_monotone(*g, all, a@, b@, x, current@);
            }
        }
        current = next;
    }
}

} // verus!
