//! Strongly connected components of materialized graphs and recurrent
//! (lasso) witnesses built from them.
use crate::checker::TraceStep;
use crate::graph::{
    everything, is_walk, reachable_from, reachable_set, shortest_path, trace_spells, GraphCaptureError,
    ReachableGraph,
};
use crate::state::StateValue;
use vstd::prelude::*;

verus! {

/// `v` is reachable from `u` (every node reaches itself).
pub open spec fn reaches<S>(graph: ReachableGraph<S>, u: int, v: int) -> bool {
    reachable_from(graph, seq![u as usize], v, everything(graph.states@.len()))
}

/// `u` and `v` reach each other: they lie in one strongly connected component.
pub open spec fn mutual<S>(graph: ReachableGraph<S>, u: int, v: int) -> bool {
    reaches(graph, u, v) && reaches(graph, v, u)
}

pub proof fn lemma_reaches_refl<S>(graph: ReachableGraph<S>, u: int)
    requires
        graph.wf(),
        0 <= u < graph.states.len(),
    ensures
        reaches(graph, u, u),
{
    let p = seq![u];
    assert(seq![u as usize].contains(p[0] as usize)) by {
        assert(seq![u as usize][0] == u as usize);
    }
    assert(is_walk(graph, p, everything(graph.states@.len())));
}

pub proof fn lemma_reaches_trans<S>(graph: ReachableGraph<S>, u: int, w: int, v: int)
    requires
        graph.wf(),
        reaches(graph, u, w),
        reaches(graph, w, v),
    ensures
        reaches(graph, u, v),
{
    let m = everything(graph.states@.len());
    let p1 = choose|p: Seq<int>| #[trigger] is_walk(graph, p, m) && seq![u as usize].contains(p[0] as usize) && p.last() == w;
    let p2 = choose|p: Seq<int>| #[trigger] is_walk(graph, p, m) && seq![w as usize].contains(p[0] as usize) && p.last() == v;
    assert(seq![w as usize][0] == w as usize);
    assert(p2[0] as usize == w as usize);
    let p = p1 + p2.drop_first();
    assert forall|i: int| 0 <= i < p.len() implies 0 <= #[trigger] p[i] < graph.states.len() && m[p[i]] by {
        if i >= p1.len() {
            assert(p[i] == p2[i - p1.len() + 1]);
        }
    }
    assert forall|i: int| 0 <= i < p.len() - 1 implies graph.step(#[trigger] p[i], p[i + 1]) by {
        if i < p1.len() - 1 {
            assert(p[i] == p1[i] && p[i + 1] == p1[i + 1]);
        } else if i == p1.len() - 1 {
            assert(p[i] == w);
            assert(p[i + 1] == p2[1]);
            assert(p2[0] == w) by {
                assert(0 <= p2[0] < graph.states.len());
            }
            assert(graph.step(p2[0], p2[1]));
        } else {
            assert(p[i] == p2[i - p1.len() + 1] && p[i + 1] == p2[i - p1.len() + 2]);
            assert(graph.step(p2[i - p1.len() + 1], p2[i - p1.len() + 2]));
        }
    }
    assert(is_walk(graph, p, m));
    assert(p[0] == p1[0]);
    if p2.len() > 1 {
        assert(p.last() == p2.last());
    } else {
        assert(p =~= p1);
        assert(p2[0] == w) by {
            assert(0 <= p2[0] < graph.states.len());
        }
    }
}

/// Some component holds `v`.
pub open spec fn covered(comps: Seq<Vec<usize>>, v: int) -> bool {
    exists|c: int, i: int| 0 <= c < comps.len() && 0 <= i < comps[c].len() && comps[c]@[i] == v
}

/// `comps` are the strongly connected components of `graph`: they partition
/// the nodes, each lists its members in increasing order, two nodes share a
/// component exactly when they reach each other, and components are ordered
/// by their least member.
pub open spec fn is_scc_partition<S>(graph: ReachableGraph<S>, comps: Seq<Vec<usize>>) -> bool {
    &&& forall|c: int| 0 <= c < comps.len() ==> (#[trigger] comps[c]).len() > 0
    &&& forall|c: int, i: int|
        0 <= c < comps.len() && 0 <= i < comps[c].len() ==> (#[trigger] comps[c]@[i]) < graph.states.len()
    &&& forall|c: int, i: int, j: int|
        0 <= c < comps.len() && 0 <= i < j < comps[c].len() ==> (#[trigger] comps[c]@[i]) < (
        #[trigger] comps[c]@[j])
    &&& forall|c: int, i: int, j: int|
        0 <= c < comps.len() && 0 <= i < comps[c].len() && 0 <= j < comps[c].len() ==> mutual(
            graph,
            #[trigger] comps[c]@[i] as int,
            #[trigger] comps[c]@[j] as int,
        )
    &&& forall|c1: int, c2: int, i: int, j: int|
        0 <= c1 < comps.len() && 0 <= c2 < comps.len() && c1 != c2 && 0 <= i < comps[c1].len() && 0
            <= j < comps[c2].len() ==> !mutual(
            graph,
            #[trigger] comps[c1]@[i] as int,
            #[trigger] comps[c2]@[j] as int,
        )
    &&& forall|v: int| 0 <= v < graph.states.len() ==> #[trigger] covered(comps, v)
    &&& forall|c1: int, c2: int|
        0 <= c1 < c2 < comps.len() ==> (#[trigger] comps[c1])@[0] < (#[trigger] comps[c2])@[0]
}

/// No earlier node shares a component with `u`.
spec fn is_root<S>(graph: ReachableGraph<S>, u: int) -> bool {
    forall|w: int| 0 <= w < u ==> !#[trigger] mutual(graph, w, u)
}

/// The strongly connected components of `graph`, as sorted member lists
/// ordered by least member.
pub fn strongly_connected_components<S>(graph: &ReachableGraph<S>) -> (comps: Vec<Vec<usize>>)
    requires
        graph.wf(),
    ensures
        is_scc_partition(*graph, comps@),
{
    let n = graph.states.len();
    let all = crate::graph::all_true(n);
    let mut reach: Vec<Vec<bool>> = Vec::new();
    let mut u: usize = 0;
    while u < n
        invariant
            graph.wf(),
            n == graph.states.len(),
            all@ == everything(n as nat),
            u <= n,
            reach.len() == u,
            forall|a: int| 0 <= a < u ==> (#[trigger] reach@[a]).len() == n,
            forall|a: int, b: int|
                0 <= a < u && 0 <= b < n ==> (#[trigger] reach@[a]@[b]) == reaches(*graph, a, b),
        decreases n - u,
    {
        let starts: Vec<usize> = vec![u];
        assert(starts@ =~= seq![u]);
        let row = reachable_set(graph, starts.as_slice(), all.as_slice());
        reach.push(row);
        proof {
            assert forall|b: int| 0 <= b < n implies (#[trigger] reach@[u as int]@[b]) == reaches(*graph, u as int, b) by {
                assert(seq![u as usize] == seq![(u as int) as usize]);
            }
        }
        u += 1;
    }
    let mut comps: Vec<Vec<usize>> = Vec::new();
    let mut u: usize = 0;
    while u < n
        invariant
            graph.wf(),
            n == graph.states.len(),
            u <= n,
            reach.len() == n,
            forall|a: int| 0 <= a < n ==> (#[trigger] reach@[a]).len() == n,
            forall|a: int, b: int|
                0 <= a < n && 0 <= b < n ==> (#[trigger] reach@[a]@[b]) == reaches(*graph, a, b),
            forall|c: int| 0 <= c < comps.len() ==> (#[trigger] comps@[c]).len() > 0,
            forall|c: int| 0 <= c < comps.len() ==> (#[trigger] comps@[c])@[0] < u && is_root(*graph, comps@[c]@[0] as int),
            forall|c: int, i: int|
                0 <= c < comps.len() && 0 <= i < comps@[c].len() ==> (#[trigger] comps@[c]@[i]) < n
                    && comps@[c]@[0] <= comps@[c]@[i] && mutual(*graph, comps@[c]@[0] as int, comps@[c]@[i] as int),
            forall|c: int, v: int|
                0 <= c < comps.len() && comps@[c]@[0] <= v < n && mutual(*graph, comps@[c]@[0] as int, v) ==> #[trigger] comps@[c]@.contains(v as usize),
            forall|c: int, i: int, j: int|
                0 <= c < comps.len() && 0 <= i < j < comps@[c].len() ==> (#[trigger] comps@[c]@[i]) < (
                #[trigger] comps@[c]@[j]),
            forall|c1: int, c2: int|
                0 <= c1 < c2 < comps.len() ==> (#[trigger] comps@[c1])@[0] < (#[trigger] comps@[c2])@[0],
            forall|v: int| 0 <= v < n && (exists|w: int| 0 <= w < u && #[trigger] mutual(*graph, w, v)) ==> #[trigger] covered(comps@, v),
        decreases n - u,
    {
        let mut root = true;
        let mut w: usize = 0;
        while w < u
            invariant
                u < n,
                n == graph.states.len(),
                reach.len() == n,
                forall|a: int| 0 <= a < n ==> (#[trigger] reach@[a]).len() == n,
                forall|a: int, b: int|
                    0 <= a < n && 0 <= b < n ==> (#[trigger] reach@[a]@[b]) == reaches(*graph, a, b),
                w <= u,
                root == forall|x: int| 0 <= x < w ==> !#[trigger] mutual(*graph, x, u as int),
            decreases u - w,
        {
            if reach[w][u] && reach[u][w] {
                root = false;
                assert(mutual(*graph, w as int, u as int));
            } else {
                assert(!mutual(*graph, w as int, u as int));
            }
            w += 1;
        }
        if root {
            let mut comp: Vec<usize> = Vec::new();
            let mut v: usize = u;
            while v < n
                invariant
                    graph.wf(),
                    u < n,
                    n == graph.states.len(),
                    reach.len() == n,
                    forall|a: int| 0 <= a < n ==> (#[trigger] reach@[a]).len() == n,
                    forall|a: int, b: int|
                        0 <= a < n && 0 <= b < n ==> (#[trigger] reach@[a]@[b]) == reaches(*graph, a, b),
                    u <= v <= n,
                    forall|i: int| 0 <= i < comp.len() ==> u <= #[trigger] comp@[i] < v && mutual(*graph, u as int, comp@[i] as int),
                    forall|i: int, j: int| 0 <= i < j < comp.len() ==> (#[trigger] comp@[i]) < (#[trigger] comp@[j]),
                    forall|x: int| u <= x < v && mutual(*graph, u as int, x) ==> #[trigger] comp@.contains(x as usize),
                    v > u ==> comp.len() > 0 && comp@[0] == u,
                decreases n - v,
            {
                if reach[u][v] && reach[v][u] {
                    let ghost old_comp = comp@;
                    comp.push(v);
                    proof {
                        assert(comp@[comp.len() - 1] == v);
                        assert forall|x: int| u <= x < v + 1 && mutual(*graph, u as int, x) implies #[trigger] comp@.contains(x as usize) by {
                            if x < v {
                                assert(old_comp.contains(x as usize));
                                let i = choose|i: int| 0 <= i < old_comp.len() && old_comp[i] == x as usize;
                                assert(comp@[i] == x as usize);
                            }
                        }
                    }
                } else {
                    proof {
                        if v == u {
                            lemma_reaches_refl(*graph, u as int);
                        }
                    }
                }
                v += 1;
            }
            let ghost before = comps@;
            comps.push(comp);
            proof {
                lemma_root_component_facts(*graph, before, comps@, u as int);
            }
        } else {
            proof {
                lemma_nonroot_covered(*graph, comps@, u as int);
            }
        }
        u += 1;
    }
    proof {
        lemma_scc_final(*graph, comps@);
    }
    comps
}

proof fn lemma_root_component_facts<S>(graph: ReachableGraph<S>, before: Seq<Vec<usize>>, comps: Seq<Vec<usize>>, u: int)
    requires
        graph.wf(),
        0 <= u < graph.states.len(),
        comps.len() == before.len() + 1,
        forall|c: int| 0 <= c < before.len() ==> #[trigger] comps[c] == before[c],
        is_root(graph, u),
        comps.last().len() > 0,
        comps.last()@[0] == u,
        forall|c: int| 0 <= c < before.len() ==> (#[trigger] before[c])@[0] < u,
        forall|v: int| 0 <= v < graph.states.len() && (exists|w: int| 0 <= w < u && #[trigger] mutual(graph, w, v)) ==> #[trigger] covered(before, v),
        forall|x: int| u <= x < graph.states.len() && mutual(graph, u, x) ==> #[trigger] comps.last()@.contains(x as usize),
    ensures
        forall|v: int| 0 <= v < graph.states.len() && (exists|w: int| 0 <= w < u + 1 && #[trigger] mutual(graph, w, v)) ==> #[trigger] covered(comps, v),
{
    assert forall|v: int| 0 <= v < graph.states.len() && (exists|w: int| 0 <= w < u + 1 && #[trigger] mutual(graph, w, v)) implies #[trigger] covered(comps, v) by {
        let w = choose|w: int| 0 <= w < u + 1 && #[trigger] mutual(graph, w, v);
        if w < u {
            assert(covered(before, v));
            let (c, i) = choose|c: int, i: int| 0 <= c < before.len() && 0 <= i < before[c].len() && before[c]@[i] == v;
            assert(comps[c] == before[c]);
        } else {
            if v < u {
                lemma_reaches_trans(graph, v, u, v);
                assert(mutual(graph, v, u));
                assert(!mutual(graph, v, u));
            }
            assert(comps.last()@.contains(v as usize));
            let i = choose|i: int| 0 <= i < comps.last().len() && comps.last()@[i] == v as usize;
            assert(comps[comps.len() - 1]@[i] == v);
        }
    }
}

proof fn lemma_nonroot_covered<S>(graph: ReachableGraph<S>, comps: Seq<Vec<usize>>, u: int)
    requires
        graph.wf(),
        0 <= u < graph.states.len(),
        !is_root(graph, u),
        forall|v: int| 0 <= v < graph.states.len() && (exists|w: int| 0 <= w < u && #[trigger] mutual(graph, w, v)) ==> #[trigger] covered(comps, v),
    ensures
        forall|v: int| 0 <= v < graph.states.len() && (exists|w: int| 0 <= w < u + 1 && #[trigger] mutual(graph, w, v)) ==> #[trigger] covered(comps, v),
{
    let x = choose|x: int| 0 <= x < u && #[trigger] mutual(graph, x, u);
    assert forall|v: int| 0 <= v < graph.states.len() && (exists|w: int| 0 <= w < u + 1 && #[trigger] mutual(graph, w, v)) implies #[trigger] covered(comps, v) by {
        let w = choose|w: int| 0 <= w < u + 1 && #[trigger] mutual(graph, w, v);
        if w == u {
            lemma_reaches_trans(graph, x, u, v);
            lemma_reaches_trans(graph, v, u, x);
            assert(mutual(graph, x, v));
        }
    }
}

proof fn lemma_scc_final<S>(graph: ReachableGraph<S>, comps: Seq<Vec<usize>>)
    requires
        graph.wf(),
        forall|c: int| 0 <= c < comps.len() ==> (#[trigger] comps[c]).len() > 0,
        forall|c: int| 0 <= c < comps.len() ==> is_root(graph, (#[trigger] comps[c])@[0] as int),
        forall|c: int, i: int|
            0 <= c < comps.len() && 0 <= i < comps[c].len() ==> (#[trigger] comps[c]@[i]) < graph.states.len()
                && comps[c]@[0] <= comps[c]@[i] && mutual(graph, comps[c]@[0] as int, comps[c]@[i] as int),
        forall|c: int, i: int, j: int|
            0 <= c < comps.len() && 0 <= i < j < comps[c].len() ==> (#[trigger] comps[c]@[i]) < (
            #[trigger] comps[c]@[j]),
        forall|c1: int, c2: int|
            0 <= c1 < c2 < comps.len() ==> (#[trigger] comps[c1])@[0] < (#[trigger] comps[c2])@[0],
        forall|v: int| 0 <= v < graph.states.len() && (exists|w: int| 0 <= w < graph.states.len() && #[trigger] mutual(graph, w, v)) ==> #[trigger] covered(comps, v),
    ensures
        is_scc_partition(graph, comps),
{
    assert forall|c: int, i: int, j: int|
        0 <= c < comps.len() && 0 <= i < comps[c].len() && 0 <= j < comps[c].len() implies mutual(
            graph,
            #[trigger] comps[c]@[i] as int,
            #[trigger] comps[c]@[j] as int,
        ) by {
        let r = comps[c]@[0] as int;
        assert(mutual(graph, r, comps[c]@[i] as int));
        assert(mutual(graph, r, comps[c]@[j] as int));
        lemma_reaches_trans(graph, comps[c]@[i] as int, r, comps[c]@[j] as int);
        lemma_reaches_trans(graph, comps[c]@[j] as int, r, comps[c]@[i] as int);
    }
    assert forall|c1: int, c2: int, i: int, j: int|
        0 <= c1 < comps.len() && 0 <= c2 < comps.len() && c1 != c2 && 0 <= i < comps[c1].len() && 0
            <= j < comps[c2].len() implies !mutual(
            graph,
            #[trigger] comps[c1]@[i] as int,
            #[trigger] comps[c2]@[j] as int,
        ) by {
        let a = comps[c1]@[i] as int;
        let b = comps[c2]@[j] as int;
        let r1 = comps[c1]@[0] as int;
        let r2 = comps[c2]@[0] as int;
        if mutual(graph, a, b) {
            assert(mutual(graph, r1, a));
            assert(mutual(graph, r2, b));
            lemma_reaches_trans(graph, r1, a, b);
            lemma_reaches_trans(graph, r1, b, r2);
            lemma_reaches_trans(graph, r2, b, a);
            lemma_reaches_trans(graph, r2, a, r1);
            assert(mutual(graph, r1, r2));
            if c1 < c2 {
                assert(r1 < r2);
                assert(!mutual(graph, r1, r2));
            } else {
                assert(r2 < r1);
                lemma_reaches_trans(graph, r2, r1, r2);
                assert(!mutual(graph, r2, r1));
            }
        }
    }
    assert forall|v: int| 0 <= v < graph.states.len() implies #[trigger] covered(comps, v) by {
        lemma_reaches_refl(graph, v);
        assert(mutual(graph, v, v));
    }
}

#[derive(Debug, Clone, PartialEq, Eq)]
pub enum RecurrenceError {
    Graph(GraphCaptureError),
    CycleWitnessMissing,
}

/// What a graph-capture failure's message says.
pub open spec fn capture_error_text(e: GraphCaptureError) -> Seq<char> {
    match e {
        GraphCaptureError::Model(m) => crate::model::model_error_text(m),
        GraphCaptureError::UnexpectedInconclusive => "exhaustive capture stopped early"@,
        GraphCaptureError::SnapshotTargetMissing => "captured edge target is missing"@,
    }
}

/// What a recurrence failure's message says.
pub open spec fn recurrence_error_text(e: RecurrenceError) -> Seq<char> {
    match e {
        RecurrenceError::Graph(g) => "reachable-graph capture failed: "@ + capture_error_text(g),
        RecurrenceError::CycleWitnessMissing => "cyclic component did not yield a closed witness"@,
    }
}

impl RecurrenceError {
    pub fn message(&self) -> (text: String)
        ensures
            text@ == recurrence_error_text(*self),
    {
        let mut out = String::new();
        match self {
            RecurrenceError::Graph(e) => {
                crate::text::append(&mut out, "reachable-graph capture failed: ");
                match e {
                    GraphCaptureError::Model(m) => {
                        let t = m.message();
                        crate::text::append(&mut out, t.as_str());
                    },
                    GraphCaptureError::UnexpectedInconclusive => crate::text::append(
                        &mut out,
                        "exhaustive capture stopped early",
                    ),
                    GraphCaptureError::SnapshotTargetMissing => crate::text::append(
                        &mut out,
                        "captured edge target is missing",
                    ),
                }
            },
            RecurrenceError::CycleWitnessMissing => crate::text::append(
                &mut out,
                "cyclic component did not yield a closed witness",
            ),
        }
        assert(out@ =~= recurrence_error_text(*self));
        out
    }
}

/// A closed recurrent walk through one component, with a stem reaching it.
#[derive(Debug, Clone, PartialEq, Eq)]
pub struct CycleWitness<S> {
    pub component_index: usize,
    pub stem: Vec<TraceStep<S>>,
    pub cycle: Vec<TraceStep<S>>,
}

/// A component is cyclic when it has two or more members, or its single
/// member has a self-loop.
pub open spec fn cyclic<S>(graph: ReachableGraph<S>, component: Seq<usize>) -> bool {
    component.len() > 1 || (component.len() == 1 && graph.step(component[0] as int, component[0] as int))
}

pub fn component_is_cyclic<S>(graph: &ReachableGraph<S>, component: &[usize]) -> (r: bool)
    requires
        graph.wf(),
        forall|i: int| 0 <= i < component@.len() ==> #[trigger] component@[i] < graph.states.len(),
    ensures
        r == cyclic(*graph, component@),
{
    if component.len() > 1 {
        return true;
    }
    if component.len() == 0 {
        return false;
    }
    let v = component[0];
    let edges = &graph.outgoing[v];
    let mut k: usize = 0;
    while k < edges.len()
        invariant
            v < graph.states.len(),
            graph.wf(),
            component@.len() == 1,
            component@[0] == v,
            edges@ == graph.outgoing@[v as int]@,
            k <= edges.len(),
            forall|j: int| 0 <= j < k ==> (#[trigger] edges@[j]).target != v,
        decreases edges.len() - k,
    {
        if edges[k].target == v {
            assert(graph.outgoing@[v as int]@[k as int].target == v);
            return true;
        }
        k += 1;
    }
    false
}

/// `trace` spells a walk of `graph` through `mask` from `from` to `to`.
pub open spec fn spells_walk<S: View>(
    graph: ReachableGraph<S>,
    trace: Seq<TraceStep<S>>,
    mask: Seq<bool>,
    from: int,
    to: int,
) -> bool {
    exists|p: Seq<int>|
        #[trigger] is_walk(graph, p, mask) && p[0] == from && p.last() == to && trace_spells(graph, trace, p)
}

/// The membership mask of `component` over `n` nodes.
pub open spec fn member_mask(component: Seq<usize>, n: nat) -> Seq<bool> {
    Seq::new(n, |v: int| component.contains(v as usize))
}

pub(crate) fn members_of(component: &[usize], n: usize) -> (mask: Vec<bool>)
    ensures
        mask@ == member_mask(component@, n as nat),
{
    let mut mask: Vec<bool> = Vec::new();
    let mut v: usize = 0;
    while v < n
        invariant
            v <= n,
            mask.len() == v,
            forall|x: int| 0 <= x < v ==> #[trigger] mask@[x] == component@.contains(x as usize),
        decreases n - v,
    {
        let mut found = false;
        let mut i: usize = 0;
        while i < component.len()
            invariant
                i <= component.len(),
                found == exists|j: int| 0 <= j < i && component@[j] == v,
            decreases component.len() - i,
        {
            if component[i] == v {
                found = true;
            }
            i += 1;
        }
        mask.push(found);
        v += 1;
    }
    assert(mask@ =~= member_mask(component@, n as nat));
    mask
}

pub(crate) proof fn lemma_spells_concat<S: View>(
    graph: ReachableGraph<S>,
    t1: Seq<TraceStep<S>>,
    t2: Seq<TraceStep<S>>,
    mask: Seq<bool>,
    a: int,
    b: int,
    c: int,
)
    requires
        spells_walk(graph, t1, mask, a, b),
        spells_walk(graph, t2, mask, b, c),
    ensures
        spells_walk(graph, t1 + t2.subrange(1, t2.len() as int), mask, a, c),
{
    let p1 = choose|p: Seq<int>| #[trigger] is_walk(graph, p, mask) && p[0] == a && p.last() == b && trace_spells(graph, t1, p);
    let p2 = choose|p: Seq<int>| #[trigger] is_walk(graph, p, mask) && p[0] == b && p.last() == c && trace_spells(graph, t2, p);
    let p = p1 + p2.subrange(1, p2.len() as int);
    let t = t1 + t2.subrange(1, t2.len() as int);
    assert forall|i: int| 0 <= i < p.len() implies 0 <= #[trigger] p[i] < graph.states.len() && mask[p[i]] by {
        if i >= p1.len() {
            assert(p[i] == p2[i - p1.len() + 1]);
        }
    }
    assert forall|i: int| 0 <= i < p.len() - 1 implies graph.step(#[trigger] p[i], p[i + 1]) by {
        if i < p1.len() - 1 {
            assert(p[i] == p1[i] && p[i + 1] == p1[i + 1]);
        } else if i == p1.len() - 1 {
            assert(p[i + 1] == p2[1]);
            assert(graph.step(p2[0], p2[1]));
        } else {
            assert(p[i] == p2[i - p1.len() + 1] && p[i + 1] == p2[i - p1.len() + 2]);
            assert(graph.step(p2[i - p1.len() + 1], p2[i - p1.len() + 2]));
        }
    }
    assert forall|i: int| 0 <= i < t.len() implies (#[trigger] t[i]).state@ == graph.states@[p[i]]@ by {
        if i >= t1.len() {
            assert(t[i] == t2[i - t1.len() + 1]);
            assert(p[i] == p2[i - p1.len() + 1]);
        }
    }
    assert forall|i: int| 0 < i < t.len() implies (#[trigger] t[i]).action is Some && graph.edge(
        p[i - 1],
        t[i].action->0@,
        p[i],
    ) by {
        if i < t1.len() {
            assert(t[i] == t1[i]);
        } else if i == t1.len() {
            assert(t[i] == t2[1]);
            assert(p[i - 1] == b);
            assert(p[i] == p2[1]);
        } else {
            assert(t[i] == t2[i - t1.len() + 1]);
            assert(p[i] == p2[i - p1.len() + 1] && p[i - 1] == p2[i - p1.len()]);
        }
    }
    assert(is_walk(graph, p, mask));
    if p2.len() == 1 {
        assert(p =~= p1);
    } else {
        assert(p.last() == p2.last());
    }
    assert(trace_spells(graph, t, p));
}

/// Two traces agree step by step on actions and state views.
pub open spec fn same_steps<S: View>(a: Seq<TraceStep<S>>, b: Seq<TraceStep<S>>) -> bool {
    &&& a.len() == b.len()
    &&& forall|k: int| 0 <= k < a.len() ==> (#[trigger] a[k]).action == b[k].action && a[k].state@ == b[k].state@
}

pub proof fn lemma_same_steps_spells<S: View>(
    graph: ReachableGraph<S>,
    a: Seq<TraceStep<S>>,
    b: Seq<TraceStep<S>>,
    mask: Seq<bool>,
    from: int,
    to: int,
)
    requires
        spells_walk(graph, a, mask, from, to),
        same_steps(b, a),
    ensures
        spells_walk(graph, b, mask, from, to),
{
    let p = choose|p: Seq<int>| #[trigger] is_walk(graph, p, mask) && p[0] == from && p.last() == to && trace_spells(graph, a, p);
    assert forall|i: int| 0 <= i < b.len() implies (#[trigger] b[i]).state@ == graph.states@[p[i]]@ by {
        assert(a[i].state@ == graph.states@[p[i]]@);
    }
    assert forall|i: int| 0 < i < b.len() implies (#[trigger] b[i]).action is Some && graph.edge(p[i - 1], b[i].action->0@, p[i]) by {
        assert(a[i].action is Some);
    }
    if b.len() > 0 {
        assert(a[0].action is None);
    }
    assert(trace_spells(graph, b, p));
}

/// Extend `trace`, which ends at `from`, with a shortest path to `to` that
/// stays inside `members`.
pub(crate) fn append_path<S: StateValue>(
    graph: &ReachableGraph<S>,
    members: &[bool],
    from: usize,
    to: usize,
    trace: &mut Vec<TraceStep<S>>,
    Ghost(start): Ghost<int>,
) -> (r: Result<(), RecurrenceError>)
    requires
        graph.wf(),
        members@.len() == graph.states.len(),
        from < graph.states.len(),
        spells_walk(*graph, old(trace)@, members@, start, from as int),
    ensures
        r is Ok ==> spells_walk(*graph, final(trace)@, members@, start, to as int),
        r is Ok ==> final(trace)@.len() >= old(trace)@.len(),
        r is Ok ==> final(trace)@.subrange(0, old(trace)@.len() as int) == old(trace)@,
        r is Err ==> !reachable_from(*graph, seq![from], to as int, members@),
        r matches Err(e) ==> e is CycleWitnessMissing,
{
    if from == to {
        return Ok(());
    }
    let starts: Vec<usize> = vec![from];
    assert(starts@ =~= seq![from]);
    match shortest_path(graph, starts.as_slice(), to, Some(members)) {
        Some(path) => {
            let ghost before = trace@;
            proof {
                let p = choose|p: Seq<int>| #[trigger] is_walk(*graph, p, members@) && starts@.contains(p[0] as usize) && p.last() == to && trace_spells(*graph, path@, p);
                assert(starts@[0] == from);
                assert(p[0] == from as int);
                assert(spells_walk(*graph, path@, members@, from as int, to as int));
                lemma_spells_concat(*graph, before, path@, members@, start, from as int, to as int);
            }
            let mut i: usize = 1;
            while i < path.len()
                invariant
                    1 <= i <= path.len(),
                    same_steps(trace@, before + path@.subrange(1, i as int)),
                    trace@.len() >= before.len(),
                    trace@.subrange(0, before.len() as int) == before,
                decreases path.len() - i,
            {
                let step = &path[i];
                let ghost prev = trace@;
                trace.push(TraceStep { action: step.action.clone(), state: step.state.copy_value() });
                proof {
                    let target = before + path@.subrange(1, i + 1);
                    assert forall|k: int| 0 <= k < trace@.len() implies (#[trigger] trace@[k]).action == target[k].action
                        && trace@[k].state@ == target[k].state@ by {
                        if k < prev.len() {
                            assert(trace@[k] == prev[k]);
                            assert(target[k] == (before + path@.subrange(1, i as int))[k]);
                        }
                    }
                }
                i += 1;
            }
            proof {
                assert(path@.subrange(1, i as int) =~= path@.subrange(1, path@.len() as int));
                lemma_same_steps_spells(*graph, before + path@.subrange(1, path@.len() as int), trace@, members@, start, to as int);
            }
            Ok(())
        },
        None => Err(RecurrenceError::CycleWitnessMissing),
    }
}

/// `component` is a whole strongly connected component: its members reach
/// each other and every node that shares a component with its entry is a
/// member.
pub open spec fn whole_component<S>(graph: ReachableGraph<S>, component: Seq<usize>) -> bool {
    &&& component.len() > 0
    &&& forall|i: int| 0 <= i < component.len() ==> #[trigger] component[i] < graph.states.len()
    &&& forall|i: int, j: int| 0 <= i < j < component.len() ==> #[trigger] component[i] != #[trigger] component[j]
    &&& forall|i: int|
        0 <= i < component.len() ==> mutual(graph, component[0] as int, #[trigger] component[i] as int)
    &&& forall|v: int|
        0 <= v < graph.states.len() && mutual(graph, component[0] as int, v) ==> #[trigger] component.contains(v as usize)
}

proof fn lemma_subwalk<S>(graph: ReachableGraph<S>, p: Seq<int>, i: int, j: int)
    requires
        is_walk(graph, p, everything(graph.states@.len())),
        0 <= i <= j < p.len(),
    ensures
        reaches(graph, p[i], p[j]),
{
    let q = p.subrange(i, j + 1);
    let m = everything(graph.states@.len());
    assert forall|k: int| 0 <= k < q.len() implies 0 <= #[trigger] q[k] < graph.states.len() && m[q[k]] by {
        assert(q[k] == p[i + k]);
    }
    assert forall|k: int| 0 <= k < q.len() - 1 implies graph.step(#[trigger] q[k], q[k + 1]) by {
        assert(q[k] == p[i + k] && q[k + 1] == p[i + k + 1]);
    }
    assert(is_walk(graph, q, m));
    assert(seq![p[i] as usize][0] == q[0] as usize);
}

/// A walk between two members of a whole component stays inside it.
pub proof fn lemma_walk_within<S>(graph: ReachableGraph<S>, component: Seq<usize>, p: Seq<int>)
    requires
        graph.wf(),
        whole_component(graph, component),
        is_walk(graph, p, everything(graph.states@.len())),
        component.contains(p[0] as usize),
        component.contains(p.last() as usize),
    ensures
        is_walk(graph, p, member_mask(component, graph.states@.len())),
{
    let e = component[0] as int;
    let a = component.index_of(p[0] as usize);
    let b = component.index_of(p.last() as usize);
    assert(mutual(graph, e, component[a] as int));
    assert(mutual(graph, e, component[b] as int));
    assert forall|k: int| 0 <= k < p.len() implies 0 <= #[trigger] p[k] < graph.states.len()
        && member_mask(component, graph.states@.len())[p[k]] by {
        lemma_subwalk(graph, p, 0, k);
        lemma_subwalk(graph, p, k, p.len() - 1);
        assert(component[a] as int == p[0]);
        assert(component[b] as int == p.last());
        lemma_reaches_trans(graph, e, p[0], p[k]);
        lemma_reaches_trans(graph, p[k], p.last(), e);
        assert(mutual(graph, e, p[k]));
        assert(component.contains(p[k] as usize));
    }
}

pub(crate) proof fn lemma_member_reach<S>(graph: ReachableGraph<S>, component: Seq<usize>, x: int, y: int)
    requires
        graph.wf(),
        whole_component(graph, component),
        component.contains(x as usize),
        component.contains(y as usize),
        0 <= x < graph.states.len(),
        0 <= y < graph.states.len(),
    ensures
        reachable_from(graph, seq![x as usize], y, member_mask(component, graph.states@.len())),
{
    let e = component[0] as int;
    let a = component.index_of(x as usize);
    let b = component.index_of(y as usize);
    assert(mutual(graph, e, component[a] as int));
    assert(mutual(graph, e, component[b] as int));
    lemma_reaches_trans(graph, x, e, y);
    let m = everything(graph.states@.len());
    let p = choose|p: Seq<int>| #[trigger] is_walk(graph, p, m) && seq![x as usize].contains(p[0] as usize) && p.last() == y;
    assert(seq![x as usize][0] == x as usize);
    assert(p[0] == x) by {
        assert(0 <= p[0] < graph.states.len());
    }
    lemma_walk_within(graph, component, p);
}

/// A closed recurrent walk through the component `component` (whose entry is
/// its first member), with a shortest stem from the graph's roots.
///
/// The cycle starts with the entry, takes the entry's first edge that stays
/// in the component, and returns to the entry along a shortest path inside
/// the component. `None` when the component is not cyclic.
pub fn cycle_witness<S: StateValue>(
    graph: &ReachableGraph<S>,
    component_index: usize,
    component: &[usize],
) -> (r: Result<Option<CycleWitness<S>>, RecurrenceError>)
    requires
        graph.wf(),
        whole_component(*graph, component@),
    ensures
        match r {
            Ok(None) => !cyclic(*graph, component@),
            Ok(Some(w)) => {
                &&& cyclic(*graph, component@)
                &&& w.component_index == component_index
                &&& w.cycle.len() >= 2
                &&& spells_walk(
                    *graph,
                    w.cycle@,
                    member_mask(component@, graph.states@.len()),
                    component@[0] as int,
                    component@[0] as int,
                )
                &&& exists|root: int|
                    #![trigger graph.initial_ids@[root]]
                    0 <= root < graph.initial_ids.len() && spells_walk(
                        *graph,
                        w.stem@,
                        everything(graph.states@.len()),
                        graph.initial_ids@[root] as int,
                        component@[0] as int,
                    )
            },
            Err(_) => cyclic(*graph, component@) && !reachable_from(
                *graph,
                graph.initial_ids@,
                component@[0] as int,
                everything(graph.states@.len()),
            ),
        },
{
    let n = graph.states.len();
    if !component_is_cyclic(graph, component) {
        return Ok(None);
    }
    let entry = component[0];
    let stem = match shortest_path(graph, graph.initial_ids.as_slice(), entry, None) {
        Some(t) => t,
        None => {
            return Err(RecurrenceError::CycleWitnessMissing);
        },
    };
    let members = members_of(component, n);
    let ghost mask = members@;
    // first edge from the entry that stays in the component
    let edges = &graph.outgoing[entry];
    let mut k: usize = 0;
    while k < edges.len() && !members[edges[k].target]
        invariant
            graph.wf(),
            entry < n,
            n == graph.states.len(),
            members@.len() == n,
            edges@ == graph.outgoing@[entry as int]@,
            k <= edges.len(),
            forall|j: int| 0 <= j < k ==> !members@[(#[trigger] edges@[j]).target as int],
        decreases edges.len() - k,
    {
        k += 1;
    }
    if k == edges.len() {
        proof {
            lemma_internal_edge_exists(*graph, component@);
            let j = choose|j: int| 0 <= j < graph.outgoing@[entry as int].len() && component@.contains((#[trigger] graph.outgoing@[entry as int]@[j]).target);
            assert(members@[edges@[j].target as int]);
        }
        return Err(RecurrenceError::CycleWitnessMissing);
    }
    let target = edges[k].target;
    let mut cycle: Vec<TraceStep<S>> = Vec::new();
    cycle.push(TraceStep { action: None, state: graph.states[entry].copy_value() });
    cycle.push(TraceStep { action: Some(edges[k].action.clone()), state: graph.states[target].copy_value() });
    proof {
        let p = seq![entry as int, target as int];
        assert(component@.contains(entry));
        assert(members@[entry as int]);
        assert(graph.step(entry as int, target as int)) by {
            let _ = graph.outgoing@[entry as int]@[k as int];
        }
        assert(is_walk(*graph, p, mask));
        assert(graph.edge(p[0], cycle@[1].action->0@, p[1])) by {
            let _ = graph.outgoing@[entry as int]@[k as int];
        }
        assert(trace_spells(*graph, cycle@, p));
        assert(spells_walk(*graph, cycle@, mask, entry as int, target as int));
    }
    match append_path(graph, members.as_slice(), target, entry, &mut cycle, Ghost(entry as int)) {
        Ok(()) => {},
        Err(e) => {
            proof {
                assert(component@.contains(target));
                assert(component@.contains(entry));
                lemma_member_reach(*graph, component@, target as int, entry as int);
            }
            return Err(e);
        },
    }
    proof {
        let p = choose|p: Seq<int>| #[trigger] is_walk(*graph, p, mask) && p[0] == entry && p.last() == entry && trace_spells(*graph, cycle@, p);
        let sp = choose|sp: Seq<int>| #[trigger] is_walk(*graph, sp, everything(graph.states@.len())) && graph.initial_ids@.contains(sp[0] as usize) && sp.last() == entry && trace_spells(*graph, stem@, sp);
        let root = graph.initial_ids@.index_of(sp[0] as usize);
        assert(spells_walk(*graph, stem@, everything(graph.states@.len()), graph.initial_ids@[root] as int, entry as int));
    }
    Ok(Some(CycleWitness { component_index, stem, cycle }))
}

pub(crate) proof fn lemma_internal_edge_exists<S>(graph: ReachableGraph<S>, component: Seq<usize>)
    requires
        graph.wf(),
        whole_component(graph, component),
        cyclic(graph, component),
    ensures
        exists|j: int|
            0 <= j < graph.outgoing@[component[0] as int].len() && component.contains(
                (#[trigger] graph.outgoing@[component[0] as int]@[j]).target,
            ),
{
    let e = component[0] as int;
    if component.len() == 1 {
        let j = choose|j: int| 0 <= j < graph.outgoing@[e].len() && (#[trigger] graph.outgoing@[e]@[j]).target == e;
        assert(component.contains(graph.outgoing@[e]@[j].target));
    } else {
        let other = component[1] as int;
        assert(mutual(graph, e, other));
        let m = everything(graph.states@.len());
        let p = choose|p: Seq<int>| #[trigger] is_walk(graph, p, m) && seq![e as usize].contains(p[0] as usize) && p.last() == other;
        assert(seq![e as usize][0] == e as usize);
        assert(p[0] == e) by {
            assert(0 <= p[0] < graph.states.len());
        }
        assert(component.contains(e as usize));
        assert(component.contains(other as usize));
        lemma_walk_within(graph, component, p);
        assert(other != e);
        assert(graph.step(p[0], p[1]));
        let j = choose|j: int| 0 <= j < graph.outgoing@[e].len() && (#[trigger] graph.outgoing@[e]@[j]).target == p[1];
        assert(member_mask(component, graph.states@.len())[p[1]]);
    }
}

/// Each member of an SCC partition is a whole component.
pub proof fn lemma_scc_whole<S>(graph: ReachableGraph<S>, comps: Seq<Vec<usize>>, c: int)
    requires
        graph.wf(),
        is_scc_partition(graph, comps),
        0 <= c < comps.len(),
    ensures
        whole_component(graph, comps[c]@),
{
    let comp = comps[c]@;
    assert(comps[c].len() > 0);
    assert forall|i: int| 0 <= i < comp.len() implies #[trigger] comp[i] < graph.states.len() by {
        assert(comps[c]@[i] < graph.states.len());
    }
    assert forall|i: int, j: int| 0 <= i < j < comp.len() implies #[trigger] comp[i] != #[trigger] comp[j] by {
        assert(comps[c]@[i] < comps[c]@[j]);
    }
    assert forall|i: int| 0 <= i < comp.len() implies mutual(graph, comp[0] as int, #[trigger] comp[i] as int) by {
        assert(mutual(graph, comps[c]@[0] as int, comps[c]@[i] as int));
    }
    assert forall|v: int| 0 <= v < graph.states.len() && mutual(graph, comp[0] as int, v) implies #[trigger] comp.contains(v as usize) by {
        assert(covered(comps, v));
        let (c2, j) = choose|c2: int, j: int| 0 <= c2 < comps.len() && 0 <= j < comps[c2].len() && comps[c2]@[j] == v;
        if c2 != c {
            assert(!mutual(graph, comps[c]@[0] as int, comps[c2]@[j] as int));
        }
        assert(comp[j] == v as usize);
    }
}

} // verus!
