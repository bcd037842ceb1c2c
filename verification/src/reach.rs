//! Breadth-first reachability over a flow graph, backward from one node and
//! forward from a set of nodes.

use vstd::prelude::*;
use std::collections::VecDeque;
use petgraph::graph::Graph;
use crate::pfg::DFGNode;
use crate::graph::{
    flow_graph_nodes, flow_graph_edges, flow_graph_node_count, flow_graph_incoming, flow_graph_outgoing,
    edges_valid, reaches, is_adjacent_edge_list, lemma_reaches_refl, lemma_reaches_step, lemma_reaches_trans,
    lemma_reaches_edge, lemma_backward_closed, lemma_forward_closed,
};

verus! {

/// The number of `false` entries.
pub open spec fn count_false(s: Seq<bool>) -> nat
    decreases s.len(),
{
    if s.len() == 0 {
        0
    } else {
        count_false(s.drop_last()) + if s.last() { 0nat } else { 1nat }
    }
}

proof fn lemma_count_false_bound(s: Seq<bool>)
    ensures
        count_false(s) <= s.len(),
    decreases s.len(),
{
    if s.len() > 0 {
        lemma_count_false_bound(s.drop_last());
    }
}

proof fn lemma_count_false_set(s: Seq<bool>, i: int)
    requires
        0 <= i < s.len(),
        !s[i],
    ensures
        count_false(s.update(i, true)) + 1 == count_false(s),
    decreases s.len(),
{
    let t = s.update(i, true);
    if i == s.len() - 1 {
        assert(t.drop_last() =~= s.drop_last());
    } else {
        assert(t.drop_last() =~= s.drop_last().update(i, true));
        lemma_count_false_set(s.drop_last(), i);
    }
}

/// The marked nodes, as a set.
pub open spec fn marked_set(marks: Seq<bool>) -> Set<usize> {
    Set::new(|v: usize| v < marks.len() && marks[v as int])
}

/// For every node `v`, whether `v` reaches `start`.
pub(crate) fn reach_backward(g: &Graph<DFGNode, ()>, start: usize) -> (marks: Vec<bool>)
    requires
        start < flow_graph_nodes(*g).len(),
        edges_valid(flow_graph_nodes(*g).len(), flow_graph_edges(*g)),
    ensures
        marks@.len() == flow_graph_nodes(*g).len(),
        forall|v: usize| v < marks@.len() ==> (#[trigger] marks@[v as int] <==> reaches(flow_graph_edges(*g), v, start)),
{
    let ghost edges = flow_graph_edges(*g);
    let n = flow_graph_node_count(g);
    let mut marks: Vec<bool> = Vec::new();
    let mut i: usize = 0;
    while i < n
        invariant
            0 <= i <= n,
            marks@.len() == i,
            forall|v: int| 0 <= v < i ==> !(#[trigger] marks@[v]),
        decreases n - i,
    {
        marks.push(false);
        i += 1;
    }
    let mut q: VecDeque<usize> = VecDeque::new();
    q.push_back(start);
    proof {
        lemma_reaches_refl(edges, start);
        assert(q@[0] == start);
    }
    while q.len() > 0
        invariant
            n == flow_graph_nodes(*g).len(),
            edges == flow_graph_edges(*g),
            edges_valid(n as nat, edges),
            start < n,
            marks@.len() == n,
            forall|k: int| 0 <= k < q@.len() ==> (#[trigger] q@[k]) < n && reaches(edges, q@[k], start),
            forall|v: int| 0 <= v < n && #[trigger] marks@[v] ==> reaches(edges, v as usize, start),
            marks@[start as int] || q@.contains(start),
            forall|e: int|
                0 <= e < edges.len() && marks@[(#[trigger] edges[e]).1 as int] ==> marks@[edges[e].0 as int]
                    || q@.contains(edges[e].0),
        decreases count_false(marks@), q@.len(),
    {
        let ghost q0 = q@;
        let v = q.pop_front().unwrap();
        assert(q0[0] == v);
        if marks[v] {
            assert forall|e: int|
                0 <= e < edges.len() && marks@[(#[trigger] edges[e]).1 as int] implies marks@[edges[e].0 as int]
                    || q@.contains(edges[e].0) by {
                if !marks@[edges[e].0 as int] {
                    let k = choose|k: int| 0 <= k < q0.len() && q0[k] == edges[e].0;
                    assert(k != 0);
                    assert(q@[k - 1] == q0[k]);
                }
            }
            assert(marks@[start as int] || q@.contains(start)) by {
                if !marks@[start as int] {
                    let k = choose|k: int| 0 <= k < q0.len() && q0[k] == start;
                    assert(k != 0);
                    assert(q@[k - 1] == q0[k]);
                }
            }
            assert forall|k: int| 0 <= k < q@.len() implies (#[trigger] q@[k]) < n && reaches(edges, q@[k], start) by {
                assert(q@[k] == q0[k + 1]);
            }
            continue;
        }
        proof {
            lemma_count_false_set(marks@, v as int);
        }
        marks.set(v, true);
        let preds = flow_graph_incoming(g, v);
        let ghost q1 = q@;
        let mut k: usize = 0;
        while k < preds.len()
            invariant
                n == flow_graph_nodes(*g).len(),
                edges == flow_graph_edges(*g),
                edges_valid(n as nat, edges),
                v < n,
                reaches(edges, v, start),
                is_adjacent_edge_list(edges, v, true, preds@),
                0 <= k <= preds.len(),
                q@.len() == q1.len() + k,
                forall|j: int| 0 <= j < q1.len() ==> q@[j] == q1[j],
                forall|j: int| 0 <= j < k ==> q@[q1.len() + j] == (#[trigger] preds@[j]).1,
                forall|j: int| 0 <= j < q@.len() ==> (#[trigger] q@[j]) < n && reaches(edges, q@[j], start),
            decreases preds.len() - k,
        {
            let (e, src, _dst) = preds[k];
            proof {
                lemma_reaches_edge(edges, e as int);
                lemma_reaches_trans(edges, src, v, start);
            }
            q.push_back(src);
            k += 1;
        }
        proof {
            assert forall|e: int|
                0 <= e < edges.len() && marks@[(#[trigger] edges[e]).1 as int] implies marks@[edges[e].0 as int]
                    || q@.contains(edges[e].0) by {
                if edges[e].1 == v {
                    let kk = choose|kk: int| 0 <= kk < preds@.len() && (#[trigger] preds@[kk]).0 == e;
                    assert(q@[q1.len() + kk] == edges[e].0);
                } else if !marks@[edges[e].0 as int] {
                    let kk = choose|kk: int| 0 <= kk < q0.len() && q0[kk] == edges[e].0;
                    if kk == 0 {
                        assert(edges[e].0 == v);
                    } else {
                        assert(q1[kk - 1] == q0[kk]);
                        assert(q@[kk - 1] == q0[kk]);
                    }
                }
            }
            if !marks@[start as int] {
                let kk = choose|kk: int| 0 <= kk < q0.len() && q0[kk] == start;
                assert(kk != 0);
                assert(q1[kk - 1] == q0[kk]);
                assert(q@[kk - 1] == q0[kk]);
            }
        }
    }
    proof {
        let s = marked_set(marks@);
        assert forall|e: int| 0 <= e < edges.len() && s.contains((#[trigger] edges[e]).1) implies s.contains(
            edges[e].0,
        ) by {
            assert(marks@[edges[e].1 as int]);
        }
        assert forall|v: usize| v < marks@.len() implies (#[trigger] marks@[v as int] <==> reaches(edges, v, start)) by {
            if reaches(edges, v, start) {
                lemma_backward_closed(edges, s, start, v);
            }
        }
    }
    marks
}

/// Some node of `sources` reaches `v`.
pub open spec fn reached_from(edges: Seq<(usize, usize)>, sources: Seq<usize>, v: usize) -> bool {
    exists|k: int| 0 <= k < sources.len() && reaches(edges, #[trigger] sources[k], v)
}

/// For every node `v`, whether some node of `sources` reaches it.
pub(crate) fn reach_forward(g: &Graph<DFGNode, ()>, sources: &Vec<usize>) -> (marks: Vec<bool>)
    requires
        forall|k: int| 0 <= k < sources@.len() ==> (#[trigger] sources@[k]) < flow_graph_nodes(*g).len(),
        edges_valid(flow_graph_nodes(*g).len(), flow_graph_edges(*g)),
    ensures
        marks@.len() == flow_graph_nodes(*g).len(),
        forall|v: usize|
            v < marks@.len() ==> (#[trigger] marks@[v as int] <==> reached_from(flow_graph_edges(*g), sources@, v)),
{
    let ghost edges = flow_graph_edges(*g);
    let n = flow_graph_node_count(g);
    let mut marks: Vec<bool> = Vec::new();
    let mut i: usize = 0;
    while i < n
        invariant
            0 <= i <= n,
            marks@.len() == i,
            forall|v: int| 0 <= v < i ==> !(#[trigger] marks@[v]),
        decreases n - i,
    {
        marks.push(false);
        i += 1;
    }
    let mut q: VecDeque<usize> = VecDeque::new();
    let mut i: usize = 0;
    while i < sources.len()
        invariant
            0 <= i <= sources.len(),
            q@ == sources@.subrange(0, i as int),
        decreases sources.len() - i,
    {
        q.push_back(sources[i]);
        i += 1;
    }
    proof {
        assert(q@ =~= sources@);
        assert forall|k: int| 0 <= k < q@.len() implies (#[trigger] q@[k]) < n && reached_from(edges, sources@, q@[k]) by {
            lemma_reaches_refl(edges, sources@[k]);
        }
    }
    while q.len() > 0
        invariant
            n == flow_graph_nodes(*g).len(),
            edges == flow_graph_edges(*g),
            edges_valid(n as nat, edges),
            marks@.len() == n,
            forall|k: int| 0 <= k < sources@.len() ==> (#[trigger] sources@[k]) < n,
            forall|k: int| 0 <= k < q@.len() ==> (#[trigger] q@[k]) < n && reached_from(edges, sources@, q@[k]),
            forall|v: int| 0 <= v < n && #[trigger] marks@[v] ==> reached_from(edges, sources@, v as usize),
            forall|k: int| 0 <= k < sources@.len() ==> marks@[(#[trigger] sources@[k]) as int] || q@.contains(sources@[k]),
            forall|e: int|
                0 <= e < edges.len() && marks@[(#[trigger] edges[e]).0 as int] ==> marks@[edges[e].1 as int]
                    || q@.contains(edges[e].1),
        decreases count_false(marks@), q@.len(),
    {
        let ghost q0 = q@;
        let v = q.pop_front().unwrap();
        assert(q0[0] == v);
        if marks[v] {
            assert forall|e: int|
                0 <= e < edges.len() && marks@[(#[trigger] edges[e]).0 as int] implies marks@[edges[e].1 as int]
                    || q@.contains(edges[e].1) by {
                if !marks@[edges[e].1 as int] {
                    let k = choose|k: int| 0 <= k < q0.len() && q0[k] == edges[e].1;
                    assert(k != 0);
                    assert(q@[k - 1] == q0[k]);
                }
            }
            assert forall|k: int| 0 <= k < sources@.len() implies marks@[(#[trigger] sources@[k]) as int] || q@.contains(sources@[k]) by {
                if !marks@[sources@[k] as int] {
                    let kk = choose|kk: int| 0 <= kk < q0.len() && q0[kk] == sources@[k];
                    assert(kk != 0);
                    assert(q@[kk - 1] == q0[kk]);
                }
            }
            assert forall|k: int| 0 <= k < q@.len() implies (#[trigger] q@[k]) < n && reached_from(edges, sources@, q@[k]) by {
                assert(q@[k] == q0[k + 1]);
            }
            continue;
        }
        proof {
            lemma_count_false_set(marks@, v as int);
        }
        marks.set(v, true);
        let succs = flow_graph_outgoing(g, v);
        let ghost q1 = q@;
        let mut k: usize = 0;
        while k < succs.len()
            invariant
                n == flow_graph_nodes(*g).len(),
                edges == flow_graph_edges(*g),
                edges_valid(n as nat, edges),
                v < n,
                reached_from(edges, sources@, v),
                is_adjacent_edge_list(edges, v, false, succs@),
                0 <= k <= succs.len(),
                q@.len() == q1.len() + k,
                forall|j: int| 0 <= j < q1.len() ==> q@[j] == q1[j],
                forall|j: int| 0 <= j < k ==> q@[q1.len() + j] == (#[trigger] succs@[j]).2,
                forall|j: int| 0 <= j < q@.len() ==> (#[trigger] q@[j]) < n && reached_from(edges, sources@, q@[j]),
            decreases succs.len() - k,
        {
            let (e, _src, dst) = succs[k];
            proof {
                let kk = choose|kk: int| 0 <= kk < sources@.len() && reaches(edges, #[trigger] sources@[kk], v);
                lemma_reaches_step(edges, sources@[kk], e as int);
            }
            q.push_back(dst);
            k += 1;
        }
        proof {
            assert forall|e: int|
                0 <= e < edges.len() && marks@[(#[trigger] edges[e]).0 as int] implies marks@[edges[e].1 as int]
                    || q@.contains(edges[e].1) by {
                if edges[e].0 == v {
                    let kk = choose|kk: int| 0 <= kk < succs@.len() && (#[trigger] succs@[kk]).0 == e;
                    assert(q@[q1.len() + kk] == edges[e].1);
                } else if !marks@[edges[e].1 as int] {
                    let kk = choose|kk: int| 0 <= kk < q0.len() && q0[kk] == edges[e].1;
                    if kk == 0 {
                        assert(edges[e].1 == v);
                    } else {
                        assert(q1[kk - 1] == q0[kk]);
                        assert(q@[kk - 1] == q0[kk]);
                    }
                }
            }
            assert forall|k: int| 0 <= k < sources@.len() implies marks@[(#[trigger] sources@[k]) as int] || q@.contains(sources@[k]) by {
                if !marks@[sources@[k] as int] {
                    let kk = choose|kk: int| 0 <= kk < q0.len() && q0[kk] == sources@[k];
                    if kk == 0 {
                        assert(sources@[k] == v);
                    } else {
                        assert(q1[kk - 1] == q0[kk]);
                        assert(q@[kk - 1] == q0[kk]);
                    }
                }
            }
        }
    }
    proof {
        let s = marked_set(marks@);
        assert forall|e: int| 0 <= e < edges.len() && s.contains((#[trigger] edges[e]).0) implies s.contains(
            edges[e].1,
        ) by {
            assert(marks@[edges[e].0 as int]);
        }
        assert forall|v: usize| v < marks@.len() implies (#[trigger] marks@[v as int] <==> reached_from(edges, sources@, v)) by {
            if reached_from(edges, sources@, v) {
                let kk = choose|kk: int| 0 <= kk < sources@.len() && reaches(edges, #[trigger] sources@[kk], v);
                assert(marks@[sources@[kk] as int]);
                lemma_forward_closed(edges, s, sources@[kk], v);
            }
        }
    }
    marks
}

} // verus!
