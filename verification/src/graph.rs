//! The pointer flow graph's storage, a `petgraph` graph, and the theory of
//! paths and strongly connected components over its edge list.

use vstd::prelude::*;
use petgraph::graph::{Graph, NodeIndex};
use petgraph::visit::EdgeRef;
use petgraph::Direction;
use crate::pfg::DFGNode;

verus! {

#[verifier::external_type_specification]
#[verifier::external_body]
#[verifier::reject_recursive_types(N)]
#[verifier::reject_recursive_types(E)]
#[verifier::reject_recursive_types(Ty)]
#[verifier::reject_recursive_types(Ix)]
pub struct ExGraph<N, E, Ty, Ix>(Graph<N, E, Ty, Ix>);

#[verifier::external_type_specification]
#[verifier::external_body]
pub struct ExDirected(petgraph::Directed);

/// The node weights of a flow graph, by node index.
pub uninterp spec fn flow_graph_nodes(g: Graph<DFGNode, ()>) -> Seq<DFGNode>;

/// The edges of a flow graph as (source, target) pairs, by edge index.
pub uninterp spec fn flow_graph_edges(g: Graph<DFGNode, ()>) -> Seq<(usize, usize)>;

/// `petgraph::Graph::new`: a graph with no node and no edge.
#[verifier::external_body]
pub(crate) fn flow_graph_new() -> (g: Graph<DFGNode, ()>)
    ensures
        flow_graph_nodes(g) == Seq::<DFGNode>::empty(),
        flow_graph_edges(g) == Seq::<(usize, usize)>::empty(),
{
    Graph::new()
}

/// `petgraph::Graph::add_node`: appends the node and returns its index, the old
/// node count. It panics when the count has reached `u32::MAX`, the end marker
/// of the default index type; `requires` leaves that out.
#[verifier::external_body]
pub(crate) fn flow_graph_add_node(g: &mut Graph<DFGNode, ()>, w: DFGNode) -> (i: usize)
    requires
        flow_graph_nodes(*old(g)).len() < u32::MAX,
    ensures
        i == flow_graph_nodes(*old(g)).len(),
        flow_graph_nodes(*final(g)) == flow_graph_nodes(*old(g)).push(w),
        flow_graph_edges(*final(g)) == flow_graph_edges(*old(g)),
{
    g.add_node(w).index()
}

/// `petgraph::Graph::add_edge`: appends the edge `a -> b` and returns its index,
/// the old edge count. It panics when an endpoint does not exist or the edge
/// count has reached `u32::MAX`; `requires` leaves both out.
#[verifier::external_body]
pub(crate) fn flow_graph_add_edge(g: &mut Graph<DFGNode, ()>, a: usize, b: usize) -> (e: usize)
    requires
        a < flow_graph_nodes(*old(g)).len(),
        b < flow_graph_nodes(*old(g)).len(),
        flow_graph_edges(*old(g)).len() < u32::MAX,
    ensures
        e == flow_graph_edges(*old(g)).len(),
        flow_graph_edges(*final(g)) == flow_graph_edges(*old(g)).push((a, b)),
        flow_graph_nodes(*final(g)) == flow_graph_nodes(*old(g)),
{
    g.add_edge(NodeIndex::new(a), NodeIndex::new(b), ()).index()
}

/// `petgraph::Graph::node_count`.
#[verifier::external_body]
pub(crate) fn flow_graph_node_count(g: &Graph<DFGNode, ()>) -> (n: usize)
    ensures
        n == flow_graph_nodes(*g).len(),
{
    g.node_count()
}

/// `petgraph::Graph::edge_count`.
#[verifier::external_body]
pub(crate) fn flow_graph_edge_count(g: &Graph<DFGNode, ()>) -> (n: usize)
    ensures
        n == flow_graph_edges(*g).len(),
{
    g.edge_count()
}

/// `petgraph::Graph::edge_references`: all edges in index order, as (source, target).
#[verifier::external_body]
pub(crate) fn flow_graph_edge_list(g: &Graph<DFGNode, ()>) -> (es: Vec<(usize, usize)>)
    ensures
        es@ == flow_graph_edges(*g),
{
    g.edge_references().map(|e| (e.source().index(), e.target().index())).collect()
}

/// Indexing a `petgraph::Graph` by a node index: the weight of node `i`. It
/// panics on an index out of bounds; `requires` leaves that out.
#[verifier::external_body]
pub(crate) fn flow_graph_node(g: &Graph<DFGNode, ()>, i: usize) -> (w: DFGNode)
    requires
        i < flow_graph_nodes(*g).len(),
    ensures
        w == flow_graph_nodes(*g)[i as int],
{
    g[NodeIndex::new(i)]
}

/// What an edge list returned by `flow_graph_incoming` or `flow_graph_outgoing`
/// holds: each entry is (edge index, source, target) of an edge of the graph
/// whose target (incoming) or source (outgoing) is `n`, every such edge occurs,
/// and no edge occurs twice.
pub open spec fn is_adjacent_edge_list(
    edges: Seq<(usize, usize)>,
    n: usize,
    incoming: bool,
    es: Seq<(usize, usize, usize)>,
) -> bool {
    &&& forall|k: int|
        0 <= k < es.len() ==> {
            &&& (#[trigger] es[k]).0 < edges.len()
            &&& edges[es[k].0 as int] == (es[k].1, es[k].2)
            &&& if incoming { es[k].2 == n } else { es[k].1 == n }
        }
    &&& forall|e: int|
        0 <= e < edges.len() && (if incoming { (#[trigger] edges[e]).1 == n } else { edges[e].0 == n })
            ==> exists|k: int| 0 <= k < es.len() && (#[trigger] es[k]).0 == e
    &&& forall|k1: int, k2: int|
        0 <= k1 < es.len() && 0 <= k2 < es.len() && k1 != k2 ==> (#[trigger] es[k1]).0 != (
        #[trigger] es[k2]).0
}

/// `petgraph::Graph::edges_directed` with `Direction::Incoming`: every edge into
/// `n`, each once, as (edge index, source, target).
#[verifier::external_body]
pub(crate) fn flow_graph_incoming(g: &Graph<DFGNode, ()>, n: usize) -> (es: Vec<(usize, usize, usize)>)
    requires
        n < flow_graph_nodes(*g).len(),
    ensures
        is_adjacent_edge_list(flow_graph_edges(*g), n, true, es@),
{
    g.edges_directed(NodeIndex::new(n), Direction::Incoming).map(
        |e| (e.id().index(), e.source().index(), e.target().index()),
    ).collect()
}

/// `petgraph::Graph::edges_directed` with `Direction::Outgoing`: every edge out
/// of `n`, each once, as (edge index, source, target).
#[verifier::external_body]
pub(crate) fn flow_graph_outgoing(g: &Graph<DFGNode, ()>, n: usize) -> (es: Vec<(usize, usize, usize)>)
    requires
        n < flow_graph_nodes(*g).len(),
    ensures
        is_adjacent_edge_list(flow_graph_edges(*g), n, false, es@),
{
    g.edges_directed(NodeIndex::new(n), Direction::Outgoing).map(
        |e| (e.id().index(), e.source().index(), e.target().index()),
    ).collect()
}

/// `petgraph::algo::tarjan_scc`: the strongly connected components of the
/// graph, as lists of node indices, in reverse topological order (sinks first),
/// as its documentation states.
#[verifier::external_body]
pub(crate) fn flow_graph_sccs(g: &Graph<DFGNode, ()>) -> (sccs: Vec<Vec<usize>>)
    ensures
        is_scc_order(
            flow_graph_nodes(*g).len(),
            flow_graph_edges(*g),
            sccs@.map_values(|c: Vec<usize>| c@),
        ),
{
    petgraph::algo::tarjan_scc(g).into_iter().map(
        |c| c.into_iter().map(|n| n.index()).collect(),
    ).collect()
}

// ---------------------------------------------------------------------------
// Paths and reachability over an edge list.
// ---------------------------------------------------------------------------

/// Every edge of the list joins two of the first `n` nodes.
pub open spec fn edges_valid(n: nat, edges: Seq<(usize, usize)>) -> bool {
    forall|e: int| 0 <= e < edges.len() ==> (#[trigger] edges[e]).0 < n && edges[e].1 < n
}

/// `a -> b` is an edge of the list.
pub open spec fn is_edge(edges: Seq<(usize, usize)>, a: usize, b: usize) -> bool {
    exists|e: int| 0 <= e < edges.len() && #[trigger] edges[e] == (a, b)
}

/// `p` is a non-empty walk along edges of the list.
pub open spec fn is_path(edges: Seq<(usize, usize)>, p: Seq<usize>) -> bool {
    &&& p.len() >= 1
    &&& forall|i: int| 0 <= i < p.len() - 1 ==> is_edge(edges, #[trigger] p[i], p[i + 1])
}

/// Some walk leads from `a` to `b` (every node reaches itself).
pub open spec fn reaches(edges: Seq<(usize, usize)>, a: usize, b: usize) -> bool {
    exists|p: Seq<usize>| #[trigger] is_path(edges, p) && p[0] == a && p.last() == b
}

pub proof fn lemma_reaches_refl(edges: Seq<(usize, usize)>, a: usize)
    ensures
        reaches(edges, a, a),
{
    let p = seq![a];
    assert(is_path(edges, p));
}

pub proof fn lemma_reaches_edge(edges: Seq<(usize, usize)>, e: int)
    requires
        0 <= e < edges.len(),
    ensures
        reaches(edges, edges[e].0, edges[e].1),
{
    let p = seq![edges[e].0, edges[e].1];
    assert(is_edge(edges, p[0], p[1]));
    assert(is_path(edges, p));
}

pub proof fn lemma_reaches_trans(edges: Seq<(usize, usize)>, a: usize, b: usize, c: usize)
    requires
        reaches(edges, a, b),
        reaches(edges, b, c),
    ensures
        reaches(edges, a, c),
{
    let p1 = choose|p: Seq<usize>| #[trigger] is_path(edges, p) && p[0] == a && p.last() == b;
    let p2 = choose|p: Seq<usize>| #[trigger] is_path(edges, p) && p[0] == b && p.last() == c;
    let p = p1 + p2.drop_first();
    assert forall|i: int| 0 <= i < p.len() - 1 implies is_edge(edges, #[trigger] p[i], p[i + 1]) by {
        if i < p1.len() - 1 {
            assert(p[i] == p1[i] && p[i + 1] == p1[i + 1]);
        } else if i == p1.len() - 1 {
            assert(p[i] == p2[0]);
            assert(p[i + 1] == p2[1]);
        } else {
            let j = i - p1.len() + 1;
            assert(p[i] == p2[j] && p[i + 1] == p2[j + 1]);
        }
    }
    assert(is_path(edges, p));
    assert(p.last() == c) by {
        if p2.len() == 1 {
            assert(p =~= p1);
        }
    }
}

/// Adding edges keeps every walk.
pub proof fn lemma_reaches_mono(edges: Seq<(usize, usize)>, more: Seq<(usize, usize)>, a: usize, b: usize)
    requires
        edges.len() <= more.len(),
        forall|e: int| 0 <= e < edges.len() ==> #[trigger] more[e] == edges[e],
        reaches(edges, a, b),
    ensures
        reaches(more, a, b),
{
    let p = choose|p: Seq<usize>| #[trigger] is_path(edges, p) && p[0] == a && p.last() == b;
    assert forall|i: int| 0 <= i < p.len() - 1 implies is_edge(more, #[trigger] p[i], p[i + 1]) by {
        assert(is_edge(edges, p[i], p[i + 1]));
        let e = choose|e: int| 0 <= e < edges.len() && #[trigger] edges[e] == (p[i], p[i + 1]);
        assert(more[e] == edges[e]);
    }
    assert(is_path(more, p));
}

/// Reaching `b` and stepping along an edge `b -> c` reaches `c`.
pub proof fn lemma_reaches_step(edges: Seq<(usize, usize)>, a: usize, e: int)
    requires
        0 <= e < edges.len(),
        reaches(edges, a, edges[e].0),
    ensures
        reaches(edges, a, edges[e].1),
{
    lemma_reaches_edge(edges, e);
    lemma_reaches_trans(edges, a, edges[e].0, edges[e].1);
}

/// A set that holds `t` and every source of an edge into one of its members
/// holds every node that reaches `t`.
pub proof fn lemma_backward_closed(edges: Seq<(usize, usize)>, s: Set<usize>, t: usize, a: usize)
    requires
        s.contains(t),
        forall|e: int| 0 <= e < edges.len() && s.contains((#[trigger] edges[e]).1) ==> s.contains(edges[e].0),
        reaches(edges, a, t),
    ensures
        s.contains(a),
{
    let p = choose|p: Seq<usize>| #[trigger] is_path(edges, p) && p[0] == a && p.last() == t;
    lemma_backward_closed_path(edges, s, p, 0);
}

proof fn lemma_backward_closed_path(edges: Seq<(usize, usize)>, s: Set<usize>, p: Seq<usize>, k: nat)
    requires
        is_path(edges, p),
        k < p.len(),
        s.contains(p.last()),
        forall|e: int| 0 <= e < edges.len() && s.contains((#[trigger] edges[e]).1) ==> s.contains(edges[e].0),
    ensures
        forall|j: int| k <= j < p.len() ==> s.contains(#[trigger] p[j]),
    decreases p.len() - k,
{
    if k == p.len() - 1 {
    } else {
        lemma_backward_closed_path(edges, s, p, k + 1);
        assert(is_edge(edges, p[k as int], p[k as int + 1]));
        let e = choose|e: int| 0 <= e < edges.len() && #[trigger] edges[e] == (p[k as int], p[k as int + 1]);
        assert(s.contains(edges[e].1));
    }
}

/// A set that holds `a` and every target of an edge out of one of its members
/// holds every node that `a` reaches.
pub proof fn lemma_forward_closed(edges: Seq<(usize, usize)>, s: Set<usize>, a: usize, t: usize)
    requires
        s.contains(a),
        forall|e: int| 0 <= e < edges.len() && s.contains((#[trigger] edges[e]).0) ==> s.contains(edges[e].1),
        reaches(edges, a, t),
    ensures
        s.contains(t),
{
    let p = choose|p: Seq<usize>| #[trigger] is_path(edges, p) && p[0] == a && p.last() == t;
    lemma_forward_closed_path(edges, s, p, 0);
}

proof fn lemma_forward_closed_path(edges: Seq<(usize, usize)>, s: Set<usize>, p: Seq<usize>, k: nat)
    requires
        is_path(edges, p),
        k < p.len(),
        s.contains(p[k as int]),
        forall|e: int| 0 <= e < edges.len() && s.contains((#[trigger] edges[e]).0) ==> s.contains(edges[e].1),
    ensures
        forall|j: int| k <= j < p.len() ==> s.contains(#[trigger] p[j]),
    decreases p.len() - k,
{
    if k == p.len() - 1 {
    } else {
        assert(is_edge(edges, p[k as int], p[k as int + 1]));
        let e = choose|e: int| 0 <= e < edges.len() && #[trigger] edges[e] == (p[k as int], p[k as int + 1]);
        assert(s.contains(edges[e].0));
        lemma_forward_closed_path(edges, s, p, k + 1);
    }
}

// ---------------------------------------------------------------------------
// Strongly connected components.
// ---------------------------------------------------------------------------

/// Node `v` is in component `i`.
pub open spec fn in_comp(sccs: Seq<Seq<usize>>, v: usize, i: int) -> bool {
    exists|j: int| 0 <= j < sccs[i].len() && #[trigger] sccs[i][j] == v
}

/// Node `v` is in some component.
pub open spec fn has_comp(sccs: Seq<Seq<usize>>, v: usize) -> bool {
    exists|i: int| 0 <= i < sccs.len() && #[trigger] in_comp(sccs, v, i)
}

/// `sccs` lists the strongly connected components of a graph with `n` nodes
/// and the given edges in reverse topological order: every component is
/// non-empty, every node lies in exactly one component, an edge never leads
/// to a later component, and the nodes of one component reach each other.
pub open spec fn is_scc_order(n: nat, edges: Seq<(usize, usize)>, sccs: Seq<Seq<usize>>) -> bool {
    &&& forall|i: int| 0 <= i < sccs.len() ==> (#[trigger] sccs[i]).len() > 0
    &&& forall|i: int, j: int| 0 <= i < sccs.len() && 0 <= j < sccs[i].len() ==> (#[trigger] sccs[i][j]) < n
    &&& forall|v: usize| v < n ==> #[trigger] has_comp(sccs, v)
    &&& forall|i1: int, j1: int, i2: int, j2: int|
        0 <= i1 < sccs.len() && 0 <= j1 < sccs[i1].len() && 0 <= i2 < sccs.len() && 0 <= j2
            < sccs[i2].len() && #[trigger] sccs[i1][j1] == #[trigger] sccs[i2][j2] ==> i1 == i2 && j1
            == j2
    &&& forall|e: int, i1: int, i2: int|
        0 <= e < edges.len() && 0 <= i1 < sccs.len() && 0 <= i2 < sccs.len() && #[trigger] in_comp(
            sccs,
            edges[e].0,
            i1,
        ) && #[trigger] in_comp(sccs, edges[e].1, i2) ==> i1 >= i2
    &&& forall|i: int, j1: int, j2: int|
        0 <= i < sccs.len() && 0 <= j1 < sccs[i].len() && 0 <= j2 < sccs[i].len() ==> reaches(
            edges,
            #[trigger] sccs[i][j1],
            #[trigger] sccs[i][j2],
        )
}

/// Node `r` is a source of the flow: it is the least node of its strongly
/// connected component, and nothing outside that component reaches it.
pub open spec fn is_flow_source(edges: Seq<(usize, usize)>, r: usize) -> bool {
    forall|u: usize| #[trigger] reaches(edges, u, r) ==> reaches(edges, r, u) && r <= u
}

/// Along a walk the component index never grows.
pub proof fn lemma_reaches_comp_order(
    n: nat,
    edges: Seq<(usize, usize)>,
    sccs: Seq<Seq<usize>>,
    a: usize,
    b: usize,
    ia: int,
    ib: int,
)
    requires
        is_scc_order(n, edges, sccs),
        edges_valid(n, edges),
        reaches(edges, a, b),
        0 <= ia < sccs.len(),
        0 <= ib < sccs.len(),
        in_comp(sccs, a, ia),
        in_comp(sccs, b, ib),
    ensures
        ia >= ib,
{
    let p = choose|p: Seq<usize>| #[trigger] is_path(edges, p) && p[0] == a && p.last() == b;
    lemma_path_comp_order(n, edges, sccs, p, ia, (p.len() - 1) as nat);
    let j = choose|j: int| 0 <= j < sccs.len() && in_comp(sccs, p.last(), j) && j <= ia;
    lemma_comp_unique(n, edges, sccs, b, j, ib);
}

/// A node lies in one component only.
pub proof fn lemma_comp_unique(n: nat, edges: Seq<(usize, usize)>, sccs: Seq<Seq<usize>>, v: usize, i1: int, i2: int)
    requires
        is_scc_order(n, edges, sccs),
        0 <= i1 < sccs.len(),
        0 <= i2 < sccs.len(),
        in_comp(sccs, v, i1),
        in_comp(sccs, v, i2),
    ensures
        i1 == i2,
{
    let j1 = choose|j: int| 0 <= j < sccs[i1].len() && #[trigger] sccs[i1][j] == v;
    let j2 = choose|j: int| 0 <= j < sccs[i2].len() && #[trigger] sccs[i2][j] == v;
    assert(sccs[i1][j1] == sccs[i2][j2]);
}

proof fn lemma_path_comp_order(
    n: nat,
    edges: Seq<(usize, usize)>,
    sccs: Seq<Seq<usize>>,
    p: Seq<usize>,
    ia: int,
    k: nat,
)
    requires
        is_scc_order(n, edges, sccs),
        is_path(edges, p),
        k < p.len(),
        0 <= ia < sccs.len(),
        in_comp(sccs, p[0], ia),
        edges_valid(n, edges),
    ensures
        exists|j: int| 0 <= j < sccs.len() && #[trigger] in_comp(sccs, p[k as int], j) && j <= ia,
    decreases k,
{
    if k == 0 {
        assert(in_comp(sccs, p[0], ia));
    } else {
        lemma_path_comp_order(n, edges, sccs, p, ia, (k - 1) as nat);
        let k1 = k - 1;
        let j = choose|j: int| 0 <= j < sccs.len() && #[trigger] in_comp(sccs, p[k1], j) && j <= ia;
        assert(is_edge(edges, p[k1], p[k1 + 1]));
        let e = choose|e: int| 0 <= e < edges.len() && #[trigger] edges[e] == (p[k1], p[k1 + 1]);
        let v = p[k as int];
        assert(edges[e].1 == v);
        assert(v < n);
        assert(has_comp(sccs, v));
        let i2 = choose|i: int| 0 <= i < sccs.len() && #[trigger] in_comp(sccs, v, i);
        assert(in_comp(sccs, edges[e].0, j));
        assert(in_comp(sccs, edges[e].1, i2));
        assert(i2 <= j);
        assert(in_comp(sccs, p[k as int], i2));
    }
}

} // verus!
