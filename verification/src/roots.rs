//! Backward roots of every node of a pointer flow graph: the sources a value
//! at the node flows from, computed in one pass over the strongly connected
//! components.

use vstd::prelude::*;
use crate::ids::{Path, strictly_sorted, sorted_insert};
use crate::pfg::{FuncPFG, DFGNode};
use crate::graph::{
    flow_graph_node_count, flow_graph_node, flow_graph_incoming, flow_graph_sccs, flow_graph_nodes,
    flow_graph_edges, edges_valid, is_edge, is_path, reaches, in_comp, has_comp, is_scc_order, is_flow_source,
    is_adjacent_edge_list, lemma_reaches_trans, lemma_reaches_edge, lemma_reaches_comp_order, lemma_comp_unique,
};

verus! {

/// The backward roots of every node of a flow graph: for each node the sorted
/// list of the roots its values flow from, shared by the nodes of one
/// strongly connected component.
pub struct BackwardRootsTable {
    node_paths: Vec<Path>,
    /// node index -> component index
    scc_of: Vec<usize>,
    /// component index -> its roots, sorted, each once
    roots: Vec<Vec<usize>>,
}

impl BackwardRootsTable {
    /// The number of nodes covered.
    pub closed spec fn len_view(&self) -> nat {
        self.scc_of@.len()
    }

    /// The path of each node, by node index.
    pub closed spec fn paths_view(&self) -> Seq<Path> {
        self.node_paths@
    }

    /// The roots of node `v`.
    pub closed spec fn roots_view(&self, v: int) -> Seq<usize> {
        self.roots@[self.scc_of@[v] as int]@
    }

    pub closed spec fn inner_wf(&self) -> bool {
        forall|v: int| 0 <= v < self.scc_of@.len() ==> (#[trigger] self.scc_of@[v]) < self.roots@.len()
    }

    /// The table describes the graph with these nodes and edges: node `v`'s
    /// roots are, sorted and each once, the nodes `r` that are sources of the
    /// flow (least of their strongly connected component, which nothing
    /// outside reaches) and reach `v`.
    pub open spec fn is_table_of(&self, nodes: Seq<DFGNode>, edges: Seq<(usize, usize)>) -> bool {
        &&& self.inner_wf()
        &&& self.len_view() == nodes.len()
        &&& self.paths_view() == nodes.map_values(|d: DFGNode| d.path)
        &&& forall|v: int| 0 <= v < nodes.len() ==> strictly_sorted(#[trigger] self.roots_view(v))
        &&& forall|v: int, r: usize|
            0 <= v < nodes.len() ==> (#[trigger] self.roots_view(v).contains(r) <==> is_flow_source(edges, r)
                && reaches(edges, r, v as usize))
    }

    /// The last node for `path`, or `None` when the graph has none.
    pub fn node(&self, path: &Path) -> (r: Option<usize>)
        requires
            self.paths_view().len() == self.len_view(),
        ensures
            match r {
                Some(n) => n < self.len_view() && self.paths_view()[n as int] == *path && forall|j: int|
                    n < j < self.len_view() ==> self.paths_view()[j] != *path,
                None => forall|j: int| 0 <= j < self.len_view() ==> self.paths_view()[j] != *path,
            },
    {
        let mut i = self.node_paths.len();
        while i > 0
            invariant
                0 <= i <= self.node_paths@.len(),
                self.node_paths@.len() == self.scc_of@.len(),
                forall|j: int| i <= j < self.node_paths@.len() ==> self.node_paths@[j] != *path,
            decreases i,
        {
            i -= 1;
            if self.node_paths[i] == *path {
                return Some(i);
            }
        }
        None
    }

    /// The roots of node `n`.
    pub fn roots_of_node(&self, n: usize) -> (r: &Vec<usize>)
        requires
            self.inner_wf(),
            n < self.len_view(),
        ensures
            r@ == self.roots_view(n as int),
    {
        &self.roots[self.scc_of[n]]
    }

    /// Every node of the graph has at least one root.
    pub proof fn lemma_roots_nonempty(&self, nodes: Seq<DFGNode>, edges: Seq<(usize, usize)>, v: int)
        requires
            self.is_table_of(nodes, edges),
            edges_valid(nodes.len(), edges),
            0 <= v < nodes.len(),
        ensures
            self.roots_view(v).len() > 0,
    {
        lemma_flow_source_exists(nodes.len(), edges, v as usize);
        let r = choose|r: usize| is_flow_source(edges, r) && #[trigger] reaches(edges, r, v as usize);
        assert(self.roots_view(v).contains(r));
    }

    /// The roots of the last node for `path`, or `None` when the graph has none.
    pub fn roots_of(&self, path: &Path) -> (r: Option<&Vec<usize>>)
        requires
            self.inner_wf(),
            self.paths_view().len() == self.len_view(),
        ensures
            match r {
                Some(rs) => exists|n: int|
                    0 <= n < self.len_view() && self.paths_view()[n] == *path && (forall|j: int|
                        n < j < self.len_view() ==> self.paths_view()[j] != *path) && rs@ == self.roots_view(n),
                None => forall|j: int| 0 <= j < self.len_view() ==> self.paths_view()[j] != *path,
            },
    {
        match self.node(path) {
            Some(n) => Some(self.roots_of_node(n)),
            None => None,
        }
    }
}

/// The nodes below `n` that reach `v`.
pub open spec fn reachers(n: nat, edges: Seq<(usize, usize)>, v: usize) -> Set<int> {
    Set::new(|w: int| 0 <= w < n && reaches(edges, w as usize, v))
}

proof fn lemma_reachers_finite(n: nat, edges: Seq<(usize, usize)>, v: usize)
    ensures
        reachers(n, edges, v).finite(),
{
    vstd::set_lib::lemma_int_range(0, n as int);
    assert(reachers(n, edges, v).subset_of(vstd::set_lib::set_int_range(0, n as int)));
    vstd::set_lib::lemma_len_subset(reachers(n, edges, v), vstd::set_lib::set_int_range(0, n as int));
}

/// A node that reaches a node of the graph is a node of the graph.
proof fn lemma_reacher_in_graph(n: nat, edges: Seq<(usize, usize)>, u: usize, v: usize)
    requires
        edges_valid(n, edges),
        v < n,
        reaches(edges, u, v),
    ensures
        u < n,
{
    let p = choose|p: Seq<usize>| #[trigger] is_path(edges, p) && p[0] == u && p.last() == v;
    if p.len() > 1 {
        assert(is_edge(edges, p[0], p[1]));
        let e = choose|e: int| 0 <= e < edges.len() && #[trigger] edges[e] == (p[0], p[1]);
    }
}

/// Every node of a graph is reached by a source of the flow.
pub proof fn lemma_flow_source_exists(n: nat, edges: Seq<(usize, usize)>, v: usize)
    requires
        edges_valid(n, edges),
        v < n,
    ensures
        exists|r: usize| is_flow_source(edges, r) && #[trigger] reaches(edges, r, v),
    decreases reachers(n, edges, v).len(), v,
{
    lemma_reachers_finite(n, edges, v);
    crate::graph::lemma_reaches_refl(edges, v);
    if exists|u: usize| #[trigger] reaches(edges, u, v) && !reaches(edges, v, u) {
        let u = choose|u: usize| #[trigger] reaches(edges, u, v) && !reaches(edges, v, u);
        lemma_reacher_in_graph(n, edges, u, v);
        lemma_reachers_finite(n, edges, u);
        let ru = reachers(n, edges, u);
        let rv = reachers(n, edges, v);
        assert forall|w: int| ru.contains(w) implies rv.remove(v as int).contains(w) by {
            lemma_reaches_trans(edges, w as usize, u, v);
            if w == v as int {
                assert(reaches(edges, v, u));
            }
        }
        assert(rv.contains(v as int));
        vstd::set_lib::lemma_len_subset(ru, rv.remove(v as int));
        lemma_flow_source_exists(n, edges, u);
        let r = choose|r: usize| is_flow_source(edges, r) && #[trigger] reaches(edges, r, u);
        lemma_reaches_trans(edges, r, u, v);
    } else if exists|u: usize| #[trigger] reaches(edges, u, v) && u < v {
        let u = choose|u: usize| #[trigger] reaches(edges, u, v) && u < v;
        lemma_reachers_finite(n, edges, u);
        let ru = reachers(n, edges, u);
        let rv = reachers(n, edges, v);
        assert forall|w: int| ru.contains(w) implies rv.contains(w) by {
            lemma_reaches_trans(edges, w as usize, u, v);
        }
        vstd::set_lib::lemma_len_subset(ru, rv);
        lemma_flow_source_exists(n, edges, u);
        let r = choose|r: usize| is_flow_source(edges, r) && #[trigger] reaches(edges, r, u);
        lemma_reaches_trans(edges, r, u, v);
    } else {
        assert(is_flow_source(edges, v));
    }
}

/// `r` is a root of component `i`: a source of the flow that reaches the
/// component's first node.
pub open spec fn comp_root(edges: Seq<(usize, usize)>, sccs: Seq<Seq<usize>>, i: int, r: usize) -> bool {
    is_flow_source(edges, r) && reaches(edges, r, sccs[i][0])
}

/// Some edge from another component leads into component `i` from component `p`.
pub open spec fn comp_pred(edges: Seq<(usize, usize)>, sccs: Seq<Seq<usize>>, i: int, p: int) -> bool {
    p != i && exists|e: int|
        0 <= e < edges.len() && in_comp(sccs, (#[trigger] edges[e]).1, i) && in_comp(sccs, edges[e].0, p)
}

proof fn lemma_prefix_path(edges: Seq<(usize, usize)>, p: Seq<usize>, k: int)
    requires
        is_path(edges, p),
        1 <= k <= p.len(),
    ensures
        is_path(edges, p.subrange(0, k)),
        reaches(edges, p[0], p[k - 1]),
{
    let q = p.subrange(0, k);
    assert forall|i: int| 0 <= i < q.len() - 1 implies is_edge(edges, #[trigger] q[i], q[i + 1]) by {
        assert(q[i] == p[i] && q[i + 1] == p[i + 1]);
    }
    assert(is_path(edges, q));
    assert(q[0] == p[0] && q.last() == p[k - 1]);
}

proof fn lemma_path_enters(edges: Seq<(usize, usize)>, sccs: Seq<Seq<usize>>, p: Seq<usize>, i: int, k: int)
    requires
        is_path(edges, p),
        0 < k < p.len(),
        !in_comp(sccs, p[0], i),
        in_comp(sccs, p[k], i),
    ensures
        exists|e: int|
            0 <= e < edges.len() && in_comp(sccs, (#[trigger] edges[e]).1, i) && !in_comp(sccs, edges[e].0, i)
                && reaches(edges, p[0], edges[e].0),
    decreases k,
{
    if !in_comp(sccs, p[k - 1], i) {
        assert(is_edge(edges, p[k - 1], p[k]));
        let e = choose|e: int| 0 <= e < edges.len() && #[trigger] edges[e] == (p[k - 1], p[k]);
        lemma_prefix_path(edges, p, k);
        assert(in_comp(sccs, edges[e].1, i));
    } else {
        lemma_path_enters(edges, sccs, p, i, k - 1);
    }
}

/// A walk from outside component `i` into it crosses an edge entering `i`.
proof fn lemma_enters(edges: Seq<(usize, usize)>, sccs: Seq<Seq<usize>>, u: usize, v: usize, i: int)
    requires
        reaches(edges, u, v),
        in_comp(sccs, v, i),
        !in_comp(sccs, u, i),
    ensures
        exists|e: int|
            0 <= e < edges.len() && in_comp(sccs, (#[trigger] edges[e]).1, i) && !in_comp(sccs, edges[e].0, i)
                && reaches(edges, u, edges[e].0),
{
    let p = choose|p: Seq<usize>| #[trigger] is_path(edges, p) && p[0] == u && p.last() == v;
    lemma_path_enters(edges, sccs, p, i, p.len() - 1);
}

/// Within a component every node reaches every other, so a node reaches one
/// member exactly when it reaches the first.
proof fn lemma_comp_member(n: nat, edges: Seq<(usize, usize)>, sccs: Seq<Seq<usize>>, i: int, v: usize, r: usize)
    requires
        is_scc_order(n, edges, sccs),
        0 <= i < sccs.len(),
        in_comp(sccs, v, i),
    ensures
        reaches(edges, r, v) <==> reaches(edges, r, sccs[i][0]),
        reaches(edges, v, sccs[i][0]),
        reaches(edges, sccs[i][0], v),
{
    let j = choose|j: int| 0 <= j < sccs[i].len() && #[trigger] sccs[i][j] == v;
    assert(reaches(edges, sccs[i][j], sccs[i][0]));
    assert(reaches(edges, sccs[i][0], sccs[i][j]));
    if reaches(edges, r, v) {
        lemma_reaches_trans(edges, r, v, sccs[i][0]);
    }
    if reaches(edges, r, sccs[i][0]) {
        lemma_reaches_trans(edges, r, sccs[i][0], v);
    }
}

/// Two nodes that reach each other lie in one component.
proof fn lemma_mutual_same_comp(
    n: nat,
    edges: Seq<(usize, usize)>,
    sccs: Seq<Seq<usize>>,
    a: usize,
    b: usize,
    ia: int,
    ib: int,
)
    requires
        is_scc_order(n, edges, sccs),
        edges_valid(n, edges),
        reaches(edges, a, b),
        reaches(edges, b, a),
        0 <= ia < sccs.len(),
        0 <= ib < sccs.len(),
        in_comp(sccs, a, ia),
        in_comp(sccs, b, ib),
    ensures
        ia == ib,
{
    lemma_reaches_comp_order(n, edges, sccs, a, b, ia, ib);
    lemma_reaches_comp_order(n, edges, sccs, b, a, ib, ia);
}

/// The component index of node `v`.
proof fn lemma_node_comp(n: nat, edges: Seq<(usize, usize)>, sccs: Seq<Seq<usize>>, v: usize) -> (i: int)
    requires
        is_scc_order(n, edges, sccs),
        v < n,
    ensures
        0 <= i < sccs.len(),
        in_comp(sccs, v, i),
{
    assert(has_comp(sccs, v));
    choose|i: int| 0 <= i < sccs.len() && #[trigger] in_comp(sccs, v, i)
}

/// A component that no edge enters from outside has its least node as its only root.
proof fn lemma_source_comp_roots(n: nat, edges: Seq<(usize, usize)>, sccs: Seq<Seq<usize>>, i: int, rep: usize)
    requires
        is_scc_order(n, edges, sccs),
        edges_valid(n, edges),
        0 <= i < sccs.len(),
        in_comp(sccs, rep, i),
        forall|j: int| 0 <= j < sccs[i].len() ==> rep <= #[trigger] sccs[i][j],
        forall|e: int| 0 <= e < edges.len() && in_comp(sccs, (#[trigger] edges[e]).1, i) ==> in_comp(sccs, edges[e].0, i),
    ensures
        forall|r: usize| comp_root(edges, sccs, i, r) <==> r == rep,
{
    assert forall|r: usize| comp_root(edges, sccs, i, r) <==> r == rep by {
        lemma_comp_member(n, edges, sccs, i, rep, rep);
        if r == rep {
            assert forall|u: usize| #[trigger] reaches(edges, u, rep) implies reaches(edges, rep, u) && rep <= u by {
                if !in_comp(sccs, u, i) {
                    lemma_enters(edges, sccs, u, rep, i);
                    let e = choose|e: int|
                        0 <= e < edges.len() && in_comp(sccs, (#[trigger] edges[e]).1, i) && !in_comp(sccs, edges[e].0, i)
                            && reaches(edges, u, edges[e].0);
                    assert(false);
                }
                lemma_comp_member(n, edges, sccs, i, u, rep);
                lemma_comp_member(n, edges, sccs, i, rep, u);
                let j = choose|j: int| 0 <= j < sccs[i].len() && #[trigger] sccs[i][j] == u;
                lemma_reaches_trans(edges, rep, sccs[i][0], u);
            }
            lemma_reaches_trans(edges, rep, rep, sccs[i][0]);
        }
        if comp_root(edges, sccs, i, r) {
            lemma_comp_member(n, edges, sccs, i, rep, r);
            lemma_reaches_trans(edges, rep, sccs[i][0], rep);
            let ir = lemma_node_comp_of_reacher(n, edges, sccs, r, sccs[i][0]);
            if ir != i {
                assert(!in_comp(sccs, r, i)) by {
                    if in_comp(sccs, r, i) {
                        lemma_comp_unique(n, edges, sccs, r, ir, i);
                    }
                }
                let j0 = 0int;
                assert(in_comp(sccs, sccs[i][j0], i));
                lemma_enters(edges, sccs, r, sccs[i][0], i);
                let e = choose|e: int|
                    0 <= e < edges.len() && in_comp(sccs, (#[trigger] edges[e]).1, i) && !in_comp(sccs, edges[e].0, i)
                        && reaches(edges, r, edges[e].0);
                assert(false);
            }
            // r and rep are in the same component and reach each other
            lemma_comp_member(n, edges, sccs, i, r, rep);
            lemma_reaches_trans(edges, rep, sccs[i][0], r);
            assert(reaches(edges, rep, r));
            let jr = choose|j: int| 0 <= j < sccs[i].len() && #[trigger] sccs[i][j] == r;
            assert(rep <= sccs[i][jr]);
        }
    }
}

/// The component of a node that reaches some node.
proof fn lemma_node_comp_of_reacher(n: nat, edges: Seq<(usize, usize)>, sccs: Seq<Seq<usize>>, r: usize, t: usize) -> (i: int)
    requires
        is_scc_order(n, edges, sccs),
        edges_valid(n, edges),
        t < n,
        reaches(edges, r, t),
    ensures
        0 <= i < sccs.len(),
        in_comp(sccs, r, i),
{
    let p = choose|p: Seq<usize>| #[trigger] is_path(edges, p) && p[0] == r && p.last() == t;
    if p.len() == 1 {
        lemma_node_comp(n, edges, sccs, r)
    } else {
        assert(is_edge(edges, p[0], p[1]));
        let e = choose|e: int| 0 <= e < edges.len() && #[trigger] edges[e] == (p[0], p[1]);
        lemma_node_comp(n, edges, sccs, r)
    }
}

/// A component entered from outside has as roots the roots of the
/// components it is entered from.
proof fn lemma_inner_comp_roots(n: nat, edges: Seq<(usize, usize)>, sccs: Seq<Seq<usize>>, i: int)
    requires
        is_scc_order(n, edges, sccs),
        edges_valid(n, edges),
        0 <= i < sccs.len(),
        exists|e: int| 0 <= e < edges.len() && in_comp(sccs, (#[trigger] edges[e]).1, i) && !in_comp(sccs, edges[e].0, i),
    ensures
        forall|r: usize|
            comp_root(edges, sccs, i, r) <==> exists|p: int|
                0 <= p < sccs.len() && #[trigger] comp_pred(edges, sccs, i, p) && comp_root(edges, sccs, p, r),
{
    assert forall|r: usize|
        comp_root(edges, sccs, i, r) <==> exists|p: int|
            0 <= p < sccs.len() && #[trigger] comp_pred(edges, sccs, i, p) && comp_root(edges, sccs, p, r) by {
        if exists|p: int| 0 <= p < sccs.len() && #[trigger] comp_pred(edges, sccs, i, p) && comp_root(edges, sccs, p, r) {
            let p = choose|p: int| 0 <= p < sccs.len() && #[trigger] comp_pred(edges, sccs, i, p) && comp_root(edges, sccs, p, r);
            let e = choose|e: int|
                0 <= e < edges.len() && in_comp(sccs, (#[trigger] edges[e]).1, i) && in_comp(sccs, edges[e].0, p);
            lemma_comp_member(n, edges, sccs, p, edges[e].0, r);
            lemma_comp_member(n, edges, sccs, i, edges[e].1, r);
            lemma_reaches_edge(edges, e);
            lemma_reaches_trans(edges, r, edges[e].0, edges[e].1);
        }
        if comp_root(edges, sccs, i, r) {
            let e0 = choose|e: int| 0 <= e < edges.len() && in_comp(sccs, (#[trigger] edges[e]).1, i) && !in_comp(sccs, edges[e].0, i);
            let t = sccs[i][0];
            assert(in_comp(sccs, sccs[i][0], i));
            if in_comp(sccs, r, i) {
                // an outside node reaches r, so r would reach it back
                let a = edges[e0].0;
                lemma_reaches_edge(edges, e0);
                lemma_comp_member(n, edges, sccs, i, edges[e0].1, r);
                lemma_comp_member(n, edges, sccs, i, r, edges[e0].1);
                lemma_reaches_trans(edges, edges[e0].1, t, r);
                lemma_reaches_trans(edges, a, edges[e0].1, r);
                assert(reaches(edges, a, r));
                let ia = lemma_node_comp(n, edges, sccs, a);
                lemma_mutual_same_comp(n, edges, sccs, a, r, ia, i);
                assert(false);
            }
            lemma_enters(edges, sccs, r, t, i);
            let e = choose|e: int|
                0 <= e < edges.len() && in_comp(sccs, (#[trigger] edges[e]).1, i) && !in_comp(sccs, edges[e].0, i)
                    && reaches(edges, r, edges[e].0);
            let p = lemma_node_comp(n, edges, sccs, edges[e].0);
            assert(comp_pred(edges, sccs, i, p));
            lemma_comp_member(n, edges, sccs, p, edges[e].0, r);
        }
    }
}


/// The least node of a non-empty component.
fn comp_min(comp: &Vec<usize>) -> (m: usize)
    requires
        comp@.len() > 0,
    ensures
        comp@.contains(m),
        forall|j: int| 0 <= j < comp@.len() ==> m <= #[trigger] comp@[j],
{
    let mut m = comp[0];
    let mut j: usize = 1;
    assert(comp@.subrange(0, 1)[0] == m);
    while j < comp.len()
        invariant
            1 <= j <= comp@.len(),
            comp@.subrange(0, j as int).contains(m),
            forall|jj: int| 0 <= jj < j ==> m <= #[trigger] comp@[jj],
        decreases comp.len() - j,
    {
        if comp[j] < m {
            m = comp[j];
            assert(comp@.subrange(0, j + 1)[j as int] == m);
        } else {
            let ghost k = choose|k: int| 0 <= k < j && comp@.subrange(0, j as int)[k] == m;
            assert(comp@.subrange(0, j + 1)[k] == m);
        }
        j += 1;
    }
    proof {
        assert(comp@.subrange(0, comp@.len() as int) =~= comp@);
    }
    m
}

/// The union of the root lists of the components in `preds`, sorted, each once.
fn union_roots(preds: &Vec<usize>, roots: &Vec<Vec<usize>>) -> (acc: Vec<usize>)
    requires
        forall|t: int| 0 <= t < preds@.len() ==> (#[trigger] preds@[t]) < roots@.len(),
    ensures
        strictly_sorted(acc@),
        forall|r: usize| #[trigger] acc@.contains(r) <==> exists|t: int|
            0 <= t < preds@.len() && roots@[(#[trigger] preds@[t]) as int]@.contains(r),
{
    let mut acc: Vec<usize> = Vec::new();
    let mut t: usize = 0;
    while t < preds.len()
        invariant
            0 <= t <= preds@.len(),
            forall|tt: int| 0 <= tt < preds@.len() ==> (#[trigger] preds@[tt]) < roots@.len(),
            strictly_sorted(acc@),
            forall|r: usize| #[trigger] acc@.contains(r) <==> exists|tt: int|
                0 <= tt < t && roots@[(#[trigger] preds@[tt]) as int]@.contains(r),
        decreases preds.len() - t,
    {
        let rs = &roots[preds[t]];
        let ghost acc0 = acc@;
        let mut k: usize = 0;
        while k < rs.len()
            invariant
                0 <= k <= rs@.len(),
                strictly_sorted(acc@),
                forall|r: usize| #[trigger] acc@.contains(r) <==> acc0.contains(r) || exists|kk: int| 0 <= kk < k && rs@[kk] == r,
            decreases rs.len() - k,
        {
            sorted_insert(&mut acc, rs[k]);
            proof {
                assert forall|r: usize| #[trigger] acc@.contains(r) <==> acc0.contains(r) || exists|kk: int| 0 <= kk < k + 1 && rs@[kk] == r by {
                    if exists|kk: int| 0 <= kk < k + 1 && rs@[kk] == r {
                        let kk = choose|kk: int| 0 <= kk < k + 1 && rs@[kk] == r;
                        if kk < k {
                        }
                    }
                }
            }
            k += 1;
        }
        proof {
            assert forall|r: usize| #[trigger] acc@.contains(r) <==> exists|tt: int|
                0 <= tt < t + 1 && roots@[(#[trigger] preds@[tt]) as int]@.contains(r) by {
                if rs@.contains(r) {
                    let kk = choose|kk: int| 0 <= kk < rs@.len() && rs@[kk] == r;
                    assert(roots@[preds@[t as int] as int]@.contains(r));
                }
                if exists|tt: int| 0 <= tt < t + 1 && roots@[(#[trigger] preds@[tt]) as int]@.contains(r) {
                    let tt = choose|tt: int| 0 <= tt < t + 1 && roots@[(#[trigger] preds@[tt]) as int]@.contains(r);
                    if tt == t {
                        let kk = choose|kk: int| 0 <= kk < rs@.len() && rs@[kk] == r;
                    }
                }
            }
        }
        t += 1;
    }
    acc
}

/// The component of every node, by the component lists.
pub open spec fn is_comp_table(sccs: Seq<Seq<usize>>, n: nat, scc_of: Seq<usize>) -> bool {
    &&& scc_of.len() == n
    &&& forall|v: int| 0 <= v < n ==> (#[trigger] scc_of[v]) < sccs.len() && in_comp(sccs, v as usize, scc_of[v] as int)
}

/// `preds` lists the components that enter component `i`.
pub open spec fn is_pred_list(edges: Seq<(usize, usize)>, s: Seq<Seq<usize>>, i: int, preds: Seq<usize>) -> bool {
    forall|p: usize| #[trigger] preds.contains(p) <==> p < s.len() && comp_pred(edges, s, i, p as int)
}

/// The components entering a component come after it.
proof fn lemma_preds_later(n: nat, edges: Seq<(usize, usize)>, s: Seq<Seq<usize>>, i: int, preds: Seq<usize>)
    requires
        is_scc_order(n, edges, s),
        edges_valid(n, edges),
        0 <= i < s.len(),
        is_pred_list(edges, s, i, preds),
    ensures
        forall|t: int| 0 <= t < preds.len() ==> i < (#[trigger] preds[t]) < s.len(),
{
    assert forall|t: int| 0 <= t < preds.len() implies i < (#[trigger] preds[t]) < s.len() by {
        let p = preds[t];
        assert(preds.contains(p));
        let e = choose|e: int|
            0 <= e < edges.len() && in_comp(s, (#[trigger] edges[e]).1, i) && in_comp(s, edges[e].0, p as int);
        lemma_reaches_edge(edges, e);
        lemma_reaches_comp_order(n, edges, s, edges[e].0, edges[e].1, p as int, i);
    }
}

/// A component that no other component enters has its least node as its only root.
proof fn lemma_source_case(n: nat, edges: Seq<(usize, usize)>, s: Seq<Seq<usize>>, i: int, rep: usize, preds: Seq<usize>)
    requires
        is_scc_order(n, edges, s),
        edges_valid(n, edges),
        s.len() <= usize::MAX,
        0 <= i < s.len(),
        is_pred_list(edges, s, i, preds),
        preds.len() == 0,
        s[i].contains(rep),
        forall|j: int| 0 <= j < s[i].len() ==> rep <= #[trigger] s[i][j],
    ensures
        forall|r: usize| comp_root(edges, s, i, r) <==> r == rep,
{
    let x = choose|x: int| 0 <= x < s[i].len() && #[trigger] s[i][x] == rep;
    assert(in_comp(s, rep, i));
    assert forall|e: int| 0 <= e < edges.len() && in_comp(s, (#[trigger] edges[e]).1, i) implies in_comp(s, edges[e].0, i) by {
        assert(edges[e].0 < n);
        let c = lemma_node_comp(n, edges, s, edges[e].0);
        if c != i {
            assert(comp_pred(edges, s, i, c));
            assert((c as usize) as int == c);
            assert(preds.contains(c as usize));
            assert(false);
        }
    }
    lemma_source_comp_roots(n, edges, s, i, rep);
}

/// A component that some other component enters has the roots of those components.
proof fn lemma_inner_case(
    n: nat,
    edges: Seq<(usize, usize)>,
    s: Seq<Seq<usize>>,
    i: int,
    preds: Seq<usize>,
    roots: Seq<Seq<usize>>,
)
    requires
        is_scc_order(n, edges, s),
        edges_valid(n, edges),
        s.len() <= usize::MAX,
        0 <= i < s.len(),
        is_pred_list(edges, s, i, preds),
        preds.len() > 0,
        roots.len() == s.len(),
        forall|j: int, r: usize| i < j < s.len() ==> (#[trigger] roots[j].contains(r) <==> comp_root(edges, s, j, r)),
    ensures
        forall|r: usize|
            (exists|t: int| 0 <= t < preds.len() && roots[(#[trigger] preds[t]) as int].contains(r)) <==> #[trigger] comp_root(
                edges,
                s,
                i,
                r,
            ),
{
    lemma_preds_later(n, edges, s, i, preds);
    let p0 = preds[0];
    assert(preds.contains(p0));
    let e0 = choose|e: int|
        0 <= e < edges.len() && in_comp(s, (#[trigger] edges[e]).1, i) && in_comp(s, edges[e].0, p0 as int);
    assert(!in_comp(s, edges[e0].0, i)) by {
        if in_comp(s, edges[e0].0, i) {
            lemma_comp_unique(n, edges, s, edges[e0].0, i, p0 as int);
        }
    }
    lemma_inner_comp_roots(n, edges, s, i);
    assert forall|r: usize|
        (exists|t: int| 0 <= t < preds.len() && roots[(#[trigger] preds[t]) as int].contains(r)) <==> #[trigger] comp_root(
            edges,
            s,
            i,
            r,
        ) by {
        if exists|t: int| 0 <= t < preds.len() && roots[(#[trigger] preds[t]) as int].contains(r) {
            let t = choose|t: int| 0 <= t < preds.len() && roots[(#[trigger] preds[t]) as int].contains(r);
            let p = preds[t] as int;
            assert(preds.contains(p as usize));
            assert(comp_pred(edges, s, i, p));
            assert(comp_root(edges, s, p, r));
        }
        if comp_root(edges, s, i, r) {
            let p = choose|p: int| 0 <= p < s.len() && #[trigger] comp_pred(edges, s, i, p) && comp_root(edges, s, p, r);
            assert((p as usize) as int == p);
            assert(preds.contains(p as usize));
            let t = choose|t: int| 0 <= t < preds.len() && preds[t] == p as usize;
            assert(roots[preds[t] as int].contains(r));
        }
    }
}

impl FuncPFG {
    /// The components that some edge from another component leads into
    /// component `i` from, sorted, each once.
    fn comp_preds(&self, i: usize, comp: &Vec<usize>, scc_of: &Vec<usize>, Ghost(sccs): Ghost<Seq<Seq<usize>>>) -> (preds: Vec<usize>)
        requires
            self.wf(),
            is_scc_order(self.nodes_view().len(), self.edges_view(), sccs),
            i < sccs.len(),
            comp@ == sccs[i as int],
            is_comp_table(sccs, self.nodes_view().len(), scc_of@),
        ensures
            strictly_sorted(preds@),
            is_pred_list(self.edges_view(), sccs, i as int, preds@),
    {
        let ghost edges = self.edges_view();
        let ghost n = self.nodes_view().len();
        let mut preds: Vec<usize> = Vec::new();
        let mut j: usize = 0;
        while j < comp.len()
            invariant
                0 <= j <= comp@.len(),
                self.wf(),
                edges == self.edges_view(),
                n == self.nodes_view().len(),
                is_scc_order(n, edges, sccs),
                i < sccs.len(),
                comp@ == sccs[i as int],
                is_comp_table(sccs, n, scc_of@),
                strictly_sorted(preds@),
                forall|p: usize| #[trigger] preds@.contains(p) <==> p != i && exists|e: int|
                    0 <= e < edges.len() && comp@.subrange(0, j as int).contains((#[trigger] edges[e]).1)
                        && scc_of@[edges[e].0 as int] == p,
            decreases comp.len() - j,
        {
            let m = comp[j];
            proof {
                assert(sccs[i as int][j as int] == m);
            }
            let inc = flow_graph_incoming(&self.graph, m);
            let ghost preds0 = preds@;
            let mut k: usize = 0;
            while k < inc.len()
                invariant
                    0 <= k <= inc@.len(),
                    self.wf(),
                    edges == self.edges_view(),
                    n == self.nodes_view().len(),
                    is_adjacent_edge_list(edges, m, true, inc@),
                    is_comp_table(sccs, n, scc_of@),
                    strictly_sorted(preds@),
                    forall|p: usize| #[trigger] preds@.contains(p) <==> preds0.contains(p) || (p != i && exists|kk: int|
                        0 <= kk < k && scc_of@[(#[trigger] inc@[kk]).1 as int] == p),
                decreases inc.len() - k,
            {
                let (_e, src, _dst) = inc[k];
                let p = scc_of[src];
                if p != i {
                    sorted_insert(&mut preds, p);
                }
                proof {
                    assert forall|q: usize| #[trigger] preds@.contains(q) <==> preds0.contains(q) || (q != i && exists|kk: int|
                        0 <= kk < k + 1 && scc_of@[(#[trigger] inc@[kk]).1 as int] == q) by {
                        if q != i && exists|kk: int| 0 <= kk < k + 1 && scc_of@[(#[trigger] inc@[kk]).1 as int] == q {
                            let kk = choose|kk: int| 0 <= kk < k + 1 && scc_of@[(#[trigger] inc@[kk]).1 as int] == q;
                            if kk == k {
                                assert(preds@.contains(q));
                            }
                        }
                    }
                }
                k += 1;
            }
            proof {
                assert forall|p: usize| #[trigger] preds@.contains(p) <==> p != i && exists|e: int|
                    0 <= e < edges.len() && comp@.subrange(0, j + 1).contains((#[trigger] edges[e]).1)
                        && scc_of@[edges[e].0 as int] == p by {
                    if preds@.contains(p) && !preds0.contains(p) {
                        let kk = choose|kk: int| 0 <= kk < inc@.len() && scc_of@[(#[trigger] inc@[kk]).1 as int] == p;
                        let e = inc@[kk].0 as int;
                        assert(edges[e].1 == m);
                        assert(comp@.subrange(0, j + 1)[j as int] == m);
                        assert(comp@.subrange(0, j + 1).contains(edges[e].1));
                    }
                    if preds0.contains(p) {
                        let e = choose|e: int|
                            0 <= e < edges.len() && comp@.subrange(0, j as int).contains((#[trigger] edges[e]).1)
                                && scc_of@[edges[e].0 as int] == p;
                        let x = choose|x: int| 0 <= x < j && #[trigger] comp@.subrange(0, j as int)[x] == edges[e].1;
                        assert(comp@.subrange(0, j + 1)[x] == edges[e].1);
                    }
                    if p != i && exists|e: int|
                        0 <= e < edges.len() && comp@.subrange(0, j + 1).contains((#[trigger] edges[e]).1)
                            && scc_of@[edges[e].0 as int] == p {
                        let e = choose|e: int|
                            0 <= e < edges.len() && comp@.subrange(0, j + 1).contains((#[trigger] edges[e]).1)
                                && scc_of@[edges[e].0 as int] == p;
                        let x = choose|x: int| 0 <= x < j + 1 && #[trigger] comp@.subrange(0, j + 1)[x] == edges[e].1;
                        if x == j {
                            assert(edges[e].1 == m);
                            let kk = choose|kk: int| 0 <= kk < inc@.len() && (#[trigger] inc@[kk]).0 == e;
                            assert(scc_of@[inc@[kk].1 as int] == p);
                        } else {
                            assert(comp@.subrange(0, j as int)[x] == edges[e].1);
                        }
                    }
                }
            }
            j += 1;
        }
        proof {
            assert(comp@.subrange(0, comp@.len() as int) =~= comp@);
            assert forall|p: usize| #[trigger] preds@.contains(p) <==> p < sccs.len() && comp_pred(edges, sccs, i as int, p as int) by {
                if preds@.contains(p) {
                    let e = choose|e: int|
                        0 <= e < edges.len() && comp@.contains((#[trigger] edges[e]).1) && scc_of@[edges[e].0 as int] == p;
                    let x = choose|x: int| 0 <= x < comp@.len() && #[trigger] comp@[x] == edges[e].1;
                    assert(in_comp(sccs, edges[e].1, i as int));
                    assert(scc_of@[edges[e].0 as int] < sccs.len());
                }
                if p < sccs.len() && comp_pred(edges, sccs, i as int, p as int) {
                    let e = choose|e: int|
                        0 <= e < edges.len() && in_comp(sccs, (#[trigger] edges[e]).1, i as int) && in_comp(sccs, edges[e].0, p as int);
                    let x = choose|x: int| 0 <= x < sccs[i as int].len() && #[trigger] sccs[i as int][x] == edges[e].1;
                    assert(comp@[x] == edges[e].1);
                    let c = scc_of@[edges[e].0 as int];
                    lemma_comp_unique(n, edges, sccs, edges[e].0, c as int, p as int);
                }
            }
        }
        preds
    }

    /// The roots of component `i`, given those of every later component.
    fn comp_roots(
        &self,
        i: usize,
        sccs: &Vec<Vec<usize>>,
        scc_of: &Vec<usize>,
        roots: &Vec<Vec<usize>>,
        Ghost(s): Ghost<Seq<Seq<usize>>>,
    ) -> (rs: Vec<usize>)
        requires
            self.wf(),
            s == sccs@.map_values(|c: Vec<usize>| c@),
            is_scc_order(self.nodes_view().len(), self.edges_view(), s),
            i < s.len(),
            is_comp_table(s, self.nodes_view().len(), scc_of@),
            roots@.len() == s.len(),
            forall|j: int| i < j < s.len() ==> strictly_sorted(#[trigger] roots@[j]@) && forall|r: usize|
                #[trigger] roots@[j]@.contains(r) <==> comp_root(self.edges_view(), s, j, r),
        ensures
            strictly_sorted(rs@),
            forall|r: usize| #[trigger] rs@.contains(r) <==> comp_root(self.edges_view(), s, i as int, r),
    {
        let ghost edges = self.edges_view();
        let ghost n = self.nodes_view().len();
        let comp = &sccs[i];
        let slen = sccs.len();
        proof {
            assert(comp@ == s[i as int]);
            assert(s.len() == sccs@.len());
            assert(s.len() == slen);
        }
        let preds = self.comp_preds(i, comp, scc_of, Ghost(s));
        proof {
            lemma_preds_later(n, edges, s, i as int, preds@);
        }
        if preds.len() == 0 {
            let rep = comp_min(comp);
            let mut rs: Vec<usize> = Vec::new();
            rs.push(rep);
            proof {
                lemma_source_case(n, edges, s, i as int, rep, preds@);
                assert forall|r: usize| #[trigger] rs@.contains(r) <==> comp_root(edges, s, i as int, r) by {
                    if rs@.contains(r) {
                        assert(rs@[0] == r);
                    }
                    if r == rep {
                        assert(rs@[0] == r);
                    }
                }
            }
            return rs;
        }
        let rs = if preds.len() == 1 {
            let rs = roots[preds[0]].clone();
            proof {
                assert forall|r: usize| #[trigger] rs@.contains(r) <==> exists|t: int|
                    0 <= t < preds@.len() && roots@[(#[trigger] preds@[t]) as int]@.contains(r) by {
                    if exists|t: int| 0 <= t < preds@.len() && roots@[(#[trigger] preds@[t]) as int]@.contains(r) {
                        let t = choose|t: int| 0 <= t < preds@.len() && roots@[(#[trigger] preds@[t]) as int]@.contains(r);
                        assert(t == 0);
                    }
                }
            }
            rs
        } else {
            union_roots(&preds, roots)
        };
        proof {
            lemma_inner_case(n, edges, s, i as int, preds@, roots@.map_values(|v: Vec<usize>| v@));
            assert forall|r: usize| #[trigger] rs@.contains(r) <==> comp_root(edges, s, i as int, r) by {
                if rs@.contains(r) {
                    let t = choose|t: int| 0 <= t < preds@.len() && roots@[(#[trigger] preds@[t]) as int]@.contains(r);
                    assert(roots@.map_values(|v: Vec<usize>| v@)[preds@[t] as int].contains(r));
                }
                if comp_root(edges, s, i as int, r) {
                    let t = choose|t: int| 0 <= t < preds@.len() && roots@.map_values(|v: Vec<usize>| v@)[(#[trigger] preds@[t]) as int].contains(r);
                    assert(roots@[preds@[t] as int]@.contains(r));
                }
            }
        }
        rs
    }

    /// The backward roots of every node, in one pass over the strongly
    /// connected components in topological order. A node's roots are the
    /// sources it flows from; a component that no edge enters from outside is
    /// its own root, named by its least node, and any other component has the
    /// roots of the components that enter it.
    pub fn backward_roots_table(&self) -> (t: BackwardRootsTable)
        requires
            self.wf(),
        ensures
            t.is_table_of(self.nodes_view(), self.edges_view()),
    {
        let ghost edges = self.edges_view();
        let ghost nodes = self.nodes_view();
        let n = flow_graph_node_count(&self.graph);
        let mut node_paths: Vec<Path> = Vec::new();
        let mut v: usize = 0;
        while v < n
            invariant
                n == nodes.len(),
                nodes == self.nodes_view(),
                0 <= v <= n,
                node_paths@ == nodes.subrange(0, v as int).map_values(|d: DFGNode| d.path),
            decreases n - v,
        {
            let w = flow_graph_node(&self.graph, v);
            node_paths.push(w.path);
            proof {
                assert(nodes.subrange(0, v + 1).map_values(|d: DFGNode| d.path) =~= nodes.subrange(0, v as int).map_values(
                    |d: DFGNode| d.path,
                ).push(w.path));
            }
            v += 1;
        }
        proof {
            assert(nodes.subrange(0, n as int) =~= nodes);
        }
        let sccs = flow_graph_sccs(&self.graph);
        let ghost s = sccs@.map_values(|c: Vec<usize>| c@);
        let mut scc_of: Vec<usize> = Vec::new();
        let mut v: usize = 0;
        while v < n
            invariant
                0 <= v <= n,
                scc_of@.len() == v,
            decreases n - v,
        {
            scc_of.push(usize::MAX);
            v += 1;
        }
        let mut i: usize = 0;
        while i < sccs.len()
            invariant
                0 <= i <= sccs@.len(),
                s == sccs@.map_values(|c: Vec<usize>| c@),
                n == nodes.len(),
                is_scc_order(n as nat, edges, s),
                scc_of@.len() == n,
                forall|ii: int, jj: int| 0 <= ii < i && 0 <= jj < s[ii].len() ==> scc_of@[(#[trigger] s[ii][jj]) as int] == ii,
            decreases sccs.len() - i,
        {
            let comp = &sccs[i];
            proof {
                assert(comp@ == s[i as int]);
            }
            let mut j: usize = 0;
            while j < comp.len()
                invariant
                    0 <= j <= comp@.len(),
                    comp@ == s[i as int],
                    i < s.len(),
                    n == nodes.len(),
                    is_scc_order(n as nat, edges, s),
                    scc_of@.len() == n,
                    forall|ii: int, jj: int| 0 <= ii < i && 0 <= jj < s[ii].len() ==> scc_of@[(#[trigger] s[ii][jj]) as int] == ii,
                    forall|jj: int| 0 <= jj < j ==> scc_of@[(#[trigger] s[i as int][jj]) as int] == i,
                decreases comp.len() - j,
            {
                let x = comp[j];
                proof {
                    assert(s[i as int][j as int] == x);
                    assert(x < n);
                }
                scc_of.set(x, i);
                proof {
                    assert forall|ii: int, jj: int| 0 <= ii < i && 0 <= jj < s[ii].len() implies scc_of@[(#[trigger] s[ii][jj]) as int] == ii by {
                        if s[ii][jj] == x {
                            assert(s[ii][jj] == s[i as int][j as int]);
                        }
                    }
                    assert forall|jj: int| 0 <= jj < j + 1 implies scc_of@[(#[trigger] s[i as int][jj]) as int] == i by {
                        if jj < j && s[i as int][jj] == x {
                            assert(s[i as int][jj] == s[i as int][j as int]);
                        }
                    }
                }
                j += 1;
            }
            i += 1;
        }
        proof {
            assert forall|v: int| 0 <= v < n implies (#[trigger] scc_of@[v]) < s.len() && in_comp(s, v as usize, scc_of@[v] as int) by {
                assert(has_comp(s, v as usize));
                let ii = choose|ii: int| 0 <= ii < s.len() && #[trigger] in_comp(s, v as usize, ii);
                let jj = choose|jj: int| 0 <= jj < s[ii].len() && #[trigger] s[ii][jj] == v as usize;
                assert(scc_of@[s[ii][jj] as int] == ii);
            }
            assert(is_comp_table(s, n as nat, scc_of@));
        }
        let mut roots: Vec<Vec<usize>> = Vec::new();
        let mut k: usize = 0;
        while k < sccs.len()
            invariant
                0 <= k <= sccs@.len(),
                roots@.len() == k,
            decreases sccs.len() - k,
        {
            roots.push(Vec::new());
            k += 1;
        }
        let mut i: usize = sccs.len();
        while i > 0
            invariant
                0 <= i <= s.len(),
                s.len() == sccs@.len(),
                s == sccs@.map_values(|c: Vec<usize>| c@),
                self.wf(),
                edges == self.edges_view(),
                nodes == self.nodes_view(),
                is_scc_order(nodes.len(), edges, s),
                is_comp_table(s, nodes.len(), scc_of@),
                roots@.len() == s.len(),
                forall|j: int| i <= j < s.len() ==> strictly_sorted(#[trigger] roots@[j]@) && forall|r: usize|
                    #[trigger] roots@[j]@.contains(r) <==> comp_root(edges, s, j, r),
            decreases i,
        {
            i -= 1;
            let rs = self.comp_roots(i, &sccs, &scc_of, &roots, Ghost(s));
            roots.set(i, rs);
        }
        let t = BackwardRootsTable { node_paths, scc_of, roots };
        proof {
            assert forall|v: int, r: usize| 0 <= v < nodes.len() implies (#[trigger] t.roots_view(v).contains(r)
                <==> is_flow_source(edges, r) && reaches(edges, r, v as usize)) by {
                let c = scc_of@[v] as int;
                lemma_comp_member(nodes.len(), edges, s, c, v as usize, r);
            }
        }
        t
    }
}

} // verus!
