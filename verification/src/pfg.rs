//! The pointer flow graph of one function.

use vstd::prelude::*;
use petgraph::graph::Graph;
use crate::ids::{
    FuncId, Location, Path, PathRoot, contains_location, insert_location, insert_usize, spec_parameter_ordinal,
    lemma_push_contains,
};
use crate::graph::{reaches, flow_graph_edge_list};
use crate::reach::{reach_backward, reach_forward, reached_from};
use crate::graph::{
    flow_graph_nodes, flow_graph_edges, flow_graph_new, flow_graph_add_node, flow_graph_add_edge,
    flow_graph_node_count, flow_graph_node, flow_graph_outgoing, flow_graph_edge_count, edges_valid,
};

verus! {

/// A node of a pointer flow graph: the path it stands for.
#[derive(Clone, Copy, Debug, PartialEq, Eq, Structural)]
pub struct DFGNode {
    pub path: Path,
}

impl DFGNode {
    pub fn new(path: Path) -> (n: DFGNode)
        ensures
            n.path == path,
    {
        DFGNode { path }
    }

    /// Returns the path of the node.
    pub fn path(&self) -> (p: &Path)
        ensures
            *p == self.path,
    {
        &self.path
    }
}

/// One way in which a pointer flows between two locals: an assignment inside
/// the function, or the argument-to-result flow of the call at a location.
#[derive(Clone, Copy, Debug, PartialEq, Eq, Hash, Structural)]
pub enum PFGEdgeEnum {
    IntraPFGEdge,
    CallPFGEdge(Location),
}

/// What connects two locals in the flow graph: whether an assignment does, and
/// every callsite whose argument-to-result flow does (each location once).
#[derive(Clone, Debug)]
pub struct PFGEdge {
    pub intra: bool,
    pub call_locs: Vec<Location>,
}

impl PFGEdge {
    /// A copy of the edge weight.
    pub fn duplicate(&self) -> (e: PFGEdge)
        ensures
            e.intra == self.intra,
            e.call_locs@ == self.call_locs@,
    {
        PFGEdge { intra: self.intra, call_locs: self.call_locs.clone() }
    }

    /// The edge that records exactly one flow.
    pub fn from_kind(kind: PFGEdgeEnum) -> (e: PFGEdge)
        ensures
            e.intra == (kind == PFGEdgeEnum::IntraPFGEdge),
            e.call_locs@ == match kind {
                PFGEdgeEnum::IntraPFGEdge => Seq::<Location>::empty(),
                PFGEdgeEnum::CallPFGEdge(l) => seq![l],
            },
    {
        match kind {
            PFGEdgeEnum::IntraPFGEdge => PFGEdge { intra: true, call_locs: Vec::new() },
            PFGEdgeEnum::CallPFGEdge(l) => {
                let mut v = Vec::new();
                v.push(l);
                PFGEdge { intra: false, call_locs: v }
            },
        }
    }
}

/// The arguments that carry pointers at a callsite, as (argument position,
/// path of the argument local), and the path of the local receiving the result.
#[derive(Clone, Debug)]
pub struct CallsiteLocals {
    pub location: Location,
    pub args: Vec<(usize, Path)>,
    pub destination: Path,
}

/// One merged flow-entry callsite: the call to `callee` at `location` is
/// represented by the call at `canonical`.
#[derive(Clone, Copy, Debug, PartialEq, Eq, Structural)]
pub struct FlowEntryMerge {
    pub location: Location,
    pub callee: FuncId,
    pub canonical: Location,
}

/// The pointer flow graph of a function, with what the analysis records of
/// its callsites.
pub struct FuncPFG {
    pub graph: Graph<DFGNode, ()>,
    /// The weight of each edge of `graph`, by edge index.
    pub edge_data: Vec<PFGEdge>,
    pub func_id: FuncId,
    /// Whether some parameter flows to the result.
    pub has_arg_to_return_flow: bool,
    /// For each callsite whose result carries a pointer, its pointer arguments and destination.
    pub callsite_to_locals: Vec<CallsiteLocals>,
    pub static_callsites: Vec<Location>,
    /// Calls through `Fn*` of a function pointer or function item.
    pub fn_ptr_def_callsites: Vec<Location>,
    /// Calls through `Fn*` of a closure, coroutine or trait object.
    pub closure_dyn_callsites: Vec<Location>,
    /// Callsites that lie on a flow from a parameter to the result.
    pub cs_callsites: Vec<Location>,
    /// Parameters that flow to the result.
    pub param_with_flow: Vec<usize>,
    /// The function is a compiler-generated closure or coroutine body.
    pub is_closure_body: bool,
    /// The function is a trait-method implementation taking `self`.
    pub has_self_parameter: bool,
    /// Redundant flow-entry callsites, keyed by (location, callee).
    pub flow_entry_merge: Vec<FlowEntryMerge>,
}

/// `nodes` holds a node for `p`.
pub open spec fn has_path(nodes: Seq<DFGNode>, p: Path) -> bool {
    exists|i: int| 0 <= i < nodes.len() && (#[trigger] nodes[i]).path == p
}

/// `i` is the first index of a node for `p`.
pub open spec fn is_first_index(nodes: Seq<DFGNode>, p: Path, i: int) -> bool {
    &&& 0 <= i < nodes.len()
    &&& nodes[i].path == p
    &&& forall|j: int| 0 <= j < i ==> (#[trigger] nodes[j]).path != p
}

/// The first index of a node for `p` (meaningful when there is one).
pub open spec fn first_index(nodes: Seq<DFGNode>, p: Path) -> int {
    choose|i: int| is_first_index(nodes, p, i)
}

/// The nodes after looking `p` up and adding a node for it if there was none.
pub open spec fn nodes_with(nodes: Seq<DFGNode>, p: Path) -> Seq<DFGNode> {
    if has_path(nodes, p) {
        nodes
    } else {
        nodes.push(DFGNode { path: p })
    }
}

/// No two nodes stand for the same path.
pub open spec fn paths_unique(nodes: Seq<DFGNode>) -> bool {
    forall|i: int, j: int| 0 <= i < j < nodes.len() ==> (#[trigger] nodes[i]).path != (#[trigger] nodes[j]).path
}

/// Every edge carries an intra-procedural assignment or a call location.
pub open spec fn edges_labelled(p: FuncPFG) -> bool {
    forall|e: int| 0 <= e < p.edge_data@.len() ==> (#[trigger] p.edge_data@[e]).intra || p.edge_data@[e].call_locs@.len() > 0
}

/// Adding a path that has no node keeps the nodes' paths apart.
pub proof fn lemma_nodes_with_unique(nodes: Seq<DFGNode>, p: Path)
    requires
        paths_unique(nodes),
    ensures
        paths_unique(nodes_with(nodes, p)),
{
    if !has_path(nodes, p) {
        let n2 = nodes.push(DFGNode { path: p });
        assert forall|i: int, j: int| 0 <= i < j < n2.len() implies (#[trigger] n2[i]).path != (#[trigger] n2[j]).path by {
            assert(n2[i] == nodes[i]);
            if j < nodes.len() {
                assert(n2[j] == nodes[j]);
            } else {
                if nodes[i].path == p {
                    assert(has_path(nodes, p));
                }
            }
        }
    }
}

pub proof fn lemma_first_index(nodes: Seq<DFGNode>, p: Path)
    requires
        has_path(nodes, p),
    ensures
        is_first_index(nodes, p, first_index(nodes, p)),
        forall|i: int| is_first_index(nodes, p, i) ==> i == first_index(nodes, p),
{
    let k = choose|i: int| 0 <= i < nodes.len() && (#[trigger] nodes[i]).path == p;
    lemma_first_index_below(nodes, p, k);
    let f = first_index(nodes, p);
    assert forall|i: int| is_first_index(nodes, p, i) implies i == f by {
        if i < f {
            assert(nodes[i].path != p);
        } else if i > f {
            assert(nodes[f].path != p);
        }
    }
}

proof fn lemma_first_index_below(nodes: Seq<DFGNode>, p: Path, k: int)
    requires
        0 <= k < nodes.len(),
        nodes[k].path == p,
    ensures
        exists|i: int| is_first_index(nodes, p, i),
    decreases k,
{
    if forall|j: int| 0 <= j < k ==> (#[trigger] nodes[j]).path != p {
        assert(is_first_index(nodes, p, k));
    } else {
        let j = choose|j: int| 0 <= j < k && (#[trigger] nodes[j]).path != p == false;
        lemma_first_index_below(nodes, p, j);
    }
}

/// Looking a path up in a node list that already holds it leaves the list as
/// it is, and the index found is kept by later appends.
pub proof fn lemma_first_index_push(nodes: Seq<DFGNode>, p: Path, w: DFGNode)
    requires
        has_path(nodes, p),
    ensures
        has_path(nodes.push(w), p),
        first_index(nodes.push(w), p) == first_index(nodes, p),
{
    lemma_first_index(nodes, p);
    let f = first_index(nodes, p);
    assert(nodes.push(w)[f] == nodes[f]);
    assert(is_first_index(nodes.push(w), p, f));
    lemma_first_index(nodes.push(w), p);
}

/// The index of the edge `s -> d`, if any (there is at most one).
pub open spec fn has_edge(edges: Seq<(usize, usize)>, s: usize, d: usize) -> bool {
    exists|e: int| 0 <= e < edges.len() && #[trigger] edges[e] == (s, d)
}

impl FuncPFG {
    /// The node weights of the graph.
    pub open spec fn nodes_view(&self) -> Seq<DFGNode> {
        flow_graph_nodes(self.graph)
    }

    /// The edges of the graph as (source, target).
    pub open spec fn edges_view(&self) -> Seq<(usize, usize)> {
        flow_graph_edges(self.graph)
    }

    /// The graph is consistent: one weight per edge, endpoints that exist,
    /// no two edges between the same ordered pair of nodes, no location twice
    /// in an edge's call locations, and sizes within the graph's index type;
    /// no callsite has two entries, no location or parameter is listed twice,
    /// and no call has two merge entries.
    pub open spec fn wf(&self) -> bool {
        &&& self.edge_data.len() == self.edges_view().len()
        &&& self.nodes_view().len() <= u32::MAX
        &&& self.edges_view().len() <= u32::MAX
        &&& edges_valid(self.nodes_view().len(), self.edges_view())
        &&& forall|e1: int, e2: int|
            0 <= e1 < self.edges_view().len() && 0 <= e2 < self.edges_view().len() && e1 != e2
                ==> #[trigger] self.edges_view()[e1] != #[trigger] self.edges_view()[e2]
        &&& forall|e: int|
            0 <= e < self.edge_data.len() ==> (#[trigger] self.edge_data@[e]).call_locs@.no_duplicates()
        &&& callsite_keys_distinct(self.callsite_to_locals@)
        &&& self.static_callsites@.no_duplicates()
        &&& self.fn_ptr_def_callsites@.no_duplicates()
        &&& self.closure_dyn_callsites@.no_duplicates()
        &&& self.cs_callsites@.no_duplicates()
        &&& self.param_with_flow@.no_duplicates()
        &&& merge_keys_distinct(self.flow_entry_merge@)
    }

    pub fn new(func_id: FuncId, is_closure_body: bool, has_self_parameter: bool) -> (pfg: FuncPFG)
        ensures
            pfg.wf(),
            pfg.nodes_view() == Seq::<DFGNode>::empty(),
            pfg.edges_view() == Seq::<(usize, usize)>::empty(),
            pfg.func_id == func_id,
            !pfg.has_arg_to_return_flow,
            pfg.callsite_to_locals@ == Seq::<CallsiteLocals>::empty(),
            pfg.static_callsites@ == Seq::<Location>::empty(),
            pfg.fn_ptr_def_callsites@ == Seq::<Location>::empty(),
            pfg.closure_dyn_callsites@ == Seq::<Location>::empty(),
            pfg.cs_callsites@ == Seq::<Location>::empty(),
            pfg.param_with_flow@ == Seq::<usize>::empty(),
            paths_unique(pfg.nodes_view()),
            edges_labelled(pfg),
            pfg.is_closure_body == is_closure_body,
            pfg.has_self_parameter == has_self_parameter,
            pfg.flow_entry_merge@ == Seq::<FlowEntryMerge>::empty(),
    {
        FuncPFG {
            graph: flow_graph_new(),
            edge_data: Vec::new(),
            func_id,
            has_arg_to_return_flow: false,
            callsite_to_locals: Vec::new(),
            static_callsites: Vec::new(),
            fn_ptr_def_callsites: Vec::new(),
            closure_dyn_callsites: Vec::new(),
            cs_callsites: Vec::new(),
            param_with_flow: Vec::new(),
            is_closure_body,
            has_self_parameter,
            flow_entry_merge: Vec::new(),
        }
    }

    /// Adds a node for `path`, whether or not one exists, and returns its index.
    pub fn add_node(&mut self, path: Path) -> (n: usize)
        requires
            old(self).wf(),
            old(self).nodes_view().len() < u32::MAX,
        ensures
            final(self).wf(),
            n == old(self).nodes_view().len(),
            final(self).nodes_view() == old(self).nodes_view().push(DFGNode { path }),
            final(self).edges_view() == old(self).edges_view(),
            final(self).edge_data@ == old(self).edge_data@,
            final(self).same_records(*old(self)),
    {
        flow_graph_add_node(&mut self.graph, DFGNode::new(path))
    }

    /// Everything but the graph is unchanged.
    pub open spec fn same_records(&self, other: FuncPFG) -> bool {
        &&& self.func_id == other.func_id
        &&& self.has_arg_to_return_flow == other.has_arg_to_return_flow
        &&& self.callsite_to_locals@ == other.callsite_to_locals@
        &&& self.static_callsites@ == other.static_callsites@
        &&& self.fn_ptr_def_callsites@ == other.fn_ptr_def_callsites@
        &&& self.closure_dyn_callsites@ == other.closure_dyn_callsites@
        &&& self.cs_callsites@ == other.cs_callsites@
        &&& self.param_with_flow@ == other.param_with_flow@
        &&& self.is_closure_body == other.is_closure_body
        &&& self.has_self_parameter == other.has_self_parameter
        &&& self.flow_entry_merge@ == other.flow_entry_merge@
    }

    /// The index of the first node for `path`, if there is one.
    pub fn find_node(&self, path: Path) -> (r: Option<usize>)
        requires
            self.wf(),
        ensures
            match r {
                Some(i) => has_path(self.nodes_view(), path) && i == first_index(self.nodes_view(), path),
                None => !has_path(self.nodes_view(), path),
            },
    {
        let n = flow_graph_node_count(&self.graph);
        let mut i: usize = 0;
        while i < n
            invariant
                n == self.nodes_view().len(),
                0 <= i <= n,
                forall|j: int| 0 <= j < i ==> (#[trigger] self.nodes_view()[j]).path != path,
            decreases n - i,
        {
            let w = flow_graph_node(&self.graph, i);
            if w.path == path {
                proof {
                    assert(is_first_index(self.nodes_view(), path, i as int));
                    lemma_first_index(self.nodes_view(), path);
                }
                return Some(i);
            }
            i += 1;
        }
        None
    }

    /// The index of the first node for `path`, adding one if there is none.
    pub fn get_or_insert_node(&mut self, path: Path) -> (n: usize)
        requires
            old(self).wf(),
            nodes_with(old(self).nodes_view(), path).len() <= u32::MAX,
        ensures
            final(self).wf(),
            final(self).nodes_view() == nodes_with(old(self).nodes_view(), path),
            paths_unique(old(self).nodes_view()) ==> paths_unique(final(self).nodes_view()),
            has_path(final(self).nodes_view(), path),
            n == first_index(final(self).nodes_view(), path),
            final(self).edges_view() == old(self).edges_view(),
            final(self).edge_data@ == old(self).edge_data@,
            final(self).same_records(*old(self)),
    {
        proof {
            if paths_unique(old(self).nodes_view()) {
                lemma_nodes_with_unique(old(self).nodes_view(), path);
            }
        }
        match self.find_node(path) {
            Some(i) => i,
            None => {
                let i = self.add_node(path);
                proof {
                    let nodes = self.nodes_view();
                    assert(nodes[i as int].path == path);
                    assert forall|j: int| 0 <= j < i implies (#[trigger] nodes[j]).path != path by {
                        assert(nodes[j] == old(self).nodes_view()[j]);
                    }
                    assert(is_first_index(nodes, path, i as int));
                    lemma_first_index(nodes, path);
                }
                i
            },
        }
    }

    /// The index of the edge `s -> d`, if there is one.
    pub fn find_edge(&self, s: usize, d: usize) -> (r: Option<usize>)
        requires
            self.wf(),
            s < self.nodes_view().len(),
        ensures
            match r {
                Some(e) => e < self.edges_view().len() && self.edges_view()[e as int] == (s, d),
                None => !has_edge(self.edges_view(), s, d),
            },
    {
        let out = flow_graph_outgoing(&self.graph, s);
        let mut k: usize = 0;
        while k < out.len()
            invariant
                0 <= k <= out.len(),
                crate::graph::is_adjacent_edge_list(self.edges_view(), s, false, out@),
                forall|j: int| 0 <= j < k ==> (#[trigger] out@[j]).2 != d,
            decreases out.len() - k,
        {
            let (e, _src, dst) = out[k];
            if dst == d {
                return Some(e);
            }
            k += 1;
        }
        proof {
            if has_edge(self.edges_view(), s, d) {
                let e = choose|e: int| 0 <= e < self.edges_view().len() && #[trigger] self.edges_view()[e] == (s, d);
                let kk = choose|kk: int| 0 <= kk < out@.len() && (#[trigger] out@[kk]).0 == e;
                assert(out@[kk].2 == d);
            }
        }
        None
    }

    /// Records `kind` on the edge from `src` to `dst`, adding their nodes and
    /// the edge where missing. Returns whether this added information: a new
    /// edge, a first assignment flow, or a call location not yet recorded.
    pub fn add_edge(&mut self, src: Path, dst: Path, kind: PFGEdgeEnum) -> (added: bool)
        requires
            old(self).wf(),
            nodes_with(nodes_with(old(self).nodes_view(), src), dst).len() <= u32::MAX,
            old(self).edges_view().len() < u32::MAX,
        ensures
            final(self).wf(),
            final(self).same_records(*old(self)),
            final(self).nodes_view() == nodes_with(nodes_with(old(self).nodes_view(), src), dst),
            add_edge_post(*old(self), *final(self), src, dst, kind, added),
            paths_unique(old(self).nodes_view()) ==> paths_unique(final(self).nodes_view()),
            edges_labelled(*old(self)) ==> edges_labelled(*final(self)),
    {
        proof {
            if has_path(nodes_with(old(self).nodes_view(), src), src) {
            }
        }
        let s = self.get_or_insert_node(src);
        let ghost mid = self.nodes_view();
        let d = self.get_or_insert_node(dst);
        proof {
            assert(has_path(mid, src));
            if !has_path(mid, dst) {
                lemma_first_index_push(mid, src, DFGNode { path: dst });
            }
            lemma_first_index(self.nodes_view(), src);
            lemma_first_index(self.nodes_view(), dst);
        }
        match self.find_edge(s, d) {
            Some(e) => {
                proof {
                    let edges = self.edges_view();
                    assert forall|e2: int| 0 <= e2 < edges.len() && #[trigger] edges[e2] == (s, d) implies e2 == e as int by {
                        if e2 != e {
                            assert(edges[e2] != edges[e as int]);
                        }
                    }
                }
                let mut data = self.edge_data[e].duplicate();
                let added = match kind {
                    PFGEdgeEnum::IntraPFGEdge => {
                        let was = data.intra;
                        data.intra = true;
                        !was
                    },
                    PFGEdgeEnum::CallPFGEdge(l) => insert_location(&mut data.call_locs, l),
                };
                self.edge_data.set(e, data);
                added
            },
            None => {
                let e = flow_graph_add_edge(&mut self.graph, s, d);
                self.edge_data.push(PFGEdge::from_kind(kind));
                true
            },
        }
    }

    /// The path of this function's result.
    pub open spec fn return_path(&self) -> Path {
        Path { func_id: self.func_id, root: PathRoot::ReturnValue, field: None }
    }

    /// The indices of the nodes that stand for whole parameters.
    fn param_node_list(&self) -> (ps: Vec<usize>)
        requires
            self.wf(),
        ensures
            is_param_list(self.nodes_view(), ps@),
    {
        let n0 = flow_graph_node_count(&self.graph);
        let mut param_nodes: Vec<usize> = Vec::new();
        let mut i: usize = 0;
        while i < n0
            invariant
                n0 == self.nodes_view().len(),
                0 <= i <= n0,
                forall|k: int| 0 <= k < param_nodes@.len() ==> (#[trigger] param_nodes@[k]) < i
                    && is_param_node(self.nodes_view(), param_nodes@[k] as int),
                forall|j: int| 0 <= j < i && is_param_node(self.nodes_view(), j) ==> param_nodes@.contains(j as usize),
            decreases n0 - i,
        {
            let w = flow_graph_node(&self.graph, i);
            if w.path.parameter_ordinal().is_some() {
                proof {
                    lemma_push_contains(param_nodes@, i);
                }
                param_nodes.push(i);
            }
            i += 1;
        }
        param_nodes
    }

    /// The ordinals of the parameter nodes of `ps` that `marks` flags, each once.
    fn collect_param_with_flow(&self, ps: &Vec<usize>, marks: &Vec<bool>) -> (pw: Vec<usize>)
        requires
            self.wf(),
            marks@.len() == self.nodes_view().len(),
            forall|k: int| 0 <= k < ps@.len() ==> (#[trigger] ps@[k]) < self.nodes_view().len(),
        ensures
            pw@.no_duplicates(),
            forall|o: usize| #[trigger] pw@.contains(o) <==> exists|j: int|
                0 <= j < ps@.len() && spec_parameter_ordinal(self.nodes_view()[(#[trigger] ps@[j]) as int].path)
                    == Some(o) && marks@[ps@[j] as int],
    {
        let ghost nodes = self.nodes_view();
        let mut pw: Vec<usize> = Vec::new();
        let mut k: usize = 0;
        while k < ps.len()
            invariant
                0 <= k <= ps.len(),
                self.wf(),
                nodes == self.nodes_view(),
                marks@.len() == nodes.len(),
                forall|j: int| 0 <= j < ps@.len() ==> (#[trigger] ps@[j]) < nodes.len(),
                pw@.no_duplicates(),
                forall|o: usize| #[trigger] pw@.contains(o) <==> exists|j: int|
                    0 <= j < k && spec_parameter_ordinal(nodes[(#[trigger] ps@[j]) as int].path) == Some(o)
                        && marks@[ps@[j] as int],
            decreases ps.len() - k,
        {
            let p = ps[k];
            let ghost pw0 = pw@;
            let w = flow_graph_node(&self.graph, p);
            let ord = w.path.parameter_ordinal();
            if marks[p] {
                match ord {
                    Some(o) => {
                        proof {
                            lemma_push_contains(pw0, o);
                        }
                        insert_usize(&mut pw, o);
                    },
                    None => {},
                }
            }
            proof {
                assert(spec_parameter_ordinal(nodes[p as int].path) == ord);
                assert forall|o: usize| #[trigger] pw@.contains(o) <==> exists|j: int|
                    0 <= j < k + 1 && spec_parameter_ordinal(nodes[(#[trigger] ps@[j]) as int].path) == Some(o)
                        && marks@[ps@[j] as int] by {
                    let old_has = exists|j: int|
                        0 <= j < k && spec_parameter_ordinal(nodes[(#[trigger] ps@[j]) as int].path) == Some(o)
                            && marks@[ps@[j] as int];
                    assert(pw0.contains(o) == old_has);
                    if marks@[p as int] && ord == Some(o) {
                        assert(pw@.contains(o));
                        assert(ps@[k as int] == p);
                    }
                    if exists|j: int|
                        0 <= j < k + 1 && spec_parameter_ordinal(nodes[(#[trigger] ps@[j]) as int].path) == Some(o)
                            && marks@[ps@[j] as int] {
                        if !old_has {
                            let j = choose|j: int|
                                0 <= j < k + 1 && spec_parameter_ordinal(nodes[(#[trigger] ps@[j]) as int].path)
                                    == Some(o) && marks@[ps@[j] as int];
                            assert(j == k);
                        }
                    }
                }
            }
            k += 1;
        }
        pw
    }

    /// Every call location of every edge whose source `from` flags and whose
    /// target `to` flags, each once.
    fn collect_cs_callsites(&self, from: &Vec<bool>, to: &Vec<bool>) -> (cs: Vec<Location>)
        requires
            self.wf(),
            from@.len() == self.nodes_view().len(),
            to@.len() == self.nodes_view().len(),
        ensures
            cs@.no_duplicates(),
            forall|l: Location| #[trigger] cs@.contains(l) <==> exists|f: int|
                0 <= f < self.edges_view().len() && from@[(#[trigger] self.edges_view()[f]).0 as int]
                    && to@[self.edges_view()[f].1 as int] && self.edge_data@[f].call_locs@.contains(l),
    {
        let mut cs: Vec<Location> = Vec::new();
        let ghost edges = self.edges_view();
        let ghost nodes = self.nodes_view();
        let edge_list = flow_graph_edge_list(&self.graph);
        let ghost g0 = self.graph;
        let ghost ed00 = self.edge_data@;
        let mut e: usize = 0;
        while e < edge_list.len()
            invariant
                0 <= e <= edge_list.len(),
                self.graph == g0,
                self.edge_data@ == ed00,
                self.wf(),
                nodes == self.nodes_view(),
                edges == self.edges_view(),
                edge_list@ == edges,
                from@.len() == nodes.len(),
                to@.len() == nodes.len(),
                cs@.no_duplicates(),
                forall|l: Location| #[trigger] cs@.contains(l) <==> exists|f: int|
                    0 <= f < e && from@[(#[trigger] edges[f]).0 as int] && to@[edges[f].1 as int]
                        && self.edge_data@[f].call_locs@.contains(l),
            decreases edge_list.len() - e,
        {
            let (u, v) = edge_list[e];
            let ghost cs0 = cs@;
            proof {
                assert(edges[e as int] == (u, v));
            }
            if from[u] && to[v] {
                let ghost ed0 = self.edge_data@;
                let locs = &self.edge_data[e].call_locs;
                let mut j: usize = 0;
                while j < locs.len()
                    invariant
                        0 <= j <= locs.len(),
                        self.graph == g0,
                        self.wf(),
                        nodes == self.nodes_view(),
                        edges == self.edges_view(),
                        self.edge_data@ == ed0,
                        e < ed0.len(),
                        locs@ == ed0[e as int].call_locs@,
                        cs@.no_duplicates(),
                        forall|l: Location| #[trigger] cs@.contains(l) <==> cs0.contains(l) || exists|jj: int| 0 <= jj < j && locs@[jj] == l,
                    decreases locs.len() - j,
                {
                    let ghost c1 = cs@;
                    proof {
                        lemma_push_contains(c1, locs@[j as int]);
                    }
                    insert_location(&mut cs, locs[j]);
                    proof {
                        assert forall|l: Location| #[trigger] cs@.contains(l) <==> cs0.contains(l) || exists|jj: int| 0 <= jj < j + 1 && locs@[jj] == l by {
                            if l == locs@[j as int] {
                                assert(cs@.contains(l));
                            }
                            if exists|jj: int| 0 <= jj < j + 1 && locs@[jj] == l {
                                let jj = choose|jj: int| 0 <= jj < j + 1 && locs@[jj] == l;
                                if jj < j {
                                    assert(c1.contains(l));
                                }
                            }
                        }
                    }
                    j += 1;
                }
                proof {
                    assert forall|l: Location| #[trigger] cs@.contains(l) <==> cs0.contains(l) || self.edge_data@[e as int].call_locs@.contains(l) by {
                        if self.edge_data@[e as int].call_locs@.contains(l) {
                            let jj = choose|jj: int| 0 <= jj < locs@.len() && locs@[jj] == l;
                        }
                    }
                }
            }
            proof {
                let take = from@[u as int] && to@[v as int];
                assert forall|l: Location| #[trigger] cs@.contains(l) <==> exists|f: int|
                    0 <= f < e + 1 && from@[(#[trigger] edges[f]).0 as int] && to@[edges[f].1 as int]
                        && self.edge_data@[f].call_locs@.contains(l) by {
                    if take && self.edge_data@[e as int].call_locs@.contains(l) {
                        assert(cs@.contains(l));
                    }
                    if cs@.contains(l) && !cs0.contains(l) {
                        assert(take && self.edge_data@[e as int].call_locs@.contains(l));
                    }
                    if exists|f: int|
                        0 <= f < e + 1 && from@[(#[trigger] edges[f]).0 as int] && to@[edges[f].1 as int]
                            && self.edge_data@[f].call_locs@.contains(l) {
                        let f = choose|f: int|
                            0 <= f < e + 1 && from@[(#[trigger] edges[f]).0 as int] && to@[edges[f].1 as int]
                                && self.edge_data@[f].call_locs@.contains(l);
                        if f == e {
                            assert(take);
                        }
                    }
                }
            }
            e += 1;
        }
        cs
    }

    /// Solves reachability in the graph: adds the result's node if missing,
    /// then records whether some parameter flows to the result, which
    /// parameters do, and the call locations on edges that lie on such a flow.
    /// When no parameter flows to the result, `param_with_flow` is left as it
    /// was and `cs_callsites` is emptied.
    pub fn solve_graph_reachability(&mut self)
        requires
            old(self).wf(),
            nodes_with(old(self).nodes_view(), old(self).return_path()).len() <= u32::MAX,
        ensures
            final(self).wf(),
            final(self).nodes_view() == nodes_with(old(self).nodes_view(), old(self).return_path()),
            paths_unique(old(self).nodes_view()) ==> paths_unique(final(self).nodes_view()),
            final(self).edges_view() == old(self).edges_view(),
            final(self).edge_data@ == old(self).edge_data@,
            final(self).func_id == old(self).func_id,
            final(self).callsite_to_locals@ == old(self).callsite_to_locals@,
            final(self).static_callsites@ == old(self).static_callsites@,
            final(self).fn_ptr_def_callsites@ == old(self).fn_ptr_def_callsites@,
            final(self).closure_dyn_callsites@ == old(self).closure_dyn_callsites@,
            final(self).is_closure_body == old(self).is_closure_body,
            final(self).has_self_parameter == old(self).has_self_parameter,
            final(self).flow_entry_merge@ == old(self).flow_entry_merge@,
            extends(*old(self), *final(self)),
            final(self).has_arg_to_return_flow == final(self).spec_arg_to_return_flow(),
            final(self).has_arg_to_return_flow ==> {
                &&& final(self).param_with_flow@.no_duplicates()
                &&& forall|o: usize| #[trigger] final(self).param_with_flow@.contains(o) <==> final(self).spec_param_with_flow(o)
                &&& final(self).cs_callsites@.no_duplicates()
                &&& forall|l: Location| #[trigger] final(self).cs_callsites@.contains(l) <==> final(self).spec_cs_callsite(l)
            },
            !final(self).has_arg_to_return_flow ==> {
                &&& final(self).param_with_flow@ == old(self).param_with_flow@
                &&& final(self).cs_callsites@ == Seq::<Location>::empty()
            },
    {
        self.has_arg_to_return_flow = false;
        self.cs_callsites = Vec::new();
        let ghost before = *self;
        let ret = self.get_or_insert_node(Path::new_return_value(self.func_id));
        proof {
            assert forall|i: int| 0 <= i < before.nodes_view().len() implies #[trigger] self.nodes_view()[i] == before.nodes_view()[i] by {
                if !has_path(before.nodes_view(), self.return_path()) {
                    assert(self.nodes_view() == before.nodes_view().push(DFGNode { path: self.return_path() }));
                }
            }
            assert(extends(before, *self));
        }
        let param_nodes = self.param_node_list();
        let ghost nodes = self.nodes_view();
        let ghost edges = self.edges_view();
        proof {
            lemma_first_index(nodes, self.return_path());
        }
        let reaches_ret = reach_backward(&self.graph, ret);
        let from_param = reach_forward(&self.graph, &param_nodes);
        let flows = any_marked(&param_nodes, &reaches_ret);
        proof {
            lemma_param_list_flow(nodes, edges, param_nodes@, reaches_ret@, ret);
        }
        self.has_arg_to_return_flow = flows;
        if !flows {
            return;
        }
        let pw = self.collect_param_with_flow(&param_nodes, &reaches_ret);
        let cs = self.collect_cs_callsites(&from_param, &reaches_ret);
        proof {
            lemma_param_list_reached(nodes, edges, param_nodes@, from_param@);
            lemma_param_list_ordinals(nodes, edges, param_nodes@, reaches_ret@, ret);
            lemma_cs_marks(nodes, edges, self.edge_data@, from_param@, reaches_ret@, ret);
        }
        self.param_with_flow = pw;
        self.cs_callsites = cs;
    }

    /// The first node for `path`, if there is one.
    pub fn get_node(&self, path: Path) -> (r: Option<DFGNode>)
        requires
            self.wf(),
        ensures
            match r {
                Some(d) => has_path(self.nodes_view(), path) && d == self.nodes_view()[first_index(self.nodes_view(), path)],
                None => !has_path(self.nodes_view(), path),
            },
    {
        match self.find_node(path) {
            Some(i) => {
                proof {
                    lemma_first_index(self.nodes_view(), path);
                }
                Some(flow_graph_node(&self.graph, i))
            },
            None => None,
        }
    }

    /// The nodes of the graph, by index.
    pub fn nodes(&self) -> (r: Vec<DFGNode>)
        requires
            self.wf(),
        ensures
            r@ == self.nodes_view(),
    {
        let n = flow_graph_node_count(&self.graph);
        let mut r: Vec<DFGNode> = Vec::new();
        let mut i: usize = 0;
        while i < n
            invariant
                n == self.nodes_view().len(),
                0 <= i <= n,
                r@ == self.nodes_view().subrange(0, i as int),
            decreases n - i,
        {
            r.push(flow_graph_node(&self.graph, i));
            proof {
                assert(self.nodes_view().subrange(0, i + 1) =~= self.nodes_view().subrange(0, i as int).push(
                    self.nodes_view()[i as int],
                ));
            }
            i += 1;
        }
        proof {
            assert(self.nodes_view().subrange(0, n as int) =~= self.nodes_view());
        }
        r
    }

    /// Whether the call at `loc` lies on a flow from a parameter to the result.
    pub fn is_cs_callsite(&self, loc: &Location) -> (r: bool)
        ensures
            r == self.cs_callsites@.contains(*loc),
    {
        contains_location(&self.cs_callsites, *loc)
    }

    /// The callsite that represents the call to `callee` at `loc`: the
    /// canonical location recorded for the pair, or `loc` itself when the pair
    /// was not merged.
    pub fn canonical_flow_entry(&self, loc: &Location, callee: FuncId) -> (r: Location)
        ensures
            r == spec_canonical_flow_entry(self.flow_entry_merge@, *loc, callee),
    {
        let mut i: usize = 0;
        while i < self.flow_entry_merge.len()
            invariant
                0 <= i <= self.flow_entry_merge@.len(),
                forall|j: int| 0 <= j < i ==> !(#[trigger] self.flow_entry_merge@[j]).matches(*loc, callee),
            decreases self.flow_entry_merge.len() - i,
        {
            let m = self.flow_entry_merge[i];
            if m.location == *loc && m.callee == callee {
                proof {
                    assert(is_first_merge(self.flow_entry_merge@, *loc, callee, i as int));
                    lemma_first_merge_unique(self.flow_entry_merge@, *loc, callee, i as int);
                }
                return m.canonical;
            }
            i += 1;
        }
        *loc
    }

    /// Whether some edge out of node `n` records the call at `loc`.
    pub fn flows_at_callsite(&self, n: usize, loc: &Location) -> (r: bool)
        requires
            self.wf(),
            n < self.nodes_view().len(),
        ensures
            r == exists|e: int|
                0 <= e < self.edges_view().len() && (#[trigger] self.edges_view()[e]).0 == n
                    && self.edge_data@[e].call_locs@.contains(*loc),
    {
        let out = flow_graph_outgoing(&self.graph, n);
        let mut k: usize = 0;
        while k < out.len()
            invariant
                self.wf(),
                n < self.nodes_view().len(),
                crate::graph::is_adjacent_edge_list(self.edges_view(), n, false, out@),
                0 <= k <= out@.len(),
                forall|j: int| 0 <= j < k ==> !self.edge_data@[(#[trigger] out@[j]).0 as int].call_locs@.contains(*loc),
            decreases out.len() - k,
        {
            let (e, _s, _d) = out[k];
            if contains_location(&self.edge_data[e].call_locs, *loc) {
                return true;
            }
            k += 1;
        }
        proof {
            if exists|e: int|
                0 <= e < self.edges_view().len() && (#[trigger] self.edges_view()[e]).0 == n
                    && self.edge_data@[e].call_locs@.contains(*loc) {
                let e = choose|e: int|
                    0 <= e < self.edges_view().len() && (#[trigger] self.edges_view()[e]).0 == n
                        && self.edge_data@[e].call_locs@.contains(*loc);
                let kk = choose|kk: int| 0 <= kk < out@.len() && (#[trigger] out@[kk]).0 == e;
            }
        }
        false
    }

    /// The index of the first callsite entry for `loc`.
    pub fn callsite_index(&self, loc: &Location) -> (r: Option<usize>)
        ensures
            match r {
                Some(j) => is_first_entry(self.callsite_to_locals@, *loc, j as int),
                None => forall|j: int| 0 <= j < self.callsite_to_locals@.len() ==> (#[trigger] self.callsite_to_locals@[j]).location != *loc,
            },
    {
        let mut i: usize = 0;
        while i < self.callsite_to_locals.len()
            invariant
                0 <= i <= self.callsite_to_locals@.len(),
                forall|j: int| 0 <= j < i ==> (#[trigger] self.callsite_to_locals@[j]).location != *loc,
            decreases self.callsite_to_locals.len() - i,
        {
            if self.callsite_to_locals[i].location == *loc {
                return Some(i);
            }
            i += 1;
        }
        None
    }

    /// The recorded pointer arguments and destination of the call at `loc`.
    pub fn callsite_locals(&self, loc: &Location) -> (r: Option<&CallsiteLocals>)
        ensures
            match r {
                Some(c) => exists|j: int|
                    0 <= j < self.callsite_to_locals@.len() && self.callsite_to_locals@[j] == *c && c.location == *loc
                        && forall|jj: int| 0 <= jj < j ==> (#[trigger] self.callsite_to_locals@[jj]).location != *loc,
                None => forall|j: int| 0 <= j < self.callsite_to_locals@.len() ==> (#[trigger] self.callsite_to_locals@[j]).location != *loc,
            },
    {
        let mut i: usize = 0;
        while i < self.callsite_to_locals.len()
            invariant
                0 <= i <= self.callsite_to_locals@.len(),
                forall|j: int| 0 <= j < i ==> (#[trigger] self.callsite_to_locals@[j]).location != *loc,
            decreases self.callsite_to_locals.len() - i,
        {
            if self.callsite_to_locals[i].location == *loc {
                return Some(&self.callsite_to_locals[i]);
            }
            i += 1;
        }
        None
    }

    /// The index of the result's node.
    pub open spec fn return_node(&self) -> usize {
        first_index(self.nodes_view(), self.return_path()) as usize
    }

    /// Some parameter flows to the result.
    pub open spec fn spec_arg_to_return_flow(&self) -> bool {
        from_params(self.nodes_view(), self.edges_view(), self.return_node())
    }

    /// Parameter `o` flows to the result.
    pub open spec fn spec_param_with_flow(&self, o: usize) -> bool {
        param_flows(self.nodes_view(), self.edges_view(), self.return_node(), o)
    }

    /// The call at `l` lies on a flow from a parameter to the result: it labels
    /// an edge whose source a parameter reaches and whose target reaches the result.
    pub open spec fn spec_cs_callsite(&self, l: Location) -> bool {
        on_param_flow(self.nodes_view(), self.edges_view(), self.edge_data@, self.return_node(), l)
    }
}

/// No two callsite entries are for the same location.
pub open spec fn callsite_keys_distinct(c: Seq<CallsiteLocals>) -> bool {
    forall|i: int, j: int| 0 <= i < j < c.len() ==> (#[trigger] c[i]).location != (#[trigger] c[j]).location
}

/// No two merge entries are for the same call.
pub open spec fn merge_keys_distinct(m: Seq<FlowEntryMerge>) -> bool {
    forall|i: int, j: int| 0 <= i < j < m.len() ==> !(#[trigger] m[i]).matches((#[trigger] m[j]).location, m[j].callee)
}

/// `j` is the first callsite entry for `loc`.
pub open spec fn is_first_entry(c: Seq<CallsiteLocals>, loc: Location, j: int) -> bool {
    &&& 0 <= j < c.len()
    &&& c[j].location == loc
    &&& forall|jj: int| 0 <= jj < j ==> (#[trigger] c[jj]).location != loc
}

impl FlowEntryMerge {
    pub open spec fn matches(self, loc: Location, callee: FuncId) -> bool {
        self.location == loc && self.callee == callee
    }
}

/// `i` is the first entry for the call to `callee` at `loc`.
pub open spec fn is_first_merge(m: Seq<FlowEntryMerge>, loc: Location, callee: FuncId, i: int) -> bool {
    &&& 0 <= i < m.len()
    &&& m[i].matches(loc, callee)
    &&& forall|j: int| 0 <= j < i ==> !(#[trigger] m[j]).matches(loc, callee)
}

/// The canonical location of the call to `callee` at `loc` in the merge
/// entries: that of the first entry for the pair, or `loc` when there is none.
pub open spec fn spec_canonical_flow_entry(m: Seq<FlowEntryMerge>, loc: Location, callee: FuncId) -> Location {
    if exists|i: int| is_first_merge(m, loc, callee, i) {
        m[choose|i: int| is_first_merge(m, loc, callee, i)].canonical
    } else {
        loc
    }
}

pub proof fn lemma_first_merge_unique(m: Seq<FlowEntryMerge>, loc: Location, callee: FuncId, i: int)
    requires
        is_first_merge(m, loc, callee, i),
    ensures
        spec_canonical_flow_entry(m, loc, callee) == m[i].canonical,
{
    let k = choose|k: int| is_first_merge(m, loc, callee, k);
    if k < i {
        assert(!m[k].matches(loc, callee));
    } else if k > i {
        assert(!m[i].matches(loc, callee));
    }
}

/// What `add_edge(src, dst, kind)` does to the graph `a`, giving `b`, and
/// what it returns: the edge between the first nodes of `src` and `dst`
/// records `kind`, and `added` tells whether that was new.
pub open spec fn add_edge_post(a: FuncPFG, b: FuncPFG, src: Path, dst: Path, kind: PFGEdgeEnum, added: bool) -> bool {

                let nodes = b.nodes_view();
                let s = first_index(nodes, src) as usize;
                let d = first_index(nodes, dst) as usize;
                &&& has_path(nodes, src) && has_path(nodes, dst)
                &&& if has_edge(a.edges_view(), s, d) {
                    let e = choose|e: int|
                        0 <= e < a.edges_view().len() && #[trigger] a.edges_view()[e] == (s, d);
                    &&& b.edges_view() == a.edges_view()
                    &&& b.edge_data@.len() == a.edge_data@.len()
                    &&& forall|f: int|
                        0 <= f < a.edge_data@.len() && f != e ==> #[trigger] b.edge_data@[f]
                            == a.edge_data@[f]
                    &&& match kind {
                        PFGEdgeEnum::IntraPFGEdge => {
                            &&& b.edge_data@[e].intra
                            &&& b.edge_data@[e].call_locs@ == a.edge_data@[e].call_locs@
                            &&& added == !a.edge_data@[e].intra
                        },
                        PFGEdgeEnum::CallPFGEdge(l) => {
                            &&& b.edge_data@[e].intra == a.edge_data@[e].intra
                            &&& added == !a.edge_data@[e].call_locs@.contains(l)
                            &&& b.edge_data@[e].call_locs@ == if added {
                                a.edge_data@[e].call_locs@.push(l)
                            } else {
                                a.edge_data@[e].call_locs@
                            }
                        },
                    }
                } else {
                    &&& added
                    &&& b.edges_view() == a.edges_view().push((s, d))
                    &&& b.edge_data@.len() == a.edge_data@.len() + 1
                    &&& forall|f: int|
                        0 <= f < a.edge_data@.len() ==> #[trigger] b.edge_data@[f]
                            == a.edge_data@[f]
                    &&& b.edge_data@.last().intra == (kind == PFGEdgeEnum::IntraPFGEdge)
                    &&& b.edge_data@.last().call_locs@ == match kind {
                        PFGEdgeEnum::IntraPFGEdge => Seq::<Location>::empty(),
                        PFGEdgeEnum::CallPFGEdge(l) => seq![l],
                    }
                }
            
}

/// `b` extends `a`: nodes and edges are kept at their indices, with new ones
/// appended, and every call location an edge recorded is still recorded.
pub open spec fn extends(a: FuncPFG, b: FuncPFG) -> bool {
    &&& a.nodes_view().len() <= b.nodes_view().len()
    &&& forall|i: int| 0 <= i < a.nodes_view().len() ==> #[trigger] b.nodes_view()[i] == a.nodes_view()[i]
    &&& a.edges_view().len() <= b.edges_view().len()
    &&& forall|e: int| 0 <= e < a.edges_view().len() ==> #[trigger] b.edges_view()[e] == a.edges_view()[e]
    &&& a.edge_data@.len() <= b.edge_data@.len()
    &&& forall|e: int, l: Location|
        0 <= e < a.edge_data@.len() && #[trigger] a.edge_data@[e].call_locs@.contains(l) ==> b.edge_data@[e].call_locs@.contains(l)
}

/// The graph records the call at `l` on the edge from the first node of
/// `src` to the first node of `dst`.
pub open spec fn call_flow_recorded(p: FuncPFG, src: Path, dst: Path, l: Location) -> bool {
    let nodes = p.nodes_view();
    let edges = p.edges_view();
    &&& has_path(nodes, src)
    &&& has_path(nodes, dst)
    &&& exists|e: int|
        0 <= e < edges.len() && #[trigger] edges[e] == (first_index(nodes, src) as usize, first_index(nodes, dst) as usize)
            && p.edge_data@[e].call_locs@.contains(l)
}

pub proof fn lemma_first_index_prefix(a: Seq<DFGNode>, b: Seq<DFGNode>, p: Path)
    requires
        has_path(a, p),
        a.len() <= b.len(),
        forall|i: int| 0 <= i < a.len() ==> #[trigger] b[i] == a[i],
    ensures
        has_path(b, p),
        first_index(b, p) == first_index(a, p),
{
    lemma_first_index(a, p);
    let f = first_index(a, p);
    assert(b[f] == a[f]);
    assert forall|j: int| 0 <= j < f implies (#[trigger] b[j]).path != p by {
        assert(b[j] == a[j]);
    }
    assert(is_first_index(b, p, f));
    lemma_first_index(b, p);
}

pub proof fn lemma_extends_recorded(a: FuncPFG, b: FuncPFG, src: Path, dst: Path, l: Location)
    requires
        extends(a, b),
        a.wf(),
        call_flow_recorded(a, src, dst, l),
    ensures
        call_flow_recorded(b, src, dst, l),
{
    lemma_first_index_prefix(a.nodes_view(), b.nodes_view(), src);
    lemma_first_index_prefix(a.nodes_view(), b.nodes_view(), dst);
    let edges = a.edges_view();
    let e = choose|e: int|
        0 <= e < edges.len() && #[trigger] edges[e] == (first_index(a.nodes_view(), src) as usize, first_index(a.nodes_view(), dst) as usize)
            && a.edge_data@[e].call_locs@.contains(l);
    assert(b.edges_view()[e] == edges[e]);
    assert(b.edge_data@[e].call_locs@.contains(l));
}

pub proof fn lemma_extends_trans(a: FuncPFG, b: FuncPFG, c: FuncPFG)
    requires
        extends(a, b),
        extends(b, c),
    ensures
        extends(a, c),
{
    assert forall|e: int, l: Location|
        0 <= e < a.edge_data@.len() && #[trigger] a.edge_data@[e].call_locs@.contains(l) implies c.edge_data@[e].call_locs@.contains(l) by {
        assert(b.edge_data@[e].call_locs@.contains(l));
    }
    assert forall|i: int| 0 <= i < a.nodes_view().len() implies #[trigger] c.nodes_view()[i] == a.nodes_view()[i] by {
        assert(b.nodes_view()[i] == a.nodes_view()[i]);
    }
    assert forall|e: int| 0 <= e < a.edges_view().len() implies #[trigger] c.edges_view()[e] == a.edges_view()[e] by {
        assert(b.edges_view()[e] == a.edges_view()[e]);
    }
}

/// The effects of `add_edge` that callers reason with.
pub proof fn lemma_add_edge_effects(a: FuncPFG, b: FuncPFG, src: Path, dst: Path, kind: PFGEdgeEnum, added: bool)
    requires
        a.wf(),
        b.wf(),
        b.nodes_view() == nodes_with(nodes_with(a.nodes_view(), src), dst),
        add_edge_post(a, b, src, dst, kind, added),
    ensures
        extends(a, b),
        !added ==> b.nodes_view() == a.nodes_view() && b.edges_view() == a.edges_view(),
        b.nodes_view().len() <= a.nodes_view().len() + 2,
        b.edges_view().len() <= a.edges_view().len() + 1,
        kind matches PFGEdgeEnum::CallPFGEdge(l) ==> call_flow_recorded(b, src, dst, l),
        kind matches PFGEdgeEnum::CallPFGEdge(l) ==> (added <==> !call_flow_recorded(a, src, dst, l)),
{
    let na = a.nodes_view();
    let nb = b.nodes_view();
    let s = first_index(nb, src) as usize;
    let d = first_index(nb, dst) as usize;
    lemma_first_index(nb, src);
    lemma_first_index(nb, dst);
    assert forall|i: int| 0 <= i < na.len() implies #[trigger] nb[i] == na[i] by {
        if !has_path(na, src) {
            assert(nodes_with(na, src)[i] == na[i]);
        }
        if !has_path(nodes_with(na, src), dst) {
            assert(nodes_with(nodes_with(na, src), dst)[i] == nodes_with(na, src)[i]);
        }
    }
    if has_edge(a.edges_view(), s, d) {
        let e = choose|e: int| 0 <= e < a.edges_view().len() && #[trigger] a.edges_view()[e] == (s, d);
        assert forall|f: int, l: Location|
            0 <= f < a.edge_data@.len() && #[trigger] a.edge_data@[f].call_locs@.contains(l) implies b.edge_data@[f].call_locs@.contains(l) by {
            if f == e {
                match kind {
                    PFGEdgeEnum::IntraPFGEdge => {},
                    PFGEdgeEnum::CallPFGEdge(l2) => {
                        crate::ids::lemma_push_contains(a.edge_data@[e].call_locs@, l2);
                    },
                }
            }
        }
        if kind matches PFGEdgeEnum::CallPFGEdge(l) {
            let l = kind->0;
            crate::ids::lemma_push_contains(a.edge_data@[e].call_locs@, l);
            assert(b.edges_view()[e] == (s, d));
            if has_path(na, src) && has_path(na, dst) {
                lemma_first_index_prefix(na, nb, src);
                lemma_first_index_prefix(na, nb, dst);
                if call_flow_recorded(a, src, dst, l) {
                    let e2 = choose|e2: int|
                        0 <= e2 < a.edges_view().len() && #[trigger] a.edges_view()[e2] == (first_index(na, src) as usize, first_index(na, dst) as usize)
                            && a.edge_data@[e2].call_locs@.contains(l);
                    assert(e2 == e) by {
                        if e2 != e {
                            assert(a.edges_view()[e2] != a.edges_view()[e]);
                        }
                    }
                }
            }
            if !added {
                assert(b.edge_data@[e].call_locs@.contains(l));
            }
        }
        if !added {
            assert(nb == na) by {
                if !has_path(na, src) || !has_path(na, dst) {
                    // a missing path would have no edge
                    if !has_path(na, src) {
                        assert(nodes_with(na, src).len() == na.len() + 1);
                        assert(s as int == na.len()) by {
                            let ni = nodes_with(na, src);
                            assert(ni[na.len() as int].path == src);
                            assert(is_first_index(ni, src, na.len() as int));
                            lemma_first_index(ni, src);
                            if !has_path(ni, dst) {
                                lemma_first_index_push(ni, src, DFGNode { path: dst });
                            }
                        }
                        assert(crate::graph::edges_valid(na.len(), a.edges_view()));
                        assert(a.edges_view()[e].0 < na.len());
                        assert(false);
                    }
                    if !has_path(na, dst) {
                        let ni = nodes_with(na, src);
                        assert(!has_path(ni, dst) || has_path(ni, dst));
                        if !has_path(ni, dst) {
                            assert(nb[ni.len() as int].path == dst);
                            assert(is_first_index(nb, dst, ni.len() as int));
                            assert(d as int == ni.len());
                            assert(a.edges_view()[e].1 < na.len());
                            assert(false);
                        } else {
                            let k = choose|k: int| 0 <= k < ni.len() && (#[trigger] ni[k]).path == dst;
                            assert(k == na.len());
                            assert(ni[k].path == src);
                            assert(has_path(na, src));
                            assert(nodes_with(na, src) == na);
                            assert(false);
                        }
                    }
                }
            }
        }
    } else {
        if kind matches PFGEdgeEnum::CallPFGEdge(l) {
            let l = kind->0;
            let e = a.edges_view().len() as int;
            assert(b.edges_view()[e] == (s, d));
            assert(b.edge_data@[e].call_locs@ == seq![l]);
            assert(b.edge_data@[e].call_locs@[0] == l);
            if call_flow_recorded(a, src, dst, l) {
                lemma_first_index_prefix(na, nb, src);
                lemma_first_index_prefix(na, nb, dst);
                let e2 = choose|e2: int|
                    0 <= e2 < a.edges_view().len() && #[trigger] a.edges_view()[e2] == (first_index(na, src) as usize, first_index(na, dst) as usize)
                        && a.edge_data@[e2].call_locs@.contains(l);
                assert(has_edge(a.edges_view(), s, d));
            }
        }
    }
}

/// The flag of an argument-to-result flow, when set, is backed by the graph:
/// the result has a node that some parameter reaches.
/// The flag says exactly whether the graph has a result node that a
/// parameter node reaches.
pub open spec fn flag_accurate(p: FuncPFG) -> bool {
    p.has_arg_to_return_flow == (has_path(p.nodes_view(), p.return_path()) && p.spec_arg_to_return_flow())
}

/// The recorded flowing parameters are exactly the parameters that flow to
/// the result, and none are recorded without a parameter-to-result flow.
pub open spec fn pwf_accurate(p: FuncPFG) -> bool {
    forall|o: usize| #[trigger] p.param_with_flow@.contains(o) <==> (p.has_arg_to_return_flow && p.spec_param_with_flow(o))
}

/// Extending a graph keeps every parameter's flow to the result.
pub proof fn lemma_param_flow_mono(a: FuncPFG, b: FuncPFG, o: usize)
    requires
        extends(a, b),
        b.func_id == a.func_id,
        has_path(a.nodes_view(), a.return_path()),
        a.spec_param_with_flow(o),
    ensures
        b.spec_param_with_flow(o),
{
    let na = a.nodes_view();
    let nb = b.nodes_view();
    lemma_first_index_prefix(na, nb, a.return_path());
    let i = choose|i: int|
        0 <= i < na.len() && spec_parameter_ordinal(na[i].path) == Some(o) && #[trigger] reaches(a.edges_view(), i as usize, a.return_node());
    assert(nb[i] == na[i]);
    crate::graph::lemma_reaches_mono(a.edges_view(), b.edges_view(), i as usize, a.return_node());
    assert(reaches(b.edges_view(), i as usize, b.return_node()));
}

pub open spec fn flow_consistent(p: FuncPFG) -> bool {
    p.has_arg_to_return_flow ==> has_path(p.nodes_view(), p.return_path()) && p.spec_arg_to_return_flow()
}

/// Extending a graph keeps a parameter-to-result flow.
pub proof fn lemma_flow_mono(a: FuncPFG, b: FuncPFG)
    requires
        extends(a, b),
        b.func_id == a.func_id,
        has_path(a.nodes_view(), a.return_path()),
        a.spec_arg_to_return_flow(),
    ensures
        has_path(b.nodes_view(), b.return_path()),
        b.spec_arg_to_return_flow(),
{
    let na = a.nodes_view();
    let nb = b.nodes_view();
    lemma_first_index_prefix(na, nb, a.return_path());
    let i = choose|i: int| 0 <= i < na.len() && is_param_node(na, i) && #[trigger] reaches(a.edges_view(), i as usize, a.return_node());
    assert(nb[i] == na[i]);
    crate::graph::lemma_reaches_mono(a.edges_view(), b.edges_view(), i as usize, a.return_node());
    assert(is_param_node(nb, i));
    assert(reaches(b.edges_view(), i as usize, b.return_node()));
}

/// Node `i` stands for a whole parameter.
pub open spec fn is_param_node(nodes: Seq<DFGNode>, i: int) -> bool {
    spec_parameter_ordinal(nodes[i].path).is_some()
}

/// Some node of a whole parameter reaches `v`.
pub open spec fn from_params(nodes: Seq<DFGNode>, edges: Seq<(usize, usize)>, v: usize) -> bool {
    exists|i: int| 0 <= i < nodes.len() && is_param_node(nodes, i) && #[trigger] reaches(edges, i as usize, v)
}

/// A node of parameter `o` reaches `ret`.
pub open spec fn param_flows(nodes: Seq<DFGNode>, edges: Seq<(usize, usize)>, ret: usize, o: usize) -> bool {
    exists|i: int|
        0 <= i < nodes.len() && spec_parameter_ordinal(nodes[i].path) == Some(o) && #[trigger] reaches(
            edges,
            i as usize,
            ret,
        )
}

/// Location `l` labels an edge whose source a parameter reaches and whose
/// target reaches `ret`.
pub open spec fn on_param_flow(
    nodes: Seq<DFGNode>,
    edges: Seq<(usize, usize)>,
    data: Seq<PFGEdge>,
    ret: usize,
    l: Location,
) -> bool {
    exists|f: int|
        0 <= f < edges.len() && from_params(nodes, edges, (#[trigger] edges[f]).0) && reaches(edges, edges[f].1, ret)
            && data[f].call_locs@.contains(l)
}

/// `ps` lists exactly the nodes of whole parameters.
pub open spec fn is_param_list(nodes: Seq<DFGNode>, ps: Seq<usize>) -> bool {
    &&& forall|k: int| 0 <= k < ps.len() ==> (#[trigger] ps[k]) < nodes.len() && is_param_node(nodes, ps[k] as int)
    &&& forall|j: int| 0 <= j < nodes.len() && is_param_node(nodes, j) ==> ps.contains(j as usize)
}

/// `marks` flags exactly the nodes that reach `ret`.
pub open spec fn marks_reaching(edges: Seq<(usize, usize)>, marks: Seq<bool>, ret: usize) -> bool {
    forall|v: usize| v < marks.len() ==> (#[trigger] marks[v as int] <==> reaches(edges, v, ret))
}

/// Whether `marks` flags some node of `ps`.
fn any_marked(ps: &Vec<usize>, marks: &Vec<bool>) -> (r: bool)
    requires
        forall|j: int| 0 <= j < ps@.len() ==> (#[trigger] ps@[j]) < marks@.len(),
    ensures
        r == exists|j: int| 0 <= j < ps@.len() && marks@[(#[trigger] ps@[j]) as int],
{
    let mut k: usize = 0;
    while k < ps.len()
        invariant
            0 <= k <= ps.len(),
            forall|j: int| 0 <= j < ps@.len() ==> (#[trigger] ps@[j]) < marks@.len(),
            forall|j: int| 0 <= j < k ==> !marks@[(#[trigger] ps@[j]) as int],
        decreases ps.len() - k,
    {
        if marks[ps[k]] {
            return true;
        }
        k += 1;
    }
    false
}

proof fn lemma_param_list_flow(
    nodes: Seq<DFGNode>,
    edges: Seq<(usize, usize)>,
    ps: Seq<usize>,
    marks: Seq<bool>,
    ret: usize,
)
    requires
        is_param_list(nodes, ps),
        marks.len() == nodes.len(),
        marks_reaching(edges, marks, ret),
    ensures
        (exists|j: int| 0 <= j < ps.len() && marks[(#[trigger] ps[j]) as int]) == from_params(nodes, edges, ret),
{
    if exists|j: int| 0 <= j < ps.len() && marks[(#[trigger] ps[j]) as int] {
        let j = choose|j: int| 0 <= j < ps.len() && marks[(#[trigger] ps[j]) as int];
        assert(reaches(edges, ps[j], ret));
    }
    if from_params(nodes, edges, ret) {
        let i = choose|i: int| 0 <= i < nodes.len() && is_param_node(nodes, i) && #[trigger] reaches(edges, i as usize, ret);
        assert(ps.contains(i as usize));
        let j = choose|j: int| 0 <= j < ps.len() && ps[j] == i as usize;
        assert(marks[ps[j] as int]);
    }
}

proof fn lemma_param_list_reached(nodes: Seq<DFGNode>, edges: Seq<(usize, usize)>, ps: Seq<usize>, from: Seq<bool>)
    requires
        is_param_list(nodes, ps),
        from.len() == nodes.len(),
        forall|v: usize| v < from.len() ==> (#[trigger] from[v as int] <==> reached_from(edges, ps, v)),
    ensures
        forall|v: usize| v < from.len() ==> (#[trigger] from[v as int] <==> from_params(nodes, edges, v)),
{
    assert forall|v: usize| v < from.len() implies (#[trigger] from[v as int] <==> from_params(nodes, edges, v)) by {
        if reached_from(edges, ps, v) {
            let kk = choose|kk: int| 0 <= kk < ps.len() && reaches(edges, #[trigger] ps[kk], v);
            assert(is_param_node(nodes, ps[kk] as int));
        }
        if from_params(nodes, edges, v) {
            let i = choose|i: int| 0 <= i < nodes.len() && is_param_node(nodes, i) && #[trigger] reaches(edges, i as usize, v);
            assert(ps.contains(i as usize));
            let kk = choose|kk: int| 0 <= kk < ps.len() && ps[kk] == i as usize;
            assert(reaches(edges, ps[kk], v));
        }
    }
}

proof fn lemma_param_list_ordinals(
    nodes: Seq<DFGNode>,
    edges: Seq<(usize, usize)>,
    ps: Seq<usize>,
    marks: Seq<bool>,
    ret: usize,
)
    requires
        is_param_list(nodes, ps),
        nodes.len() <= u32::MAX,
        marks.len() == nodes.len(),
        marks_reaching(edges, marks, ret),
    ensures
        forall|o: usize|
            (exists|j: int|
                0 <= j < ps.len() && spec_parameter_ordinal(nodes[(#[trigger] ps[j]) as int].path) == Some(o)
                    && marks[ps[j] as int]) <==> #[trigger] param_flows(nodes, edges, ret, o),
{
    assert forall|o: usize|
        (exists|j: int|
            0 <= j < ps.len() && spec_parameter_ordinal(nodes[(#[trigger] ps[j]) as int].path) == Some(o)
                && marks[ps[j] as int]) <==> #[trigger] param_flows(nodes, edges, ret, o) by {
        if exists|j: int|
            0 <= j < ps.len() && spec_parameter_ordinal(nodes[(#[trigger] ps[j]) as int].path) == Some(o)
                && marks[ps[j] as int] {
            let j = choose|j: int|
                0 <= j < ps.len() && spec_parameter_ordinal(nodes[(#[trigger] ps[j]) as int].path) == Some(o)
                    && marks[ps[j] as int];
            assert(reaches(edges, ps[j], ret));
        }
        if param_flows(nodes, edges, ret, o) {
            let i = choose|i: int|
                0 <= i < nodes.len() && spec_parameter_ordinal(nodes[i].path) == Some(o) && #[trigger] reaches(
                    edges,
                    i as usize,
                    ret,
                );
            assert(is_param_node(nodes, i));
            assert(ps.contains(i as usize));
            let kk = choose|kk: int| 0 <= kk < ps.len() && ps[kk] == i as usize;
            assert(ps[kk] as int == i);
            assert(marks[ps[kk] as int]);
            assert(spec_parameter_ordinal(nodes[ps[kk] as int].path) == Some(o));
        }
    }
}

proof fn lemma_cs_marks(
    nodes: Seq<DFGNode>,
    edges: Seq<(usize, usize)>,
    data: Seq<PFGEdge>,
    from: Seq<bool>,
    to: Seq<bool>,
    ret: usize,
)
    requires
        edges_valid(nodes.len(), edges),
        from.len() == nodes.len(),
        to.len() == nodes.len(),
        forall|v: usize| v < from.len() ==> (#[trigger] from[v as int] <==> from_params(nodes, edges, v)),
        marks_reaching(edges, to, ret),
    ensures
        forall|l: Location|
            (exists|f: int|
                0 <= f < edges.len() && from[(#[trigger] edges[f]).0 as int] && to[edges[f].1 as int]
                    && data[f].call_locs@.contains(l)) <==> #[trigger] on_param_flow(nodes, edges, data, ret, l),
{
    assert forall|l: Location|
        (exists|f: int|
            0 <= f < edges.len() && from[(#[trigger] edges[f]).0 as int] && to[edges[f].1 as int]
                && data[f].call_locs@.contains(l)) <==> #[trigger] on_param_flow(nodes, edges, data, ret, l) by {
        if exists|f: int|
            0 <= f < edges.len() && from[(#[trigger] edges[f]).0 as int] && to[edges[f].1 as int]
                && data[f].call_locs@.contains(l) {
            let f = choose|f: int|
                0 <= f < edges.len() && from[(#[trigger] edges[f]).0 as int] && to[edges[f].1 as int]
                    && data[f].call_locs@.contains(l);
            assert(from_params(nodes, edges, edges[f].0));
            assert(reaches(edges, edges[f].1, ret));
        }
        if on_param_flow(nodes, edges, data, ret, l) {
            let f = choose|f: int|
                0 <= f < edges.len() && from_params(nodes, edges, (#[trigger] edges[f]).0) && reaches(
                    edges,
                    edges[f].1,
                    ret,
                ) && data[f].call_locs@.contains(l);
            assert(from[edges[f].0 as int]);
            assert(to[edges[f].1 as int]);
        }
    }
}

} // verus!
