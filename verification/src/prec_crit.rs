//! Precision-critical function identification: propagating argument-to-result
//! flows from callees to callers over the call graph until nothing changes.

use vstd::prelude::*;
use std::collections::{HashMap, VecDeque};
use crate::ids::{FuncId, Location, Path, contains_location, contains_usize};
use crate::pfg::{
    FuncPFG, PFGEdgeEnum, CallsiteLocals, call_flow_recorded, extends, flag_accurate, pwf_accurate, lemma_param_flow_mono, has_path, nodes_with, lemma_extends_recorded,
    lemma_extends_trans, lemma_add_edge_effects, is_first_entry, flow_consistent, lemma_flow_mono,
    lemma_first_index_prefix, lemma_first_index_push, first_index, has_edge, add_edge_post, paths_unique, edges_labelled,
};

verus! {

/// A node of the call graph: a function, and whether it needs a calling context.
#[derive(Clone, Copy, Debug, PartialEq, Eq, Structural)]
pub struct CGNode {
    pub func: FuncId,
    pub req_cs: bool,
}

/// An edge of the call graph: node `src` calls node `dst` at `location`.
#[derive(Clone, Copy, Debug, PartialEq, Eq, Structural)]
pub struct CGEdge {
    pub src: usize,
    pub dst: usize,
    pub location: Location,
}

/// The call graph: at most one node per function.
pub struct CallGraph {
    pub nodes: Vec<CGNode>,
    pub edges: Vec<CGEdge>,
}

impl CallGraph {
    /// Edges join existing nodes, and no two nodes stand for one function.
    pub open spec fn wf(&self) -> bool {
        &&& forall|e: int|
            0 <= e < self.edges@.len() ==> (#[trigger] self.edges@[e]).src < self.nodes@.len()
                && self.edges@[e].dst < self.nodes@.len()
        &&& forall|i: int, j: int|
            0 <= i < self.nodes@.len() && 0 <= j < self.nodes@.len() && i != j ==> (#[trigger] self.nodes@[i]).func
                != (#[trigger] self.nodes@[j]).func
    }

    /// Whether edges join existing nodes and no two nodes stand for one function.
    pub fn is_well_formed(&self) -> (r: bool)
        ensures
            r == self.wf(),
    {
        let n = self.nodes.len();
        let mut e: usize = 0;
        while e < self.edges.len()
            invariant
                0 <= e <= self.edges@.len(),
                n == self.nodes@.len(),
                forall|e2: int| 0 <= e2 < e ==> (#[trigger] self.edges@[e2]).src < n && self.edges@[e2].dst < n,
            decreases self.edges.len() - e,
        {
            if self.edges[e].src >= n || self.edges[e].dst >= n {
                proof {
                    assert(!((self.edges@[e as int]).src < n && self.edges@[e as int].dst < n));
                }
                return false;
            }
            e += 1;
        }
        let mut i: usize = 0;
        while i < n
            invariant
                0 <= i <= n,
                n == self.nodes@.len(),
                forall|e2: int| 0 <= e2 < self.edges@.len() ==> (#[trigger] self.edges@[e2]).src < n && self.edges@[e2].dst < n,
                forall|a: int, b: int| 0 <= a < i && 0 <= b < n && a != b ==> (#[trigger] self.nodes@[a]).func != (#[trigger] self.nodes@[b]).func,
            decreases n - i,
        {
            let mut j: usize = 0;
            while j < n
                invariant
                    0 <= j <= n,
                    i < n,
                    n == self.nodes@.len(),
                    forall|b: int| 0 <= b < j && b != i ==> self.nodes@[i as int].func != (#[trigger] self.nodes@[b]).func,
                decreases n - j,
            {
                if j != i && self.nodes[i].func == self.nodes[j].func {
                    proof {
                        assert(self.nodes@[i as int].func == self.nodes@[j as int].func);
                    }
                    return false;
                }
                j += 1;
            }
            i += 1;
        }
        true
    }

    pub fn new() -> (g: CallGraph)
        ensures
            g.wf(),
            g.nodes@ == Seq::<CGNode>::empty(),
            g.edges@ == Seq::<CGEdge>::empty(),
    {
        CallGraph { nodes: Vec::new(), edges: Vec::new() }
    }

    /// The node of `func`, if it has one.
    pub fn func_node(&self, func: FuncId) -> (r: Option<usize>)
        requires
            self.wf(),
        ensures
            match r {
                Some(i) => i < self.nodes@.len() && self.nodes@[i as int].func == func,
                None => forall|i: int| 0 <= i < self.nodes@.len() ==> (#[trigger] self.nodes@[i]).func != func,
            },
    {
        let mut i: usize = 0;
        while i < self.nodes.len()
            invariant
                0 <= i <= self.nodes@.len(),
                forall|j: int| 0 <= j < i ==> (#[trigger] self.nodes@[j]).func != func,
            decreases self.nodes.len() - i,
        {
            if self.nodes[i].func == func {
                return Some(i);
            }
            i += 1;
        }
        None
    }

    /// Adds a node for `func` unless it has one; returns the node.
    pub fn get_or_add_node(&mut self, func: FuncId) -> (i: usize)
        requires
            old(self).wf(),
        ensures
            final(self).wf(),
            i < final(self).nodes@.len(),
            final(self).nodes@[i as int].func == func,
            final(self).edges@ == old(self).edges@,
            (exists|j: int| 0 <= j < old(self).nodes@.len() && (#[trigger] old(self).nodes@[j]).func == func)
                ==> final(self).nodes@ == old(self).nodes@,
            !(exists|j: int| 0 <= j < old(self).nodes@.len() && (#[trigger] old(self).nodes@[j]).func == func)
                ==> final(self).nodes@ == old(self).nodes@.push(CGNode { func, req_cs: false }),
    {
        match self.func_node(func) {
            Some(i) => i,
            None => {
                self.nodes.push(CGNode { func, req_cs: false });
                proof {
                    assert forall|e: int| 0 <= e < self.edges@.len() implies (#[trigger] self.edges@[e]).src < self.nodes@.len()
                        && self.edges@[e].dst < self.nodes@.len() by {
                        assert(old(self).edges@[e] == self.edges@[e]);
                    }
                }
                (self.nodes.len() - 1)
            },
        }
    }

    /// Adds the call from node `src` to node `dst` at `location`.
    pub fn add_edge(&mut self, src: usize, dst: usize, location: Location)
        requires
            old(self).wf(),
            src < old(self).nodes@.len(),
            dst < old(self).nodes@.len(),
        ensures
            final(self).wf(),
            final(self).nodes@ == old(self).nodes@,
            final(self).edges@ == old(self).edges@.push(CGEdge { src, dst, location }),
    {
        self.edges.push(CGEdge { src, dst, location });
    }
}

// ---------------------------------------------------------------------------
// Counting the call flows a graph records, to bound the propagation.
// ---------------------------------------------------------------------------

/// The flow from argument `k` of callsite entry `j` to the entry's
/// destination is recorded for the entry's location.
pub open spec fn entry_recorded(p: FuncPFG, j: int, k: int) -> bool {
    let c = p.callsite_to_locals@[j];
    call_flow_recorded(p, c.args@[k].1, c.destination, c.location)
}

/// How many of the first `k` arguments of entry `j` have their flow recorded.
pub open spec fn recorded_in_entry(p: FuncPFG, j: int, k: int) -> nat
    decreases k,
{
    if k <= 0 {
        0
    } else {
        recorded_in_entry(p, j, k - 1) + if entry_recorded(p, j, k - 1) { 1nat } else { 0nat }
    }
}

/// How many argument flows of the first `j` entries are recorded.
pub open spec fn recorded_upto(p: FuncPFG, j: int) -> nat
    decreases j,
{
    if j <= 0 {
        0
    } else {
        recorded_upto(p, j - 1) + recorded_in_entry(p, j - 1, p.callsite_to_locals@[j - 1].args@.len() as int)
    }
}

/// How many argument flows of all callsites are recorded.
pub open spec fn recorded_count(p: FuncPFG) -> nat {
    recorded_upto(p, p.callsite_to_locals@.len() as int)
}

/// The number of pointer arguments of the first `j` callsite entries.
pub open spec fn args_upto(c: Seq<CallsiteLocals>, j: int) -> nat
    decreases j,
{
    if j <= 0 {
        0
    } else {
        args_upto(c, j - 1) + c[j - 1].args@.len()
    }
}

/// The number of pointer arguments of all callsites.
pub open spec fn args_count(p: FuncPFG) -> nat {
    args_upto(p.callsite_to_locals@, p.callsite_to_locals@.len() as int)
}

proof fn lemma_recorded_in_entry_bound(p: FuncPFG, j: int, k: int)
    ensures
        recorded_in_entry(p, j, k) <= if k < 0 { 0 } else { k },
    decreases k,
{
    if k > 0 {
        lemma_recorded_in_entry_bound(p, j, k - 1);
    }
}

proof fn lemma_recorded_upto_bound(p: FuncPFG, j: int)
    requires
        j <= p.callsite_to_locals@.len(),
    ensures
        recorded_upto(p, j) <= args_upto(p.callsite_to_locals@, j),
    decreases j,
{
    if j > 0 {
        lemma_recorded_upto_bound(p, j - 1);
        lemma_recorded_in_entry_bound(p, j - 1, p.callsite_to_locals@[j - 1].args@.len() as int);
    }
}

/// No more flows are recorded than there are arguments.
pub proof fn lemma_recorded_bound(p: FuncPFG)
    ensures
        recorded_count(p) <= args_count(p),
{
    lemma_recorded_upto_bound(p, p.callsite_to_locals@.len() as int);
}

/// `q` records every argument flow `p` records.
pub open spec fn records_more(p: FuncPFG, q: FuncPFG) -> bool {
    &&& q.callsite_to_locals@ == p.callsite_to_locals@
    &&& forall|j: int, k: int|
        0 <= j < p.callsite_to_locals@.len() && 0 <= k < p.callsite_to_locals@[j].args@.len() && #[trigger] entry_recorded(
            p,
            j,
            k,
        ) ==> entry_recorded(q, j, k)
}

proof fn lemma_recorded_in_entry_mono(p: FuncPFG, q: FuncPFG, j: int, k: int, j0: int, k0: int)
    requires
        records_more(p, q),
        0 <= j < p.callsite_to_locals@.len(),
        k <= p.callsite_to_locals@[j].args@.len(),
    ensures
        recorded_in_entry(q, j, k) >= recorded_in_entry(p, j, k),
        j0 == j && 0 <= k0 < k && !entry_recorded(p, j0, k0) && entry_recorded(q, j0, k0) ==> recorded_in_entry(q, j, k)
            > recorded_in_entry(p, j, k),
    decreases k,
{
    if k > 0 {
        lemma_recorded_in_entry_mono(p, q, j, k - 1, j0, k0);
        if entry_recorded(p, j, k - 1) {
            assert(entry_recorded(q, j, k - 1));
        }
    }
}

proof fn lemma_recorded_upto_mono(p: FuncPFG, q: FuncPFG, j: int, j0: int, k0: int)
    requires
        records_more(p, q),
        j <= p.callsite_to_locals@.len(),
    ensures
        recorded_upto(q, j) >= recorded_upto(p, j),
        0 <= j0 < j && 0 <= k0 < p.callsite_to_locals@[j0].args@.len() && !entry_recorded(p, j0, k0) && entry_recorded(
            q,
            j0,
            k0,
        ) ==> recorded_upto(q, j) > recorded_upto(p, j),
    decreases j,
{
    if j > 0 {
        lemma_recorded_upto_mono(p, q, j - 1, j0, k0);
        lemma_recorded_in_entry_mono(p, q, j - 1, p.callsite_to_locals@[j - 1].args@.len() as int, j0, k0);
    }
}

/// Recording more flows never lowers the count, and recording a new one raises it.
pub proof fn lemma_recorded_mono(p: FuncPFG, q: FuncPFG, j0: int, k0: int)
    requires
        records_more(p, q),
    ensures
        recorded_count(q) >= recorded_count(p),
        0 <= j0 < p.callsite_to_locals@.len() && 0 <= k0 < p.callsite_to_locals@[j0].args@.len() && !entry_recorded(
            p,
            j0,
            k0,
        ) && entry_recorded(q, j0, k0) ==> recorded_count(q) > recorded_count(p),
{
    lemma_recorded_upto_mono(p, q, p.callsite_to_locals@.len() as int, j0, k0);
}

/// An extension with the same callsites records every flow the smaller graph records.
pub proof fn lemma_extends_records_more(p: FuncPFG, q: FuncPFG)
    requires
        p.wf(),
        extends(p, q),
        q.callsite_to_locals@ == p.callsite_to_locals@,
    ensures
        records_more(p, q),
{
    assert forall|j: int, k: int|
        0 <= j < p.callsite_to_locals@.len() && 0 <= k < p.callsite_to_locals@[j].args@.len() && #[trigger] entry_recorded(
            p,
            j,
            k,
        ) implies entry_recorded(q, j, k) by {
        let c = p.callsite_to_locals@[j];
        lemma_extends_recorded(p, q, c.args@[k].1, c.destination, c.location);
    }
}


/// Argument `idx` of a call carries flow to the call's result, given the
/// callee's parameters that flow to its result (`None` when the callee has no
/// flow graph, so that every argument does): a static call passes arguments
/// positionally, and a call through `Fn*` of a closure or trait object only
/// drops its receiver when that parameter has no flow.
pub open spec fn qualifies(pwf: Option<Seq<usize>>, is_static: bool, is_cd: bool, idx: usize) -> bool {
    match pwf {
        None => true,
        Some(pw) => (!is_static || pw.contains(idx)) && (!is_cd || pw.contains(idx) || idx != 1),
    }
}

/// Every argument of the call at `loc` that carries flow, for a callee with
/// the given flowing parameters, has its flow to the call's destination recorded.
pub open spec fn call_propagated_in(p: FuncPFG, loc: Location, pwf: Option<Seq<usize>>) -> bool {
    forall|j: int, k: int|
        is_first_entry(p.callsite_to_locals@, loc, j) && 0 <= k < p.callsite_to_locals@[j].args@.len() && qualifies(
            pwf,
            p.static_callsites@.contains(loc),
            p.closure_dyn_callsites@.contains(loc),
            p.callsite_to_locals@[j].args@[k].0,
        ) ==> #[trigger] entry_recorded(p, j, k)
}

/// The graph has room, within its index type, for every call flow its
/// callsites can still record and for the result's node.
pub open spec fn has_room(p: FuncPFG) -> bool {
    let missing = args_count(p) - recorded_count(p);
    &&& p.nodes_view().len() + 2 * missing + (if has_path(p.nodes_view(), p.return_path()) { 0int } else { 1int }) + 2
        <= u32::MAX
    &&& p.edges_view().len() + missing + 1 <= u32::MAX
}

/// What propagation keeps of a graph: everything but the graph, the flow
/// flag, the flowing parameters and the callsites on a flow.
pub open spec fn same_calls(a: FuncPFG, b: FuncPFG) -> bool {
    &&& b.func_id == a.func_id
    &&& b.callsite_to_locals@ == a.callsite_to_locals@
    &&& b.static_callsites@ == a.static_callsites@
    &&& b.fn_ptr_def_callsites@ == a.fn_ptr_def_callsites@
    &&& b.closure_dyn_callsites@ == a.closure_dyn_callsites@
    &&& b.is_closure_body == a.is_closure_body
    &&& b.has_self_parameter == a.has_self_parameter
    &&& b.flow_entry_merge@ == a.flow_entry_merge@
}

/// Whether argument `idx` carries flow (see `qualifies`).
fn arg_qualifies(pwf: &Option<Vec<usize>>, is_static: bool, is_cd: bool, idx: usize) -> (r: bool)
    ensures
        r == qualifies(
            match pwf {
                Some(v) => Some(v@),
                None => None,
            },
            is_static,
            is_cd,
            idx,
        ),
{
    match pwf {
        None => true,
        Some(pw) => {
            let c = contains_usize(pw, idx);
            (!is_static || c) && (!is_cd || c || idx != 1)
        },
    }
}

/// Edge `e` of `p` goes from the node of `src` to the node of `dst`.
pub open spec fn arg_edge(p: FuncPFG, e: int, src: Path, dst: Path) -> bool {
    &&& has_path(p.nodes_view(), src)
    &&& has_path(p.nodes_view(), dst)
    &&& 0 <= e < p.edges_view().len()
    &&& p.edges_view()[e] == (first_index(p.nodes_view(), src) as usize, first_index(p.nodes_view(), dst) as usize)
}

/// Edge `e` of `p` connects an argument of the call at `loc` that carries
/// flow, for a callee with the flowing parameters `pwf`, to the call's
/// destination.
pub open spec fn call_edge_for(p: FuncPFG, e: int, loc: Location, pwf: Option<Seq<usize>>) -> bool {
    exists|j: int, k: int|
        #![trigger p.callsite_to_locals@[j].args@[k]]
        is_first_entry(p.callsite_to_locals@, loc, j) && 0 <= k < p.callsite_to_locals@[j].args@.len() && qualifies(
            pwf,
            p.static_callsites@.contains(loc),
            p.closure_dyn_callsites@.contains(loc),
            p.callsite_to_locals@[j].args@[k].0,
        ) && arg_edge(p, e, p.callsite_to_locals@[j].args@[k].1, p.callsite_to_locals@[j].destination)
}

/// Every call flow that `b` records and `a` does not is one of the call at
/// `loc`, on an edge from an argument that carries flow to the destination.
pub open spec fn new_records_justified(a: FuncPFG, b: FuncPFG, loc: Location, pwf: Option<Seq<usize>>) -> bool {
    forall|e: int, l: Location|
        0 <= e < b.edge_data@.len() && #[trigger] b.edge_data@[e].call_locs@.contains(l) && !(e < a.edge_data@.len()
            && a.edge_data@[e].call_locs@.contains(l)) ==> l == loc && call_edge_for(b, e, loc, pwf)
}

/// `a` allows no more flowing parameters than `b`.
pub open spec fn pwf_le(a: Option<Seq<usize>>, b: Option<Seq<usize>>) -> bool {
    match (a, b) {
        (None, None) => true,
        (Some(x), Some(y)) => forall|o: usize| #[trigger] x.contains(o) ==> y.contains(o),
        _ => false,
    }
}

proof fn lemma_pwf_le_refl(pwf: Option<Seq<usize>>)
    ensures
        pwf_le(pwf, pwf),
{
}

/// Growing a graph without new call flows keeps them accounted for.
proof fn lemma_records_keep(p0: FuncPFG, a: FuncPFG, b: FuncPFG, loc: Location, pwf: Option<Seq<usize>>)
    requires
        new_records_justified(p0, a, loc, pwf),
        extends(a, b),
        same_calls(a, b),
        b.edge_data@ == a.edge_data@,
    ensures
        new_records_justified(p0, b, loc, pwf),
{
    lemma_pwf_le_refl(pwf);
    assert forall|e: int, l: Location|
        0 <= e < b.edge_data@.len() && #[trigger] b.edge_data@[e].call_locs@.contains(l) && !(e < p0.edge_data@.len()
            && p0.edge_data@[e].call_locs@.contains(l)) implies l == loc && call_edge_for(b, e, loc, pwf) by {
        assert(a.edge_data@[e].call_locs@.contains(l));
        lemma_call_edge_extends(a, b, e, loc, pwf, pwf);
    }
}

/// An edge between argument and destination stays one as the graph grows.
proof fn lemma_arg_edge_extends(a: FuncPFG, b: FuncPFG, e: int, src: Path, dst: Path)
    requires
        arg_edge(a, e, src, dst),
        extends(a, b),
    ensures
        arg_edge(b, e, src, dst),
{
    lemma_first_index_prefix(a.nodes_view(), b.nodes_view(), src);
    lemma_first_index_prefix(a.nodes_view(), b.nodes_view(), dst);
}

/// A call edge stays one as the graph grows and the callee's flowing
/// parameters grow.
proof fn lemma_call_edge_extends(a: FuncPFG, b: FuncPFG, e: int, loc: Location, pwf: Option<Seq<usize>>, pwf2: Option<Seq<usize>>)
    requires
        call_edge_for(a, e, loc, pwf),
        extends(a, b),
        same_calls(a, b),
        pwf_le(pwf, pwf2),
    ensures
        call_edge_for(b, e, loc, pwf2),
{
    let (j, k) = choose|j: int, k: int|
        #![trigger a.callsite_to_locals@[j].args@[k]]
        is_first_entry(a.callsite_to_locals@, loc, j) && 0 <= k < a.callsite_to_locals@[j].args@.len() && qualifies(
            pwf,
            a.static_callsites@.contains(loc),
            a.closure_dyn_callsites@.contains(loc),
            a.callsite_to_locals@[j].args@[k].0,
        ) && arg_edge(a, e, a.callsite_to_locals@[j].args@[k].1, a.callsite_to_locals@[j].destination);
    lemma_arg_edge_extends(a, b, e, a.callsite_to_locals@[j].args@[k].1, a.callsite_to_locals@[j].destination);
    assert(b.callsite_to_locals@[j].args@[k] == a.callsite_to_locals@[j].args@[k]);
}

/// One more argument edge of the call at `loc` keeps every new call flow
/// accounted for.
proof fn lemma_records_step(
    p0: FuncPFG,
    a: FuncPFG,
    b: FuncPFG,
    loc: Location,
    pwf: Option<Seq<usize>>,
    j: int,
    k: int,
    added: bool,
)
    requires
        a.wf(),
        b.wf(),
        extends(a, b),
        same_calls(a, b),
        is_first_entry(a.callsite_to_locals@, loc, j),
        0 <= k < a.callsite_to_locals@[j].args@.len(),
        qualifies(pwf, a.static_callsites@.contains(loc), a.closure_dyn_callsites@.contains(loc), a.callsite_to_locals@[j].args@[k].0),
        b.nodes_view() == nodes_with(
            nodes_with(a.nodes_view(), a.callsite_to_locals@[j].args@[k].1),
            a.callsite_to_locals@[j].destination,
        ),
        add_edge_post(
            a,
            b,
            a.callsite_to_locals@[j].args@[k].1,
            a.callsite_to_locals@[j].destination,
            PFGEdgeEnum::CallPFGEdge(loc),
            added,
        ),
        new_records_justified(p0, a, loc, pwf),
    ensures
        new_records_justified(p0, b, loc, pwf),
{
    let src = a.callsite_to_locals@[j].args@[k].1;
    let dst = a.callsite_to_locals@[j].destination;
    let nodes = b.nodes_view();
    let s = first_index(nodes, src) as usize;
    let d = first_index(nodes, dst) as usize;
    assert forall|e: int, l: Location|
        0 <= e < b.edge_data@.len() && #[trigger] b.edge_data@[e].call_locs@.contains(l) && !(e < p0.edge_data@.len()
            && p0.edge_data@[e].call_locs@.contains(l)) implies l == loc && call_edge_for(b, e, loc, pwf) by {
        if e < a.edge_data@.len() && a.edge_data@[e].call_locs@.contains(l) {
            lemma_pwf_le_refl(pwf);
            lemma_call_edge_extends(a, b, e, loc, pwf, pwf);
        } else {
            if has_edge(a.edges_view(), s, d) {
                let e0 = choose|e0: int| 0 <= e0 < a.edges_view().len() && #[trigger] a.edges_view()[e0] == (s, d);
                if e != e0 {
                    assert(b.edge_data@[e] == a.edge_data@[e]);
                }
                assert(e == e0);
                assert(b.edges_view()[e] == (s, d));
            } else {
                if e < a.edge_data@.len() {
                    assert(b.edge_data@[e] == a.edge_data@[e]);
                }
                assert(e == a.edge_data@.len());
                assert(b.edge_data@.last().call_locs@ == seq![loc]);
                assert(b.edges_view()[e] == (s, d));
            }
            assert(l == loc);
            assert(b.callsite_to_locals@[j].args@[k] == a.callsite_to_locals@[j].args@[k]);
            assert(arg_edge(b, e, src, dst));
        }
    }
}

/// The flowing parameters as plain values.
pub open spec fn pwf_view(pwf: Option<Vec<usize>>) -> Option<Seq<usize>> {
    match pwf {
        Some(v) => Some(v@),
        None => None,
    }
}

/// Propagates a callee's argument-to-result flow into the caller's graph at
/// the call at `loc`: connects every argument that carries flow to the
/// call's destination, and solves the graph again if that added anything.
/// Returns whether it did.
pub fn propagate_call(p: &mut FuncPFG, loc: Location, pwf: &Option<Vec<usize>>) -> (changed: bool)
    requires
        old(p).wf(),
        has_room(*old(p)),
        flow_consistent(*old(p)),
    ensures
        final(p).wf(),
        has_room(*final(p)),
        flow_consistent(*final(p)),
        extends(*old(p), *final(p)),
        same_calls(*old(p), *final(p)),
        records_more(*old(p), *final(p)),
        call_propagated_in(*final(p), loc, pwf_view(*pwf)),
        new_records_justified(*old(p), *final(p), loc, pwf_view(*pwf)),
        changed ==> recorded_count(*final(p)) > recorded_count(*old(p)),
        changed ==> final(p).has_arg_to_return_flow == final(p).spec_arg_to_return_flow(),
        changed ==> flag_accurate(*final(p)),
        flag_accurate(*old(p)) ==> flag_accurate(*final(p)),
        pwf_accurate(*old(p)) ==> pwf_accurate(*final(p)),
        paths_unique(old(p).nodes_view()) ==> paths_unique(final(p).nodes_view()),
        edges_labelled(*old(p)) ==> edges_labelled(*final(p)),
        pwf_accurate(*old(p)) ==> forall|o: usize| #[trigger] old(p).param_with_flow@.contains(o) ==> final(p).param_with_flow@.contains(o),
        !changed ==> {
            &&& recorded_count(*final(p)) == recorded_count(*old(p))
            &&& final(p).has_arg_to_return_flow == old(p).has_arg_to_return_flow
            &&& final(p).param_with_flow@ == old(p).param_with_flow@
        },
        !final(p).has_arg_to_return_flow ==> final(p).param_with_flow@ == old(p).param_with_flow@,
        old(p).has_arg_to_return_flow ==> final(p).has_arg_to_return_flow,
{
    let ghost p0 = *p;
    let j = match p.callsite_index(&loc) {
        Some(j) => j,
        None => {
            proof {
                lemma_extends_refl(*p);
                lemma_extends_records_more(*p, *p);
            }
            return false;
        },
    };
    let is_static = contains_location(&p.static_callsites, loc);
    let is_cd = contains_location(&p.closure_dyn_callsites, loc);
    let nargs = p.callsite_to_locals[j].args.len();
    let dest = p.callsite_to_locals[j].destination;
    let mut changed = false;
    let mut k: usize = 0;
    proof {
        lemma_extends_refl(*p);
        lemma_extends_records_more(*p, *p);
    }
    while k < nargs
        invariant
            0 <= k <= nargs,
            is_first_entry(p0.callsite_to_locals@, loc, j as int),
            nargs == p0.callsite_to_locals@[j as int].args@.len(),
            dest == p0.callsite_to_locals@[j as int].destination,
            is_static == p0.static_callsites@.contains(loc),
            is_cd == p0.closure_dyn_callsites@.contains(loc),
            p.wf(),
            has_room(*p),
            extends(p0, *p),
            same_calls(p0, *p),
            records_more(p0, *p),
            p.has_arg_to_return_flow == p0.has_arg_to_return_flow,
            p.param_with_flow@ == p0.param_with_flow@,
            p.cs_callsites@ == p0.cs_callsites@,
            changed ==> recorded_count(*p) > recorded_count(p0),
            !changed ==> recorded_count(*p) == recorded_count(p0) && p.nodes_view() == p0.nodes_view()
                && p.edges_view() == p0.edges_view(),
            forall|kk: int|
                0 <= kk < k && qualifies(pwf_view(*pwf), is_static, is_cd, p0.callsite_to_locals@[j as int].args@[kk].0)
                    ==> #[trigger] entry_recorded(*p, j as int, kk),
            new_records_justified(p0, *p, loc, pwf_view(*pwf)),
            paths_unique(p0.nodes_view()) ==> paths_unique(p.nodes_view()),
            edges_labelled(p0) ==> edges_labelled(*p),
        decreases nargs - k,
    {
        let (idx, a) = p.callsite_to_locals[j].args[k];
        let q = arg_qualifies(pwf, is_static, is_cd, idx);
        if q {
            let ghost before = *p;
            proof {
                lemma_recorded_bound(before);
                lemma_room_for_edge(before, a, dest);
            }
            let added = p.add_edge(a, dest, PFGEdgeEnum::CallPFGEdge(loc));
            proof {
                lemma_add_edge_effects(before, *p, a, dest, PFGEdgeEnum::CallPFGEdge(loc), added);
                lemma_records_step(p0, before, *p, loc, pwf_view(*pwf), j as int, k as int, added);
                lemma_extends_records_more(before, *p);
                lemma_extends_trans(p0, before, *p);
                lemma_records_more_trans(p0, before, *p);
                lemma_recorded_mono(before, *p, j as int, k as int);
                assert(entry_recorded(*p, j as int, k as int));
                if !added {
                    lemma_extends_back(before, *p);
                    lemma_extends_records_more(*p, before);
                    lemma_recorded_mono(*p, before, 0, 0);
                }
                lemma_recorded_bound(*p);
                lemma_room_after_edge(before, *p, added);
                assert forall|kk: int|
                    0 <= kk < k + 1 && qualifies(pwf_view(*pwf), is_static, is_cd, p0.callsite_to_locals@[j as int].args@[kk].0)
                        implies #[trigger] entry_recorded(*p, j as int, kk) by {
                    if kk < k {
                        assert(entry_recorded(before, j as int, kk));
                    }
                }
            }
            changed = changed || added;
        }
        k += 1;
    }
    if changed {
        let ghost before = *p;
        proof {
            lemma_recorded_bound(before);
            lemma_room_for_solve(before);
        }
        p.solve_graph_reachability();
        proof {
            lemma_extends_records_more(before, *p);
            lemma_extends_trans(p0, before, *p);
            lemma_records_more_trans(p0, before, *p);
            lemma_recorded_mono(before, *p, 0, 0);
            lemma_recorded_bound(*p);
            lemma_room_after_solve(before, *p);
            assert(has_path(p.nodes_view(), p.return_path())) by {
                if !has_path(before.nodes_view(), before.return_path()) {
                    assert(p.nodes_view()[before.nodes_view().len() as int].path == p.return_path());
                }
            }
            if p0.has_arg_to_return_flow {
                lemma_flow_mono(p0, *p);
            }
            lemma_records_keep(p0, before, *p, loc, pwf_view(*pwf));
            if pwf_accurate(p0) {
                assert forall|o: usize| #[trigger] p.param_with_flow@.contains(o) <==> (p.has_arg_to_return_flow && p.spec_param_with_flow(o)) by {
                    if !p.has_arg_to_return_flow && p.param_with_flow@.contains(o) {
                        assert(p0.param_with_flow@.contains(o));
                    }
                }
                assert forall|o: usize| #[trigger] p0.param_with_flow@.contains(o) implies p.param_with_flow@.contains(o) by {
                    lemma_param_flow_mono(p0, *p, o);
                }
            }
            assert forall|j2: int, k2: int|
                is_first_entry(p.callsite_to_locals@, loc, j2) && 0 <= k2 < p.callsite_to_locals@[j2].args@.len() && qualifies(
                    pwf_view(*pwf),
                    p.static_callsites@.contains(loc),
                    p.closure_dyn_callsites@.contains(loc),
                    p.callsite_to_locals@[j2].args@[k2].0,
                ) implies #[trigger] entry_recorded(*p, j2, k2) by {
                lemma_first_entry_unique(p0.callsite_to_locals@, loc, j as int, j2);
                assert(entry_recorded(before, j2, k2));
            }
        }
    } else {
        proof {
            assert forall|j2: int, k2: int|
                is_first_entry(p.callsite_to_locals@, loc, j2) && 0 <= k2 < p.callsite_to_locals@[j2].args@.len() && qualifies(
                    pwf_view(*pwf),
                    p.static_callsites@.contains(loc),
                    p.closure_dyn_callsites@.contains(loc),
                    p.callsite_to_locals@[j2].args@[k2].0,
                ) implies #[trigger] entry_recorded(*p, j2, k2) by {
                lemma_first_entry_unique(p0.callsite_to_locals@, loc, j as int, j2);
            }
        }
    }
    changed
}

pub proof fn lemma_first_entry_unique(c: Seq<CallsiteLocals>, loc: Location, j1: int, j2: int)
    requires
        is_first_entry(c, loc, j1),
        is_first_entry(c, loc, j2),
    ensures
        j1 == j2,
{
    if j1 < j2 {
        assert(c[j1].location != loc);
    } else if j2 < j1 {
        assert(c[j2].location != loc);
    }
}

proof fn lemma_extends_refl(p: FuncPFG)
    ensures
        extends(p, p),
{
}

/// An `add_edge` that added nothing left nodes, edges and call locations as they were.
proof fn lemma_extends_back(a: FuncPFG, b: FuncPFG)
    requires
        a.wf(),
        b.wf(),
        extends(a, b),
        b.nodes_view() == a.nodes_view(),
        b.edges_view() == a.edges_view(),
        forall|e: int| 0 <= e < b.edge_data@.len() ==> (#[trigger] b.edge_data@[e]).call_locs@ == a.edge_data@[e].call_locs@,
    ensures
        extends(b, a),
{
}

proof fn lemma_records_more_trans(a: FuncPFG, b: FuncPFG, c: FuncPFG)
    requires
        records_more(a, b),
        records_more(b, c),
    ensures
        records_more(a, c),
{
    assert forall|j: int, k: int|
        0 <= j < a.callsite_to_locals@.len() && 0 <= k < a.callsite_to_locals@[j].args@.len() && #[trigger] entry_recorded(
            a,
            j,
            k,
        ) implies entry_recorded(c, j, k) by {
        assert(entry_recorded(b, j, k));
    }
}

proof fn lemma_room_for_edge(p: FuncPFG, a: Path, d: Path)
    requires
        has_room(p),
        recorded_count(p) <= args_count(p),
    ensures
        nodes_with(nodes_with(p.nodes_view(), a), d).len() <= u32::MAX,
        p.edges_view().len() < u32::MAX,
{
}

proof fn lemma_room_after_edge(a: FuncPFG, b: FuncPFG, added: bool)
    requires
        has_room(a),
        recorded_count(a) <= args_count(a),
        recorded_count(b) <= args_count(b),
        args_count(b) == args_count(a),
        b.return_path() == a.return_path(),
        extends(a, b),
        b.nodes_view().len() <= a.nodes_view().len() + 2,
        b.edges_view().len() <= a.edges_view().len() + 1,
        added ==> recorded_count(b) > recorded_count(a),
        !added ==> recorded_count(b) >= recorded_count(a) && b.nodes_view() == a.nodes_view() && b.edges_view() == a.edges_view(),
    ensures
        has_room(b),
{
    if has_path(a.nodes_view(), a.return_path()) {
        lemma_first_index_prefix(a.nodes_view(), b.nodes_view(), a.return_path());
    }
}

proof fn lemma_room_for_solve(p: FuncPFG)
    requires
        has_room(p),
        recorded_count(p) <= args_count(p),
    ensures
        nodes_with(p.nodes_view(), p.return_path()).len() <= u32::MAX,
{
}

proof fn lemma_room_after_solve(a: FuncPFG, b: FuncPFG)
    requires
        has_room(a),
        recorded_count(a) <= args_count(a),
        recorded_count(b) >= recorded_count(a),
        recorded_count(b) <= args_count(b),
        args_count(b) == args_count(a),
        b.return_path() == a.return_path(),
        b.nodes_view() == nodes_with(a.nodes_view(), a.return_path()),
        b.edges_view() == a.edges_view(),
    ensures
        has_room(b),
{
    assert(has_path(b.nodes_view(), b.return_path())) by {
        if !has_path(a.nodes_view(), a.return_path()) {
            let nb = b.nodes_view();
            assert(nb[a.nodes_view().len() as int].path == a.return_path());
        }
    }
}


// ---------------------------------------------------------------------------
// The worklist over the call graph.
// ---------------------------------------------------------------------------

/// The flowing parameters of the function of node `n`: `None` when it has no
/// flow graph.
pub open spec fn callee_pwf(m: Map<FuncId, FuncPFG>, nodes: Seq<CGNode>, n: int) -> Option<Seq<usize>> {
    if m.contains_key(nodes[n].func) {
        Some(m[nodes[n].func].param_with_flow@)
    } else {
        None
    }
}

/// The call of edge `ei` has every argument that carries flow, for a callee
/// with the flowing parameters `pwf`, connected to its destination in the
/// caller's graph (callers without a graph are left out).
pub open spec fn edge_propagated_with(
    m: Map<FuncId, FuncPFG>,
    nodes: Seq<CGNode>,
    edges: Seq<CGEdge>,
    ei: int,
    pwf: Option<Seq<usize>>,
) -> bool {
    let cf = nodes[edges[ei].src as int].func;
    m.contains_key(cf) ==> call_propagated_in(m[cf], edges[ei].location, pwf)
}

/// Every call of node `n` has its callee's flow propagated into the caller.
pub open spec fn node_propagated(m: Map<FuncId, FuncPFG>, nodes: Seq<CGNode>, edges: Seq<CGEdge>, n: int) -> bool {
    forall|ei: int|
        0 <= ei < edges.len() && (#[trigger] edges[ei]).dst == n ==> edge_propagated_with(
            m,
            nodes,
            edges,
            ei,
            callee_pwf(m, nodes, n),
        )
}

/// Every graph of the map is consistent, has room for the flows it can
/// still record, and backs its flow flag.
pub open spec fn pfgs_ok(m: Map<FuncId, FuncPFG>) -> bool {
    forall|f: FuncId| #[trigger] m.contains_key(f) ==> m[f].wf() && has_room(m[f]) && flow_consistent(m[f]) && flag_accurate(m[f])
        && pwf_accurate(m[f]) && paths_unique(m[f].nodes_view()) && edges_labelled(m[f])
}

pub open spec fn node_recorded(m: Map<FuncId, FuncPFG>, f: FuncId) -> nat {
    if m.contains_key(f) {
        recorded_count(m[f])
    } else {
        0
    }
}

pub open spec fn node_args(m: Map<FuncId, FuncPFG>, f: FuncId) -> nat {
    if m.contains_key(f) {
        args_count(m[f])
    } else {
        0
    }
}

/// The recorded call flows of the graphs of the first `i` nodes.
pub open spec fn potential(m: Map<FuncId, FuncPFG>, nodes: Seq<CGNode>, i: int) -> nat
    decreases i,
{
    if i <= 0 {
        0
    } else {
        potential(m, nodes, i - 1) + node_recorded(m, nodes[i - 1].func)
    }
}

/// The pointer arguments of the callsites of the graphs of the first `i` nodes.
pub open spec fn capacity(m: Map<FuncId, FuncPFG>, nodes: Seq<CGNode>, i: int) -> nat
    decreases i,
{
    if i <= 0 {
        0
    } else {
        capacity(m, nodes, i - 1) + node_args(m, nodes[i - 1].func)
    }
}

proof fn lemma_potential_bound(m: Map<FuncId, FuncPFG>, nodes: Seq<CGNode>, i: int)
    ensures
        potential(m, nodes, i) <= capacity(m, nodes, i),
    decreases i,
{
    if i > 0 {
        lemma_potential_bound(m, nodes, i - 1);
        if m.contains_key(nodes[i - 1].func) {
            lemma_recorded_bound(m[nodes[i - 1].func]);
        }
    }
}

/// Replacing the graph of one node's function by one that records at least as
/// many flows, with the same callsites, raises the potential by as much and
/// keeps the capacity.
proof fn lemma_potential_update(m: Map<FuncId, FuncPFG>, f: FuncId, p2: FuncPFG, nodes: Seq<CGNode>, c: int, i: int)
    requires
        m.contains_key(f),
        0 <= c < nodes.len(),
        nodes[c].func == f,
        forall|a: int, b: int|
            0 <= a < nodes.len() && 0 <= b < nodes.len() && a != b ==> (#[trigger] nodes[a]).func != (
            #[trigger] nodes[b]).func,
        recorded_count(p2) >= recorded_count(m[f]),
        args_count(p2) == args_count(m[f]),
        i <= nodes.len(),
    ensures
        potential(m.insert(f, p2), nodes, i) >= potential(m, nodes, i),
        c < i && recorded_count(p2) > recorded_count(m[f]) ==> potential(m.insert(f, p2), nodes, i) > potential(m, nodes, i),
        capacity(m.insert(f, p2), nodes, i) == capacity(m, nodes, i),
    decreases i,
{
    if i > 0 {
        lemma_potential_update(m, f, p2, nodes, c, i - 1);
        let g = nodes[i - 1].func;
        if g != f {
            assert(m.insert(f, p2).contains_key(g) == m.contains_key(g));
            if m.contains_key(g) {
                assert(m.insert(f, p2)[g] == m[g]);
            }
        } else {
            assert(i - 1 == c);
        }
    }
}

proof fn lemma_call_propagated_mono(p: FuncPFG, q: FuncPFG, loc: Location, pwf: Option<Seq<usize>>)
    requires
        records_more(p, q),
        same_calls(p, q),
        call_propagated_in(p, loc, pwf),
    ensures
        call_propagated_in(q, loc, pwf),
{
    assert forall|j: int, k: int|
        is_first_entry(q.callsite_to_locals@, loc, j) && 0 <= k < q.callsite_to_locals@[j].args@.len() && qualifies(
            pwf,
            q.static_callsites@.contains(loc),
            q.closure_dyn_callsites@.contains(loc),
            q.callsite_to_locals@[j].args@[k].0,
        ) implies #[trigger] entry_recorded(q, j, k) by {
        assert(entry_recorded(p, j, k));
    }
}

/// Replacing the graph of function `f` by one that records more keeps every
/// propagated call with a fixed callee parameter set.
proof fn lemma_update_keeps_edge(
    m: Map<FuncId, FuncPFG>,
    f: FuncId,
    p2: FuncPFG,
    nodes: Seq<CGNode>,
    edges: Seq<CGEdge>,
    ei: int,
    pwf: Option<Seq<usize>>,
)
    requires
        m.contains_key(f),
        records_more(m[f], p2),
        same_calls(m[f], p2),
        edge_propagated_with(m, nodes, edges, ei, pwf),
    ensures
        edge_propagated_with(m.insert(f, p2), nodes, edges, ei, pwf),
{
    let cf = nodes[edges[ei].src as int].func;
    if cf == f {
        lemma_call_propagated_mono(m[f], p2, edges[ei].location, pwf);
    } else {
        if m.contains_key(cf) {
            assert(m.insert(f, p2)[cf] == m[cf]);
        }
    }
}

/// The call flow on edge `e` at `l` in the graph of `f` comes from a call of
/// `f` at `l` in the call graph: the edge connects an argument of that call
/// that carries flow, for the callee's flowing parameters, to the call's
/// destination.
pub open spec fn record_from_call(m: Map<FuncId, FuncPFG>, nodes: Seq<CGNode>, edges: Seq<CGEdge>, f: FuncId, e: int, l: Location) -> bool {
    exists|ei: int|
        #![trigger edges[ei]]
        0 <= ei < edges.len() && nodes[edges[ei].src as int].func == f && edges[ei].location == l && call_edge_for(
            m[f],
            e,
            l,
            callee_pwf(m, nodes, edges[ei].dst as int),
        )
}

/// Every call flow that the graphs of `m` record and those of `m0` did not
/// comes from a call (see `record_from_call`).
pub open spec fn records_from_calls(m0: Map<FuncId, FuncPFG>, m: Map<FuncId, FuncPFG>, nodes: Seq<CGNode>, edges: Seq<CGEdge>) -> bool {
    forall|f: FuncId, e: int, l: Location|
        m.contains_key(f) && 0 <= e < m[f].edge_data@.len() && #[trigger] m[f].edge_data@[e].call_locs@.contains(l) && !(e
            < m0[f].edge_data@.len() && m0[f].edge_data@[e].call_locs@.contains(l)) ==> record_from_call(m, nodes, edges, f, e, l)
}

proof fn lemma_pwf_le_trans(a: Option<Seq<usize>>, b: Option<Seq<usize>>, c: Option<Seq<usize>>)
    requires
        pwf_le(a, b),
        pwf_le(b, c),
    ensures
        pwf_le(a, c),
{
}

/// Replacing a graph by one whose flowing parameters grew lets no callee's
/// flowing parameters shrink.
proof fn lemma_update_pwf_le(m: Map<FuncId, FuncPFG>, f: FuncId, p2: FuncPFG, nodes: Seq<CGNode>, n: int)
    requires
        m.contains_key(f),
        forall|o: usize| #[trigger] m[f].param_with_flow@.contains(o) ==> p2.param_with_flow@.contains(o),
    ensures
        pwf_le(callee_pwf(m, nodes, n), callee_pwf(m.insert(f, p2), nodes, n)),
{
    if nodes[n].func != f && m.contains_key(nodes[n].func) {
        assert(m.insert(f, p2)[nodes[n].func] == m[nodes[n].func]);
    }
}

/// Propagating a call into the graph of its caller keeps every new call
/// flow accounted for.
proof fn lemma_records_update(
    m0: Map<FuncId, FuncPFG>,
    mb: Map<FuncId, FuncPFG>,
    f: FuncId,
    p2: FuncPFG,
    nodes: Seq<CGNode>,
    edges: Seq<CGEdge>,
    ei: int,
    snap: Option<Seq<usize>>,
)
    requires
        records_from_calls(m0, mb, nodes, edges),
        mb.contains_key(f),
        extends(mb[f], p2),
        same_calls(mb[f], p2),
        forall|o: usize| #[trigger] mb[f].param_with_flow@.contains(o) ==> p2.param_with_flow@.contains(o),
        0 <= ei < edges.len(),
        nodes[edges[ei].src as int].func == f,
        new_records_justified(mb[f], p2, edges[ei].location, snap),
        pwf_le(snap, callee_pwf(mb.insert(f, p2), nodes, edges[ei].dst as int)),
    ensures
        records_from_calls(m0, mb.insert(f, p2), nodes, edges),
{
    let mn = mb.insert(f, p2);
    assert forall|g: FuncId, e: int, l: Location|
        mn.contains_key(g) && 0 <= e < mn[g].edge_data@.len() && #[trigger] mn[g].edge_data@[e].call_locs@.contains(l) && !(e
            < m0[g].edge_data@.len() && m0[g].edge_data@[e].call_locs@.contains(l)) implies record_from_call(mn, nodes, edges, g, e, l) by {
        if g == f && !(e < mb[f].edge_data@.len() && mb[f].edge_data@[e].call_locs@.contains(l)) {
            lemma_extends_refl(p2);
            lemma_call_edge_extends(p2, p2, e, l, snap, callee_pwf(mn, nodes, edges[ei].dst as int));
            assert(edges[ei].location == l);
        } else {
            assert(mb[g].edge_data@[e].call_locs@.contains(l)) by {
                if g != f {
                    assert(mn[g] == mb[g]);
                }
            }
            let ei2 = choose|ei2: int|
                #![trigger edges[ei2]]
                0 <= ei2 < edges.len() && nodes[edges[ei2].src as int].func == g && edges[ei2].location == l && call_edge_for(
                    mb[g],
                    e,
                    l,
                    callee_pwf(mb, nodes, edges[ei2].dst as int),
                );
            lemma_update_pwf_le(mb, f, p2, nodes, edges[ei2].dst as int);
            if g == f {
                lemma_call_edge_extends(mb[g], mn[g], e, l, callee_pwf(mb, nodes, edges[ei2].dst as int), callee_pwf(mn, nodes, edges[ei2].dst as int));
            } else {
                assert(mn[g] == mb[g]);
                lemma_extends_refl(mb[g]);
                lemma_call_edge_extends(mb[g], mn[g], e, l, callee_pwf(mb, nodes, edges[ei2].dst as int), callee_pwf(mn, nodes, edges[ei2].dst as int));
            }
            assert(edges[ei2].location == l);
        }
    }
}

/// The indices of the edges that call node `n`.
fn incoming_calls(cg: &CallGraph, n: usize) -> (r: Vec<usize>)
    ensures
        forall|k: int| 0 <= k < r@.len() ==> (#[trigger] r@[k]) < cg.edges@.len() && cg.edges@[r@[k] as int].dst == n,
        forall|ei: int| 0 <= ei < cg.edges@.len() && (#[trigger] cg.edges@[ei]).dst == n ==> r@.contains(ei as usize),
{
    let mut r: Vec<usize> = Vec::new();
    let mut e: usize = 0;
    while e < cg.edges.len()
        invariant
            0 <= e <= cg.edges@.len(),
            forall|k: int| 0 <= k < r@.len() ==> (#[trigger] r@[k]) < cg.edges@.len() && cg.edges@[r@[k] as int].dst == n,
            forall|ei: int| 0 <= ei < e && (#[trigger] cg.edges@[ei]).dst == n ==> r@.contains(ei as usize),
        decreases cg.edges.len() - e,
    {
        if cg.edges[e].dst == n {
            proof {
                crate::ids::lemma_push_contains(r@, e);
            }
            r.push(e);
        }
        e += 1;
    }
    r
}


/// Replacing the graph of function `f` keeps every node whose callee
/// parameters stay the same propagated.
proof fn lemma_update_keeps_node(
    m: Map<FuncId, FuncPFG>,
    f: FuncId,
    p2: FuncPFG,
    nodes: Seq<CGNode>,
    edges: Seq<CGEdge>,
    v: int,
)
    requires
        m.contains_key(f),
        records_more(m[f], p2),
        same_calls(m[f], p2),
        callee_pwf(m.insert(f, p2), nodes, v) == callee_pwf(m, nodes, v),
        node_propagated(m, nodes, edges, v),
    ensures
        node_propagated(m.insert(f, p2), nodes, edges, v),
{
    assert forall|ei: int| 0 <= ei < edges.len() && (#[trigger] edges[ei]).dst == v implies edge_propagated_with(
        m.insert(f, p2),
        nodes,
        edges,
        ei,
        callee_pwf(m.insert(f, p2), nodes, v),
    ) by {
        lemma_update_keeps_edge(m, f, p2, nodes, edges, ei, callee_pwf(m, nodes, v));
    }
}

/// Propagation keeps an argument-to-result flow, and a graph that records no
/// more call flows than before has the flow flag it had.
pub open spec fn flow_kept(a: FuncPFG, b: FuncPFG) -> bool {
    &&& a.has_arg_to_return_flow ==> b.has_arg_to_return_flow
    &&& recorded_count(b) >= recorded_count(a)
    &&& recorded_count(b) == recorded_count(a) ==> b.has_arg_to_return_flow == a.has_arg_to_return_flow
}

/// Identifies the precision-critical functions of a call graph from the
/// per-function pointer flow graphs.
pub struct PrecCritFnIdent {
    pub call_graph: CallGraph,
    pub func_pfg_map: HashMap<FuncId, FuncPFG>,
    pub cs_funcs: Vec<FuncId>,
    pub worklist: VecDeque<usize>,
}

impl PrecCritFnIdent {
    pub fn new(call_graph: CallGraph) -> (r: PrecCritFnIdent)
        ensures
            r.call_graph == call_graph,
            r.func_pfg_map@ == Map::<FuncId, FuncPFG>::empty(),
            r.cs_funcs@ == Seq::<FuncId>::empty(),
            r.worklist@ == Seq::<usize>::empty(),
    {
        PrecCritFnIdent {
            call_graph,
            func_pfg_map: HashMap::new(),
            cs_funcs: Vec::new(),
            worklist: VecDeque::new(),
        }
    }

    /// The worklist propagation. Starting from the queued nodes, each node
    /// taken from the queue is marked, and its callee's flowing parameters
    /// are propagated into the graph of every caller: the arguments that carry
    /// flow are connected to the call's destination. A caller whose graph
    /// gained a flow and now has an argument-to-result flow is queued again.
    /// In the end every marked node has its calls propagated, every function
    /// whose graph gained a flow and has an argument-to-result flow is marked,
    /// and only queued nodes and functions with such a flow are marked. Every
    /// graph's flow flag and flowing parameters match its flows, and every call
    /// flow added connects an argument that carries flow, for its callee's
    /// flowing parameters, to its call's destination.
    pub fn precision_critical_func_identification(&mut self)
        requires
            old(self).call_graph.wf(),
            forall|k: int| 0 <= k < old(self).worklist@.len() ==> (#[trigger] old(self).worklist@[k]) < old(self).call_graph.nodes@.len(),
            pfgs_ok(old(self).func_pfg_map@),
        ensures
            final(self).call_graph.edges@ == old(self).call_graph.edges@,
            final(self).call_graph.nodes@.len() == old(self).call_graph.nodes@.len(),
            final(self).call_graph.wf(),
            final(self).worklist@ == Seq::<usize>::empty(),
            final(self).cs_funcs@ == old(self).cs_funcs@,
            pfgs_ok(final(self).func_pfg_map@),
            forall|f: FuncId| #[trigger] final(self).func_pfg_map@.contains_key(f) ==> flag_accurate(final(self).func_pfg_map@[f]),
            records_from_calls(old(self).func_pfg_map@, final(self).func_pfg_map@, old(self).call_graph.nodes@, old(self).call_graph.edges@),
            final(self).func_pfg_map@.dom() == old(self).func_pfg_map@.dom(),
            forall|f: FuncId| #[trigger] final(self).func_pfg_map@.contains_key(f) ==> extends(old(self).func_pfg_map@[f], final(self).func_pfg_map@[f])
                && same_calls(old(self).func_pfg_map@[f], final(self).func_pfg_map@[f]),
            forall|f: FuncId| #[trigger] final(self).func_pfg_map@.contains_key(f) ==> flow_kept(old(self).func_pfg_map@[f], final(self).func_pfg_map@[f]),
            forall|v: int| 0 <= v < final(self).call_graph.nodes@.len() ==> {
                let o = old(self).call_graph.nodes@[v];
                let n = #[trigger] final(self).call_graph.nodes@[v];
                let m = final(self).func_pfg_map@;
                &&& n.func == o.func
                &&& n.req_cs == (o.req_cs || old(self).worklist@.contains(v as usize) || (m.contains_key(n.func)
                    && m[n.func].has_arg_to_return_flow && recorded_count(m[n.func]) > recorded_count(
                    old(self).func_pfg_map@[n.func],
                )))
                &&& o.req_cs ==> n.req_cs
                &&& old(self).worklist@.contains(v as usize) ==> n.req_cs
                &&& n.req_cs && !o.req_cs ==> node_propagated(m, final(self).call_graph.nodes@, final(self).call_graph.edges@, v)
                &&& n.req_cs && !o.req_cs ==> old(self).worklist@.contains(v as usize) || (m.contains_key(n.func)
                    && m[n.func].has_arg_to_return_flow && recorded_count(m[n.func]) > recorded_count(
                    old(self).func_pfg_map@[n.func],
                ))
                &&& m.contains_key(n.func) && recorded_count(m[n.func]) > recorded_count(old(self).func_pfg_map@[n.func])
                    && m[n.func].has_arg_to_return_flow ==> n.req_cs
            },
    {
        broadcast use vstd::std_specs::hash::group_hash_axioms;
        let ghost m0 = self.func_pfg_map@;
        let ghost q0 = self.worklist@;
        let ghost nodes = self.call_graph.nodes@;
        let ghost edges = self.call_graph.edges@;
        let n = self.call_graph.nodes.len();
        let elen = self.call_graph.edges.len();
        let mut visited: Vec<bool> = Vec::new();
        let mut i: usize = 0;
        while i < n
            invariant
                0 <= i <= n,
                visited@.len() == i,
                forall|v: int| 0 <= v < i ==> !(#[trigger] visited@[v]),
            decreases n - i,
        {
            visited.push(false);
            i += 1;
        }
        proof {
            lemma_potential_bound(self.func_pfg_map@, nodes, n as int);
            assert forall|v: int| 0 <= v < n && (visited@[v] || self.worklist@.contains(v as usize)) implies q0.contains(
                v as usize) || (self.func_pfg_map@.contains_key(nodes[v].func) && self.func_pfg_map@[nodes[v].func].has_arg_to_return_flow && recorded_count(self.func_pfg_map@[nodes[v].func]) > recorded_count(m0[nodes[v].func])) by {
            }
        }
        while self.worklist.len() > 0
            invariant
                n == nodes.len(),
                elen == edges.len(),
                self.call_graph.nodes@ == nodes,
                self.call_graph.edges@ == edges,
                self.call_graph.wf(),
                self.cs_funcs@ == old(self).cs_funcs@,
                visited@.len() == n,
                forall|k: int| 0 <= k < self.worklist@.len() ==> (#[trigger] self.worklist@[k]) < n,
                pfgs_ok(self.func_pfg_map@),
                records_from_calls(m0, self.func_pfg_map@, nodes, edges),
                self.func_pfg_map@.dom() == m0.dom(),
                forall|f: FuncId| #[trigger] self.func_pfg_map@.contains_key(f) ==> extends(m0[f], self.func_pfg_map@[f])
                    && same_calls(m0[f], self.func_pfg_map@[f]),
                forall|f: FuncId| #[trigger] self.func_pfg_map@.contains_key(f) ==> flow_kept(m0[f], self.func_pfg_map@[f]),
                pfgs_ok(m0),
                capacity(self.func_pfg_map@, nodes, n as int) == capacity(m0, nodes, n as int),
                potential(self.func_pfg_map@, nodes, n as int) <= capacity(m0, nodes, n as int),
                forall|v: int| 0 <= v < n && #[trigger] visited@[v] ==> self.worklist@.contains(v as usize)
                    || node_propagated(self.func_pfg_map@, nodes, edges, v),
                forall|v: int| 0 <= v < n && q0.contains(v as usize) ==> #[trigger] visited@[v] || self.worklist@.contains(v as usize),
                forall|v: int|
                    0 <= v < n && self.func_pfg_map@.contains_key(nodes[v].func) && recorded_count(
                        self.func_pfg_map@[nodes[v].func],
                    ) > recorded_count(m0[nodes[v].func]) && self.func_pfg_map@[nodes[v].func].has_arg_to_return_flow
                        ==> #[trigger] visited@[v] || self.worklist@.contains(v as usize),
                forall|v: int|
                    #![trigger visited@[v]]
                    #![trigger self.worklist@.contains(v as usize)]
                    0 <= v < n && (visited@[v] || self.worklist@.contains(v as usize)) ==> q0.contains(v as usize) || (
                    self.func_pfg_map@.contains_key(nodes[v].func) && self.func_pfg_map@[nodes[v].func].has_arg_to_return_flow && recorded_count(self.func_pfg_map@[nodes[v].func]) > recorded_count(m0[nodes[v].func])),
            decreases capacity(m0, nodes, n as int) - potential(self.func_pfg_map@, nodes, n as int), self.worklist@.len(),
        {
            let ghost wq = self.worklist@;
            let node_id = self.worklist.pop_front().unwrap();
            proof {
                assert(wq[0] == node_id);
                assert forall|v: usize| #[trigger] wq.contains(v) implies self.worklist@.contains(v) || v == node_id by {
                    let k = choose|k: int| 0 <= k < wq.len() && wq[k] == v;
                    if k > 0 {
                        assert(self.worklist@[k - 1] == wq[k]);
                    }
                }
            }
            let ghost vis0 = visited@;
            visited.set(node_id, true);
            proof {
                assert forall|v: int| 0 <= v < n && q0.contains(v as usize) implies #[trigger] visited@[v] || self.worklist@.contains(v as usize) by {
                    if v != node_id && !visited@[v] {
                        assert(wq.contains(v as usize));
                    }
                }
                assert forall|v: int|
                    0 <= v < n && self.func_pfg_map@.contains_key(nodes[v].func) && recorded_count(
                        self.func_pfg_map@[nodes[v].func],
                    ) > recorded_count(m0[nodes[v].func]) && self.func_pfg_map@[nodes[v].func].has_arg_to_return_flow
                        implies #[trigger] visited@[v] || self.worklist@.contains(v as usize) by {
                    if v != node_id && !visited@[v] {
                        assert(wq.contains(v as usize));
                    }
                }
                assert forall|v: int|
                    #![trigger visited@[v]]
                    #![trigger self.worklist@.contains(v as usize)]
                    0 <= v < n && (visited@[v] || self.worklist@.contains(v as usize)) implies q0.contains(v as usize) || (
                    self.func_pfg_map@.contains_key(nodes[v].func) && self.func_pfg_map@[nodes[v].func].has_arg_to_return_flow && recorded_count(self.func_pfg_map@[nodes[v].func]) > recorded_count(m0[nodes[v].func])) by {
                    if v == node_id {
                        assert(wq.contains(node_id));
                        assert(wq.contains(v as usize));
                    } else if self.worklist@.contains(v as usize) {
                        let kq = choose|kq: int| 0 <= kq < self.worklist@.len() && self.worklist@[kq] == v as usize;
                        assert(wq[kq + 1] == v as usize);
                        assert(wq.contains(v as usize));
                        assert(vis0[v] || wq.contains(v as usize));
                    } else {
                        assert(vis0[v]);
                    }
                }
                assert forall|v: int| 0 <= v < n && #[trigger] visited@[v] && v != node_id implies self.worklist@.contains(v as usize)
                    || node_propagated(self.func_pfg_map@, nodes, edges, v) by {
                    if wq.contains(v as usize) {
                        let kq = choose|kq: int| 0 <= kq < wq.len() && wq[kq] == v as usize;
                        assert(kq != 0);
                        assert(self.worklist@[kq - 1] == wq[kq]);
                    }
                }
            }
            let func_id = self.call_graph.nodes[node_id].func;
            let pwf: Option<Vec<usize>> = match self.func_pfg_map.get(&func_id) {
                Some(p) => Some(p.param_with_flow.clone()),
                None => None,
            };
            let ghost snap = pwf_view(pwf);
            let ghost m1 = self.func_pfg_map@;
            let ghost q1 = self.worklist@;
            proof {
                assert(snap == callee_pwf(m1, nodes, node_id as int));
                lemma_pwf_le_refl(snap);
            }
            let incoming = incoming_calls(&self.call_graph, node_id);
            let mut k: usize = 0;
            while k < incoming.len()
                invariant
                    0 <= k <= incoming@.len(),
                    n == nodes.len(),
                    elen == edges.len(),
                    node_id < n,
                    func_id == nodes[node_id as int].func,
                    pwf_view(pwf) == snap,
                    self.call_graph.nodes@ == nodes,
                    self.call_graph.edges@ == edges,
                    self.call_graph.wf(),
                    self.cs_funcs@ == old(self).cs_funcs@,
                    forall|kk: int| 0 <= kk < incoming@.len() ==> (#[trigger] incoming@[kk]) < edges.len() && edges[incoming@[kk] as int].dst == node_id,
                    visited@.len() == n,
                    visited@[node_id as int],
                    forall|kq: int| 0 <= kq < self.worklist@.len() ==> (#[trigger] self.worklist@[kq]) < n,
                    pfgs_ok(self.func_pfg_map@),
                    records_from_calls(m0, self.func_pfg_map@, nodes, edges),
                    pwf_le(snap, callee_pwf(self.func_pfg_map@, nodes, node_id as int)),
                    self.func_pfg_map@.dom() == m0.dom(),
                    forall|f: FuncId| #[trigger] self.func_pfg_map@.contains_key(f) ==> extends(m0[f], self.func_pfg_map@[f])
                        && same_calls(m0[f], self.func_pfg_map@[f]),
                    forall|f: FuncId| #[trigger] self.func_pfg_map@.contains_key(f) ==> flow_kept(m0[f], self.func_pfg_map@[f]),
                    pfgs_ok(m0),
                pfgs_ok(m0),
                    capacity(self.func_pfg_map@, nodes, n as int) == capacity(m0, nodes, n as int),
                    potential(self.func_pfg_map@, nodes, n as int) <= capacity(m0, nodes, n as int),
                    potential(self.func_pfg_map@, nodes, n as int) >= potential(m1, nodes, n as int),
                    self.worklist@.len() > q1.len() ==> potential(self.func_pfg_map@, nodes, n as int) > potential(m1, nodes, n as int),
                    forall|kq: int| 0 <= kq < q1.len() ==> self.worklist@[kq] == q1[kq],
                    self.worklist@.len() >= q1.len(),
                    callee_pwf(self.func_pfg_map@, nodes, node_id as int) == snap || self.worklist@.contains(node_id),
                    forall|kk: int| 0 <= kk < k ==> edge_propagated_with(self.func_pfg_map@, nodes, edges, #[trigger] incoming@[kk] as int, snap),
                    forall|v: int| 0 <= v < n && #[trigger] visited@[v] && v != node_id ==> self.worklist@.contains(v as usize)
                        || node_propagated(self.func_pfg_map@, nodes, edges, v),
                    forall|v: int| 0 <= v < n && q0.contains(v as usize) ==> #[trigger] visited@[v] || self.worklist@.contains(v as usize),
                    forall|v: int|
                        0 <= v < n && self.func_pfg_map@.contains_key(nodes[v].func) && recorded_count(
                            self.func_pfg_map@[nodes[v].func],
                        ) > recorded_count(m0[nodes[v].func]) && self.func_pfg_map@[nodes[v].func].has_arg_to_return_flow
                            ==> #[trigger] visited@[v] || self.worklist@.contains(v as usize),
                    forall|v: int|
                        #![trigger visited@[v]]
                        #![trigger self.worklist@.contains(v as usize)]
                        0 <= v < n && (visited@[v] || self.worklist@.contains(v as usize)) ==> q0.contains(v as usize) || (
                        self.func_pfg_map@.contains_key(nodes[v].func) && self.func_pfg_map@[nodes[v].func].has_arg_to_return_flow && recorded_count(self.func_pfg_map@[nodes[v].func]) > recorded_count(m0[nodes[v].func])),
                decreases incoming@.len() - k,
            {
                let ei = incoming[k];
                let src = self.call_graph.edges[ei].src;
                let location = self.call_graph.edges[ei].location;
                let src_func = self.call_graph.nodes[src].func;
                let ghost mb = self.func_pfg_map@;
                let ghost qb = self.worklist@;
                match self.func_pfg_map.remove(&src_func) {
                    None => {
                        proof {
                            assert(!mb.contains_key(src_func));
                            assert(self.func_pfg_map@ =~= mb);
                            assert(edge_propagated_with(self.func_pfg_map@, nodes, edges, ei as int, snap));
                        }
                    },
                    Some(mut pfg) => {
                        let ghost p_old = pfg;
                        proof {
                            assert(mb.contains_key(src_func));
                            assert(p_old == mb[src_func]);
                        }
                        let changed = propagate_call(&mut pfg, location, &pwf);
                        if changed && pfg.has_arg_to_return_flow {
                            self.worklist.push_back(src);
                        }
                        let ghost p_new = pfg;
                        self.func_pfg_map.insert(src_func, pfg);
                        proof {
                            let mn = self.func_pfg_map@;
                            assert(mn =~= mb.insert(src_func, p_new));
                            lemma_update_pwf_le(mb, src_func, p_new, nodes, node_id as int);
                            lemma_pwf_le_trans(snap, callee_pwf(mb, nodes, node_id as int), callee_pwf(mn, nodes, node_id as int));
                            lemma_records_update(m0, mb, src_func, p_new, nodes, edges, ei as int, snap);
                            lemma_recorded_mono(p_old, p_new, 0, 0);
                            assert(args_count(p_new) == args_count(p_old));
                            lemma_potential_update(mb, src_func, p_new, nodes, src as int, n as int);
                            lemma_potential_bound(mn, nodes, n as int);
                            lemma_extends_trans(m0[src_func], p_old, p_new);
                            assert(flow_kept(m0[src_func], p_new)) by {
                                assert(flow_kept(m0[src_func], p_old));
                                lemma_extends_records_more(m0[src_func], p_old);
                                lemma_recorded_mono(m0[src_func], p_old, 0, 0);
                            }
                            assert forall|g: FuncId| #[trigger] mn.contains_key(g) implies flow_kept(m0[g], mn[g]) by {
                                if g != src_func {
                                    assert(mn[g] == mb[g]);
                                }
                            }
                            assert(edges[ei as int].src == src);
                            assert(mn[src_func] == p_new);
                            assert(edge_propagated_with(mn, nodes, edges, ei as int, snap));
                            assert forall|kk: int| 0 <= kk < k + 1 implies edge_propagated_with(mn, nodes, edges, #[trigger] incoming@[kk] as int, snap) by {
                                if kk < k {
                                    lemma_update_keeps_edge(mb, src_func, p_new, nodes, edges, incoming@[kk] as int, snap);
                                }
                            }
                            assert forall|v: int| 0 <= v < n && #[trigger] visited@[v] && v != node_id implies self.worklist@.contains(v as usize)
                                || node_propagated(mn, nodes, edges, v) by {
                                if qb.contains(v as usize) {
                                    let kq = choose|kq: int| 0 <= kq < qb.len() && qb[kq] == v as usize;
                                    assert(self.worklist@[kq] == qb[kq]);
                                } else if v == src as int && p_new.param_with_flow@ != p_old.param_with_flow@ {
                                    assert(self.worklist@[self.worklist@.len() - 1] == src);
                                } else {
                                    if v == src as int {
                                        assert(callee_pwf(mn, nodes, v) == callee_pwf(mb, nodes, v));
                                    } else {
                                        assert(nodes[v].func != src_func);
                                        assert(callee_pwf(mn, nodes, v) == callee_pwf(mb, nodes, v));
                                    }
                                    lemma_update_keeps_node(mb, src_func, p_new, nodes, edges, v);
                                }
                            }
                            if callee_pwf(mn, nodes, node_id as int) != snap {
                                if !qb.contains(node_id) {
                                    assert(callee_pwf(mb, nodes, node_id as int) == snap);
                                    assert(node_id == src);
                                    assert(self.worklist@[self.worklist@.len() - 1] == src);
                                } else {
                                    let kq = choose|kq: int| 0 <= kq < qb.len() && qb[kq] == node_id;
                                    assert(self.worklist@[kq] == qb[kq]);
                                }
                            }
                            assert forall|v: int| 0 <= v < n && q0.contains(v as usize) implies #[trigger] visited@[v] || self.worklist@.contains(v as usize) by {
                                if !visited@[v] {
                                    let kq = choose|kq: int| 0 <= kq < qb.len() && qb[kq] == v as usize;
                                    assert(self.worklist@[kq] == qb[kq]);
                                }
                            }
                            assert forall|v: int|
                                0 <= v < n && mn.contains_key(nodes[v].func) && recorded_count(mn[nodes[v].func]) > recorded_count(m0[nodes[v].func])
                                    && mn[nodes[v].func].has_arg_to_return_flow implies #[trigger] visited@[v] || self.worklist@.contains(v as usize) by {
                                if v == src as int {
                                    if changed {
                                        assert(self.worklist@[self.worklist@.len() - 1] == src);
                                    } else {
                                        if !visited@[v] {
                                            let kq = choose|kq: int| 0 <= kq < qb.len() && qb[kq] == v as usize;
                                            assert(self.worklist@[kq] == qb[kq]);
                                        }
                                    }
                                } else {
                                    assert(nodes[v].func != src_func);
                                    assert(mn[nodes[v].func] == mb[nodes[v].func]);
                                    if !visited@[v] {
                                        let kq = choose|kq: int| 0 <= kq < qb.len() && qb[kq] == v as usize;
                                        assert(self.worklist@[kq] == qb[kq]);
                                    }
                                }
                            }
                            assert forall|v: int|
                                #![trigger visited@[v]]
                                #![trigger self.worklist@.contains(v as usize)]
                                0 <= v < n && (visited@[v] || self.worklist@.contains(v as usize)) implies q0.contains(v as usize) || (
                                mn.contains_key(nodes[v].func) && mn[nodes[v].func].has_arg_to_return_flow && recorded_count(mn[nodes[v].func]) > recorded_count(m0[nodes[v].func])) by {
                                if visited@[v] || qb.contains(v as usize) {
                                    if v == src as int {
                                        assert(mn[nodes[v].func] == p_new);
                                        assert(mb[nodes[v].func] == p_old);
                                    } else {
                                        assert(nodes[v].func != src_func);
                                        assert(mn[nodes[v].func] == mb[nodes[v].func]);
                                    }
                                } else {
                                    let kq = choose|kq: int| 0 <= kq < self.worklist@.len() && self.worklist@[kq] == v as usize;
                                    if kq < qb.len() {
                                        assert(qb[kq] == v as usize);
                                    } else {
                                        assert(v == src as int);
                                    }
                                }
                            }
                        }
                    },
                }
                k += 1;
            }
            proof {
                let mf = self.func_pfg_map@;
                if !self.worklist@.contains(node_id) {
                    assert forall|ei: int| 0 <= ei < edges.len() && (#[trigger] edges[ei]).dst == node_id as int implies edge_propagated_with(
                        mf,
                        nodes,
                        edges,
                        ei,
                        callee_pwf(mf, nodes, node_id as int),
                    ) by {
                        assert(incoming@.contains(ei as usize));
                        let kk = choose|kk: int| 0 <= kk < incoming@.len() && incoming@[kk] == ei as usize;
                        assert(edge_propagated_with(mf, nodes, edges, incoming@[kk] as int, snap));
                        assert(callee_pwf(mf, nodes, node_id as int) == snap);
                        assert(incoming@[kk] as int == ei);
                    }
                }
            }
        }
        let mut v: usize = 0;
        let ghost mfin = self.func_pfg_map@;
        while v < n
            invariant
                0 <= v <= n,
                n == nodes.len(),
                self.call_graph.nodes@.len() == n,
                self.call_graph.edges@ == edges,
                visited@.len() == n,
                self.func_pfg_map@ == mfin,
                self.worklist@.len() == 0,
                self.cs_funcs@ == old(self).cs_funcs@,
                forall|u: int| 0 <= u < n ==> (#[trigger] self.call_graph.nodes@[u]).func == nodes[u].func,
                forall|u: int| 0 <= u < n ==> #[trigger] self.call_graph.nodes@[u].req_cs == if u < v {
                    nodes[u].req_cs || visited@[u]
                } else {
                    nodes[u].req_cs
                },
            decreases n - v,
        {
            if visited[v] {
                let mut nd = self.call_graph.nodes[v];
                nd.req_cs = true;
                self.call_graph.nodes.set(v, nd);
            }
            v += 1;
        }
        proof {
            assert forall|e: int| 0 <= e < self.call_graph.edges@.len() implies (#[trigger] self.call_graph.edges@[e]).src < self.call_graph.nodes@.len()
                && self.call_graph.edges@[e].dst < self.call_graph.nodes@.len() by {
                assert(edges[e] == self.call_graph.edges@[e]);
            }
            assert forall|a: int, b: int|
                0 <= a < self.call_graph.nodes@.len() && 0 <= b < self.call_graph.nodes@.len() && a != b implies (#[trigger] self.call_graph.nodes@[a]).func
                    != (#[trigger] self.call_graph.nodes@[b]).func by {
                assert(nodes[a].func != nodes[b].func);
            }
            assert forall|u: int| 0 <= u < n implies node_propagated(mfin, self.call_graph.nodes@, edges, u) == node_propagated(mfin, nodes, edges, u) by {
                assert forall|ei: int| 0 <= ei < edges.len() implies #[trigger] self.call_graph.nodes@[edges[ei].src as int].func == nodes[edges[ei].src as int].func by {
                }
                assert(callee_pwf(mfin, self.call_graph.nodes@, u) == callee_pwf(mfin, nodes, u));
                assert forall|ei: int| 0 <= ei < edges.len() implies edge_propagated_with(mfin, self.call_graph.nodes@, edges, ei, callee_pwf(mfin, nodes, u))
                    == edge_propagated_with(mfin, nodes, edges, ei, callee_pwf(mfin, nodes, u)) by {
                    assert(self.call_graph.nodes@[edges[ei].src as int].func == nodes[edges[ei].src as int].func);
                }
            }
        }
    }
}

/// Which arguments of a call carry the callee's flow to the call's result.
/// A callee without a flow graph lets every argument through. A static call
/// passes arguments positionally, so exactly the arguments whose parameter
/// flows pass. A call through `Fn*` of a closure or trait object filters
/// only its receiver, argument 1, by whether parameter 1 flows: every other
/// argument (the tuple the remaining formals come from) always passes. Any
/// other call (through a function pointer or item) lets every argument
/// through.
pub proof fn lemma_qualifies_by_call_kind(pw: Seq<usize>, idx: usize, is_static: bool, is_cd: bool)
    ensures
        qualifies(None, is_static, is_cd, idx),
        qualifies(Some(pw), true, false, idx) == pw.contains(idx),
        idx != 1 ==> qualifies(Some(pw), false, true, idx),
        qualifies(Some(pw), false, true, 1) == pw.contains(1),
        qualifies(Some(pw), false, false, idx),
{
}

} // verus!
