//! The whole pre-analysis: build the pointer flow graph of every function of
//! the call graph, find the precision-critical functions, and optionally
//! merge redundant flow-entry callsites.

use vstd::prelude::*;
use std::collections::HashMap;
use crate::ids::{FuncId, Location, sorted_insert, strictly_sorted, contains_usize, insert_usize};
use crate::mir::MirBody;
use crate::pfg::{FuncPFG, extends, lemma_extends_trans, flag_accurate, pwf_accurate};
use crate::flow::{FuncPointerFlowAnalysis, built_graph, too_big_to_build};
use crate::prec_crit::{PrecCritFnIdent, CallGraph, CGNode, CGEdge, pfgs_ok, node_propagated, edge_propagated_with, callee_pwf,
    call_propagated_in, entry_recorded, flow_kept, recorded_count, records_from_calls, record_from_call, call_edge_for, arg_edge};
use crate::merge::same_but_merge;
use crate::merge::{all_wf, merge_result, env_of};

verus! {

broadcast use vstd::std_specs::hash::group_hash_axioms;

/// A function of the program as the pre-analysis sees it.
pub struct FuncBody {
    pub func_id: FuncId,
    /// The function's body, when one is available.
    pub mir: Option<MirBody>,
    /// The function is a closure or coroutine body.
    pub is_closure_body: bool,
    /// The function is a trait method taking `self`.
    pub has_self_parameter: bool,
}

/// The options of the pre-analysis.
#[derive(Clone, Copy, Debug, PartialEq, Eq, Structural)]
pub struct AnalysisOptions {
    /// Track tuple fields, for argument provenance.
    pub rceus_ap: bool,
    /// Merge redundant flow-entry callsites.
    pub rceus_m: bool,
}

/// The body, when there is one, is well formed.
pub open spec fn body_ok(b: FuncBody) -> bool {
    match b.mir {
        Some(m) => m.wf(),
        None => true,
    }
}

/// The first entry of `bodies` for function `f`, if any.
pub open spec fn first_body(bodies: Seq<FuncBody>, f: FuncId, i: int) -> bool {
    &&& 0 <= i < bodies.len()
    &&& bodies[i].func_id == f
    &&& forall|j: int| 0 <= j < i ==> (#[trigger] bodies[j]).func_id != f
}

/// Function `f` has a body to analyse: a first entry whose body is available.
pub open spec fn has_body(bodies: Seq<FuncBody>, f: FuncId) -> bool {
    exists|i: int| first_body(bodies, f, i) && bodies[i].mir is Some
}

/// `p` grew from the pointer flow graph built for `body`, a body of `f`:
/// it holds that graph's nodes and edges first, records at least its call
/// locations, and keeps its callsites.
pub open spec fn grown_from(p: FuncPFG, body: FuncBody, f: FuncId, options: AnalysisOptions) -> bool {
    &&& body.mir is Some
    &&& exists|p0: FuncPFG|
        #[trigger] built_graph(
            p0,
            body.mir->0,
            f,
            body.is_closure_body,
            body.has_self_parameter,
            options.rceus_ap,
            options.rceus_m,
        ) && extends(p0, p) && same_sites(p0, p)
}

/// `p` and `q` have the same function, kind and callsites.
pub open spec fn same_sites(p: FuncPFG, q: FuncPFG) -> bool {
    &&& q.func_id == p.func_id
    &&& q.callsite_to_locals@ == p.callsite_to_locals@
    &&& q.static_callsites@ == p.static_callsites@
    &&& q.fn_ptr_def_callsites@ == p.fn_ptr_def_callsites@
    &&& q.closure_dyn_callsites@ == p.closure_dyn_callsites@
    &&& q.is_closure_body == p.is_closure_body
    &&& q.has_self_parameter == p.has_self_parameter
}

/// `m` is `m0`, whose graphs have no merge entries, after merging the
/// flow-entry calls of call graph `cg` with precision-critical functions
/// `cs`, which merged away `counts.0` calls in `counts.1` groups.
pub open spec fn merged_from(
    cg: CallGraph,
    cs: Seq<FuncId>,
    m0: Map<FuncId, FuncPFG>,
    m: Map<FuncId, FuncPFG>,
    counts: (usize, usize),
) -> bool {
    let env = env_of(&cg, m0, cs);
    &&& forall|f: FuncId| #[trigger] m0.contains_key(f) ==> m0[f].flow_entry_merge@.len() == 0
    &&& merge_result(env, m0, m)
    &&& counts.0 == env.merge_count(0, cg.nodes@.len() as int, cg.edges@.len() as int, false)
    &&& counts.1 == env.merge_count(0, cg.nodes@.len() as int, cg.edges@.len() as int, true)
}

/// Some node of the call graph stands for `f`.
pub open spec fn has_node(nodes: Seq<CGNode>, f: FuncId) -> bool {
    exists|v: int| 0 <= v < nodes.len() && (#[trigger] nodes[v]).func == f
}

/// The index of the first entry for `f`.
fn find_body(bodies: &Vec<FuncBody>, f: FuncId) -> (r: Option<usize>)
    ensures
        match r {
            Some(i) => first_body(bodies@, f, i as int),
            None => forall|j: int| 0 <= j < bodies@.len() ==> (#[trigger] bodies@[j]).func_id != f,
        },
{
    let mut i: usize = 0;
    while i < bodies.len()
        invariant
            0 <= i <= bodies@.len(),
            forall|j: int| 0 <= j < i ==> (#[trigger] bodies@[j]).func_id != f,
        decreases bodies.len() - i,
    {
        if bodies[i].func_id == f {
            return Some(i);
        }
        i += 1;
    }
    None
}

proof fn lemma_first_body_unique(bodies: Seq<FuncBody>, f: FuncId, i: int, j: int)
    requires
        first_body(bodies, f, i),
        first_body(bodies, f, j),
    ensures
        i == j,
{
    if i < j {
        assert(bodies[i].func_id != f);
    } else if j < i {
        assert(bodies[j].func_id != f);
    }
}

/// `p` is the pointer flow graph built for `body`, a body of `f`.
pub open spec fn built_from(p: FuncPFG, body: FuncBody, f: FuncId, options: AnalysisOptions) -> bool {
    &&& body.mir is Some
    &&& built_graph(p, body.mir->0, f, body.is_closure_body, body.has_self_parameter, options.rceus_ap, options.rceus_m)
}

/// Every graph of `m` is the one built for its function's first body.
pub open spec fn built_map(m: Map<FuncId, FuncPFG>, bodies: Seq<FuncBody>, options: AnalysisOptions) -> bool {
    forall|f: FuncId| #[trigger] m.contains_key(f) ==> exists|i: int| first_body(bodies, f, i) && built_from(m[f], #[trigger] bodies[i], f, options)
}

/// Merging keeps every new call flow accounted for.
proof fn lemma_records_merge(m0: Map<FuncId, FuncPFG>, m2: Map<FuncId, FuncPFG>, m3: Map<FuncId, FuncPFG>, nodes: Seq<CGNode>, edges: Seq<CGEdge>)
    requires
        m3.dom() == m2.dom(),
        forall|f: FuncId| #[trigger] m2.contains_key(f) ==> same_but_merge(m2[f], m3[f]),
        records_from_calls(m0, m2, nodes, edges),
    ensures
        records_from_calls(m0, m3, nodes, edges),
{
    assert forall|f: FuncId, e: int, l: Location|
        m3.contains_key(f) && 0 <= e < m3[f].edge_data@.len() && #[trigger] m3[f].edge_data@[e].call_locs@.contains(l) && !(e
            < m0[f].edge_data@.len() && m0[f].edge_data@[e].call_locs@.contains(l)) implies record_from_call(m3, nodes, edges, f, e, l) by {
        assert(same_but_merge(m2[f], m3[f]));
        assert(m2[f].edge_data@[e] == m3[f].edge_data@[e]);
        let ei = choose|ei: int|
            #![trigger edges[ei]]
            0 <= ei < edges.len() && nodes[edges[ei].src as int].func == f && edges[ei].location == l && call_edge_for(
                m2[f],
                e,
                l,
                callee_pwf(m2, nodes, edges[ei].dst as int),
            );
        let d = edges[ei].dst as int;
        if m2.contains_key(nodes[d].func) {
            assert(same_but_merge(m2[nodes[d].func], m3[nodes[d].func]));
        }
        assert(callee_pwf(m3, nodes, d) == callee_pwf(m2, nodes, d));
        let pwf = callee_pwf(m2, nodes, d);
        let (j, k) = choose|j: int, k: int|
            #![trigger m2[f].callsite_to_locals@[j].args@[k]]
            crate::pfg::is_first_entry(m2[f].callsite_to_locals@, l, j) && 0 <= k < m2[f].callsite_to_locals@[j].args@.len()
                && crate::prec_crit::qualifies(
                pwf,
                m2[f].static_callsites@.contains(l),
                m2[f].closure_dyn_callsites@.contains(l),
                m2[f].callsite_to_locals@[j].args@[k].0,
            ) && arg_edge(m2[f], e, m2[f].callsite_to_locals@[j].args@[k].1, m2[f].callsite_to_locals@[j].destination);
        assert(m2[f].nodes_view() == m3[f].nodes_view());
        assert(m2[f].edges_view() == m3[f].edges_view());
        assert(m3[f].callsite_to_locals@[j].args@[k] == m2[f].callsite_to_locals@[j].args@[k]);
        assert(call_edge_for(m3[f], e, l, callee_pwf(m3, nodes, d)));
    }
}

/// Merging keeps every call's propagation.
proof fn lemma_propagated_merge(m2: Map<FuncId, FuncPFG>, m3: Map<FuncId, FuncPFG>, nodes: Seq<CGNode>, edges: Seq<CGEdge>, v: int)
    requires
        m3.dom() == m2.dom(),
        forall|f: FuncId| #[trigger] m2.contains_key(f) ==> same_but_merge(m2[f], m3[f]),
        node_propagated(m2, nodes, edges, v),
    ensures
        node_propagated(m3, nodes, edges, v),
{
    if m2.contains_key(nodes[v].func) {
        assert(same_but_merge(m2[nodes[v].func], m3[nodes[v].func]));
    }
    assert(callee_pwf(m3, nodes, v) == callee_pwf(m2, nodes, v));
    let pwf = callee_pwf(m2, nodes, v);
    assert forall|ei: int| 0 <= ei < edges.len() && (#[trigger] edges[ei]).dst == v implies edge_propagated_with(m3, nodes, edges, ei, pwf) by {
        assert(edge_propagated_with(m2, nodes, edges, ei, pwf));
        let cf = nodes[edges[ei].src as int].func;
        if m3.contains_key(cf) {
            let p2 = m2[cf];
            let p3 = m3[cf];
            assert(same_but_merge(p2, p3));
            let loc = edges[ei].location;
            assert(call_propagated_in(p2, loc, pwf));
            assert forall|j: int, k: int|
                crate::pfg::is_first_entry(p3.callsite_to_locals@, loc, j) && 0 <= k < p3.callsite_to_locals@[j].args@.len() && crate::prec_crit::qualifies(
                    pwf,
                    p3.static_callsites@.contains(loc),
                    p3.closure_dyn_callsites@.contains(loc),
                    p3.callsite_to_locals@[j].args@[k].0,
                ) implies #[trigger] entry_recorded(p3, j, k) by {
                assert(entry_recorded(p2, j, k));
                assert(p2.nodes_view() == p3.nodes_view());
                assert(p2.edges_view() == p3.edges_view());
            }
        }
    }
}

impl PrecCritFnIdent {
    /// Builds the pointer flow graph of every function of the call graph
    /// that is not specially handled and has a body, queues the functions
    /// with an argument-to-result flow and the specially handled
    /// precision-critical functions, runs the identification, collects the
    /// functions that need a context, and, with `rceus_m`, merges redundant
    /// flow-entry callsites (returning the merge counts). Every graph's flow
    /// flag is exact, and the call flows added to the built graphs come from
    /// calls of the call graph whose arguments carry flow. Fails with the
    /// function whose graph would outgrow its index type.
    pub fn analyze(
        &mut self,
        bodies: &Vec<FuncBody>,
        specially_handled: &Vec<FuncId>,
        specially_handled_pc: &Vec<FuncId>,
        options: AnalysisOptions,
    ) -> (r: Result<Option<(usize, usize)>, FuncId>)
        requires
            old(self).call_graph.wf(),
            old(self).func_pfg_map@ == Map::<FuncId, FuncPFG>::empty(),
            old(self).cs_funcs@ == Seq::<FuncId>::empty(),
            old(self).worklist@ == Seq::<usize>::empty(),
            forall|i: int| 0 <= i < bodies@.len() ==> body_ok(#[trigger] bodies@[i]),
        ensures
            r is Ok ==> {
                let nodes = final(self).call_graph.nodes@;
                let m = final(self).func_pfg_map@;
                &&& final(self).call_graph.wf()
                &&& final(self).call_graph.edges@ == old(self).call_graph.edges@
                &&& nodes.len() == old(self).call_graph.nodes@.len()
                &&& forall|v: int| 0 <= v < nodes.len() ==> (#[trigger] nodes[v]).func == old(self).call_graph.nodes@[v].func
                &&& forall|f: FuncId| #[trigger] m.contains_key(f) <==> has_node(nodes, f) && !specially_handled@.contains(f)
                    && has_body(bodies@, f)
                &&& forall|f: FuncId| #[trigger] m.contains_key(f) ==> m[f].wf() && m[f].func_id == f
                &&& forall|v: int|
                    0 <= v < nodes.len() ==> (#[trigger] nodes[v]).req_cs == (old(self).call_graph.nodes@[v].req_cs
                        || specially_handled_pc@.contains(nodes[v].func) || (m.contains_key(nodes[v].func)
                        && m[nodes[v].func].has_arg_to_return_flow))
                &&& forall|v: int|
                    0 <= v < nodes.len() && specially_handled_pc@.contains((#[trigger] nodes[v]).func) ==> nodes[v].req_cs
                &&& forall|v: int|
                    0 <= v < nodes.len() && m.contains_key((#[trigger] nodes[v]).func) && m[nodes[v].func].has_arg_to_return_flow
                        ==> nodes[v].req_cs
                &&& forall|v: int|
                    0 <= v < nodes.len() && (#[trigger] nodes[v]).req_cs && !old(self).call_graph.nodes@[v].req_cs
                        ==> specially_handled_pc@.contains(nodes[v].func) || (m.contains_key(nodes[v].func)
                        && m[nodes[v].func].has_arg_to_return_flow)
                &&& forall|v: int|
                    0 <= v < nodes.len() && (#[trigger] nodes[v]).req_cs && !old(self).call_graph.nodes@[v].req_cs
                        ==> node_propagated(m, nodes, final(self).call_graph.edges@, v)
                &&& forall|f: FuncId| #[trigger] final(self).cs_funcs@.contains(f) <==> exists|v: int|
                    0 <= v < nodes.len() && (#[trigger] nodes[v]).func == f && nodes[v].req_cs
            },
            r is Ok ==> forall|f: FuncId| #[trigger] final(self).func_pfg_map@.contains_key(f) ==> flag_accurate(final(self).func_pfg_map@[f])
                && pwf_accurate(final(self).func_pfg_map@[f]),
            r is Ok ==> exists|m0: Map<FuncId, FuncPFG>|
                #[trigger] built_map(m0, bodies@, options) && m0.dom() == final(self).func_pfg_map@.dom() && records_from_calls(
                    m0,
                    final(self).func_pfg_map@,
                    old(self).call_graph.nodes@,
                    old(self).call_graph.edges@,
                ),
            r is Ok ==> forall|f: FuncId| #[trigger] final(self).func_pfg_map@.contains_key(f) ==> exists|i: int|
                first_body(bodies@, f, i) && grown_from(final(self).func_pfg_map@[f], #[trigger] bodies@[i], f, options),
            r is Ok && !options.rceus_m ==> r->Ok_0 is None && forall|f: FuncId| #[trigger] final(self).func_pfg_map@.contains_key(f)
                ==> final(self).func_pfg_map@[f].flow_entry_merge@.len() == 0,
            r is Ok && options.rceus_m ==> r->Ok_0 is Some && exists|m0: Map<FuncId, FuncPFG>|
                #[trigger] merged_from(final(self).call_graph, final(self).cs_funcs@, m0, final(self).func_pfg_map@, r->Ok_0->0),
            r matches Err(f) ==> {
                &&& has_node(old(self).call_graph.nodes@, f)
                &&& !specially_handled@.contains(f)
                &&& exists|i: int| first_body(bodies@, f, i) && ((#[trigger] bodies@[i]).mir matches Some(body) && too_big_to_build(body, f, options.rceus_ap, options.rceus_m))
            },
    {
        let n = self.call_graph.nodes.len();
        let mut funcs: Vec<FuncId> = Vec::new();
        let mut v: usize = 0;
        while v < n
            invariant
                0 <= v <= n,
                n == self.call_graph.nodes@.len(),
                strictly_sorted(funcs@),
                forall|f: FuncId| #[trigger] funcs@.contains(f) <==> exists|u: int| 0 <= u < v && (#[trigger] self.call_graph.nodes@[u]).func == f,
            decreases n - v,
        {
            let ghost before = funcs@;
            sorted_insert(&mut funcs, self.call_graph.nodes[v].func);
            proof {
                assert forall|f: FuncId| #[trigger] funcs@.contains(f) <==> exists|u: int| 0 <= u < v + 1 && (#[trigger] self.call_graph.nodes@[u]).func == f by {
                    if exists|u: int| 0 <= u < v + 1 && (#[trigger] self.call_graph.nodes@[u]).func == f {
                        let u = choose|u: int| 0 <= u < v + 1 && (#[trigger] self.call_graph.nodes@[u]).func == f;
                        if u < v {
                            assert(before.contains(f));
                        }
                    }
                }
            }
            v += 1;
        }
        let ghost nodes0 = self.call_graph.nodes@;
        let mut k: usize = 0;
        while k < funcs.len()
            invariant
                0 <= k <= funcs@.len(),
                n == self.call_graph.nodes@.len(),
                self.call_graph == old(self).call_graph,
                self.call_graph.wf(),
                nodes0 == self.call_graph.nodes@,
                self.cs_funcs@ == Seq::<FuncId>::empty(),
                strictly_sorted(funcs@),
                forall|f: FuncId| #[trigger] funcs@.contains(f) <==> has_node(nodes0, f),
                forall|i: int| 0 <= i < bodies@.len() ==> body_ok(#[trigger] bodies@[i]),
                pfgs_ok(self.func_pfg_map@),
                built_map(self.func_pfg_map@, bodies@, options),
                forall|f: FuncId| #[trigger] self.func_pfg_map@.contains_key(f) ==> self.func_pfg_map@[f].func_id == f,
                forall|f: FuncId| #[trigger] self.func_pfg_map@.contains_key(f) ==> self.func_pfg_map@[f].flow_entry_merge@.len() == 0,
                forall|f: FuncId| #[trigger] self.func_pfg_map@.contains_key(f) ==> exists|i: int|
                    first_body(bodies@, f, i) && grown_from(self.func_pfg_map@[f], #[trigger] bodies@[i], f, options),
                forall|f: FuncId| #[trigger] self.func_pfg_map@.contains_key(f) <==> (exists|j: int| 0 <= j < k && funcs@[j] == f)
                    && !specially_handled@.contains(f) && has_body(bodies@, f),
                forall|q: int| 0 <= q < self.worklist@.len() ==> (#[trigger] self.worklist@[q]) < n,
                forall|u: int|
                    0 <= u < n && self.func_pfg_map@.contains_key((#[trigger] nodes0[u]).func)
                        && self.func_pfg_map@[nodes0[u].func].has_arg_to_return_flow ==> self.worklist@.contains(u as usize),
                forall|q: int| 0 <= q < self.worklist@.len() ==> self.func_pfg_map@.contains_key(nodes0[(#[trigger] self.worklist@[q]) as int].func)
                    && self.func_pfg_map@[nodes0[self.worklist@[q] as int].func].has_arg_to_return_flow,
            decreases funcs.len() - k,
        {
            let f = funcs[k];
            let ghost m_before = self.func_pfg_map@;
            proof {
                assert(funcs@.contains(f));
                assert forall|g: FuncId| #[trigger] m_before.contains_key(g) implies g != f by {
                    if g == f {
                        let j = choose|j: int| 0 <= j < k && funcs@[j] == f;
                        assert(funcs@[j] < funcs@[k as int]);
                    }
                }
            }
            if !contains_usize(specially_handled, f) {
                match find_body(bodies, f) {
                    Some(i) => {
                        match &bodies[i].mir {
                            Some(mir) => {
                                proof {
                                    assert(body_ok(bodies@[i as int]));
                                    assert(has_body(bodies@, f));
                                }
                                let a = FuncPointerFlowAnalysis::new(
                                    f,
                                    mir,
                                    bodies[i].is_closure_body,
                                    bodies[i].has_self_parameter,
                                    options.rceus_ap,
                                    options.rceus_m,
                                );
                                match a.calculate_intra_pointer_flow() {
                                    None => {
                                        proof {
                                            assert(first_body(bodies@, f, i as int));
                                            assert(too_big_to_build(*mir, f, options.rceus_ap, options.rceus_m));
                                            assert(has_node(old(self).call_graph.nodes@, f));
                                        }
                                        return Err(f);
                                    },
                                    Some(pfg) => {
                                        let ghost wq0 = self.worklist@;
                                        let ghost mut pushed: Option<usize> = None;
                                        if pfg.has_arg_to_return_flow {
                                            match self.call_graph.func_node(f) {
                                                Some(node_id) => {
                                                    self.worklist.push_front(node_id);
                                                    proof {
                                                        pushed = Some(node_id);
                                                        assert forall|q: int| 0 <= q < self.worklist@.len() implies (#[trigger] self.worklist@[q]) < n by {
                                                            if q > 0 {
                                                                assert(self.worklist@[q] == wq0[q - 1]);
                                                            }
                                                        }
                                                    }
                                                },
                                                None => {
                                                    proof {
                                                        let w = choose|w: int| 0 <= w < nodes0.len() && (#[trigger] nodes0[w]).func == f;
                                                        assert(nodes0[w].func != f);
                                                    }
                                                },
                                            }
                                        }
                                        proof {
                                            assert(pushed is None ==> self.worklist@ == wq0 && !pfg.has_arg_to_return_flow);
                                            assert(pushed is Some ==> pushed->0 < n && nodes0[pushed->0 as int].func == f
                                                && self.worklist@ == seq![pushed->0].add(wq0));
                                        }
                                        self.func_pfg_map.insert(f, pfg);
                                        proof {
                                            let mm = self.func_pfg_map@;
                                            assert(mm =~= m_before.insert(f, pfg));
                                            assert(grown_from(pfg, bodies@[i as int], f, options));
                                            assert forall|g: FuncId| #[trigger] mm.contains_key(g) implies exists|j: int|
                                                first_body(bodies@, g, j) && built_from(mm[g], #[trigger] bodies@[j], g, options) by {
                                                if g == f {
                                                    assert(first_body(bodies@, f, i as int));
                                                    assert(built_from(mm[g], bodies@[i as int], g, options));
                                                } else {
                                                    assert(m_before.contains_key(g));
                                                }
                                            }
                                            assert forall|g: FuncId| #[trigger] mm.contains_key(g) implies exists|j: int|
                                                first_body(bodies@, g, j) && grown_from(mm[g], #[trigger] bodies@[j], g, options) by {
                                                if g == f {
                                                    assert(first_body(bodies@, f, i as int));
                                                } else {
                                                    assert(m_before.contains_key(g));
                                                }
                                            }
                                            assert forall|u: int|
                                                0 <= u < n && mm.contains_key((#[trigger] nodes0[u]).func)
                                                    && mm[nodes0[u].func].has_arg_to_return_flow implies self.worklist@.contains(u as usize) by {
                                                if nodes0[u].func == f {
                                                    assert(pfg.has_arg_to_return_flow);
                                                    let node_id = pushed->0;
                                                    if u as usize != node_id {
                                                        assert(nodes0[u].func != nodes0[node_id as int].func);
                                                    }
                                                    assert(self.worklist@[0] == node_id);
                                                } else {
                                                    assert(m_before.contains_key(nodes0[u].func));
                                                    assert(wq0.contains(u as usize));
                                                    let q = choose|q: int| 0 <= q < wq0.len() && wq0[q] == u as usize;
                                                    if self.worklist@ != wq0 {
                                                        assert(self.worklist@[q + 1] == wq0[q]);
                                                    }
                                                }
                                            }
                                            assert forall|q: int| 0 <= q < self.worklist@.len() implies mm.contains_key(nodes0[(#[trigger] self.worklist@[q]) as int].func)
                                                && mm[nodes0[self.worklist@[q] as int].func].has_arg_to_return_flow by {
                                                if self.worklist@ == wq0 {
                                                    assert(m_before.contains_key(nodes0[wq0[q] as int].func));
                                                    assert(nodes0[wq0[q] as int].func != f);
                                                } else if q == 0 {
                                                } else {
                                                    assert(self.worklist@[q] == wq0[q - 1]);
                                                    assert(m_before.contains_key(nodes0[wq0[q - 1] as int].func));
                                                    assert(nodes0[wq0[q - 1] as int].func != f);
                                                }
                                            }
                                        }
                                    },
                                }
                            },
                            None => {
                                proof {
                                    assert(!has_body(bodies@, f)) by {
                                        if has_body(bodies@, f) {
                                            let j = choose|j: int| first_body(bodies@, f, j) && bodies@[j].mir is Some;
                                            lemma_first_body_unique(bodies@, f, i as int, j);
                                        }
                                    }
                                }
                            },
                        }
                    },
                    None => {
                        proof {
                            assert(!has_body(bodies@, f));
                        }
                    },
                }
            }
            proof {
                assert forall|g: FuncId| #[trigger] self.func_pfg_map@.contains_key(g) <==> (exists|j: int| 0 <= j < k + 1 && funcs@[j] == g)
                    && !specially_handled@.contains(g) && has_body(bodies@, g) by {
                    if exists|j: int| 0 <= j < k + 1 && funcs@[j] == g {
                        let j = choose|j: int| 0 <= j < k + 1 && funcs@[j] == g;
                        if j < k {
                            assert(exists|j2: int| 0 <= j2 < k && funcs@[j2] == g);
                        }
                    }
                    if self.func_pfg_map@.contains_key(g) && g != f {
                        assert(m_before.contains_key(g));
                        let j = choose|j: int| 0 <= j < k && funcs@[j] == g;
                        assert(0 <= j < k + 1 && funcs@[j] == g);
                    }
                }
            }
            k += 1;
        }
        let mut pc: Vec<FuncId> = Vec::new();
        let mut i: usize = 0;
        while i < specially_handled_pc.len()
            invariant
                0 <= i <= specially_handled_pc@.len(),
                strictly_sorted(pc@),
                forall|f: FuncId| #[trigger] pc@.contains(f) <==> specially_handled_pc@.take(i as int).contains(f),
            decreases specially_handled_pc.len() - i,
        {
            sorted_insert(&mut pc, specially_handled_pc[i]);
            proof {
                let t1 = specially_handled_pc@.take(i + 1);
                let t0 = specially_handled_pc@.take(i as int);
                assert forall|f: FuncId| #[trigger] pc@.contains(f) <==> t1.contains(f) by {
                    if t1.contains(f) {
                        let j = choose|j: int| 0 <= j < t1.len() && t1[j] == f;
                        if j < i {
                            assert(t0[j] == f);
                        }
                    }
                    if t0.contains(f) {
                        let j = choose|j: int| 0 <= j < t0.len() && t0[j] == f;
                        assert(t1[j] == f);
                    }
                    if f == specially_handled_pc@[i as int] {
                        assert(t1[i as int] == f);
                    }
                }
            }
            i += 1;
        }
        proof {
            assert(specially_handled_pc@.take(specially_handled_pc@.len() as int) =~= specially_handled_pc@);
        }
        let ghost q_before = self.worklist@;
        let ghost m1 = self.func_pfg_map@;
        proof {
            assert forall|f: FuncId| #[trigger] m1.contains_key(f) <==> has_node(old(self).call_graph.nodes@, f)
                && !specially_handled@.contains(f) && has_body(bodies@, f) by {
                if funcs@.contains(f) {
                    let jj = choose|jj: int| 0 <= jj < funcs@.len() && funcs@[jj] == f;
                    assert(exists|j2: int| 0 <= j2 < funcs@.len() && funcs@[j2] == f);
                }
                if exists|j2: int| 0 <= j2 < funcs@.len() && funcs@[j2] == f {
                    let j2 = choose|j2: int| 0 <= j2 < funcs@.len() && funcs@[j2] == f;
                    assert(funcs@.contains(f));
                }
            }
        }
        let mut j: usize = 0;
        while j < pc.len()
            invariant
                0 <= j <= pc@.len(),
                n == self.call_graph.nodes@.len(),
                self.func_pfg_map@ == m1,
                pfgs_ok(m1),
                built_map(m1, bodies@, options),
                forall|f: FuncId| #[trigger] m1.contains_key(f) ==> m1[f].func_id == f,
                forall|f: FuncId| #[trigger] m1.contains_key(f) ==> m1[f].flow_entry_merge@.len() == 0,
                forall|f: FuncId| #[trigger] m1.contains_key(f) ==> exists|i: int|
                    first_body(bodies@, f, i) && grown_from(m1[f], #[trigger] bodies@[i], f, options),
                forall|f: FuncId| #[trigger] m1.contains_key(f) <==> has_node(old(self).call_graph.nodes@, f)
                    && !specially_handled@.contains(f) && has_body(bodies@, f),
                self.cs_funcs@ == Seq::<FuncId>::empty(),
                strictly_sorted(pc@),
                forall|f: FuncId| #[trigger] pc@.contains(f) <==> specially_handled_pc@.contains(f),
                self.call_graph == old(self).call_graph,
                self.call_graph.wf(),
                n == self.call_graph.nodes@.len(),
                forall|q: int| 0 <= q < self.worklist@.len() ==> (#[trigger] self.worklist@[q]) < n,
                forall|u: int|
                    0 <= u < n && (exists|jj: int| 0 <= jj < j && pc@[jj] == (#[trigger] self.call_graph.nodes@[u]).func) ==> self.worklist@.contains(u as usize),
                nodes0 == self.call_graph.nodes@,
                forall|u: int|
                    0 <= u < n && m1.contains_key((#[trigger] nodes0[u]).func) && m1[nodes0[u].func].has_arg_to_return_flow
                        ==> self.worklist@.contains(u as usize),
                forall|q: int| 0 <= q < self.worklist@.len() ==> (m1.contains_key(nodes0[(#[trigger] self.worklist@[q]) as int].func)
                    && m1[nodes0[self.worklist@[q] as int].func].has_arg_to_return_flow)
                    || specially_handled_pc@.contains(nodes0[self.worklist@[q] as int].func),
            decreases pc.len() - j,
        {
            let ghost wq = self.worklist@;
            match self.call_graph.func_node(pc[j]) {
                Some(node_id) => {
                    self.worklist.push_front(node_id);
                    proof {
                        assert(self.worklist@[0] == node_id);
                        assert(pc@.contains(pc@[j as int]));
                        assert forall|u: int|
                            0 <= u < n && m1.contains_key((#[trigger] nodes0[u]).func) && m1[nodes0[u].func].has_arg_to_return_flow
                                implies self.worklist@.contains(u as usize) by {
                            assert(wq.contains(u as usize));
                            let q = choose|q: int| 0 <= q < wq.len() && wq[q] == u as usize;
                            assert(self.worklist@[q + 1] == wq[q]);
                        }
                        assert forall|q: int| 0 <= q < self.worklist@.len() implies (m1.contains_key(nodes0[(#[trigger] self.worklist@[q]) as int].func)
                            && m1[nodes0[self.worklist@[q] as int].func].has_arg_to_return_flow)
                            || specially_handled_pc@.contains(nodes0[self.worklist@[q] as int].func) by {
                            if q > 0 {
                                assert(self.worklist@[q] == wq[q - 1]);
                            }
                        }
                        assert forall|u: int|
                            0 <= u < n && (exists|jj: int| 0 <= jj < j + 1 && pc@[jj] == (#[trigger] self.call_graph.nodes@[u]).func) implies self.worklist@.contains(u as usize) by {
                            let jj = choose|jj: int| 0 <= jj < j + 1 && pc@[jj] == self.call_graph.nodes@[u].func;
                            if jj < j {
                                assert(wq.contains(u as usize));
                                let q = choose|q: int| 0 <= q < wq.len() && wq[q] == u as usize;
                                assert(self.worklist@[q + 1] == wq[q]);
                            } else {
                                if u as usize != node_id {
                                    assert(self.call_graph.nodes@[u].func != self.call_graph.nodes@[node_id as int].func);
                                }
                            }
                        }
                    }
                },
                None => {
                    proof {
                        assert forall|u: int|
                            0 <= u < n && (exists|jj: int| 0 <= jj < j + 1 && pc@[jj] == (#[trigger] self.call_graph.nodes@[u]).func) implies self.worklist@.contains(u as usize) by {
                            let jj = choose|jj: int| 0 <= jj < j + 1 && pc@[jj] == self.call_graph.nodes@[u].func;
                            assert(jj < j);
                        }
                    }
                },
            }
            j += 1;
        }
        proof {
            assert forall|f: FuncId| #[trigger] m1.contains_key(f) <==> (exists|jj: int| 0 <= jj < funcs@.len() && funcs@[jj] == f)
                && !specially_handled@.contains(f) && has_body(bodies@, f) by {}
        }
        let ghost seeded = self.worklist@;
        let ghost mid_nodes = self.call_graph.nodes@;
        self.precision_critical_func_identification();
        let ghost cg2 = self.call_graph;
        let ghost m2 = self.func_pfg_map@;
        proof {
            assert forall|g: FuncId| #[trigger] m2.contains_key(g) implies m2[g].flow_entry_merge@.len() == 0 by {
                assert(m1.contains_key(g));
            }
            assert forall|g: FuncId| #[trigger] m2.contains_key(g) implies exists|i: int|
                first_body(bodies@, g, i) && grown_from(m2[g], #[trigger] bodies@[i], g, options) by {
                assert(m1.contains_key(g));
                let i = choose|i: int| first_body(bodies@, g, i) && grown_from(m1[g], #[trigger] bodies@[i], g, options);
                let b = bodies@[i];
                let p0 = choose|p0: FuncPFG|
                    #[trigger] built_graph(p0, b.mir->0, g, b.is_closure_body, b.has_self_parameter, options.rceus_ap, options.rceus_m)
                        && extends(p0, m1[g]) && same_sites(p0, m1[g]);
                lemma_extends_trans(p0, m1[g], m2[g]);
                assert(grown_from(m2[g], b, g, options));
            }
            assert forall|u: int| 0 <= u < n && specially_handled_pc@.contains((#[trigger] self.call_graph.nodes@[u]).func) implies self.call_graph.nodes@[u].req_cs by {
                let f = self.call_graph.nodes@[u].func;
                assert(pc@.contains(f));
                let jj = choose|jj: int| 0 <= jj < pc@.len() && pc@[jj] == f;
                assert(mid_nodes[u].func == f);
                assert(seeded.contains(u as usize));
            }
            assert forall|u: int|
                0 <= u < n && m2.contains_key((#[trigger] self.call_graph.nodes@[u]).func)
                    && m2[self.call_graph.nodes@[u].func].has_arg_to_return_flow implies self.call_graph.nodes@[u].req_cs by {
                let f = self.call_graph.nodes@[u].func;
                assert(mid_nodes[u].func == f);
                assert(m1.contains_key(f));
                assert(flow_kept(m1[f], m2[f]));
                if recorded_count(m2[f]) == recorded_count(m1[f]) {
                    assert(m1[f].has_arg_to_return_flow);
                    assert(seeded.contains(u as usize));
                }
            }
            assert forall|u: int|
                0 <= u < n && (#[trigger] self.call_graph.nodes@[u]).req_cs && !old(self).call_graph.nodes@[u].req_cs
                    implies specially_handled_pc@.contains(self.call_graph.nodes@[u].func) || (m2.contains_key(self.call_graph.nodes@[u].func)
                    && m2[self.call_graph.nodes@[u].func].has_arg_to_return_flow) by {
                let f = self.call_graph.nodes@[u].func;
                assert(mid_nodes[u].func == f);
                if seeded.contains(u as usize) {
                    let q = choose|q: int| 0 <= q < seeded.len() && seeded[q] == u as usize;
                    assert(nodes0[seeded[q] as int].func == f);
                    if m1.contains_key(f) && m1[f].has_arg_to_return_flow {
                        assert(flow_kept(m1[f], m2[f]));
                    }
                }
            }
        }
        let mut u: usize = 0;
        while u < n
            invariant
                0 <= u <= n,
                self.call_graph == cg2,
                self.func_pfg_map@ == m2,
                self.worklist@ == Seq::<usize>::empty(),
                n == self.call_graph.nodes@.len(),
                forall|f: FuncId| #[trigger] self.cs_funcs@.contains(f) <==> exists|w: int|
                    0 <= w < u && (#[trigger] self.call_graph.nodes@[w]).func == f && self.call_graph.nodes@[w].req_cs,
            decreases n - u,
        {
            let node = self.call_graph.nodes[u];
            let ghost before = self.cs_funcs@;
            let ghost nodes = self.call_graph.nodes@;
            if node.req_cs {
                insert_usize(&mut self.cs_funcs, node.func);
            }
            proof {
                assert(nodes[u as int] == node);
                assert forall|f: FuncId| #[trigger] self.cs_funcs@.contains(f) <==> exists|w: int|
                    0 <= w < u + 1 && (#[trigger] self.call_graph.nodes@[w]).func == f && self.call_graph.nodes@[w].req_cs by {
                    if self.cs_funcs@.contains(f) {
                        if before.contains(f) {
                            let w = choose|w: int| 0 <= w < u && (#[trigger] nodes[w]).func == f && nodes[w].req_cs;
                            assert(0 <= w < u + 1 && self.call_graph.nodes@[w].func == f && self.call_graph.nodes@[w].req_cs);
                        } else {
                            assert(node.req_cs && f == node.func);
                            assert(self.call_graph.nodes@[u as int].func == f && self.call_graph.nodes@[u as int].req_cs);
                        }
                    }
                    if exists|w: int| 0 <= w < u + 1 && (#[trigger] self.call_graph.nodes@[w]).func == f && self.call_graph.nodes@[w].req_cs {
                        let w = choose|w: int| 0 <= w < u + 1 && (#[trigger] self.call_graph.nodes@[w]).func == f && self.call_graph.nodes@[w].req_cs;
                        if w < u {
                            assert(before.contains(f));
                            let i = choose|i: int| 0 <= i < before.len() && before[i] == f;
                            assert(self.cs_funcs@[i] == f);
                        } else {
                            if !before.contains(f) {
                                assert(self.cs_funcs@[before.len() as int] == f);
                            }
                        }
                    }
                }
            }
            u += 1;
        }
        proof {
            let nodes = self.call_graph.nodes@;
            let m = self.func_pfg_map@;
            assert(self.call_graph.wf());
            assert(self.call_graph.edges@ == old(self).call_graph.edges@);
            assert(nodes.len() == old(self).call_graph.nodes@.len());
            assert(forall|v: int| 0 <= v < nodes.len() ==> (#[trigger] nodes[v]).func == old(self).call_graph.nodes@[v].func);
            assert forall|f: FuncId| has_node(nodes, f) <==> has_node(old(self).call_graph.nodes@, f) by {
                if has_node(nodes, f) {
                    let v = choose|v: int| 0 <= v < nodes.len() && (#[trigger] nodes[v]).func == f;
                    assert(old(self).call_graph.nodes@[v].func == f);
                }
                if has_node(old(self).call_graph.nodes@, f) {
                    let v = choose|v: int| 0 <= v < old(self).call_graph.nodes@.len() && (#[trigger] old(self).call_graph.nodes@[v]).func == f;
                    assert(nodes[v].func == f);
                }
            }
            assert(m.dom() == m1.dom());
            assert forall|f: FuncId| #[trigger] m.contains_key(f) <==> has_node(nodes, f) && !specially_handled@.contains(f)
                    && has_body(bodies@, f) by {
                assert(m.contains_key(f) == m1.contains_key(f));
            }
            assert(forall|f: FuncId| #[trigger] m.contains_key(f) ==> m[f].wf() && m[f].func_id == f);
            assert(forall|v: int|
                    0 <= v < nodes.len() && (#[trigger] nodes[v]).req_cs && !old(self).call_graph.nodes@[v].req_cs
                        ==> node_propagated(m, nodes, self.call_graph.edges@, v));
        }
        if options.rceus_m {
            let ghost m_final = self.func_pfg_map@;
            let counts = self.compute_flow_entry_merge();
            proof {
                assert(merged_from(self.call_graph, self.cs_funcs@, m_final, self.func_pfg_map@, counts));
                assert forall|w: int|
                    0 <= w < n && (#[trigger] self.call_graph.nodes@[w]).req_cs && !old(self).call_graph.nodes@[w].req_cs
                        implies node_propagated(self.func_pfg_map@, self.call_graph.nodes@, self.call_graph.edges@, w) by {
                    assert(node_propagated(m_final, self.call_graph.nodes@, self.call_graph.edges@, w));
                    lemma_propagated_merge(m_final, self.func_pfg_map@, self.call_graph.nodes@, self.call_graph.edges@, w);
                }
                assert forall|f: FuncId| #[trigger] self.func_pfg_map@.contains_key(f) implies self.func_pfg_map@[f].wf() && self.func_pfg_map@[f].func_id == f by {
                    assert(m_final.contains_key(f));
                    assert(crate::merge::same_but_merge(m_final[f], self.func_pfg_map@[f]));
                }
            }
            proof {
                let m3 = self.func_pfg_map@;
                assert forall|g: FuncId| #[trigger] m3.contains_key(g) implies exists|i: int|
                    first_body(bodies@, g, i) && grown_from(m3[g], #[trigger] bodies@[i], g, options) by {
                    assert(m_final.contains_key(g));
                    assert(m_final == m2);
                    let i = choose|i: int| first_body(bodies@, g, i) && grown_from(m2[g], #[trigger] bodies@[i], g, options);
                    let b = bodies@[i];
                    let p0 = choose|p0: FuncPFG|
                        #[trigger] built_graph(p0, b.mir->0, g, b.is_closure_body, b.has_self_parameter, options.rceus_ap, options.rceus_m)
                            && extends(p0, m2[g]) && same_sites(p0, m2[g]);
                    assert(same_but_merge(m2[g], m3[g]));
                    assert(extends(m2[g], m3[g]));
                    lemma_extends_trans(p0, m2[g], m3[g]);
                    assert(grown_from(m3[g], b, g, options));
                }
            }
            proof {
                lemma_records_merge(m1, m2, self.func_pfg_map@, old(self).call_graph.nodes@, old(self).call_graph.edges@);
                assert(built_map(m1, bodies@, options) && m1.dom() == self.func_pfg_map@.dom() && records_from_calls(
                    m1,
                    self.func_pfg_map@,
                    old(self).call_graph.nodes@,
                    old(self).call_graph.edges@,
                ));
            }
            let res: Result<Option<(usize, usize)>, FuncId> = Ok(Some(counts));
            proof {
                assert(res->Ok_0->0 == counts);
                assert(exists|m0: Map<FuncId, FuncPFG>|
                    #[trigger] merged_from(self.call_graph, self.cs_funcs@, m0, self.func_pfg_map@, res->Ok_0->0));
            }
            res
        } else {
            proof {
                assert(built_map(m1, bodies@, options) && m1.dom() == self.func_pfg_map@.dom() && records_from_calls(
                    m1,
                    self.func_pfg_map@,
                    old(self).call_graph.nodes@,
                    old(self).call_graph.edges@,
                ));
            }
            Ok(None)
        }
    }
}

} // verus!
