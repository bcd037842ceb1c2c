//! The intra-procedural pointer flow analysis: a visit of a function body
//! that connects, in the function's pointer flow graph, the locals pointers
//! flow between, and records its callsites.

use vstd::prelude::*;
use crate::ids::{FuncId, Location, Path, insert_location};
use crate::graph::{flow_graph_node_count, flow_graph_edge_count};
use crate::pfg::{FuncPFG, PFGEdgeEnum, DFGNode, has_path, first_index, nodes_with, add_edge_post, lemma_add_edge_effects,
    lemma_first_index, lemma_first_index_prefix, extends};
use crate::mir::{MirBody, Place, Operand, Rvalue, Statement, Terminator, CalleeTy, TypeArgKind, CallKind,
    place_ok, operand_ok, rvalue_ok, statement_ok, terminator_ok, use_flows, ref_flows, field_flows, pointer_operand,
    aggregate_flows, tuple_flow, assign_flows, statement_flows, statements_flows, blocks_flows, body_flows, arg_paths,
    terminator_location, is_pointer_call, call_record, calls_upto, callee_ty, call_kind, is_call_site_of_kind,
    call_args_total};
use crate::pfg::{CallsiteLocals, flow_consistent, flag_accurate, is_param_node, paths_unique, edges_labelled};
use crate::mir::{flow_end_ok, lemma_body_flows_ends};
use crate::graph::{reaches, is_path, is_edge};
use crate::ids::spec_parameter_ordinal;
use crate::prec_crit::{has_room, args_upto, args_count, recorded_count, lemma_recorded_bound};

verus! {

/// The graph records an assignment flow from the first node of `src` to the
/// first node of `dst`.
pub open spec fn intra_recorded(p: FuncPFG, src: Path, dst: Path) -> bool {
    let nodes = p.nodes_view();
    let edges = p.edges_view();
    &&& has_path(nodes, src)
    &&& has_path(nodes, dst)
    &&& exists|e: int|
        0 <= e < edges.len() && #[trigger] edges[e] == (first_index(nodes, src) as usize, first_index(nodes, dst) as usize)
            && p.edge_data@[e].intra
}

/// The paths of the ends of edge `e`.
pub open spec fn edge_paths(p: FuncPFG, e: int) -> (Path, Path) {
    (p.nodes_view()[p.edges_view()[e].0 as int].path, p.nodes_view()[p.edges_view()[e].1 as int].path)
}

/// Path `q` is an end of one of the flows.
pub open spec fn is_endpoint(flows: Seq<(Path, Path)>, q: Path) -> bool {
    exists|k: int| 0 <= k < flows.len() && (flows[k].0 == q || flows[k].1 == q)
}

/// The graph holds exactly the assignment flows `flows`: each is recorded,
/// each edge is one of them and records no call, and each node is an end of
/// one of them.
pub open spec fn graph_is(p: FuncPFG, flows: Seq<(Path, Path)>) -> bool {
    &&& forall|k: int| 0 <= k < flows.len() ==> intra_recorded(p, (#[trigger] flows[k]).0, flows[k].1)
    &&& forall|e: int|
        0 <= e < p.edges_view().len() ==> flows.contains(#[trigger] edge_paths(p, e)) && p.edge_data@[e].intra
            && p.edge_data@[e].call_locs@.len() == 0
    &&& forall|i: int| 0 <= i < p.nodes_view().len() ==> is_endpoint(flows, (#[trigger] p.nodes_view()[i]).path)
    &&& p.nodes_view().len() <= 2 * flows.len()
    &&& p.edges_view().len() <= flows.len()
}

proof fn lemma_add_flow(a: FuncPFG, b: FuncPFG, src: Path, dst: Path, added: bool, flows: Seq<(Path, Path)>)
    requires
        a.wf(),
        b.wf(),
        b.nodes_view() == nodes_with(nodes_with(a.nodes_view(), src), dst),
        add_edge_post(a, b, src, dst, PFGEdgeEnum::IntraPFGEdge, added),
        graph_is(a, flows),
    ensures
        graph_is(b, flows.push((src, dst))),
{
    lemma_add_edge_effects(a, b, src, dst, PFGEdgeEnum::IntraPFGEdge, added);
    let nf = flows.push((src, dst));
    let na = a.nodes_view();
    let nb = b.nodes_view();
    let s = first_index(nb, src) as usize;
    let d = first_index(nb, dst) as usize;
    lemma_first_index(nb, src);
    lemma_first_index(nb, dst);
    let grew = !has_edge_spec(a, s, d);
    // the flow just added
    if has_edge_spec(a, s, d) {
        let e = choose|e: int| 0 <= e < a.edges_view().len() && #[trigger] a.edges_view()[e] == (s, d);
        assert(b.edges_view()[e] == (s, d));
        assert(b.edge_data@[e].intra);
    } else {
        let e = a.edges_view().len() as int;
        assert(b.edges_view()[e] == (s, d));
        assert(b.edge_data@[e] == b.edge_data@.last());
    }
    assert(intra_recorded(b, src, dst));
    // earlier flows stay recorded
    assert forall|k: int| 0 <= k < nf.len() implies intra_recorded(b, (#[trigger] nf[k]).0, nf[k].1) by {
        if k < flows.len() {
            assert(nf[k] == flows[k]);
            let p = flows[k].0;
            let q = flows[k].1;
            assert(intra_recorded(a, p, q));
            lemma_first_index_prefix(na, nb, p);
            lemma_first_index_prefix(na, nb, q);
            let e = choose|e: int|
                0 <= e < a.edges_view().len() && #[trigger] a.edges_view()[e] == (first_index(na, p) as usize, first_index(na, q) as usize)
                    && a.edge_data@[e].intra;
            assert(b.edges_view()[e] == a.edges_view()[e]);
            if has_edge_spec(a, s, d) {
                let e2 = choose|e2: int| 0 <= e2 < a.edges_view().len() && #[trigger] a.edges_view()[e2] == (s, d);
                if e != e2 {
                    assert(b.edge_data@[e] == a.edge_data@[e]);
                }
            } else {
                assert(b.edge_data@[e] == a.edge_data@[e]);
            }
        }
    }
    // every edge is a flow
    assert forall|e: int| 0 <= e < b.edges_view().len() implies nf.contains(#[trigger] edge_paths(b, e)) && b.edge_data@[e].intra
        && b.edge_data@[e].call_locs@.len() == 0 by {
        if e < a.edges_view().len() {
            assert(b.edges_view()[e] == a.edges_view()[e]);
            let (x, y) = a.edges_view()[e];
            assert(crate::graph::edges_valid(na.len(), a.edges_view()));
            assert(nb[x as int] == na[x as int]);
            assert(nb[y as int] == na[y as int]);
            assert(edge_paths(b, e) == edge_paths(a, e));
            assert(flows.contains(edge_paths(a, e)));
            let k = choose|k: int| 0 <= k < flows.len() && flows[k] == edge_paths(a, e);
            assert(nf[k] == flows[k]);
            if has_edge_spec(a, s, d) {
                let e2 = choose|e2: int| 0 <= e2 < a.edges_view().len() && #[trigger] a.edges_view()[e2] == (s, d);
                if e != e2 {
                    assert(b.edge_data@[e] == a.edge_data@[e]);
                }
            } else {
                assert(b.edge_data@[e] == a.edge_data@[e]);
            }
        } else {
            assert(b.edges_view()[e] == (s, d));
            assert(edge_paths(b, e) == (src, dst));
            assert(nf[flows.len() as int] == (src, dst));
        }
    }
    // every node is an end of a flow
    assert forall|i: int| 0 <= i < nb.len() implies is_endpoint(nf, (#[trigger] nb[i]).path) by {
        if i < na.len() {
            assert(nb[i] == na[i]);
            let k = choose|k: int| 0 <= k < flows.len() && (flows[k].0 == na[i].path || flows[k].1 == na[i].path);
            assert(nf[k] == flows[k]);
        } else {
            assert(nb[i].path == src || nb[i].path == dst) by {
                if !has_path(na, src) {
                    if !has_path(nodes_with(na, src), dst) {
                        assert(nb == na.push(DFGNode { path: src }).push(DFGNode { path: dst }));
                    } else {
                        assert(nb == na.push(DFGNode { path: src }));
                    }
                } else {
                    assert(nb == nodes_with(na, dst));
                }
            }
            assert(nf[flows.len() as int] == (src, dst));
        }
    }
}

/// The graph has an edge from node `s` to node `d`.
pub open spec fn has_edge_spec(a: FuncPFG, s: usize, d: usize) -> bool {
    exists|e: int| 0 <= e < a.edges_view().len() && #[trigger] a.edges_view()[e] == (s, d)
}

/// The callsite records as plain values.
pub open spec fn calls_view(c: Seq<CallsiteLocals>) -> Seq<(Location, Seq<(usize, Path)>, Path)> {
    c.map_values(|x: CallsiteLocals| (x.location, x.args@, x.destination))
}

/// `v` holds, each once, the pointer-call sites of kind `k` among the first
/// `upto` blocks.
pub open spec fn sites_of(body: MirBody, v: Seq<Location>, k: CallKind, upto: int) -> bool {
    &&& v.no_duplicates()
    &&& forall|l: Location| #[trigger] v.contains(l) <==> is_call_site_of_kind(body, l, k) && l.block < upto
}

/// The visit of a function body that builds its pointer flow graph.
pub struct FuncPointerFlowAnalysis<'a> {
    pub func_id: FuncId,
    pub mir: &'a MirBody,
    /// Track the fields of tuples (for argument provenance).
    pub rceus_ap: bool,
    /// Build the graph of every function, for flow-entry merging.
    pub rceus_m: bool,
    pub pfg: FuncPFG,
    /// The graph ran out of room in its index type.
    pub full: bool,
    /// The flows added to the graph.
    pub added: Ghost<Seq<(Path, Path)>>,
    /// The flows visited.
    pub seen: Ghost<Seq<(Path, Path)>>,
}

impl<'a> FuncPointerFlowAnalysis<'a> {
    /// The graph holds the flows added so far, which are all those visited
    /// unless the graph ran out of room; then the visited flows are many.
    spec fn inv(&self) -> bool {
        &&& self.mir.wf()
        &&& self.pfg.wf()
        &&& paths_unique(self.pfg.nodes_view())
        &&& edges_labelled(self.pfg)
        &&& self.pfg.func_id == self.func_id
        &&& graph_is(self.pfg, self.added@)
        &&& self.added@.len() <= self.seen@.len()
        &&& !self.full ==> self.added@ == self.seen@
        &&& self.full ==> 2 * self.seen@.len() + 2 > u32::MAX
    }

    /// Nothing has been visited yet.
    pub closed spec fn is_fresh(&self) -> bool {
        &&& self.inv()
        &&& self.seen@ == Seq::<(Path, Path)>::empty()
        &&& self.pfg.nodes_view() == Seq::<DFGNode>::empty()
        &&& self.pfg.edges_view() == Seq::<(usize, usize)>::empty()
        &&& !self.pfg.has_arg_to_return_flow
        &&& self.pfg.callsite_to_locals@ == Seq::<CallsiteLocals>::empty()
        &&& self.pfg.static_callsites@ == Seq::<Location>::empty()
        &&& self.pfg.fn_ptr_def_callsites@ == Seq::<Location>::empty()
        &&& self.pfg.closure_dyn_callsites@ == Seq::<Location>::empty()
        &&& self.pfg.cs_callsites@ == Seq::<Location>::empty()
        &&& self.pfg.param_with_flow@ == Seq::<usize>::empty()
        &&& self.pfg.flow_entry_merge@.len() == 0
    }

    /// Everything but the flows is unchanged.
    spec fn same_setup(&self, other: &FuncPointerFlowAnalysis<'a>) -> bool {
        &&& self.func_id == other.func_id
        &&& self.mir == other.mir
        &&& self.rceus_ap == other.rceus_ap
        &&& self.rceus_m == other.rceus_m
        &&& self.pfg.same_records(other.pfg)
    }

    pub fn new(
        func_id: FuncId,
        mir: &'a MirBody,
        is_closure_body: bool,
        has_self_parameter: bool,
        rceus_ap: bool,
        rceus_m: bool,
    ) -> (a: FuncPointerFlowAnalysis<'a>)
        requires
            mir.wf(),
        ensures
            a.is_fresh(),
            a.func_id == func_id,
            a.mir == mir,
            a.rceus_ap == rceus_ap,
            a.rceus_m == rceus_m,
            a.pfg.func_id == func_id,
            a.pfg.is_closure_body == is_closure_body,
            a.pfg.has_self_parameter == has_self_parameter,
    {
        let pfg = FuncPFG::new(func_id, is_closure_body, has_self_parameter);
        let a = FuncPointerFlowAnalysis {
            func_id,
            mir,
            rceus_ap,
            rceus_m,
            pfg,
            full: false,
            added: Ghost(Seq::empty()),
            seen: Ghost(Seq::empty()),
        };
        proof {
            assert(graph_is(a.pfg, a.added@));
        }
        a
    }

    /// Connects `src` to `dst` in the graph, unless it has run out of room.
    fn add_flow(&mut self, src: Path, dst: Path)
        requires
            old(self).inv(),
        ensures
            final(self).inv(),
            final(self).same_setup(&*old(self)),
            final(self).seen@ == old(self).seen@.push((src, dst)),
    {
        if !self.full {
            let n = flow_graph_node_count(&self.pfg.graph);
            let m = flow_graph_edge_count(&self.pfg.graph);
            if n <= 4294967293 && m < 4294967295 {
                let ghost a = self.pfg;
                proof {
                    assert(nodes_with(a.nodes_view(), src).len() <= a.nodes_view().len() + 1);
                    assert(nodes_with(nodes_with(a.nodes_view(), src), dst).len() <= nodes_with(a.nodes_view(), src).len() + 1);
                }
                let added = self.pfg.add_edge(src, dst, PFGEdgeEnum::IntraPFGEdge);
                proof {
                    lemma_add_flow(a, self.pfg, src, dst, added, self.added@);
                }
                self.added = Ghost(self.added@.push((src, dst)));
            } else {
                self.full = true;
            }
        }
        self.seen = Ghost(self.seen@.push((src, dst)));
    }
}

impl<'a> FuncPointerFlowAnalysis<'a> {
    /// The path of local `l`.
    fn local_path(&self, l: usize) -> (p: Path)
        ensures
            p == self.mir.path_of(self.func_id, l),
    {
        Path::new_local_parameter_or_result(self.func_id, l, self.mir.arg_count)
    }

    /// Whether the type of local `l` carries a pointer.
    fn local_has_ptr(&self, l: usize) -> (r: bool)
        requires
            l < self.mir.local_decls@.len(),
        ensures
            r == self.mir.local_has_ptr(l),
    {
        self.mir.local_decls[l].has_ptr
    }

    /// The flows of using `operand` to assign `lplace`.
    #[verifier::rlimit(50)]
    #[verifier::spinoff_prover]
    fn visit_use(&mut self, lplace: &Place, operand: &Operand)
        requires
            old(self).inv(),
        ensures
            final(self).inv(),
            final(self).same_setup(&*old(self)),
            final(self).seen@ == old(self).seen@ + use_flows(*old(self).mir, old(self).func_id, old(self).rceus_ap, *lplace, *operand),
    {
        let ghost s0 = self.seen@;
        match operand {
            Operand::Copy(place) | Operand::Move(place) => {
                if place.has_ptr {
                    let lpath = self.local_path(lplace.local);
                    let rpath = self.local_path(place.local);
                    self.add_flow(rpath, lpath);
                    let ghost s1 = self.seen@;
                    if self.rceus_ap {
                        match &place.tuple_fields {
                            Some(fs) => {
                                let mut i: usize = 0;
                                while i < fs.len()
                                    invariant
                                        0 <= i <= fs@.len(),
                                        self.inv(),
                                        self.same_setup(&*old(self)),
                                        self.seen@ == s1 + field_flows(rpath, lpath, fs@.take(i as int)),
                                        rpath.field.is_none(),
                                        lpath.field.is_none(),
                                    decreases fs.len() - i,
                                {
                                    let ghost before = self.seen@;
                                    proof {
                                        let t = fs@.take(i + 1);
                                        assert(t.drop_last() =~= fs@.take(i as int));
                                        assert(t.last() == fs@[i as int]);
                                    }
                                    if fs[i] {
                                        self.add_flow(rpath.append_field(i), lpath.append_field(i));
                                        proof {
                                            assert(self.seen@ =~= s1 + field_flows(rpath, lpath, fs@.take(i + 1)));
                                        }
                                    } else {
                                        proof {
                                            assert(self.seen@ =~= s1 + field_flows(rpath, lpath, fs@.take(i + 1)));
                                        }
                                    }
                                    i += 1;
                                }
                                proof {
                                    assert(fs@.take(fs@.len() as int) =~= fs@);
                                    assert(self.seen@ =~= s0 + use_flows(*old(self).mir, old(self).func_id, old(self).rceus_ap, *lplace, *operand));
                                }
                            },
                            None => {
                                proof {
                                    assert(self.seen@ =~= s0 + use_flows(*old(self).mir, old(self).func_id, old(self).rceus_ap, *lplace, *operand));
                                }
                            },
                        }
                    } else {
                        proof {
                            assert(self.seen@ =~= s0 + use_flows(*old(self).mir, old(self).func_id, old(self).rceus_ap, *lplace, *operand));
                        }
                    }
                } else {
                    proof {
                        assert(self.seen@ =~= s0 + use_flows(*old(self).mir, old(self).func_id, old(self).rceus_ap, *lplace, *operand));
                    }
                }
            },
            Operand::Constant(_) => {
                proof {
                    assert(self.seen@ =~= s0 + use_flows(*old(self).mir, old(self).func_id, old(self).rceus_ap, *lplace, *operand));
                }
            },
        }
    }

    /// The path of a pointer-carrying place operand.
    fn pointer_operand_path(&self, operand: &Operand) -> (r: Option<Path>)
        ensures
            r == pointer_operand(*self.mir, self.func_id, *operand),
    {
        match operand {
            Operand::Copy(place) | Operand::Move(place) => {
                if place.has_ptr {
                    Some(self.local_path(place.local))
                } else {
                    None
                }
            },
            Operand::Constant(_) => None,
        }
    }

    /// The flow of taking a reference to `rplace` into `lplace`.
    fn add_ref_pfg_edge(&mut self, lplace: &Place, rplace: &Place)
        requires
            old(self).inv(),
            rplace.local < old(self).mir.local_decls@.len(),
        ensures
            final(self).inv(),
            final(self).same_setup(&*old(self)),
            final(self).seen@ == old(self).seen@ + ref_flows(*old(self).mir, old(self).func_id, *lplace, *rplace),
    {
        let ghost s0 = self.seen@;
        if self.local_has_ptr(rplace.local) {
            let lpath = self.local_path(lplace.local);
            let rpath = self.local_path(rplace.local);
            self.add_flow(rpath, lpath);
        }
        proof {
            assert(self.seen@ =~= s0 + ref_flows(*old(self).mir, old(self).func_id, *lplace, *rplace));
        }
    }

    /// The flows of assigning `rvalue` to `lplace`.
    fn visit_assign(&mut self, lplace: &Place, rvalue: &Rvalue)
        requires
            old(self).inv(),
            rvalue_ok(old(self).mir.local_decls@.len(), *rvalue),
        ensures
            final(self).inv(),
            final(self).same_setup(&*old(self)),
            final(self).seen@ == old(self).seen@ + assign_flows(*old(self).mir, old(self).func_id, old(self).rceus_ap, *lplace, *rvalue),
    {
        let ghost s0 = self.seen@;
        match rvalue {
            Rvalue::Use(operand) | Rvalue::Repeat(operand) | Rvalue::Cast(operand) | Rvalue::ShallowInitBox(operand) => {
                self.visit_use(lplace, operand);
            },
            Rvalue::Ref(place) | Rvalue::AddressOf(place) | Rvalue::CopyForDeref(place) => {
                self.add_ref_pfg_edge(lplace, place);
            },
            Rvalue::BinaryOp(loperand, _roperand) => {
                self.visit_use(lplace, loperand);
            },
            Rvalue::Aggregate { is_tuple, operands } => {
                self.visit_aggregate(lplace, *is_tuple, operands);
            },
            Rvalue::Other => {
                proof {
                    assert(self.seen@ =~= s0 + assign_flows(*old(self).mir, old(self).func_id, old(self).rceus_ap, *lplace, *rvalue));
                }
            },
        }
    }

    /// The flows of a statement: those of an assignment to a pointer-carrying local.
    fn visit_statement(&mut self, _location: Location, statement: &Statement)
        requires
            old(self).inv(),
            statement_ok(old(self).mir.local_decls@.len(), *statement),
        ensures
            final(self).inv(),
            final(self).same_setup(&*old(self)),
            final(self).seen@ == old(self).seen@ + statement_flows(*old(self).mir, old(self).func_id, old(self).rceus_ap, *statement),
    {
        let ghost s0 = self.seen@;
        match statement {
            Statement::Assign(place, rvalue) => {
                if self.local_has_ptr(place.local) {
                    self.visit_assign(place, rvalue);
                } else {
                    proof {
                        assert(self.seen@ =~= s0 + statement_flows(*old(self).mir, old(self).func_id, old(self).rceus_ap, *statement));
                    }
                }
            },
            Statement::Other => {
                proof {
                    assert(self.seen@ =~= s0 + statement_flows(*old(self).mir, old(self).func_id, old(self).rceus_ap, *statement));
                }
            },
        }
    }
}

/// The graph and its flow results are unchanged.
pub open spec fn same_graph(a: FuncPFG, b: FuncPFG) -> bool {
    &&& a.graph == b.graph
    &&& a.edge_data@ == b.edge_data@
    &&& a.func_id == b.func_id
    &&& a.has_arg_to_return_flow == b.has_arg_to_return_flow
    &&& a.cs_callsites@ == b.cs_callsites@
    &&& a.param_with_flow@ == b.param_with_flow@
    &&& a.is_closure_body == b.is_closure_body
    &&& a.has_self_parameter == b.has_self_parameter
    &&& a.flow_entry_merge@ == b.flow_entry_merge@
}

impl<'a> FuncPointerFlowAnalysis<'a> {
    /// The callsite records cover the first `upto` blocks.
    spec fn recs_ok(&self, upto: int) -> bool {
        &&& calls_view(self.pfg.callsite_to_locals@) == calls_upto(*self.mir, self.func_id, upto as nat)
        &&& sites_of(*self.mir, self.pfg.static_callsites@, CallKind::Static, upto)
        &&& sites_of(*self.mir, self.pfg.fn_ptr_def_callsites@, CallKind::FnPtrOrDef, upto)
        &&& sites_of(*self.mir, self.pfg.closure_dyn_callsites@, CallKind::ClosureOrDyn, upto)
    }

    /// The pointer-carrying arguments, with their positions counted from 1.
    fn visit_args(&self, args: &Vec<Operand>) -> (r: Vec<(usize, Path)>)
        requires
            self.mir.wf(),
            forall|i: int| 0 <= i < args@.len() ==> operand_ok(self.mir.local_decls@.len(), #[trigger] args@[i]),
        ensures
            r@ == arg_paths(*self.mir, self.func_id, args@),
    {
        let mut idx: usize = 0;
        let mut args_paths: Vec<(usize, Path)> = Vec::new();
        while idx < args.len()
            invariant
                0 <= idx <= args@.len(),
                forall|i: int| 0 <= i < args@.len() ==> operand_ok(self.mir.local_decls@.len(), #[trigger] args@[i]),
                args_paths@ == arg_paths(*self.mir, self.func_id, args@.take(idx as int)),
            decreases args.len() - idx,
        {
            proof {
                let t = args@.take(idx + 1);
                assert(t.drop_last() =~= args@.take(idx as int));
                assert(t.last() == args@[idx as int]);
                assert(operand_ok(self.mir.local_decls@.len(), args@[idx as int]));
            }
            match &args[idx] {
                Operand::Copy(place) | Operand::Move(place) => {
                    if self.local_has_ptr(place.local) {
                        let arg_path = self.local_path(place.local);
                        args_paths.push((idx + 1, arg_path));
                    }
                },
                Operand::Constant(_) => {},
            }
            idx += 1;
        }
        proof {
            assert(args@.take(args@.len() as int) =~= args@);
        }
        args_paths
    }

    /// Records the dispatch of a call to a closure, function item or coroutine.
    fn resolve_call(&mut self, fn_trait_call: bool, first_type_arg: Option<TypeArgKind>, location: Location)
        ensures
            final(self).same_setup_but_sites(&*old(self)),
            final(self).pfg.static_callsites@ == if call_kind(CalleeTy::Item { fn_trait_call, first_type_arg }) == CallKind::Static {
                insert_spec(old(self).pfg.static_callsites@, location)
            } else {
                old(self).pfg.static_callsites@
            },
            final(self).pfg.fn_ptr_def_callsites@ == if call_kind(CalleeTy::Item { fn_trait_call, first_type_arg }) == CallKind::FnPtrOrDef {
                insert_spec(old(self).pfg.fn_ptr_def_callsites@, location)
            } else {
                old(self).pfg.fn_ptr_def_callsites@
            },
            final(self).pfg.closure_dyn_callsites@ == if call_kind(CalleeTy::Item { fn_trait_call, first_type_arg }) == CallKind::ClosureOrDyn {
                insert_spec(old(self).pfg.closure_dyn_callsites@, location)
            } else {
                old(self).pfg.closure_dyn_callsites@
            },
    {
        if !fn_trait_call {
            insert_location(&mut self.pfg.static_callsites, location);
            return;
        }
        match first_type_arg {
            Some(TypeArgKind::FnPtr) | Some(TypeArgKind::FnDef) => {
                insert_location(&mut self.pfg.fn_ptr_def_callsites, location);
            },
            Some(TypeArgKind::Closure) | Some(TypeArgKind::Coroutine) | Some(TypeArgKind::Dynamic) => {
                insert_location(&mut self.pfg.closure_dyn_callsites, location);
            },
            _ => {},
        }
    }

    /// Everything but the three dispatch site lists is unchanged.
    spec fn same_setup_but_sites(&self, other: &FuncPointerFlowAnalysis<'a>) -> bool {
        &&& self.func_id == other.func_id
        &&& self.mir == other.mir
        &&& self.rceus_ap == other.rceus_ap
        &&& self.rceus_m == other.rceus_m
        &&& self.full == other.full
        &&& self.added == other.added
        &&& self.seen == other.seen
        &&& same_graph(self.pfg, other.pfg)
        &&& self.pfg.callsite_to_locals@ == other.pfg.callsite_to_locals@
    }
}

/// `v` with `l` added unless it holds it already.
pub open spec fn insert_spec(v: Seq<Location>, l: Location) -> Seq<Location> {
    if v.contains(l) {
        v
    } else {
        v.push(l)
    }
}

impl<'a> FuncPointerFlowAnalysis<'a> {
    /// The flows of building an aggregate from `operands` into `lplace`.
    #[verifier::rlimit(60)]
    #[verifier::spinoff_prover]
    fn visit_aggregate(&mut self, lplace: &Place, is_tuple: bool, operands: &Vec<Operand>)
        requires
            old(self).inv(),
        ensures
            final(self).inv(),
            final(self).same_setup(&*old(self)),
            final(self).seen@ == old(self).seen@ + aggregate_flows(
                *old(self).mir,
                old(self).func_id,
                old(self).rceus_ap,
                is_tuple,
                *lplace,
                operands@,
            ),
    {
        let ghost s0 = self.seen@;
        let tuple_fields = self.rceus_ap && is_tuple;
        let mut i: usize = 0;
        while i < operands.len()
            invariant
                0 <= i <= operands@.len(),
                self.inv(),
                self.same_setup(&*old(self)),
                tuple_fields == (self.rceus_ap && is_tuple),
                self.seen@ == s0 + aggregate_flows(*self.mir, self.func_id, self.rceus_ap, is_tuple, *lplace, operands@.take(i as int)),
            decreases operands.len() - i,
        {
            let ghost prev = aggregate_flows(*self.mir, self.func_id, self.rceus_ap, is_tuple, *lplace, operands@.take(i as int));
            let ghost tf = tuple_flow(*self.mir, self.func_id, self.rceus_ap, is_tuple, *lplace, operands@[i as int], i);
            let ghost uf = use_flows(*self.mir, self.func_id, self.rceus_ap, *lplace, operands@[i as int]);
            proof {
                let t = operands@.take(i + 1);
                assert(t.drop_last() =~= operands@.take(i as int));
                assert(t.last() == operands@[i as int]);
                assert(aggregate_flows(*self.mir, self.func_id, self.rceus_ap, is_tuple, *lplace, t) == prev + tf + uf);
            }
            let operand = &operands[i];
            let ghost s1 = self.seen@;
            if tuple_fields {
                match self.pointer_operand_path(operand) {
                    Some(src) => {
                        let dst = self.local_path(lplace.local);
                        self.add_flow(src, dst.append_field(i));
                    },
                    None => {},
                }
            }
            proof {
                assert(self.seen@ =~= s1 + tf);
            }
            let ghost s2 = self.seen@;
            self.visit_use(lplace, operand);
            proof {
                assert(self.seen@ == s2 + uf);
                assert(s0 + (prev + tf + uf) =~= s0 + prev + tf + uf);
            }
            i += 1;
        }
        proof {
            assert(operands@.take(operands@.len() as int) =~= operands@);
        }
    }
}

proof fn lemma_calls_step(body: MirBody, f: FuncId, b: usize)
    requires
        0 <= b < body.basic_blocks@.len(),
    ensures
        calls_upto(body, f, (b + 1) as nat) == if is_pointer_call(body, b as int) {
            calls_upto(body, f, b as nat).push(call_record(body, f, b as int))
        } else {
            calls_upto(body, f, b as nat)
        },
{
}

proof fn lemma_sites_step(body: MirBody, v0: Seq<Location>, v1: Seq<Location>, k: CallKind, b: usize, adds: bool)
    requires
        0 <= b < body.basic_blocks@.len(),
        sites_of(body, v0, k, b as int),
        adds <==> is_call_site_of_kind(body, terminator_location(body, b as int), k),
        v1 == if adds { insert_spec(v0, terminator_location(body, b as int)) } else { v0 },
    ensures
        sites_of(body, v1, k, b + 1),
{
    let l0 = terminator_location(body, b as int);
    if adds {
        assert(!v0.contains(l0));
        assert(v1 == v0.push(l0));
        assert forall|l: Location| #[trigger] v1.contains(l) <==> is_call_site_of_kind(body, l, k) && l.block < b + 1 by {
            if v1.contains(l) {
                let i = choose|i: int| 0 <= i < v1.len() && v1[i] == l;
                if i < v0.len() {
                    assert(v0.contains(l));
                }
            }
            if is_call_site_of_kind(body, l, k) && l.block < b + 1 {
                if l.block < b {
                    assert(v0.contains(l));
                    let i = choose|i: int| 0 <= i < v0.len() && v0[i] == l;
                    assert(v1[i] == l);
                } else {
                    assert(l == l0);
                    assert(v1[v0.len() as int] == l);
                }
            }
        }
        assert(v1.no_duplicates()) by {
            assert forall|i: int, j: int| 0 <= i < v1.len() && 0 <= j < v1.len() && i != j implies v1[i] != v1[j] by {
                if i == v0.len() {
                    assert(v0.contains(v1[j]));
                } else if j == v0.len() {
                    assert(v0.contains(v1[i]));
                }
            }
        }
    } else {
        assert forall|l: Location| #[trigger] v1.contains(l) <==> is_call_site_of_kind(body, l, k) && l.block < b + 1 by {
            if is_call_site_of_kind(body, l, k) && l.block == b {
                assert(l == l0);
            }
        }
    }
}

proof fn lemma_graph_is_same(a: FuncPFG, b: FuncPFG, flows: Seq<(Path, Path)>)
    requires
        a.graph == b.graph,
        a.edge_data@ == b.edge_data@,
        graph_is(a, flows),
    ensures
        graph_is(b, flows),
{
    assert(a.nodes_view() == b.nodes_view());
    assert(a.edges_view() == b.edges_view());
    assert forall|k: int| 0 <= k < flows.len() implies intra_recorded(b, (#[trigger] flows[k]).0, flows[k].1) by {
        assert(intra_recorded(a, flows[k].0, flows[k].1));
    }
    assert forall|e: int| 0 <= e < b.edges_view().len() implies flows.contains(#[trigger] edge_paths(b, e)) && b.edge_data@[e].intra
        && b.edge_data@[e].call_locs@.len() == 0 by {
        assert(edge_paths(a, e) == edge_paths(b, e));
    }
}

/// The calls recorded among the first `n` blocks lie in those blocks.
proof fn lemma_calls_in_blocks(body: MirBody, f: FuncId, n: nat)
    requires
        n <= usize::MAX,
    ensures
        forall|i: int| 0 <= i < calls_upto(body, f, n).len() ==> (#[trigger] calls_upto(body, f, n)[i]).0.block < n,
    decreases n,
{
    if n > 0 {
        let m = (n - 1) as nat;
        lemma_calls_in_blocks(body, f, m);
        let rest = calls_upto(body, f, m);
        let c = calls_upto(body, f, n);
        assert(call_record(body, f, m as int).0 == terminator_location(body, m as int));
        assert(terminator_location(body, m as int).block == m);
        assert forall|i: int| 0 <= i < c.len() implies (#[trigger] c[i]).0.block < n by {
            if i < rest.len() {
                assert(c[i] == rest[i]);
            }
        }
    }
}

impl<'a> FuncPointerFlowAnalysis<'a> {
    /// Records the call ending block `b` when its destination carries a
    /// pointer: its arguments and destination, and how it dispatches.
    fn visit_call(&mut self, b: usize, func: &Operand, args: &Vec<Operand>, destination: &Place, location: Location)
        requires
            old(self).inv(),
            old(self).recs_ok(b as int),
            b < old(self).mir.basic_blocks@.len(),
            location == terminator_location(*old(self).mir, b as int),
            old(self).mir.basic_blocks@[b as int].terminator == Some(Terminator::Call { func: *func, args: *args, destination: *destination }),
        ensures
            final(self).inv(),
            final(self).recs_ok(b + 1),
            final(self).func_id == old(self).func_id,
            final(self).mir == old(self).mir,
            final(self).rceus_ap == old(self).rceus_ap,
            final(self).rceus_m == old(self).rceus_m,
            final(self).seen == old(self).seen,
            same_graph(final(self).pfg, old(self).pfg),
    {
        let ghost body = *self.mir;
        let ghost f = self.func_id;
        proof {
            assert(terminator_ok(body.local_decls@.len(), body.basic_blocks@[b as int].terminator));
            lemma_calls_step(body, f, b);
        }
        if !self.local_has_ptr(destination.local) {
            proof {
                assert(!is_pointer_call(body, b as int));
                lemma_sites_step(body, self.pfg.static_callsites@, self.pfg.static_callsites@, CallKind::Static, b, false);
                lemma_sites_step(body, self.pfg.fn_ptr_def_callsites@, self.pfg.fn_ptr_def_callsites@, CallKind::FnPtrOrDef, b, false);
                lemma_sites_step(body, self.pfg.closure_dyn_callsites@, self.pfg.closure_dyn_callsites@, CallKind::ClosureOrDyn, b, false);
            }
            return;
        }
        let destination_path = self.local_path(destination.local);
        let args_paths = self.visit_args(args);
        let ghost c0 = self.pfg.callsite_to_locals@;
        self.pfg.callsite_to_locals.push(CallsiteLocals { location, args: args_paths, destination: destination_path });
        proof {
            assert(calls_view(self.pfg.callsite_to_locals@) =~= calls_view(c0).push(call_record(body, f, b as int)));
            lemma_calls_in_blocks(body, f, b as nat);
            let c1 = self.pfg.callsite_to_locals@;
            assert forall|i: int, j: int| 0 <= i < j < c1.len() implies (#[trigger] c1[i]).location != (#[trigger] c1[j]).location by {
                if j == c0.len() {
                    assert(c1[i] == c0[i]);
                    assert(calls_view(c0)[i] == calls_upto(body, f, b as nat)[i]);
                } else {
                    assert(c1[i] == c0[i] && c1[j] == c0[j]);
                }
            }
        }
        let ghost a0 = *self;
        let ct = match func {
            Operand::Copy(place) | Operand::Move(place) => self.mir.local_decls[place.local].callee_ty,
            Operand::Constant(ct) => *ct,
        };
        proof {
            assert(ct == callee_ty(body, *func));
        }
        match ct {
            CalleeTy::Item { fn_trait_call, first_type_arg } => {
                self.resolve_call(fn_trait_call, first_type_arg, location);
            },
            CalleeTy::FnPtr => {
                insert_location(&mut self.pfg.static_callsites, location);
            },
            CalleeTy::Other => {},
        }
        proof {
            let k = call_kind(ct);
            assert(is_call_site_of_kind(body, location, CallKind::Static) == (k == CallKind::Static));
            assert(is_call_site_of_kind(body, location, CallKind::FnPtrOrDef) == (k == CallKind::FnPtrOrDef));
            assert(is_call_site_of_kind(body, location, CallKind::ClosureOrDyn) == (k == CallKind::ClosureOrDyn));
            lemma_sites_step(body, a0.pfg.static_callsites@, self.pfg.static_callsites@, CallKind::Static, b, k == CallKind::Static);
            lemma_sites_step(body, a0.pfg.fn_ptr_def_callsites@, self.pfg.fn_ptr_def_callsites@, CallKind::FnPtrOrDef, b, k == CallKind::FnPtrOrDef);
            lemma_sites_step(body, a0.pfg.closure_dyn_callsites@, self.pfg.closure_dyn_callsites@, CallKind::ClosureOrDyn, b, k == CallKind::ClosureOrDyn);
            lemma_graph_is_same(old(self).pfg, self.pfg, self.added@);
        }
    }
}

impl<'a> FuncPointerFlowAnalysis<'a> {
    /// Visits the statements of block `b`, then its terminator.
    fn visit_basic_block(&mut self, b: usize)
        requires
            old(self).inv(),
            old(self).recs_ok(b as int),
            b < old(self).mir.basic_blocks@.len(),
        ensures
            final(self).inv(),
            final(self).recs_ok(b + 1),
            final(self).func_id == old(self).func_id,
            final(self).mir == old(self).mir,
            final(self).rceus_ap == old(self).rceus_ap,
            final(self).rceus_m == old(self).rceus_m,
            final(self).pfg.is_closure_body == old(self).pfg.is_closure_body,
            final(self).pfg.has_self_parameter == old(self).pfg.has_self_parameter,
            final(self).pfg.has_arg_to_return_flow == old(self).pfg.has_arg_to_return_flow,
            final(self).pfg.cs_callsites@ == old(self).pfg.cs_callsites@,
            final(self).pfg.param_with_flow@ == old(self).pfg.param_with_flow@,
            final(self).pfg.flow_entry_merge@ == old(self).pfg.flow_entry_merge@,
            final(self).seen@ == old(self).seen@ + statements_flows(
                *old(self).mir,
                old(self).func_id,
                old(self).rceus_ap,
                old(self).mir.basic_blocks@[b as int].statements@,
            ),
    {
        let mir = self.mir;
        let statements = &mir.basic_blocks[b].statements;
        let ghost s0 = self.seen@;
        let mut i: usize = 0;
        while i < statements.len()
            invariant
                0 <= i <= statements@.len(),
                self.mir == mir,
                b < mir.basic_blocks@.len(),
                *statements == mir.basic_blocks@[b as int].statements,
                self.inv(),
                self.recs_ok(b as int),
                self.func_id == old(self).func_id,
                self.rceus_ap == old(self).rceus_ap,
                self.rceus_m == old(self).rceus_m,
                self.pfg.is_closure_body == old(self).pfg.is_closure_body,
                self.pfg.has_self_parameter == old(self).pfg.has_self_parameter,
                self.pfg.has_arg_to_return_flow == old(self).pfg.has_arg_to_return_flow,
                self.pfg.cs_callsites@ == old(self).pfg.cs_callsites@,
                self.pfg.param_with_flow@ == old(self).pfg.param_with_flow@,
                self.pfg.flow_entry_merge@ == old(self).pfg.flow_entry_merge@,
                self.seen@ == s0 + statements_flows(*mir, self.func_id, self.rceus_ap, statements@.take(i as int)),
            decreases statements.len() - i,
        {
            let ghost prev = statements_flows(*mir, self.func_id, self.rceus_ap, statements@.take(i as int));
            let ghost sf = statement_flows(*mir, self.func_id, self.rceus_ap, statements@[i as int]);
            proof {
                let t = statements@.take(i + 1);
                assert(t.drop_last() =~= statements@.take(i as int));
                assert(t.last() == statements@[i as int]);
                assert(statements_flows(*mir, self.func_id, self.rceus_ap, t) == prev + sf);
                assert(statement_ok(mir.local_decls@.len(), mir.basic_blocks@[b as int].statements@[i as int]));
            }
            self.visit_statement(Location::new(b, i), &statements[i]);
            proof {
                assert(s0 + (prev + sf) =~= s0 + prev + sf);
            }
            i += 1;
        }
        proof {
            assert(statements@.take(statements@.len() as int) =~= statements@);
        }
        let location = Location::new(b, statements.len());
        self.visit_terminator(b, location);
    }

    /// Visits the terminator of block `b`: a call is recorded.
    fn visit_terminator(&mut self, b: usize, location: Location)
        requires
            old(self).inv(),
            old(self).recs_ok(b as int),
            b < old(self).mir.basic_blocks@.len(),
            location == terminator_location(*old(self).mir, b as int),
        ensures
            final(self).inv(),
            final(self).recs_ok(b + 1),
            final(self).func_id == old(self).func_id,
            final(self).mir == old(self).mir,
            final(self).rceus_ap == old(self).rceus_ap,
            final(self).rceus_m == old(self).rceus_m,
            final(self).seen == old(self).seen,
            same_graph(final(self).pfg, old(self).pfg),
    {
        let mir = self.mir;
        match &mir.basic_blocks[b].terminator {
            Some(Terminator::Call { func, args, destination }) => {
                self.visit_call(b, func, args, destination, location);
            },
            _ => {
                proof {
                    let body = *mir;
                    lemma_calls_step(body, self.func_id, b);
                    lemma_sites_step(body, self.pfg.static_callsites@, self.pfg.static_callsites@, CallKind::Static, b, false);
                    lemma_sites_step(body, self.pfg.fn_ptr_def_callsites@, self.pfg.fn_ptr_def_callsites@, CallKind::FnPtrOrDef, b, false);
                    lemma_sites_step(body, self.pfg.closure_dyn_callsites@, self.pfg.closure_dyn_callsites@, CallKind::ClosureOrDyn, b, false);
                }
            },
        }
    }

    /// Visits every block of the body.
    fn visit_body(&mut self)
        requires
            old(self).inv(),
            old(self).recs_ok(0),
            old(self).seen@ == Seq::<(Path, Path)>::empty(),
        ensures
            final(self).inv(),
            final(self).recs_ok(old(self).mir.basic_blocks@.len() as int),
            final(self).func_id == old(self).func_id,
            final(self).mir == old(self).mir,
            final(self).rceus_ap == old(self).rceus_ap,
            final(self).rceus_m == old(self).rceus_m,
            final(self).pfg.is_closure_body == old(self).pfg.is_closure_body,
            final(self).pfg.has_self_parameter == old(self).pfg.has_self_parameter,
            final(self).pfg.has_arg_to_return_flow == old(self).pfg.has_arg_to_return_flow,
            final(self).pfg.cs_callsites@ == old(self).pfg.cs_callsites@,
            final(self).pfg.param_with_flow@ == old(self).pfg.param_with_flow@,
            final(self).pfg.flow_entry_merge@ == old(self).pfg.flow_entry_merge@,
            final(self).seen@ == body_flows(*old(self).mir, old(self).func_id, old(self).rceus_ap),
    {
        let mir = self.mir;
        let mut b: usize = 0;
        while b < mir.basic_blocks.len()
            invariant
                0 <= b <= mir.basic_blocks@.len(),
                self.mir == mir,
                self.inv(),
                self.recs_ok(b as int),
                self.func_id == old(self).func_id,
                self.rceus_ap == old(self).rceus_ap,
                self.rceus_m == old(self).rceus_m,
                self.pfg.is_closure_body == old(self).pfg.is_closure_body,
                self.pfg.has_self_parameter == old(self).pfg.has_self_parameter,
                self.pfg.has_arg_to_return_flow == old(self).pfg.has_arg_to_return_flow,
                self.pfg.cs_callsites@ == old(self).pfg.cs_callsites@,
                self.pfg.param_with_flow@ == old(self).pfg.param_with_flow@,
                self.pfg.flow_entry_merge@ == old(self).pfg.flow_entry_merge@,
                self.seen@ == blocks_flows(*mir, self.func_id, self.rceus_ap, mir.basic_blocks@.take(b as int)),
            decreases mir.basic_blocks.len() - b,
        {
            let ghost prev = blocks_flows(*mir, self.func_id, self.rceus_ap, mir.basic_blocks@.take(b as int));
            proof {
                let t = mir.basic_blocks@.take(b + 1);
                assert(t.drop_last() =~= mir.basic_blocks@.take(b as int));
                assert(t.last() == mir.basic_blocks@[b as int]);
            }
            self.visit_basic_block(b);
            b += 1;
        }
        proof {
            assert(mir.basic_blocks@.take(mir.basic_blocks@.len() as int) =~= mir.basic_blocks@);
        }
    }
}

proof fn lemma_args_total(c: Seq<CallsiteLocals>, j: int)
    requires
        0 <= j <= c.len(),
    ensures
        args_upto(c, j) == call_args_total(calls_view(c).take(j)),
    decreases j,
{
    if j > 0 {
        lemma_args_total(c, j - 1);
        let t = calls_view(c).take(j);
        assert(t.drop_last() =~= calls_view(c).take(j - 1));
    }
}

/// Some parameter's type carries a pointer.
pub open spec fn args_have_ptr(body: MirBody) -> bool {
    exists|i: usize| 1 <= i <= body.arg_count && #[trigger] body.local_has_ptr(i)
}

/// The graph holds exactly the assignment flows `flows` and the node of the
/// function's result.
pub open spec fn graph_with_result(p: FuncPFG, flows: Seq<(Path, Path)>) -> bool {
    &&& forall|k: int| 0 <= k < flows.len() ==> intra_recorded(p, (#[trigger] flows[k]).0, flows[k].1)
    &&& forall|e: int|
        0 <= e < p.edges_view().len() ==> flows.contains(#[trigger] edge_paths(p, e)) && p.edge_data@[e].intra
            && p.edge_data@[e].call_locs@.len() == 0
    &&& forall|i: int|
        0 <= i < p.nodes_view().len() ==> is_endpoint(flows, (#[trigger] p.nodes_view()[i]).path) || p.nodes_view()[i].path
            == p.return_path()
    &&& has_path(p.nodes_view(), p.return_path())
}

proof fn lemma_add_result(a: FuncPFG, b: FuncPFG, flows: Seq<(Path, Path)>)
    requires
        graph_is(a, flows),
        b.nodes_view() == nodes_with(a.nodes_view(), a.return_path()),
        b.edges_view() == a.edges_view(),
        b.edge_data@ == a.edge_data@,
        b.func_id == a.func_id,
        a.wf(),
    ensures
        graph_with_result(b, flows),
{
    let na = a.nodes_view();
    let nb = b.nodes_view();
    assert forall|i: int| 0 <= i < na.len() implies #[trigger] nb[i] == na[i] by {
        if !has_path(na, a.return_path()) {
            assert(nb == na.push(DFGNode { path: a.return_path() }));
        }
    }
    if !has_path(na, a.return_path()) {
        assert(nb[na.len() as int].path == a.return_path());
    }
    assert forall|k: int| 0 <= k < flows.len() implies intra_recorded(b, (#[trigger] flows[k]).0, flows[k].1) by {
        assert(intra_recorded(a, flows[k].0, flows[k].1));
        lemma_first_index_prefix(na, nb, flows[k].0);
        lemma_first_index_prefix(na, nb, flows[k].1);
        let e = choose|e: int|
            0 <= e < a.edges_view().len() && #[trigger] a.edges_view()[e] == (first_index(na, flows[k].0) as usize, first_index(na, flows[k].1) as usize)
                && a.edge_data@[e].intra;
        assert(b.edges_view()[e] == a.edges_view()[e]);
    }
    assert forall|e: int| 0 <= e < b.edges_view().len() implies flows.contains(#[trigger] edge_paths(b, e)) && b.edge_data@[e].intra
        && b.edge_data@[e].call_locs@.len() == 0 by {
        assert(edge_paths(a, e) == edge_paths(b, e)) by {
            let (x, y) = a.edges_view()[e];
            assert(crate::graph::edges_valid(na.len(), a.edges_view()));
        }
    }
    assert forall|i: int| 0 <= i < nb.len() implies is_endpoint(flows, (#[trigger] nb[i]).path) || nb[i].path == b.return_path() by {
        if i < na.len() {
            assert(nb[i] == na[i]);
        }
    }
}

/// A graph holding exactly the flows of a body whose parameters carry no
/// pointer, or whose result carries none, has no parameter-to-result flow.
proof fn lemma_unsolved_no_flow(p: FuncPFG, body: MirBody, f: FuncId, ap: bool)
    requires
        body.wf(),
        p.wf(),
        p.func_id == f,
        graph_is(p, body_flows(body, f, ap)),
        !(args_have_ptr(body) && body.local_has_ptr(0)),
    ensures
        !(has_path(p.nodes_view(), p.return_path()) && p.spec_arg_to_return_flow()),
{
    let flows = body_flows(body, f, ap);
    let nodes = p.nodes_view();
    let edges = p.edges_view();
    lemma_body_flows_ends(body, f, ap);
    if has_path(nodes, p.return_path()) && p.spec_arg_to_return_flow() {
        lemma_first_index(nodes, p.return_path());
        let ret = p.return_node();
        let i = choose|i: int| 0 <= i < nodes.len() && is_param_node(nodes, i) && #[trigger] reaches(edges, i as usize, ret);
        assert(is_endpoint(flows, nodes[i].path));
        let k = choose|k: int| 0 <= k < flows.len() && (flows[k].0 == nodes[i].path || flows[k].1 == nodes[i].path);
        assert(flow_end_ok(body, f, flows[k].0) && flow_end_ok(body, f, flows[k].1));
        let l = choose|l: usize| l < body.local_decls@.len() && body.local_has_ptr(l) && #[trigger] body.path_of(f, l) == nodes[i].path;
        assert(1 <= l <= body.arg_count);
        assert(args_have_ptr(body));
        assert(!body.local_has_ptr(0));
        assert(i != ret);
        let w = choose|w: Seq<usize>| #[trigger] is_path(edges, w) && w[0] == i as usize && w.last() == ret;
        assert(w.len() >= 2);
        assert(is_edge(edges, w[w.len() - 2], w[w.len() - 1]));
        let e = choose|e: int| 0 <= e < edges.len() && #[trigger] edges[e] == (w[w.len() - 2], w[w.len() - 1]);
        assert(flows.contains(edge_paths(p, e)));
        let k2 = choose|k2: int| 0 <= k2 < flows.len() && flows[k2] == edge_paths(p, e);
        assert(flows[k2].1 == p.return_path());
        assert(flow_end_ok(body, f, flows[k2].1));
        let l2 = choose|l2: usize| l2 < body.local_decls@.len() && body.local_has_ptr(l2) && #[trigger] body.path_of(f, l2) == p.return_path();
        assert(l2 == 0);
    }
}

/// `p` is the pointer flow graph built for `body`, the body of function `f`:
/// the graph of the body's flows when some parameter and the result carry
/// pointers (or, with `merging`, always), its reachability solved in the
/// first case, with the body's calls recorded whenever it is visited.
pub open spec fn built_graph(
    p: FuncPFG,
    body: MirBody,
    f: FuncId,
    is_closure_body: bool,
    has_self_parameter: bool,
    ap: bool,
    merging: bool,
) -> bool {
    let flows = body_flows(body, f, ap);
    let calls = calls_upto(body, f, body.basic_blocks@.len() as nat);
    let solved = args_have_ptr(body) && body.local_has_ptr(0);
    let visited = solved || merging;
    &&& p.wf()
    &&& paths_unique(p.nodes_view())
    &&& edges_labelled(p)
    &&& has_room(p)
    &&& flow_consistent(p)
    &&& p.func_id == f
    &&& p.is_closure_body == is_closure_body
    &&& p.has_self_parameter == has_self_parameter
    &&& p.flow_entry_merge@.len() == 0
    &&& flag_accurate(p)
    &&& visited ==> {
        &&& calls_view(p.callsite_to_locals@) == calls
        &&& sites_of(body, p.static_callsites@, CallKind::Static, body.basic_blocks@.len() as int)
        &&& sites_of(body, p.fn_ptr_def_callsites@, CallKind::FnPtrOrDef, body.basic_blocks@.len() as int)
        &&& sites_of(body, p.closure_dyn_callsites@, CallKind::ClosureOrDyn, body.basic_blocks@.len() as int)
    }
    &&& !visited ==> {
        &&& p.callsite_to_locals@.len() == 0
        &&& p.static_callsites@.len() == 0
        &&& p.fn_ptr_def_callsites@.len() == 0
        &&& p.closure_dyn_callsites@.len() == 0
        &&& p.nodes_view().len() == 0
        &&& p.edges_view().len() == 0
    }
    &&& solved ==> {
        &&& graph_with_result(p, flows)
        &&& p.has_arg_to_return_flow == p.spec_arg_to_return_flow()
        &&& p.has_arg_to_return_flow ==> {
            &&& forall|o: usize| #[trigger] p.param_with_flow@.contains(o) <==> p.spec_param_with_flow(o)
            &&& forall|l: Location| #[trigger] p.cs_callsites@.contains(l) <==> p.spec_cs_callsite(l)
        }
        &&& !p.has_arg_to_return_flow ==> p.param_with_flow@.len() == 0 && p.cs_callsites@.len() == 0
    }
    &&& !solved && visited ==> graph_is(p, flows)
    &&& !solved ==> !p.has_arg_to_return_flow && p.param_with_flow@.len() == 0 && p.cs_callsites@.len() == 0
}

/// The graph of `body`, the body of `f`, is visited and may outgrow its
/// index type: the bound that building it checks is exceeded.
pub open spec fn too_big_to_build(body: MirBody, f: FuncId, ap: bool, merging: bool) -> bool {
    let flows = body_flows(body, f, ap);
    let calls = calls_upto(body, f, body.basic_blocks@.len() as nat);
    &&& (args_have_ptr(body) && body.local_has_ptr(0)) || merging
    &&& 2 * flows.len() + 2 * call_args_total(calls) + 8 > u32::MAX
}

impl<'a> FuncPointerFlowAnalysis<'a> {
    /// Builds the pointer flow graph of the body, when some parameter and the
    /// result carry pointers (or, with `rceus_m`, always), and solves its
    /// reachability when they do. Returns `None` only when the graph would
    /// outgrow its index type.
    #[verifier::rlimit(40)]
    #[verifier::spinoff_prover]
    pub fn calculate_intra_pointer_flow(self) -> (r: Option<FuncPFG>)
        requires
            self.is_fresh(),
        ensures
            match r {
                Some(p) => built_graph(
                    p,
                    *self.mir,
                    self.func_id,
                    self.pfg.is_closure_body,
                    self.pfg.has_self_parameter,
                    self.rceus_ap,
                    self.rceus_m,
                ),
                None => too_big_to_build(*self.mir, self.func_id, self.rceus_ap, self.rceus_m),
            },
    {
        let mut this = self;
        let mir = this.mir;
        let arg_has_ptr = some_arg_has_ptr(mir);
        let return_has_ptr = mir.local_decls[0].has_ptr;
        let solved = arg_has_ptr && return_has_ptr;
        proof {
            assert(!arg_has_ptr ==> !args_have_ptr(*mir));
            assert(calls_view(this.pfg.callsite_to_locals@) =~= Seq::<(Location, Seq<(usize, Path)>, Path)>::empty());
            assert(sites_of(*mir, this.pfg.static_callsites@, CallKind::Static, 0));
            assert(sites_of(*mir, this.pfg.fn_ptr_def_callsites@, CallKind::FnPtrOrDef, 0));
            assert(sites_of(*mir, this.pfg.closure_dyn_callsites@, CallKind::ClosureOrDyn, 0));
            assert(this.recs_ok(0));
        }
        if solved || this.rceus_m {
            this.visit_body();
            if this.full {
                return None;
            }
            let n = flow_graph_node_count(&this.pfg.graph);
            let m = flow_graph_edge_count(&this.pfg.graph);
            let total = match args_total(&this.pfg.callsite_to_locals) {
                Some(t) => t,
                None => {
                    proof {
                        let c = this.pfg.callsite_to_locals@;
                        lemma_args_total(c, c.len() as int);
                        assert(calls_view(c).take(c.len() as int) =~= calls_view(c));
                    }
                    return None;
                },
            };
            proof {
                let c = this.pfg.callsite_to_locals@;
                lemma_args_total(c, c.len() as int);
                assert(calls_view(c).take(c.len() as int) =~= calls_view(c));
            }
            if n > 4294967295 || m > 4294967295 || (n as u64) + 2 * (total as u64) + 3 > 4294967295u64 || (m as u64) + (total as u64) + 1 > 4294967295u64 {
                proof {
                    assert(graph_is(this.pfg, this.added@));
                }
                return None;
            }
            let ghost before = this.pfg;
            if solved {
                let ghost a = this.pfg;
                this.solve_graph_initial();
                proof {
                    lemma_add_result(a, this.pfg, this.added@);
                    lemma_recorded_bound(this.pfg);
                    assert(args_count(this.pfg) == total);
                    assert(flag_accurate(this.pfg));
                }
            } else {
                this.pfg.has_arg_to_return_flow = false;
                this.pfg.cs_callsites.clear();
                proof {
                    lemma_recorded_bound(this.pfg);
                    lemma_graph_is_same(before, this.pfg, this.added@);
                    assert(args_count(this.pfg) == total);
                    lemma_unsolved_no_flow(this.pfg, *mir, this.func_id, this.rceus_ap);
                    assert(flag_accurate(this.pfg));
                }
            }
        } else {
            this.pfg.has_arg_to_return_flow = false;
            this.pfg.cs_callsites.clear();
            proof {
                lemma_recorded_bound(this.pfg);
                assert(args_count(this.pfg) == 0);
                assert(!has_path(this.pfg.nodes_view(), this.pfg.return_path()));
                assert(flag_accurate(this.pfg));
            }
        }
        Some(this.pfg)
    }

    /// Adds the node of the result and solves the graph's reachability.
    fn solve_graph_initial(&mut self)
        requires
            old(self).pfg.wf(),
            old(self).pfg.func_id == old(self).func_id,
            old(self).pfg.nodes_view().len() + 1 <= u32::MAX,
        ensures
            final(self).func_id == old(self).func_id,
            final(self).mir == old(self).mir,
            final(self).rceus_ap == old(self).rceus_ap,
            final(self).rceus_m == old(self).rceus_m,
            final(self).full == old(self).full,
            final(self).added == old(self).added,
            final(self).seen == old(self).seen,
            final(self).pfg.wf(),
            final(self).pfg.nodes_view() == nodes_with(old(self).pfg.nodes_view(), old(self).pfg.return_path()),
            final(self).pfg.edges_view() == old(self).pfg.edges_view(),
            final(self).pfg.edge_data@ == old(self).pfg.edge_data@,
            final(self).pfg.func_id == old(self).pfg.func_id,
            final(self).pfg.callsite_to_locals@ == old(self).pfg.callsite_to_locals@,
            final(self).pfg.static_callsites@ == old(self).pfg.static_callsites@,
            final(self).pfg.fn_ptr_def_callsites@ == old(self).pfg.fn_ptr_def_callsites@,
            final(self).pfg.closure_dyn_callsites@ == old(self).pfg.closure_dyn_callsites@,
            final(self).pfg.is_closure_body == old(self).pfg.is_closure_body,
            final(self).pfg.has_self_parameter == old(self).pfg.has_self_parameter,
            final(self).pfg.flow_entry_merge@ == old(self).pfg.flow_entry_merge@,
            final(self).pfg.has_arg_to_return_flow == final(self).pfg.spec_arg_to_return_flow(),
            final(self).pfg.has_arg_to_return_flow ==> {
                &&& forall|o: usize| #[trigger] final(self).pfg.param_with_flow@.contains(o) <==> final(self).pfg.spec_param_with_flow(o)
                &&& forall|l: Location| #[trigger] final(self).pfg.cs_callsites@.contains(l) <==> final(self).pfg.spec_cs_callsite(l)
            },
            !final(self).pfg.has_arg_to_return_flow ==> final(self).pfg.param_with_flow@ == old(self).pfg.param_with_flow@
                && final(self).pfg.cs_callsites@.len() == 0,
    {
        let ret_path = Path::new_local_parameter_or_result(self.func_id, 0, self.mir.arg_count);
        proof {
            assert(nodes_with(self.pfg.nodes_view(), ret_path).len() <= self.pfg.nodes_view().len() + 1);
        }
        let ghost a = self.pfg;
        let _return_idx = self.pfg.get_or_insert_node(ret_path);
        proof {
            assert(ret_path == a.return_path());
            assert(has_path(self.pfg.nodes_view(), ret_path));
            assert(nodes_with(self.pfg.nodes_view(), ret_path) == self.pfg.nodes_view());
        }
        self.pfg.solve_graph_reachability();
    }
}

/// Whether some parameter's type carries a pointer.
fn some_arg_has_ptr(mir: &MirBody) -> (r: bool)
    requires
        mir.wf(),
    ensures
        r == args_have_ptr(*mir),
{
    let n = mir.local_decls.len();
    let mut i: usize = 1;
    while i <= mir.arg_count
        invariant
            1 <= i <= mir.arg_count + 1,
            mir.wf(),
            n == mir.local_decls@.len(),
            forall|j: usize| 1 <= j < i ==> !(#[trigger] mir.local_has_ptr(j)),
        decreases mir.arg_count + 1 - i,
    {
        if mir.local_decls[i].has_ptr {
            proof {
                assert(mir.local_has_ptr(i));
            }
            return true;
        }
        i += 1;
    }
    false
}

/// The number of pointer arguments of all the callsites, when it fits in 32 bits.
fn args_total(c: &Vec<CallsiteLocals>) -> (r: Option<usize>)
    ensures
        match r {
            Some(t) => t == args_upto(c@, c@.len() as int) && t <= u32::MAX,
            None => args_upto(c@, c@.len() as int) > u32::MAX,
        },
{
    let mut total: usize = 0;
    let mut j: usize = 0;
    while j < c.len()
        invariant
            0 <= j <= c@.len(),
            total == args_upto(c@, j as int),
            total <= u32::MAX,
        decreases c.len() - j,
    {
        let a = c[j].args.len();
        if a > 4294967295 - total {
            proof {
                lemma_args_prefix(c@, j + 1, c@.len() as int);
            }
            return None;
        }
        total = total + a;
        j += 1;
    }
    Some(total)
}

proof fn lemma_args_prefix(c: Seq<CallsiteLocals>, j: int, n: int)
    requires
        0 <= j <= n <= c.len(),
    ensures
        args_upto(c, j) <= args_upto(c, n),
    decreases n - j,
{
    if j < n {
        lemma_args_prefix(c, j, n - 1);
    }
}

} // verus!
