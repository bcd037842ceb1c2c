use rupta::analysis::{AnalysisOptions, FuncBody};
use rupta::flow::FuncPointerFlowAnalysis;
use rupta::ids::{BaseCallSite, CSCallSite, Location, Path};
use rupta::mir::{BasicBlock, CalleeTy, LocalDecl, MirBody, Operand, Place, Rvalue, Statement, Terminator};
use rupta::prec_crit::{CallGraph, PrecCritFnIdent};
use rupta::provenance::{ProvElem, RCEUSMergeArgProvSensitive};
use rupta::strategies::{ContextStrategy, RCEUSCallSiteSensitive, RCEUSMergeCallSiteSensitive};
use std::collections::HashSet;

const ID: usize = 1;
const PAIR: usize = 2;
const MAIN: usize = 3;

fn decl(has_ptr: bool) -> LocalDecl {
    LocalDecl { has_ptr, callee_ty: CalleeTy::Other }
}

fn place(local: usize, has_ptr: bool) -> Place {
    Place { local, has_ptr, tuple_fields: None }
}

fn static_fn() -> Operand {
    Operand::Constant(CalleeTy::Item { fn_trait_call: false, first_type_arg: None })
}

fn call(args: Vec<Operand>, dest: usize) -> Option<Terminator> {
    Some(Terminator::Call { func: static_fn(), args, destination: place(dest, true) })
}

/// `fn id(x: &i32) -> &i32 { x }`
fn id_body() -> MirBody {
    MirBody {
        arg_count: 1,
        local_decls: vec![decl(true), decl(true)],
        basic_blocks: vec![BasicBlock {
            statements: vec![Statement::Assign(place(0, true), Rvalue::Use(Operand::Copy(place(1, true))))],
            terminator: Some(Terminator::Other),
        }],
    }
}

/// `fn pair(a, b) -> (&i32, &i32) { (id(a), id(b)) }`
fn pair_body() -> MirBody {
    MirBody {
        arg_count: 2,
        local_decls: vec![decl(true), decl(true), decl(true), decl(true), decl(true)],
        basic_blocks: vec![
            BasicBlock { statements: vec![], terminator: call(vec![Operand::Copy(place(1, true))], 3) },
            BasicBlock { statements: vec![], terminator: call(vec![Operand::Copy(place(2, true))], 4) },
            BasicBlock {
                statements: vec![Statement::Assign(
                    place(0, true),
                    Rvalue::Aggregate {
                        is_tuple: true,
                        operands: vec![Operand::Move(place(3, true)), Operand::Move(place(4, true))],
                    },
                )],
                terminator: Some(Terminator::Other),
            },
        ],
    }
}

/// `main`: `let xr = &x; let yr = &y; let p1 = pair(xr, yr); let p2 = pair(xr, yr);`
fn main_body() -> MirBody {
    MirBody {
        arg_count: 0,
        local_decls: vec![decl(false), decl(false), decl(false), decl(true), decl(true), decl(true), decl(true)],
        basic_blocks: vec![
            BasicBlock {
                statements: vec![
                    Statement::Assign(place(3, true), Rvalue::Ref(place(1, false))),
                    Statement::Assign(place(4, true), Rvalue::Ref(place(2, false))),
                ],
                terminator: call(vec![Operand::Copy(place(3, true)), Operand::Copy(place(4, true))], 5),
            },
            BasicBlock {
                statements: vec![],
                terminator: call(vec![Operand::Copy(place(3, true)), Operand::Copy(place(4, true))], 6),
            },
            BasicBlock { statements: vec![], terminator: Some(Terminator::Other) },
        ],
    }
}

fn program() -> (CallGraph, Vec<FuncBody>) {
    let mut cg = CallGraph::new();
    let id = cg.get_or_add_node(ID);
    let pair = cg.get_or_add_node(PAIR);
    let main = cg.get_or_add_node(MAIN);
    cg.add_edge(pair, id, Location::new(0, 0));
    cg.add_edge(pair, id, Location::new(1, 0));
    cg.add_edge(main, pair, Location::new(0, 2));
    cg.add_edge(main, pair, Location::new(1, 0));
    let bodies = vec![
        FuncBody { func_id: ID, mir: Some(id_body()), is_closure_body: false, has_self_parameter: false },
        FuncBody { func_id: PAIR, mir: Some(pair_body()), is_closure_body: false, has_self_parameter: false },
        FuncBody { func_id: MAIN, mir: Some(main_body()), is_closure_body: false, has_self_parameter: false },
    ];
    (cg, bodies)
}

fn analysed(rceus_m: bool) -> (PrecCritFnIdent, Option<(usize, usize)>) {
    let (cg, bodies) = program();
    let mut ident = PrecCritFnIdent::new(cg);
    let counts = ident
        .analyze(&bodies, &vec![], &vec![], AnalysisOptions { rceus_ap: true, rceus_m })
        .expect("graphs fit");
    (ident, counts)
}

#[test]
fn bodies_are_well_formed() {
    assert!(id_body().is_well_formed());
    assert!(pair_body().is_well_formed());
    assert!(main_body().is_well_formed());
    let mut bad = id_body();
    bad.local_decls.pop();
    assert!(!bad.is_well_formed());
}

#[test]
fn id_has_argument_to_result_flow() {
    let body = id_body();
    let a = FuncPointerFlowAnalysis::new(ID, &body, false, false, false, false);
    let pfg = a.calculate_intra_pointer_flow().unwrap();
    assert!(pfg.has_arg_to_return_flow);
    assert_eq!(pfg.param_with_flow, vec![1]);
    assert!(pfg.callsite_to_locals.is_empty());
}

#[test]
fn pair_records_its_calls_before_propagation() {
    let body = pair_body();
    let a = FuncPointerFlowAnalysis::new(PAIR, &body, false, false, true, false);
    let pfg = a.calculate_intra_pointer_flow().unwrap();
    assert!(!pfg.has_arg_to_return_flow);
    assert_eq!(pfg.callsite_to_locals.len(), 2);
    assert_eq!(pfg.callsite_to_locals[0].location, Location::new(0, 0));
    assert_eq!(pfg.callsite_to_locals[0].args, vec![(1, Path::new_local_parameter_or_result(PAIR, 1, 2))]);
    assert_eq!(pfg.callsite_to_locals[1].destination, Path::new_local_parameter_or_result(PAIR, 4, 2));
    assert!(pfg.static_callsites.contains(&Location::new(0, 0)));
    assert!(pfg.static_callsites.contains(&Location::new(1, 0)));
    // the tuple's fields are tracked with provenance on
    let t = Path::new_local_parameter_or_result(PAIR, 0, 2);
    assert!(pfg.get_node(t.append_field(0)).is_some());
    assert!(pfg.get_node(t.append_field(1)).is_some());
}

#[test]
fn main_without_pointer_parameters_is_not_visited_unless_merging() {
    let body = main_body();
    let plain = FuncPointerFlowAnalysis::new(MAIN, &body, false, false, false, false)
        .calculate_intra_pointer_flow()
        .unwrap();
    assert!(plain.callsite_to_locals.is_empty());
    let merging = FuncPointerFlowAnalysis::new(MAIN, &body, false, false, false, true)
        .calculate_intra_pointer_flow()
        .unwrap();
    assert_eq!(merging.callsite_to_locals.len(), 2);
    assert!(!merging.has_arg_to_return_flow);
}

#[test]
fn worklist_marks_id_and_pair() {
    let (ident, counts) = analysed(false);
    assert_eq!(counts, None);
    let mut cs: Vec<usize> = ident.cs_funcs.clone();
    cs.sort();
    assert_eq!(cs, vec![ID, PAIR]);
    let pair = ident.func_pfg_map.get(&PAIR).unwrap();
    assert!(pair.has_arg_to_return_flow);
    let mut pw = pair.param_with_flow.clone();
    pw.sort();
    assert_eq!(pw, vec![1, 2]);
    assert!(pair.is_cs_callsite(&Location::new(0, 0)));
    assert!(pair.is_cs_callsite(&Location::new(1, 0)));
    let main = ident.func_pfg_map.get(&MAIN).unwrap();
    assert!(!main.has_arg_to_return_flow);
}

#[test]
fn repeated_pair_calls_merge_into_the_first() {
    let (ident, counts) = analysed(true);
    assert_eq!(counts, Some((1, 1)));
    let main = ident.func_pfg_map.get(&MAIN).unwrap();
    assert_eq!(main.canonical_flow_entry(&Location::new(1, 0), PAIR), Location::new(0, 2));
    assert_eq!(main.canonical_flow_entry(&Location::new(0, 2), PAIR), Location::new(0, 2));
    // calls inside `pair` lie on its flow and are never merged
    let pair = ident.func_pfg_map.get(&PAIR).unwrap();
    assert_eq!(pair.canonical_flow_entry(&Location::new(1, 0), ID), Location::new(1, 0));
}

#[test]
fn merged_callsites_share_one_context() {
    let (ident, _) = analysed(true);
    let cs: HashSet<usize> = ident.cs_funcs.iter().copied().collect();
    let mut s = RCEUSMergeCallSiteSensitive::new(0);
    s.set_prec_crit_fn_ident_data(cs, ident.func_pfg_map);
    let c1 = s.new_static_call_context(&CSCallSite::new(0, MAIN, Location::new(0, 2)), PAIR);
    let c2 = s.new_static_call_context(&CSCallSite::new(0, MAIN, Location::new(1, 0)), PAIR);
    assert_eq!(c1, c2);
    let ctx = s.inner.get_context_by_id(c1);
    assert_eq!(ctx.context_elems, vec![BaseCallSite::new(MAIN, Location::new(0, 2))]);
}

#[test]
fn argument_provenance_separates_the_two_arguments() {
    let (ident, _) = analysed(true);
    let cs: HashSet<usize> = ident.cs_funcs.iter().copied().collect();
    let mut s = RCEUSMergeArgProvSensitive::new(0);
    s.set_prec_crit_fn_ident_data(cs, ident.func_pfg_map);
    let p1 = s.new_static_call_context(&CSCallSite::new(0, MAIN, Location::new(0, 2)), PAIR);
    let p2 = s.new_static_call_context(&CSCallSite::new(0, MAIN, Location::new(1, 0)), PAIR);
    assert_eq!(p1, p2);
    let ctx = s.argprov.get_context_by_id(p1);
    assert_eq!(
        ctx.context_elems,
        vec![
            ProvElem::Site(BaseCallSite::new(MAIN, Location::new(0, 2))),
            ProvElem::ParamProv(1, vec![1]),
            ProvElem::ParamProv(2, vec![2]),
        ]
    );
    let a = s.new_static_call_context(&CSCallSite::new(p1, PAIR, Location::new(0, 0)), ID);
    let b = s.new_static_call_context(&CSCallSite::new(p1, PAIR, Location::new(1, 0)), ID);
    assert_ne!(a, b);
    let ca = s.argprov.get_context_by_id(a);
    let cb = s.argprov.get_context_by_id(b);
    assert_eq!(
        ca.context_elems,
        vec![ProvElem::Site(BaseCallSite::new(MAIN, Location::new(0, 2))), ProvElem::ParamProv(1, vec![1])]
    );
    assert_eq!(
        cb.context_elems,
        vec![ProvElem::Site(BaseCallSite::new(MAIN, Location::new(0, 2))), ProvElem::ParamProv(1, vec![2])]
    );
}

#[test]
fn rceus_gives_each_flow_entry_its_own_context() {
    let (ident, _) = analysed(false);
    let cs: HashSet<usize> = ident.cs_funcs.iter().copied().collect();
    let mut s = RCEUSCallSiteSensitive::new(1);
    s.set_prec_crit_fn_ident_data(cs, ident.func_pfg_map);
    assert!(s.cs_funcs().unwrap().contains(&PAIR));
    let m0 = BaseCallSite::new(MAIN, Location::new(0, 2));
    let c1 = s.new_static_call_context(&CSCallSite::new(0, MAIN, Location::new(0, 2)), PAIR);
    let c2 = s.new_static_call_context(&CSCallSite::new(0, MAIN, Location::new(1, 0)), PAIR);
    assert_ne!(c1, c2);
    assert_eq!(s.get_context_by_id(c1).context_elems, vec![m0, m0]);
    // inside `pair` the call lies on the flow: the flow entry is inherited
    let inner = s.new_static_call_context(&CSCallSite::new(c1, PAIR, Location::new(0, 0)), ID);
    assert_eq!(
        s.get_context_by_id(inner).context_elems,
        vec![m0, BaseCallSite::new(PAIR, Location::new(0, 0))]
    );
    // a callee that is not precision-critical keeps the k-limited context
    let plain = s.new_static_call_context(&CSCallSite::new(0, PAIR, Location::new(0, 0)), MAIN);
    assert_eq!(s.get_context_by_id(plain).context_elems, vec![BaseCallSite::new(PAIR, Location::new(0, 0))]);
    assert_eq!(s.new_instance_call_context(&CSCallSite::new(0, MAIN, Location::new(0, 2)), None, PAIR), Some(c1));
}

#[test]
fn selective_rceus_leaves_other_callees_insensitive() {
    let (ident, _) = analysed(false);
    let cs: HashSet<usize> = ident.cs_funcs.iter().copied().collect();
    let mut s = RCEUSCallSiteSensitive::new_selective(1);
    s.set_prec_crit_fn_ident_data(cs, ident.func_pfg_map);
    assert_eq!(s.new_static_call_context(&CSCallSite::new(0, PAIR, Location::new(0, 0)), MAIN), 0);
    let c = s.new_static_call_context(&CSCallSite::new(0, MAIN, Location::new(0, 2)), PAIR);
    assert_eq!(c, 1);
}

#[test]
fn library_mode_enters_the_flow_at_calls_from_outside() {
    let mut s = RCEUSCallSiteSensitive::new(1);
    let mut lib = HashSet::new();
    lib.insert(ID);
    lib.insert(PAIR);
    s.set_library_mode(lib);
    assert!(s.cs_funcs().unwrap().contains(&ID));
    let m0 = BaseCallSite::new(MAIN, Location::new(0, 2));
    // no flow graphs: a critical callee without one gets the empty context
    assert_eq!(s.new_static_call_context(&CSCallSite::new(0, MAIN, Location::new(0, 2)), PAIR), 0);
    let (ident, _) = analysed(false);
    let mut s = RCEUSCallSiteSensitive::new(1);
    s.set_prec_crit_fn_ident_data(HashSet::new(), ident.func_pfg_map);
    let mut lib = HashSet::new();
    lib.insert(ID);
    lib.insert(PAIR);
    s.set_library_mode(lib);
    let c = s.new_static_call_context(&CSCallSite::new(0, MAIN, Location::new(0, 2)), PAIR);
    assert_eq!(s.get_context_by_id(c).context_elems, vec![m0, m0]);
    let d = s.new_static_call_context(&CSCallSite::new(c, PAIR, Location::new(1, 0)), ID);
    assert_eq!(
        s.get_context_by_id(d).context_elems,
        vec![m0, BaseCallSite::new(PAIR, Location::new(1, 0))]
    );
}

#[test]
fn representative_callsites_keep_their_rceus_context() {
    let (ident, _) = analysed(true);
    let (again, _) = analysed(true);
    let cs: HashSet<usize> = ident.cs_funcs.iter().copied().collect();
    let mut merging = RCEUSMergeCallSiteSensitive::new(1);
    merging.set_prec_crit_fn_ident_data(cs.clone(), ident.func_pfg_map);
    let mut plain = RCEUSCallSiteSensitive::new(1);
    plain.set_prec_crit_fn_ident_data(cs, again.func_pfg_map);
    // (0, 2) represents its group: both strategies label it with itself
    let first = CSCallSite::new(0, MAIN, Location::new(0, 2));
    let m = merging.new_static_call_context(&first, PAIR);
    let p = plain.new_static_call_context(&first, PAIR);
    assert_eq!(merging.get_context_by_id(m).context_elems, plain.get_context_by_id(p).context_elems);
    // (1, 0) is merged into (0, 2) only by the merging strategy
    let second = CSCallSite::new(0, MAIN, Location::new(1, 0));
    let m2 = merging.new_static_call_context(&second, PAIR);
    let p2 = plain.new_static_call_context(&second, PAIR);
    assert_eq!(
        merging.get_context_by_id(m2).context_elems,
        vec![BaseCallSite::new(MAIN, Location::new(0, 2)), BaseCallSite::new(MAIN, Location::new(1, 0))]
    );
    assert_eq!(
        plain.get_context_by_id(p2).context_elems,
        vec![BaseCallSite::new(MAIN, Location::new(1, 0)), BaseCallSite::new(MAIN, Location::new(1, 0))]
    );
}

const FIRST: usize = 4;
const PICK: usize = 5;

/// `fn first(a: &i32, b: &i32) -> &i32 { a }`
fn first_body() -> MirBody {
    MirBody {
        arg_count: 2,
        local_decls: vec![decl(true), decl(true), decl(true)],
        basic_blocks: vec![BasicBlock {
            statements: vec![Statement::Assign(place(0, true), Rvalue::Use(Operand::Copy(place(1, true))))],
            terminator: Some(Terminator::Other),
        }],
    }
}

/// `fn pick(x: &i32, y: &i32) -> &i32 { first(x, y) }`
fn pick_body() -> MirBody {
    MirBody {
        arg_count: 2,
        local_decls: vec![decl(true), decl(true), decl(true)],
        basic_blocks: vec![
            BasicBlock {
                statements: vec![],
                terminator: call(vec![Operand::Copy(place(1, true)), Operand::Copy(place(2, true))], 0),
            },
            BasicBlock { statements: vec![], terminator: Some(Terminator::Other) },
        ],
    }
}

#[test]
fn only_arguments_that_carry_flow_reach_the_result() {
    let mut cg = CallGraph::new();
    let first = cg.get_or_add_node(FIRST);
    let pick = cg.get_or_add_node(PICK);
    cg.add_edge(pick, first, Location::new(0, 0));
    let bodies = vec![
        FuncBody { func_id: FIRST, mir: Some(first_body()), is_closure_body: false, has_self_parameter: false },
        FuncBody { func_id: PICK, mir: Some(pick_body()), is_closure_body: false, has_self_parameter: false },
    ];
    let mut ident = PrecCritFnIdent::new(cg);
    ident.analyze(&bodies, &vec![], &vec![], AnalysisOptions { rceus_ap: false, rceus_m: false }).expect("graphs fit");
    let callee = ident.func_pfg_map.get(&FIRST).unwrap();
    assert_eq!(callee.param_with_flow, vec![1]);
    let p = ident.func_pfg_map.get(&PICK).unwrap();
    assert!(p.has_arg_to_return_flow);
    assert_eq!(p.param_with_flow, vec![1]);
    let x = p.find_node(Path::new_local_parameter_or_result(PICK, 1, 2)).unwrap();
    let r = p.find_node(Path::new_local_parameter_or_result(PICK, 0, 2)).unwrap();
    // the first argument is connected to the result at the call, the second is not
    let e = p.find_edge(x, r).unwrap();
    assert!(p.edge_data[e].call_locs.contains(&Location::new(0, 0)));
    if let Some(y) = p.find_node(Path::new_local_parameter_or_result(PICK, 2, 2)) {
        assert!(p.find_edge(y, r).is_none());
    }
    let mut cs: Vec<usize> = ident.cs_funcs.clone();
    cs.sort();
    assert_eq!(cs, vec![FIRST, PICK]);
}

/// `main` calling `pair(xr, yr)` and then `pair(yr, xr)`.
fn swapped_main_body() -> MirBody {
    let mut body = main_body();
    body.basic_blocks[1].terminator = call(vec![Operand::Copy(place(4, true)), Operand::Copy(place(3, true))], 6);
    body
}

#[test]
fn calls_with_different_argument_roots_are_not_merged() {
    let (cg, mut bodies) = program();
    bodies[2].mir = Some(swapped_main_body());
    let mut ident = PrecCritFnIdent::new(cg);
    let counts = ident.analyze(&bodies, &vec![], &vec![], AnalysisOptions { rceus_ap: true, rceus_m: true }).expect("graphs fit");
    assert_eq!(counts, Some((0, 0)));
    let main = ident.func_pfg_map.get(&MAIN).unwrap();
    assert!(main.flow_entry_merge.is_empty());
    assert_eq!(main.canonical_flow_entry(&Location::new(0, 2), PAIR), Location::new(0, 2));
    assert_eq!(main.canonical_flow_entry(&Location::new(1, 0), PAIR), Location::new(1, 0));
}

#[test]
fn merge_entries_count_the_calls_merged_away() {
    let (ident, counts) = analysed(true);
    let (sites, groups) = counts.unwrap();
    let total: usize = ident.func_pfg_map.values().map(|p| p.flow_entry_merge.len()).sum();
    assert_eq!(sites, total);
    assert_eq!(groups, 1);
    let main = ident.func_pfg_map.get(&MAIN).unwrap();
    assert_eq!(main.flow_entry_merge.len(), 1);
    assert_eq!(main.flow_entry_merge[0].location, Location::new(1, 0));
    assert_eq!(main.flow_entry_merge[0].callee, PAIR);
    assert_eq!(main.flow_entry_merge[0].canonical, Location::new(0, 2));
}
