use rupta::ids::{Location, Path, PathRoot};
use rupta::pfg::{DFGNode, FuncPFG, PFGEdgeEnum};

fn local(i: usize) -> Path {
    Path { func_id: 7, root: PathRoot::LocalVariable { ordinal: i }, field: None }
}

fn param(i: usize) -> Path {
    Path { func_id: 7, root: PathRoot::Parameter { ordinal: i }, field: None }
}

fn ret() -> Path {
    Path::new_return_value(7)
}

#[test]
fn dfg_node_keeps_its_path() {
    let n = DFGNode::new(local(3));
    assert_eq!(*n.path(), local(3));
}

#[test]
fn paths_of_mir_locals() {
    assert_eq!(Path::new_local_parameter_or_result(7, 0, 2), ret());
    assert_eq!(Path::new_local_parameter_or_result(7, 2, 2), param(2));
    assert_eq!(Path::new_local_parameter_or_result(7, 3, 2), local(3));
    assert_eq!(param(2).parameter_ordinal(), Some(2));
    assert_eq!(param(2).append_field(1).parameter_ordinal(), None);
}

#[test]
fn add_edge_reports_new_information_only() {
    let mut g = FuncPFG::new(7, false, false);
    assert!(g.add_edge(param(1), local(2), PFGEdgeEnum::IntraPFGEdge));
    assert!(!g.add_edge(param(1), local(2), PFGEdgeEnum::IntraPFGEdge));
    let loc = Location::new(4, 1);
    assert!(g.add_edge(param(1), local(2), PFGEdgeEnum::CallPFGEdge(loc)));
    assert!(!g.add_edge(param(1), local(2), PFGEdgeEnum::CallPFGEdge(loc)));
    assert_eq!(g.nodes().len(), 2);
    let n = g.find_node(param(1)).unwrap();
    assert!(g.flows_at_callsite(n, &loc));
    assert!(!g.flows_at_callsite(n, &Location::new(0, 0)));
    assert!(g.get_node(local(9)).is_none());
}

#[test]
fn solving_finds_parameters_and_callsites_on_a_flow() {
    let mut g = FuncPFG::new(7, false, false);
    let site = Location::new(2, 0);
    g.add_edge(param(1), local(3), PFGEdgeEnum::CallPFGEdge(site));
    g.add_edge(local(3), ret(), PFGEdgeEnum::IntraPFGEdge);
    g.add_edge(param(2), local(4), PFGEdgeEnum::CallPFGEdge(Location::new(5, 0)));
    g.solve_graph_reachability();
    assert!(g.has_arg_to_return_flow);
    assert_eq!(g.param_with_flow, vec![1]);
    assert!(g.is_cs_callsite(&site));
    assert!(!g.is_cs_callsite(&Location::new(5, 0)));
}

#[test]
fn solving_without_flow_clears_callsites() {
    let mut g = FuncPFG::new(7, false, false);
    g.add_edge(param(1), local(3), PFGEdgeEnum::IntraPFGEdge);
    g.solve_graph_reachability();
    assert!(!g.has_arg_to_return_flow);
    assert!(g.cs_callsites.is_empty());
    assert!(g.get_node(ret()).is_some());
}

#[test]
fn backward_roots_are_the_sources_reaching_a_node() {
    let mut g = FuncPFG::new(7, false, false);
    // a -> b, c -> b, b -> d, and a cycle e <-> f feeding d
    let (a, b, c, d, e, f) = (local(1), local(2), local(3), local(4), local(5), local(6));
    g.add_edge(a, b, PFGEdgeEnum::IntraPFGEdge);
    g.add_edge(c, b, PFGEdgeEnum::IntraPFGEdge);
    g.add_edge(b, d, PFGEdgeEnum::IntraPFGEdge);
    g.add_edge(e, f, PFGEdgeEnum::IntraPFGEdge);
    g.add_edge(f, e, PFGEdgeEnum::IntraPFGEdge);
    g.add_edge(f, d, PFGEdgeEnum::IntraPFGEdge);
    let t = g.backward_roots_table();
    let na = t.node(&a).unwrap();
    let nc = t.node(&c).unwrap();
    let ne = t.node(&e).unwrap();
    let nf = t.node(&f).unwrap();
    let mut expected = vec![na, nc, ne.min(nf)];
    expected.sort();
    assert_eq!(*t.roots_of(&d).unwrap(), expected);
    assert_eq!(*t.roots_of(&a).unwrap(), vec![na]);
    let mut b_roots = vec![na, nc];
    b_roots.sort();
    assert_eq!(*t.roots_of_node(t.node(&b).unwrap()), b_roots);
    assert_eq!(*t.roots_of(&f).unwrap(), vec![ne.min(nf)]);
    assert!(t.roots_of(&local(42)).is_none());
}

#[test]
fn every_node_has_a_root() {
    let mut g = FuncPFG::new(7, false, false);
    // a cycle with nothing flowing into it, and a chain out of it
    g.add_edge(local(1), local(2), PFGEdgeEnum::IntraPFGEdge);
    g.add_edge(local(2), local(1), PFGEdgeEnum::IntraPFGEdge);
    g.add_edge(local(2), local(3), PFGEdgeEnum::IntraPFGEdge);
    let t = g.backward_roots_table();
    for i in 1..4 {
        assert!(!t.roots_of(&local(i)).unwrap().is_empty());
    }
}

#[test]
fn adding_edges_keeps_one_node_per_path_and_labels_every_edge() {
    let mut g = FuncPFG::new(7, false, false);
    g.add_edge(local(1), local(2), PFGEdgeEnum::IntraPFGEdge);
    g.add_edge(local(2), local(1), PFGEdgeEnum::CallPFGEdge(Location::new(0, 0)));
    g.add_edge(local(1), local(2), PFGEdgeEnum::CallPFGEdge(Location::new(1, 0)));
    let nodes = g.nodes();
    assert_eq!(nodes.len(), 2);
    assert_ne!(nodes[0].path(), nodes[1].path());
    for e in g.edge_data.iter() {
        assert!(e.intra || !e.call_locs.is_empty());
    }
    let s = g.find_node(local(1)).unwrap();
    let d = g.find_node(local(2)).unwrap();
    let e = g.find_edge(s, d).unwrap();
    assert!(g.edge_data[e].intra);
    assert_eq!(g.edge_data[e].call_locs, vec![Location::new(1, 0)]);
}
