use rupta::context::{Context, ContextCache};
use rupta::ids::{BaseCallSite, CSCallSite, CSPath, Location, Path, PathRoot};
use rupta::strategies::{
    ContextInsensitive, ContextStrategy, HybridCtxElem, KCallSiteSensitive, KObjectSensitive, RCEUSCallSiteSensitive,
    SelectiveCallSiteSensitive, SimpleHybridContextSensitive,
};
use std::collections::{HashMap, HashSet};

fn site(func: usize, block: usize) -> BaseCallSite {
    BaseCallSite::new(func, Location::new(block, 0))
}

#[test]
fn cache_starts_with_empty_context() {
    let mut cache: ContextCache<BaseCallSite> = ContextCache::new();
    assert_eq!(cache.len(), 1);
    let empty = Context::new_empty();
    assert_eq!(cache.get_context_id(&empty), 0);
    assert_eq!(cache.len(), 1);
}

#[test]
fn cache_interns_each_context_once() {
    let mut cache: ContextCache<BaseCallSite> = ContextCache::new();
    let a = Context { context_elems: vec![site(1, 2)] };
    let b = Context { context_elems: vec![site(1, 3)] };
    let ia = cache.get_context_id(&a);
    let ib = cache.get_context_id(&b);
    assert_eq!(ia, 1);
    assert_eq!(ib, 2);
    let a2 = Context { context_elems: vec![site(1, 2)] };
    assert_eq!(cache.get_context_id(&a2), 1);
    assert_eq!(cache.len(), 3);
    let back = cache.get_context(ib).unwrap();
    assert_eq!(back.context_elems, vec![site(1, 3)]);
    assert!(cache.get_context(7).is_none());
}

#[test]
fn k_limited_context_keeps_newest_k() {
    let old = Context { context_elems: vec![site(1, 1), site(2, 2), site(3, 3)] };
    let c = Context::new_k_limited_context(&old, site(9, 9), 2);
    assert_eq!(c.context_elems, vec![site(9, 9), site(1, 1)]);
    let c0 = Context::new_k_limited_context(&old, site(9, 9), 0);
    assert!(c0.context_elems.is_empty());
    let short = Context { context_elems: vec![site(1, 1)] };
    let c5 = Context::new_k_limited_context(&short, site(9, 9), 5);
    assert_eq!(c5.context_elems, vec![site(9, 9), site(1, 1)]);
}

#[test]
fn context_insensitive_is_always_zero() {
    let mut s = ContextInsensitive {};
    let cs = CSCallSite::new(4, 1, Location::new(2, 3));
    assert_eq!(s.new_static_call_context(&cs, 5), 0);
    assert_eq!(s.new_instance_call_context(&cs, None, 5), Some(0));
    assert_eq!(s.get_empty_context_id(), 0);
    assert!(s.get_context_by_id(3).context_elems.is_empty());
}

#[test]
fn k_callsite_chain_of_contexts() {
    let mut s = KCallSiteSensitive::new(2);
    let c1 = s.new_context(&CSCallSite::new(0, 1, Location::new(1, 0)));
    assert_eq!(c1, 1);
    let c2 = s.new_context(&CSCallSite::new(c1, 2, Location::new(5, 1)));
    assert_eq!(c2, 2);
    let ctx = s.get_context_by_id(c2);
    assert_eq!(
        ctx.context_elems,
        vec![BaseCallSite::new(2, Location::new(5, 1)), BaseCallSite::new(1, Location::new(1, 0))]
    );
    // a third level drops the oldest callsite
    let c3 = s.new_context(&CSCallSite::new(c2, 3, Location::new(7, 0)));
    let ctx3 = s.get_context_by_id(c3);
    assert_eq!(
        ctx3.context_elems,
        vec![BaseCallSite::new(3, Location::new(7, 0)), BaseCallSite::new(2, Location::new(5, 1))]
    );
    // the same call again gets the same number
    assert_eq!(s.new_context(&CSCallSite::new(0, 1, Location::new(1, 0))), c1);
    assert_eq!(s.get_empty_context_id(), 0);
}

#[test]
fn k_object_uses_receiver_and_keeps_static_caller_context() {
    let mut s = KObjectSensitive::new(1);
    let obj = Path { func_id: 3, root: PathRoot::LocalVariable { ordinal: 4 }, field: None };
    let r = CSPath { cid: 0, path: obj };
    let cs = CSCallSite::new(0, 3, Location::new(0, 0));
    let id = s.new_instance_call_context(&cs, Some(&r), 8).unwrap();
    assert_eq!(id, 1);
    assert_eq!(s.new_instance_call_context(&cs, None, 8), None);
    let cs2 = CSCallSite::new(id, 3, Location::new(0, 0));
    assert_eq!(s.new_static_call_context(&cs2, 8), id);
}

#[test]
fn hybrid_mixes_objects_and_callsites() {
    let mut s = SimpleHybridContextSensitive::new(2);
    let obj = Path { func_id: 1, root: PathRoot::LocalVariable { ordinal: 2 }, field: None };
    let i1 = s.new_instance_call_context(CSPath { cid: 0, path: obj });
    let i2 = s.new_static_call_context(&CSCallSite::new(i1, 1, Location::new(3, 0)));
    assert_eq!((i1, i2), (1, 2));
    let ctx = s.ctx_cache.get_context(i2).unwrap();
    assert_eq!(
        ctx.context_elems,
        vec![HybridCtxElem::CallSite(BaseCallSite::new(1, Location::new(3, 0))), HybridCtxElem::Object(obj)]
    );
}

#[test]
fn selective_gives_critical_callees_a_context() {
    let mut s = SelectiveCallSiteSensitive::new(1);
    let mut cs_funcs = HashSet::new();
    cs_funcs.insert(7usize);
    s.set_prec_crit_fn_ident_data(cs_funcs, HashMap::new());
    let call = CSCallSite::new(0, 2, Location::new(4, 0));
    assert_eq!(s.new_static_call_context(&call, 8), 0);
    let id = s.new_static_call_context(&call, 7);
    assert_eq!(id, 1);
    assert_eq!(s.new_instance_call_context(&call, None, 7), Some(1));
    assert_eq!(s.insensitive_context(), 0);
}

#[test]
fn hybrid_through_the_strategy_interface() {
    let mut s = SimpleHybridContextSensitive::new(1);
    let obj = Path { func_id: 1, root: PathRoot::LocalVariable { ordinal: 2 }, field: None };
    let cs = CSCallSite::new(0, 1, Location::new(3, 0));
    assert_eq!(ContextStrategy::new_instance_call_context(&mut s, &cs, None, 5), None);
    let recv = CSPath { cid: 0, path: obj };
    let i = ContextStrategy::new_instance_call_context(&mut s, &cs, Some(&recv), 5);
    assert_eq!(i, Some(1));
    assert_eq!(s.get_context_by_id(1).context_elems, vec![HybridCtxElem::Object(obj)]);
    let st = ContextStrategy::new_static_call_context(&mut s, &CSCallSite::new(1, 1, Location::new(4, 0)), 5);
    assert_eq!(st, 2);
    // k = 1 keeps only the newest element
    assert_eq!(
        s.get_context_by_id(st).context_elems,
        vec![HybridCtxElem::CallSite(BaseCallSite::new(1, Location::new(4, 0)))]
    );
    assert_eq!(s.get_empty_context_id(), 0);
    assert!(s.get_context_by_id(9).context_elems.is_empty());
}

#[test]
fn k_object_interns_contexts() {
    let mut s = KObjectSensitive::new(2);
    let a = Path { func_id: 1, root: PathRoot::LocalVariable { ordinal: 1 }, field: None };
    let b = Path { func_id: 1, root: PathRoot::LocalVariable { ordinal: 2 }, field: None };
    let c = Context { context_elems: vec![a, b] };
    let id = s.get_context_id(&c);
    assert_eq!(id, 1);
    assert_eq!(s.get_context_id(&Context { context_elems: vec![a, b] }), 1);
    assert_eq!(s.get_context_by_id(1).context_elems, vec![a, b]);
    assert_eq!(s.get_empty_context_id(), 0);
    assert!(s.empty_context().context_elems.is_empty());
    // a receiver in context 1 gives [receiver, a]
    let r = CSPath { cid: 1, path: b };
    let cs = CSCallSite::new(1, 1, Location::new(0, 0));
    let id2 = s.new_instance_call_context(&cs, Some(&r), 3).unwrap();
    assert_eq!(s.get_context_by_id(id2).context_elems, vec![b, a]);
}

#[test]
fn strategies_without_pre_analysis_ignore_its_data() {
    let mut s = KCallSiteSensitive::new(1);
    let mut set = HashSet::new();
    set.insert(3usize);
    s.set_prec_crit_fn_ident_data(set.clone(), HashMap::new());
    s.set_noprov_callees(set.clone());
    s.set_noprov_sites(set.clone());
    s.set_library_mode(set);
    assert!(s.cs_funcs().is_none());
    assert_eq!(s.ctx_cache.len(), 1);
    let mut sel = SelectiveCallSiteSensitive::new(1);
    let mut cs = HashSet::new();
    cs.insert(4usize);
    sel.set_prec_crit_fn_ident_data(cs, HashMap::new());
    assert!(sel.cs_funcs().unwrap().contains(&4));
}

#[test]
fn selective_matches_k_callsite_on_critical_callees() {
    let mut sel = SelectiveCallSiteSensitive::new(2);
    let mut k = KCallSiteSensitive::new(2);
    let mut cs_funcs = HashSet::new();
    cs_funcs.insert(7usize);
    sel.set_prec_crit_fn_ident_data(cs_funcs, HashMap::new());
    let call = CSCallSite::new(0, 2, Location::new(4, 0));
    let a = sel.new_static_call_context(&call, 7);
    let b = k.new_static_call_context(&call, 7);
    assert_eq!(a, b);
    assert_eq!(sel.get_context_by_id(a).context_elems, k.get_context_by_id(b).context_elems);
    // a non-critical callee stays context-insensitive
    assert_eq!(sel.new_static_call_context(&CSCallSite::new(a, 7, Location::new(1, 0)), 9), 0);
}

#[test]
fn interned_contexts_are_listed_in_number_order() {
    let mut s = KCallSiteSensitive::new(1);
    let c1 = s.new_context(&CSCallSite::new(0, 1, Location::new(1, 0)));
    let list = s.get_context_iter().unwrap();
    assert_eq!(list.len(), 2);
    assert_eq!(list[0].1, 0);
    assert!(list[0].0.context_elems.is_empty());
    assert_eq!(list[1].1, c1);
    assert_eq!(list[1].0.context_elems, vec![BaseCallSite::new(1, Location::new(1, 0))]);
    let o = KObjectSensitive::new(1);
    assert!(o.get_context_iter().is_none());
    assert!(ContextInsensitive {}.get_context_iter().is_none());
}

#[test]
fn rceus_without_pre_analysis_data_is_k_callsite() {
    let mut r = RCEUSCallSiteSensitive::new(2);
    let mut k = KCallSiteSensitive::new(2);
    let c1 = CSCallSite::new(0, 1, Location::new(3, 0));
    let a1 = r.new_static_call_context(&c1, 2);
    let b1 = k.new_static_call_context(&c1, 2);
    assert_eq!(a1, b1);
    let c2 = CSCallSite::new(a1, 2, Location::new(5, 1));
    let a2 = r.new_static_call_context(&c2, 3);
    let b2 = k.new_static_call_context(&c2, 3);
    assert_eq!(a2, b2);
    assert_eq!(r.get_context_by_id(a2).context_elems, k.get_context_by_id(b2).context_elems);
    assert_eq!(r.get_context_by_id(a2).context_elems, vec![BaseCallSite::new(2, Location::new(5, 1)), site(1, 3)]);
}

#[test]
fn instance_calls_get_the_static_call_context() {
    let recv = CSPath { cid: 0, path: Path { func_id: 1, root: PathRoot::LocalVariable { ordinal: 1 }, field: None } };
    let cs = CSCallSite::new(0, 1, Location::new(2, 0));
    let mut r1 = RCEUSCallSiteSensitive::new(1);
    let mut r2 = RCEUSCallSiteSensitive::new(1);
    assert_eq!(r1.new_instance_call_context(&cs, Some(&recv), 4), Some(r2.new_static_call_context(&cs, 4)));
    assert_eq!(r1.new_instance_call_context(&cs, None, 5), Some(r2.new_static_call_context(&cs, 5)));
    let mut critical = HashSet::new();
    critical.insert(4usize);
    let mut s1 = SelectiveCallSiteSensitive::new(1);
    let mut s2 = SelectiveCallSiteSensitive::new(1);
    s1.set_prec_crit_fn_ident_data(critical.clone(), HashMap::new());
    s2.set_prec_crit_fn_ident_data(critical, HashMap::new());
    assert_eq!(s1.new_instance_call_context(&cs, Some(&recv), 4), Some(s2.new_static_call_context(&cs, 4)));
    assert_eq!(s1.new_instance_call_context(&cs, None, 5), Some(s2.new_static_call_context(&cs, 5)));
}
