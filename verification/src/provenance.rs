//! Argument provenance: which parameters of a function reach each argument
//! of its callsites, and the provenance-qualified flow-entry contexts built
//! from it.

use vstd::prelude::*;
use std::collections::{BTreeSet, HashMap, HashSet};
use crate::ids::{BaseCallSite, CSCallSite, CSPath, ContextId, FuncId, Location, Path, contains_location, spec_parameter_ordinal};
use crate::context::{Context, ContextCache, ContextElement, interned, views_of, lists_contexts};
use crate::strategies::{ContextStrategy, context_or_empty};
use crate::sets::{ordinal_set_insert, ordinal_set_list};
use crate::pfg::spec_canonical_flow_entry;
use crate::graph::{reaches, flow_graph_node_count};
use crate::pfg::{DFGNode, FuncPFG, is_first_entry};
use crate::reach::reach_backward;
use crate::prec_crit::lemma_first_entry_unique;

verus! {

/// Every entry is smaller than the next.
pub open spec fn strictly_sorted_u32(s: Seq<u32>) -> bool {
    forall|i: int, j: int| 0 <= i < j < s.len() ==> #[trigger] s[i] < #[trigger] s[j]
}

/// `s` lists the elements of `set` in ascending order, each once.
pub open spec fn lists_set(s: Seq<u32>, set: Set<u32>) -> bool {
    &&& strictly_sorted_u32(s)
    &&& forall|x: u32| #[trigger] s.contains(x) <==> set.contains(x)
}

/// The elements of `set` in ascending order (meaningful for a finite set).
pub open spec fn sorted_list(set: Set<u32>) -> Seq<u32> {
    choose|s: Seq<u32>| lists_set(s, set)
}

/// The set has some element.
pub open spec fn nonempty(set: Set<u32>) -> bool {
    exists|x: u32| set.contains(x)
}

proof fn lemma_lists_set_unique(a: Seq<u32>, b: Seq<u32>, set: Set<u32>)
    requires
        lists_set(a, set),
        lists_set(b, set),
    ensures
        a == b,
    decreases a.len(),
{
    if a.len() == 0 {
        if b.len() > 0 {
            assert(b.contains(b[0]));
            assert(set.contains(b[0]));
            assert(a.contains(b[0]));
        }
        assert(a =~= b);
    } else {
        assert(a.contains(a[0]));
        assert(set.contains(a[0]));
        assert(b.contains(a[0]));
        assert(b.len() > 0);
        assert(b.contains(b[0]));
        assert(set.contains(b[0]));
        assert(a.contains(b[0]));
        let ja = choose|j: int| 0 <= j < b.len() && b[j] == a[0];
        let ia = choose|i: int| 0 <= i < a.len() && a[i] == b[0];
        if ja > 0 {
            assert(b[0] < b[ja]);
            if ia > 0 {
                assert(a[0] < a[ia]);
            }
        }
        assert(a[0] == b[0]);
        let rest = set.remove(a[0]);
        assert forall|x: u32| #[trigger] a.drop_first().contains(x) <==> rest.contains(x) by {
            if a.drop_first().contains(x) {
                let i = choose|i: int| 0 <= i < a.drop_first().len() && a.drop_first()[i] == x;
                assert(a[i + 1] == x);
                assert(a[0] < a[i + 1]);
                assert(a.contains(x));
            }
            if rest.contains(x) {
                assert(a.contains(x));
                let i = choose|i: int| 0 <= i < a.len() && a[i] == x;
                assert(i != 0);
                assert(a.drop_first()[i - 1] == x);
            }
        }
        assert forall|x: u32| #[trigger] b.drop_first().contains(x) <==> rest.contains(x) by {
            if b.drop_first().contains(x) {
                let i = choose|i: int| 0 <= i < b.drop_first().len() && b.drop_first()[i] == x;
                assert(b[i + 1] == x);
                assert(b[0] < b[i + 1]);
                assert(b.contains(x));
            }
            if rest.contains(x) {
                assert(b.contains(x));
                let i = choose|i: int| 0 <= i < b.len() && b[i] == x;
                assert(i != 0);
                assert(b.drop_first()[i - 1] == x);
            }
        }
        lemma_lists_set_unique(a.drop_first(), b.drop_first(), rest);
        assert(a =~= seq![a[0]] + a.drop_first());
        assert(b =~= seq![b[0]] + b.drop_first());
    }
}

/// A list that lists a set in ascending order is `sorted_list` of the set.
pub proof fn lemma_sorted_list(s: Seq<u32>, set: Set<u32>)
    requires
        lists_set(s, set),
    ensures
        sorted_list(set) == s,
        s.len() > 0 <==> nonempty(set),
{
    lemma_lists_set_unique(sorted_list(set), s, set);
    if s.len() > 0 {
        assert(s.contains(s[0]));
    }
    if nonempty(set) {
        let x = choose|x: u32| set.contains(x);
        assert(s.contains(x));
    }
}

/// Adds `x` to the ascending list `v` at its place unless it is there already.
pub fn sorted_insert_u32(v: &mut Vec<u32>, x: u32)
    requires
        strictly_sorted_u32(old(v)@),
    ensures
        strictly_sorted_u32(final(v)@),
        forall|y: u32| #[trigger] final(v)@.contains(y) <==> old(v)@.contains(y) || y == x,
{
    let mut k: usize = 0;
    while k < v.len() && v[k] < x
        invariant
            0 <= k <= v.len(),
            strictly_sorted_u32(v@),
            forall|j: int| 0 <= j < k ==> v@[j] < x,
        decreases v.len() - k,
    {
        k += 1;
    }
    if k < v.len() && v[k] == x {
        return;
    }
    let ghost old_v = v@;
    v.insert(k, x);
    proof {
        old_v.insert_ensures(k as int, x);
        let nv = v@;
        assert forall|i: int, j: int| 0 <= i < j < nv.len() implies #[trigger] nv[i] < #[trigger] nv[j] by {
            if j < k {
            } else if j == k {
            } else if i < k {
                assert(nv[j] == old_v[j - 1]);
            } else if i == k {
                assert(nv[j] == old_v[j - 1]);
                assert(old_v[k as int] >= x);
                if j - 1 > k {
                    assert(old_v[k as int] < old_v[j - 1]);
                }
            } else {
                assert(nv[i] == old_v[i - 1]);
                assert(nv[j] == old_v[j - 1]);
            }
        }
        assert forall|y: u32| #[trigger] nv.contains(y) <==> old_v.contains(y) || y == x by {
            if nv.contains(y) {
                let i = choose|i: int| 0 <= i < nv.len() && nv[i] == y;
                if i < k {
                    assert(old_v[i] == y);
                } else if i > k {
                    assert(old_v[i - 1] == y);
                }
            }
            if old_v.contains(y) {
                let i = choose|i: int| 0 <= i < old_v.len() && old_v[i] == y;
                if i < k {
                    assert(nv[i] == y);
                } else {
                    assert(nv[i + 1] == y);
                }
            }
            if y == x {
                assert(nv[k as int] == y);
            }
        }
    }
}

/// A slot of a callsite's actual arguments: a whole argument, or one field
/// of a tuple argument.
#[derive(Clone, Copy, Debug, PartialEq, Eq, Hash, Structural)]
pub enum ArgSlot {
    Whole(u32),
    TupleField(u32, u32),
}

/// Node `x` is a whole parameter with ordinal `o` (as a 32-bit number).
pub open spec fn param_u32(nodes: Seq<DFGNode>, x: int, o: u32) -> bool {
    spec_parameter_ordinal(nodes[x].path) matches Some(ord) && ord as u32 == o
}

/// The ordinals of the whole parameters whose nodes reach node `start`.
pub open spec fn reaching_params(nodes: Seq<DFGNode>, edges: Seq<(usize, usize)>, start: usize) -> Set<u32> {
    Set::new(|o: u32| exists|x: usize| x < nodes.len() && reaches(edges, x, start) && #[trigger] param_u32(nodes, x as int, o))
}

/// `n` is the last node for path `p`.
pub open spec fn is_last_node(nodes: Seq<DFGNode>, p: Path, n: int) -> bool {
    &&& 0 <= n < nodes.len()
    &&& nodes[n].path == p
    &&& forall|j: int| n < j < nodes.len() ==> (#[trigger] nodes[j]).path != p
}

/// Path `p` is a field of the whole path `base`.
pub open spec fn field_of(p: Path, base: Path) -> bool {
    p.field is Some && (Path { field: None, ..p }) == base
}

/// The slot of argument `a` as a whole: present when the argument has a node
/// (the last one for its path) that some parameter reaches.
pub open spec fn whole_slot(nodes: Seq<DFGNode>, edges: Seq<(usize, usize)>, a: (usize, Path)) -> Seq<(ArgSlot, Seq<u32>)> {
    if exists|n: int| is_last_node(nodes, a.1, n) {
        let n = choose|n: int| is_last_node(nodes, a.1, n);
        let ps = reaching_params(nodes, edges, n as usize);
        if nonempty(ps) {
            seq![(ArgSlot::Whole(a.0 as u32), sorted_list(ps))]
        } else {
            Seq::empty()
        }
    } else {
        Seq::empty()
    }
}

/// The slots of the fields of argument `a` among the first `upto` nodes, in
/// node order: one for each field node that some parameter reaches.
pub open spec fn field_slots(nodes: Seq<DFGNode>, edges: Seq<(usize, usize)>, a: (usize, Path), upto: nat) -> Seq<(ArgSlot, Seq<u32>)>
    decreases upto,
{
    if upto == 0 {
        Seq::empty()
    } else {
        let x = upto - 1;
        let rest = field_slots(nodes, edges, a, x as nat);
        let ps = reaching_params(nodes, edges, x as usize);
        if x < nodes.len() && field_of(nodes[x].path, a.1) && nonempty(ps) {
            rest.push((ArgSlot::TupleField(a.0 as u32, nodes[x].path.field->0 as u32), sorted_list(ps)))
        } else {
            rest
        }
    }
}

/// The slots of the arguments `args`, argument by argument: the whole
/// argument first, then its fields.
pub open spec fn arg_slots(nodes: Seq<DFGNode>, edges: Seq<(usize, usize)>, args: Seq<(usize, Path)>) -> Seq<(ArgSlot, Seq<u32>)>
    decreases args.len(),
{
    if args.len() == 0 {
        Seq::empty()
    } else {
        let a = args.last();
        arg_slots(nodes, edges, args.drop_last()) + whole_slot(nodes, edges, a) + field_slots(nodes, edges, a, nodes.len())
    }
}

/// The parameters of the function of `p` that reach each argument slot of
/// the call at `loc` (none when the call has no recorded arguments).
pub open spec fn call_arg_reach(p: FuncPFG, loc: Location) -> Seq<(ArgSlot, Seq<u32>)> {
    if exists|j: int| is_first_entry(p.callsite_to_locals@, loc, j) {
        let j = choose|j: int| is_first_entry(p.callsite_to_locals@, loc, j);
        arg_slots(p.nodes_view(), p.edges_view(), p.callsite_to_locals@[j].args@)
    } else {
        Seq::empty()
    }
}

/// The slots as plain values.
pub open spec fn slots_view(v: Seq<(ArgSlot, Vec<u32>)>) -> Seq<(ArgSlot, Seq<u32>)> {
    v.map_values(|s: (ArgSlot, Vec<u32>)| (s.0, s.1@))
}

/// The ordinals of the whole parameters that reach node `start`, ascending.
fn reaching_params_of(p: &FuncPFG, nodes: &Vec<DFGNode>, start: usize) -> (r: Vec<u32>)
    requires
        p.wf(),
        nodes@ == p.nodes_view(),
        start < nodes@.len(),
    ensures
        lists_set(r@, reaching_params(p.nodes_view(), p.edges_view(), start)),
{
    let marks = reach_backward(&p.graph, start);
    let mut params: BTreeSet<u32> = BTreeSet::new();
    let mut x: usize = 0;
    while x < nodes.len()
        invariant
            0 <= x <= nodes@.len(),
            nodes@ == p.nodes_view(),
            marks@.len() == nodes@.len(),
            forall|v: usize| v < marks@.len() ==> (#[trigger] marks@[v as int] <==> reaches(p.edges_view(), v, start)),
            forall|o: u32| #[trigger] params@.contains(o) <==> exists|y: usize|
                y < x && reaches(p.edges_view(), y, start) && #[trigger] param_u32(nodes@, y as int, o),
        decreases nodes.len() - x,
    {
        if marks[x] {
            match nodes[x].path.parameter_ordinal() {
                Some(ord) => {
                    let ghost old_r = params@;
                    ordinal_set_insert(&mut params, ord as u32);
                    proof {
                        assert(marks@[x as int]);
                        assert(param_u32(nodes@, x as int, ord as u32));
                        assert forall|o: u32| #[trigger] params@.contains(o) <==> exists|y: usize|
                            y < x + 1 && reaches(p.edges_view(), y, start) && #[trigger] param_u32(nodes@, y as int, o) by {
                            if exists|y: usize| y < x + 1 && reaches(p.edges_view(), y, start) && #[trigger] param_u32(nodes@, y as int, o) {
                                let y = choose|y: usize| y < x + 1 && reaches(p.edges_view(), y, start) && #[trigger] param_u32(nodes@, y as int, o);
                                if y < x {
                                    assert(old_r.contains(o));
                                }
                            }
                        }
                    }
                },
                None => {
                    proof {
                        assert forall|o: u32| #[trigger] params@.contains(o) <==> exists|y: usize|
                            y < x + 1 && reaches(p.edges_view(), y, start) && #[trigger] param_u32(nodes@, y as int, o) by {
                            if exists|y: usize| y < x + 1 && reaches(p.edges_view(), y, start) && #[trigger] param_u32(nodes@, y as int, o) {
                                let y = choose|y: usize| y < x + 1 && reaches(p.edges_view(), y, start) && #[trigger] param_u32(nodes@, y as int, o);
                                assert(y != x);
                            }
                        }
                    }
                },
            }
        } else {
            proof {
                assert forall|o: u32| #[trigger] params@.contains(o) <==> exists|y: usize|
                    y < x + 1 && reaches(p.edges_view(), y, start) && #[trigger] param_u32(nodes@, y as int, o) by {
                    if exists|y: usize| y < x + 1 && reaches(p.edges_view(), y, start) && #[trigger] param_u32(nodes@, y as int, o) {
                        let y = choose|y: usize| y < x + 1 && reaches(p.edges_view(), y, start) && #[trigger] param_u32(nodes@, y as int, o);
                        assert(y != x);
                    }
                }
            }
        }
        x += 1;
    }
    let r = ordinal_set_list(&params);
    proof {
        let set = reaching_params(p.nodes_view(), p.edges_view(), start);
        assert forall|o: u32| #[trigger] r@.contains(o) <==> set.contains(o) by {
            assert(r@.contains(o) <==> params@.contains(o));
            if set.contains(o) {
                let y = choose|y: usize| y < nodes@.len() && reaches(p.edges_view(), y, start) && #[trigger] param_u32(nodes@, y as int, o);
            }
        }
    }
    r
}

proof fn lemma_last_node_unique(nodes: Seq<DFGNode>, p: Path, n1: int, n2: int)
    requires
        is_last_node(nodes, p, n1),
        is_last_node(nodes, p, n2),
    ensures
        n1 == n2,
{
    if n1 < n2 {
        assert(nodes[n2].path != p);
    } else if n2 < n1 {
        assert(nodes[n1].path != p);
    }
}

/// The last node for `path`, if there is one.
fn find_last_node(nodes: &Vec<DFGNode>, path: &Path) -> (r: Option<usize>)
    ensures
        match r {
            Some(n) => is_last_node(nodes@, *path, n as int),
            None => !exists|n: int| is_last_node(nodes@, *path, n),
        },
{
    let mut i = nodes.len();
    while i > 0
        invariant
            0 <= i <= nodes@.len(),
            forall|j: int| i <= j < nodes@.len() ==> (#[trigger] nodes@[j]).path != *path,
        decreases i,
    {
        i -= 1;
        if nodes[i].path == *path {
            return Some(i);
        }
    }
    proof {
        if exists|n: int| is_last_node(nodes@, *path, n) {
            let n = choose|n: int| is_last_node(nodes@, *path, n);
            assert(nodes@[n].path != *path);
        }
    }
    None
}

/// The slot of argument `a` as a whole.
fn whole_slot_of(p: &FuncPFG, nodes: &Vec<DFGNode>, a: &(usize, Path)) -> (r: Vec<(ArgSlot, Vec<u32>)>)
    requires
        p.wf(),
        nodes@ == p.nodes_view(),
    ensures
        slots_view(r@) == whole_slot(p.nodes_view(), p.edges_view(), *a),
{
    let mut r: Vec<(ArgSlot, Vec<u32>)> = Vec::new();
    match find_last_node(nodes, &a.1) {
        Some(n) => {
            let ps = reaching_params_of(p, nodes, n);
            proof {
                let n2 = choose|n2: int| is_last_node(nodes@, a.1, n2);
                lemma_last_node_unique(nodes@, a.1, n as int, n2);
                lemma_sorted_list(ps@, reaching_params(p.nodes_view(), p.edges_view(), n));
            }
            if ps.len() > 0 {
                r.push((ArgSlot::Whole(a.0 as u32), ps));
            }
        },
        None => {},
    }
    proof {
        assert(slots_view(r@) =~= whole_slot(p.nodes_view(), p.edges_view(), *a));
    }
    r
}

/// The slots of the fields of argument `a`, in node order.
fn field_slots_of(p: &FuncPFG, nodes: &Vec<DFGNode>, a: &(usize, Path)) -> (r: Vec<(ArgSlot, Vec<u32>)>)
    requires
        p.wf(),
        nodes@ == p.nodes_view(),
    ensures
        slots_view(r@) == field_slots(p.nodes_view(), p.edges_view(), *a, p.nodes_view().len()),
{
    let mut r: Vec<(ArgSlot, Vec<u32>)> = Vec::new();
    let mut x: usize = 0;
    while x < nodes.len()
        invariant
            0 <= x <= nodes@.len(),
            p.wf(),
            nodes@ == p.nodes_view(),
            slots_view(r@) == field_slots(p.nodes_view(), p.edges_view(), *a, x as nat),
        decreases nodes.len() - x,
    {
        let q = nodes[x].path;
        let ghost before = r@;
        match q.field {
            Some(f) => {
                let base = Path { func_id: q.func_id, root: q.root, field: None };
                if base == a.1 {
                    let ps = reaching_params_of(p, nodes, x);
                    proof {
                        lemma_sorted_list(ps@, reaching_params(p.nodes_view(), p.edges_view(), x));
                    }
                    if ps.len() > 0 {
                        r.push((ArgSlot::TupleField(a.0 as u32, f as u32), ps));
                        proof {
                            assert(slots_view(r@) =~= slots_view(before).push((ArgSlot::TupleField(a.0 as u32, f as u32), ps@)));
                        }
                    }
                }
            },
            None => {},
        }
        x += 1;
    }
    r
}

/// The parameters that reach each argument slot of the arguments `args`.
fn arg_slots_of(p: &FuncPFG, nodes: &Vec<DFGNode>, args: &Vec<(usize, Path)>) -> (r: Vec<(ArgSlot, Vec<u32>)>)
    requires
        p.wf(),
        nodes@ == p.nodes_view(),
    ensures
        slots_view(r@) == arg_slots(p.nodes_view(), p.edges_view(), args@),
{
    let mut r: Vec<(ArgSlot, Vec<u32>)> = Vec::new();
    let mut i: usize = 0;
    while i < args.len()
        invariant
            0 <= i <= args@.len(),
            p.wf(),
            nodes@ == p.nodes_view(),
            slots_view(r@) == arg_slots(p.nodes_view(), p.edges_view(), args@.take(i as int)),
        decreases args.len() - i,
    {
        let ghost before = r@;
        let mut w = whole_slot_of(p, nodes, &args[i]);
        let mut fs = field_slots_of(p, nodes, &args[i]);
        r.append(&mut w);
        r.append(&mut fs);
        proof {
            let t = args@.take(i + 1);
            assert(t.drop_last() =~= args@.take(i as int));
            assert(t.last() == args@[i as int]);
            assert(slots_view(r@) =~= slots_view(before) + whole_slot(p.nodes_view(), p.edges_view(), args@[i as int])
                + field_slots(p.nodes_view(), p.edges_view(), args@[i as int], p.nodes_view().len()));
        }
        i += 1;
    }
    proof {
        assert(args@.take(args@.len() as int) =~= args@);
    }
    r
}

/// The parameters of the function of `p` that reach each argument slot of
/// the call at `loc`: for each recorded pointer argument, the whole argument
/// and then each of its fields, where some parameter reaches them, with the
/// reaching parameters in ascending order.
pub fn arg_param_reach_at(p: &FuncPFG, loc: &Location) -> (r: Vec<(ArgSlot, Vec<u32>)>)
    requires
        p.wf(),
    ensures
        slots_view(r@) == call_arg_reach(*p, *loc),
{
    match p.callsite_index(loc) {
        Some(j) => {
            let nodes = p.nodes();
            let r = arg_slots_of(p, &nodes, &p.callsite_to_locals[j].args);
            proof {
                let j2 = choose|j2: int| is_first_entry(p.callsite_to_locals@, *loc, j2);
                lemma_first_entry_unique(p.callsite_to_locals@, *loc, j as int, j2);
            }
            r
        },
        None => {
            let r: Vec<(ArgSlot, Vec<u32>)> = Vec::new();
            proof {
                assert(slots_view(r@) =~= Seq::<(ArgSlot, Seq<u32>)>::empty());
            }
            r
        },
    }
}

// ---------------------------------------------------------------------------
// Provenance-qualified contexts.
// ---------------------------------------------------------------------------

/// An element of a provenance-qualified context: the flow-entry callsite, or
/// a callee parameter with the ascending list of the flow-entry arguments its
/// data comes from.
#[derive(Clone, Debug, PartialEq, Eq, Hash)]
pub enum ProvElem {
    Site(BaseCallSite),
    /// (callee parameter ordinal, ascending set of flow-entry argument positions)
    ParamProv(u32, Vec<u32>),
}

/// A `ProvElem` as a plain value.
pub enum ProvView {
    Site(BaseCallSite),
    ParamProv(u32, Seq<u32>),
}

impl View for ProvElem {
    type V = ProvView;

    open spec fn view(&self) -> ProvView {
        match self {
            ProvElem::Site(s) => ProvView::Site(*s),
            ProvElem::ParamProv(p, v) => ProvView::ParamProv(*p, v@),
        }
    }
}

/// Whether two lists of numbers are equal.
fn u32s_eq(a: &Vec<u32>, b: &Vec<u32>) -> (r: bool)
    ensures
        r == (a@ == b@),
{
    if a.len() != b.len() {
        return false;
    }
    let mut i: usize = 0;
    while i < a.len()
        invariant
            0 <= i <= a@.len(),
            a@.len() == b@.len(),
            forall|j: int| 0 <= j < i ==> a@[j] == b@[j],
        decreases a.len() - i,
    {
        if a[i] != b[i] {
            return false;
        }
        i += 1;
    }
    proof {
        assert(a@ =~= b@);
    }
    true
}

/// A copy of a list of numbers.
fn copy_u32s(a: &Vec<u32>) -> (r: Vec<u32>)
    ensures
        r@ == a@,
{
    let mut r: Vec<u32> = Vec::new();
    let mut i: usize = 0;
    while i < a.len()
        invariant
            0 <= i <= a@.len(),
            r@ == a@.take(i as int),
        decreases a.len() - i,
    {
        r.push(a[i]);
        proof {
            assert(r@ =~= a@.take(i + 1));
        }
        i += 1;
    }
    proof {
        assert(a@.take(a@.len() as int) =~= a@);
    }
    r
}

impl ContextElement for ProvElem {
    fn same(&self, other: &Self) -> (r: bool) {
        match (self, other) {
            (ProvElem::Site(a), ProvElem::Site(b)) => a.func == b.func && a.location == b.location,
            (ProvElem::ParamProv(p, v), ProvElem::ParamProv(q, w)) => *p == *q && u32s_eq(v, w),
            _ => false,
        }
    }

    fn duplicate(&self) -> (r: Self) {
        match self {
            ProvElem::Site(s) => ProvElem::Site(*s),
            ProvElem::ParamProv(p, v) => ProvElem::ParamProv(*p, copy_u32s(v)),
        }
    }
}

/// The flow-carrying parameters of `callee`, as 32-bit numbers, in the order
/// its graph lists them (none when it has no graph).
pub open spec fn callee_params_spec(m: Map<FuncId, FuncPFG>, callee: FuncId) -> Seq<u32> {
    if m.contains_key(callee) {
        m[callee].param_with_flow@.map_values(|p: usize| p as u32)
    } else {
        Seq::empty()
    }
}

/// The flow-carrying parameters of `callee`, as 32-bit numbers.
pub fn callee_flow_params(func_pfg_map: &HashMap<FuncId, FuncPFG>, callee: FuncId) -> (r: Vec<u32>)
    ensures
        r@ == callee_params_spec(func_pfg_map@, callee),
{
    let mut r: Vec<u32> = Vec::new();
    match func_pfg_map.get(&callee) {
        Some(pfg) => {
            let mut i: usize = 0;
            while i < pfg.param_with_flow.len()
                invariant
                    0 <= i <= pfg.param_with_flow@.len(),
                    r@ == pfg.param_with_flow@.take(i as int).map_values(|p: usize| p as u32),
                decreases pfg.param_with_flow.len() - i,
            {
                r.push(pfg.param_with_flow[i] as u32);
                proof {
                    assert(r@ =~= pfg.param_with_flow@.take(i + 1).map_values(|p: usize| p as u32));
                }
                i += 1;
            }
            proof {
                assert(pfg.param_with_flow@.take(pfg.param_with_flow@.len() as int) =~= pfg.param_with_flow@);
            }
        },
        None => {
            proof {
                assert(r@ =~= callee_params_spec(func_pfg_map@, callee));
            }
        },
    }
    r
}

/// The numbers of `v` in ascending order, each once.
pub fn sorted_set_of(v: &Vec<u32>) -> (r: Vec<u32>)
    ensures
        lists_set(r@, v@.to_set()),
{
    let mut r: Vec<u32> = Vec::new();
    let mut i: usize = 0;
    while i < v.len()
        invariant
            0 <= i <= v@.len(),
            strictly_sorted_u32(r@),
            forall|x: u32| #[trigger] r@.contains(x) <==> v@.take(i as int).contains(x),
        decreases v.len() - i,
    {
        sorted_insert_u32(&mut r, v[i]);
        proof {
            let t1 = v@.take(i + 1);
            let t0 = v@.take(i as int);
            assert forall|x: u32| #[trigger] r@.contains(x) <==> t1.contains(x) by {
                if t1.contains(x) {
                    let k = choose|k: int| 0 <= k < t1.len() && t1[k] == x;
                    if k < i {
                        assert(t0[k] == x);
                    }
                }
                if t0.contains(x) {
                    let k = choose|k: int| 0 <= k < t0.len() && t0[k] == x;
                    assert(t1[k] == x);
                }
                if x == v@[i as int] {
                    assert(t1[i as int] == x);
                }
            }
        }
        i += 1;
    }
    proof {
        assert(v@.take(v@.len() as int) =~= v@);
    }
    r
}

/// The provenance the caller's context gives its parameter `p`: the list of
/// the last `ParamProv` element for `p`.
pub open spec fn caller_prov(ctx: Seq<ProvView>, p: u32) -> Option<Seq<u32>>
    decreases ctx.len(),
{
    if ctx.len() == 0 {
        None
    } else {
        match ctx.last() {
            ProvView::ParamProv(q, s) => if q == p {
                Some(s)
            } else {
                caller_prov(ctx.drop_last(), p)
            },
            _ => caller_prov(ctx.drop_last(), p),
        }
    }
}

/// The caller's context gives parameter `p` a provenance holding `e`.
pub open spec fn prov_has(ctx: Seq<ProvView>, p: u32, e: u32) -> bool {
    caller_prov(ctx, p) matches Some(s) && s.contains(e)
}

/// Entry `j` of slot entry `i` of `reach` is a caller parameter of `slot`
/// whose provenance holds `e`.
pub open spec fn prov_in(reach: Seq<(ArgSlot, Seq<u32>)>, ctx: Seq<ProvView>, slot: ArgSlot, i: int, j: int, e: u32) -> bool {
    &&& 0 <= i < reach.len()
    &&& reach[i].0 == slot
    &&& 0 <= j < reach[i].1.len()
    &&& prov_has(ctx, reach[i].1[j], e)
}

/// The provenance of an argument slot: when `reach` has entries for the
/// slot, the union of the provenance the caller's context gives the caller
/// parameters that reach it; `None` when it has none.
pub open spec fn slot_prov(reach: Seq<(ArgSlot, Seq<u32>)>, ctx: Seq<ProvView>, slot: ArgSlot) -> Option<Set<u32>> {
    if exists|i: int| 0 <= i < reach.len() && #[trigger] reach[i].0 == slot {
        Some(Set::new(|e: u32| exists|i: int, j: int| #[trigger] prov_in(reach, ctx, slot, i, j, e)))
    } else {
        None
    }
}

/// The provenance the caller's context gives parameter `p`.
fn caller_prov_of(ctx: &Context<ProvElem>, p: u32) -> (r: Option<&Vec<u32>>)
    ensures
        match r {
            Some(v) => caller_prov(ctx@, p) == Some(v@),
            None => caller_prov(ctx@, p) is None,
        },
{
    let mut i = ctx.context_elems.len();
    proof {
        assert(ctx@.take(i as int) =~= ctx@);
    }
    while i > 0
        invariant
            0 <= i <= ctx@.len(),
            ctx.context_elems@.len() == ctx@.len(),
            caller_prov(ctx@, p) == caller_prov(ctx@.take(i as int), p),
        decreases i,
    {
        let ghost t = ctx@.take(i as int);
        proof {
            assert(t.last() == ctx.context_elems@[i - 1]@);
            assert(t.drop_last() =~= ctx@.take(i - 1));
        }
        match &ctx.context_elems[i - 1] {
            ProvElem::ParamProv(q, v) => {
                if *q == p {
                    return Some(v);
                }
            },
            _ => {},
        }
        i -= 1;
    }
    None
}

/// The provenance of `slot`, ascending, or `None` when `reach` has no entry for it.
fn slot_prov_of(reach: &Vec<(ArgSlot, Vec<u32>)>, ctx: &Context<ProvElem>, slot: ArgSlot) -> (r: Option<Vec<u32>>)
    ensures
        match (r, slot_prov(slots_view(reach@), ctx@, slot)) {
            (Some(v), Some(set)) => lists_set(v@, set),
            (None, None) => true,
            _ => false,
        },
{
    let ghost rv = slots_view(reach@);
    let mut found = false;
    let mut acc: BTreeSet<u32> = BTreeSet::new();
    let mut i: usize = 0;
    while i < reach.len()
        invariant
            0 <= i <= reach@.len(),
            rv == slots_view(reach@),
            rv.len() == reach@.len(),
            found <==> exists|i2: int| 0 <= i2 < i && #[trigger] rv[i2].0 == slot,
            forall|e: u32| #[trigger] acc@.contains(e) <==> exists|i2: int, j2: int| i2 < i && #[trigger] prov_in(rv, ctx@, slot, i2, j2, e),
        decreases reach.len() - i,
    {
        proof {
            assert(rv[i as int] == (reach@[i as int].0, reach@[i as int].1@));
        }
        if reach[i].0 == slot {
            found = true;
            let params = &reach[i].1;
            let mut j: usize = 0;
            while j < params.len()
                invariant
                    0 <= j <= params@.len(),
                    0 <= i < rv.len(),
                    rv[i as int].0 == slot,
                    rv[i as int].1 == params@,
                            forall|e: u32| #[trigger] acc@.contains(e) <==> exists|i2: int, j2: int|
                        (i2 < i || (i2 == i && j2 < j)) && #[trigger] prov_in(rv, ctx@, slot, i2, j2, e),
                decreases params.len() - j,
            {
                match caller_prov_of(ctx, params[j]) {
                    Some(s) => {
                        let ghost acc0 = acc@;
                        let mut k: usize = 0;
                        while k < s.len()
                            invariant
                                0 <= k <= s@.len(),
                                                    forall|e: u32| #[trigger] acc@.contains(e) <==> acc0.contains(e) || s@.take(k as int).contains(e),
                            decreases s.len() - k,
                        {
                            let ghost acc1 = acc@;
                            ordinal_set_insert(&mut acc, s[k]);
                            proof {
                                let u1 = s@.take(k + 1);
                                let u0 = s@.take(k as int);
                                assert forall|e: u32| #[trigger] acc@.contains(e) <==> acc0.contains(e) || u1.contains(e) by {
                                    if u1.contains(e) {
                                        let t = choose|t: int| 0 <= t < u1.len() && u1[t] == e;
                                        if t < k {
                                            assert(u0[t] == e);
                                        }
                                    }
                                    if u0.contains(e) {
                                        let t = choose|t: int| 0 <= t < u0.len() && u0[t] == e;
                                        assert(u1[t] == e);
                                    }
                                    if e == s@[k as int] {
                                        assert(u1[k as int] == e);
                                    }
                                }
                            }
                            k += 1;
                        }
                        proof {
                            assert(s@.take(s@.len() as int) =~= s@);
                            assert forall|e: u32| #[trigger] acc@.contains(e) <==> exists|i2: int, j2: int|
                                (i2 < i || (i2 == i && j2 < j + 1)) && #[trigger] prov_in(rv, ctx@, slot, i2, j2, e) by {
                                if s@.contains(e) {
                                    assert(prov_has(ctx@, params@[j as int], e));
                                    assert(prov_in(rv, ctx@, slot, i as int, j as int, e));
                                }
                                if exists|i2: int, j2: int| (i2 < i || (i2 == i && j2 < j + 1)) && #[trigger] prov_in(rv, ctx@, slot, i2, j2, e) {
                                    let (i2, j2) = choose|i2: int, j2: int| (i2 < i || (i2 == i && j2 < j + 1)) && #[trigger] prov_in(rv, ctx@, slot, i2, j2, e);
                                    if i2 == i && j2 == j {
                                        assert(s@.contains(e));
                                    }
                                }
                            }
                        }
                    },
                    None => {
                        proof {
                            assert forall|e: u32| #[trigger] acc@.contains(e) <==> exists|i2: int, j2: int|
                                (i2 < i || (i2 == i && j2 < j + 1)) && #[trigger] prov_in(rv, ctx@, slot, i2, j2, e) by {
                                if exists|i2: int, j2: int| (i2 < i || (i2 == i && j2 < j + 1)) && #[trigger] prov_in(rv, ctx@, slot, i2, j2, e) {
                                    let (i2, j2) = choose|i2: int, j2: int| (i2 < i || (i2 == i && j2 < j + 1)) && #[trigger] prov_in(rv, ctx@, slot, i2, j2, e);
                                    if i2 == i && j2 == j {
                                        assert(!prov_has(ctx@, params@[j as int], e));
                                    }
                                }
                            }
                        }
                    },
                }
                j += 1;
            }
            proof {
                assert forall|e: u32| #[trigger] acc@.contains(e) <==> exists|i2: int, j2: int| i2 < i + 1 && #[trigger] prov_in(rv, ctx@, slot, i2, j2, e) by {
                    if exists|i2: int, j2: int| i2 < i + 1 && #[trigger] prov_in(rv, ctx@, slot, i2, j2, e) {
                        let (i2, j2) = choose|i2: int, j2: int| i2 < i + 1 && #[trigger] prov_in(rv, ctx@, slot, i2, j2, e);
                        assert(i2 < i || (i2 == i && j2 < params@.len()));
                    }
                }
                assert(rv[i as int].0 == slot);
            }
        } else {
            proof {
                assert forall|e: u32| #[trigger] acc@.contains(e) <==> exists|i2: int, j2: int| i2 < i + 1 && #[trigger] prov_in(rv, ctx@, slot, i2, j2, e) by {
                    if exists|i2: int, j2: int| i2 < i + 1 && #[trigger] prov_in(rv, ctx@, slot, i2, j2, e) {
                        let (i2, j2) = choose|i2: int, j2: int| i2 < i + 1 && #[trigger] prov_in(rv, ctx@, slot, i2, j2, e);
                        assert(i2 != i);
                    }
                }
            }
        }
        i += 1;
    }
    if found {
        let v = ordinal_set_list(&acc);
        proof {
            let set = Set::new(|e: u32| exists|i: int, j: int| #[trigger] prov_in(rv, ctx@, slot, i, j, e));
            assert forall|e: u32| #[trigger] v@.contains(e) <==> set.contains(e) by {
                assert(v@.contains(e) <==> acc@.contains(e));
                if set.contains(e) {
                    let (i2, j2) = choose|i2: int, j2: int| #[trigger] prov_in(rv, ctx@, slot, i2, j2, e);
                    assert(i2 < reach@.len());
                }
            }
        }
        Some(v)
    } else {
        None
    }
}

/// The slot a callee parameter `cp` takes its argument from, and the slot to
/// fall back on. Ordinary calls are positional; a call lowered through a
/// `Fn*` trait passes `(receiver, tuple)`: a closure body takes the receiver
/// and then the tuple's fields, a function item or pointer only the tuple's
/// fields, and an implementation of the trait method takes the pair as is.
pub open spec fn param_slots(cp: u32, is_static: bool, is_fn_lowered: bool, has_self: bool, is_closure: bool) -> (ArgSlot, Option<ArgSlot>) {
    if is_static || !is_fn_lowered || has_self {
        (ArgSlot::Whole(cp), None)
    } else if is_closure {
        if cp == 1 {
            (ArgSlot::Whole(1), None)
        } else {
            (ArgSlot::TupleField(2, cp.wrapping_sub(2)), Some(ArgSlot::Whole(2)))
        }
    } else {
        (ArgSlot::TupleField(2, cp.wrapping_sub(1)), Some(ArgSlot::Whole(2)))
    }
}

fn param_slots_of(cp: u32, is_static: bool, is_fn_lowered: bool, has_self: bool, is_closure: bool) -> (r: (ArgSlot, Option<ArgSlot>))
    ensures
        r == param_slots(cp, is_static, is_fn_lowered, has_self, is_closure),
{
    if is_static || !is_fn_lowered || has_self {
        (ArgSlot::Whole(cp), None)
    } else if is_closure {
        if cp == 1 {
            (ArgSlot::Whole(1), None)
        } else {
            (ArgSlot::TupleField(2, cp.wrapping_sub(2)), Some(ArgSlot::Whole(2)))
        }
    } else {
        (ArgSlot::TupleField(2, cp.wrapping_sub(1)), Some(ArgSlot::Whole(2)))
    }
}

/// The provenance of callee parameter `cp` at a flow-through call: that of
/// its slot when `reach` has the slot, else that of its fallback slot, else none.
pub open spec fn param_prov_set(
    reach: Seq<(ArgSlot, Seq<u32>)>,
    ctx: Seq<ProvView>,
    cp: u32,
    is_static: bool,
    is_fn_lowered: bool,
    cpfg: FuncPFG,
) -> Set<u32> {
    let slots = param_slots(cp, is_static, is_fn_lowered, cpfg.has_self_parameter, cpfg.is_closure_body);
    match slot_prov(reach, ctx, slots.0) {
        Some(set) => set,
        None => match slots.1 {
            Some(f) => match slot_prov(reach, ctx, f) {
                Some(set) => set,
                None => Set::empty(),
            },
            None => Set::empty(),
        },
    }
}

/// The `ParamProv` elements of a flow-through call: for each parameter of
/// `params` in order whose provenance is not empty, the parameter and its
/// provenance in ascending order.
pub open spec fn through_provs(
    params: Seq<u32>,
    reach: Seq<(ArgSlot, Seq<u32>)>,
    ctx: Seq<ProvView>,
    is_static: bool,
    is_fn_lowered: bool,
    cpfg: FuncPFG,
) -> Seq<ProvView>
    decreases params.len(),
{
    if params.len() == 0 {
        Seq::empty()
    } else {
        let rest = through_provs(params.drop_last(), reach, ctx, is_static, is_fn_lowered, cpfg);
        let cp = params.last();
        let set = param_prov_set(reach, ctx, cp, is_static, is_fn_lowered, cpfg);
        if nonempty(set) {
            rest.push(ProvView::ParamProv(cp, sorted_list(set)))
        } else {
            rest
        }
    }
}

/// The `ParamProv` elements at a flow entry: each parameter is its own provenance.
pub open spec fn entry_provs(params: Seq<u32>) -> Seq<ProvView> {
    params.map_values(|p: u32| ProvView::ParamProv(p, seq![p]))
}

/// Provenance is left out for `callee` under a flow entry in `site_func`.
pub open spec fn suppressed(noprov_callees: Set<FuncId>, noprov_sites: Set<FuncId>, callee: FuncId, site_func: FuncId) -> bool {
    noprov_callees.contains(callee) && (noprov_sites.is_empty() || noprov_sites.contains(site_func))
}

/// The provenance-qualified context of a call to `callee` at `callsite`,
/// whose caller has the graph `caller_pfg`.
///
/// Where the call enters the flow (it is not on the caller's
/// parameter-to-result flow, or the caller has no context), the context is
/// empty when the callee has no flow-carrying parameter, and otherwise the
/// callsite followed by each flow-carrying parameter as its own provenance.
/// Otherwise the caller's flow entry is kept, followed by the provenance that
/// reaches each flow-carrying callee parameter through the call's arguments.
pub open spec fn argprov_target(
    cache: Seq<Seq<ProvView>>,
    m: Map<FuncId, FuncPFG>,
    noprov_callees: Set<FuncId>,
    noprov_sites: Set<FuncId>,
    callsite: CSCallSite,
    caller_pfg: FuncPFG,
    callee: FuncId,
) -> Seq<ProvView> {
    let caller_func = callsite.func.func_id;
    let loc = callsite.location;
    let ctx = context_or_empty(cache, callsite.func.cid);
    let params = sorted_list(callee_params_spec(m, callee).to_set());
    if !caller_pfg.cs_callsites@.contains(loc) || ctx.len() == 0 {
        let here = BaseCallSite { func: caller_func, location: loc };
        if params.len() == 0 {
            Seq::empty()
        } else if suppressed(noprov_callees, noprov_sites, callee, caller_func) {
            seq![ProvView::Site(here)]
        } else {
            seq![ProvView::Site(here)] + entry_provs(params)
        }
    } else {
        let site = match ctx[0] {
            ProvView::Site(s) => s,
            _ => BaseCallSite { func: caller_func, location: loc },
        };
        if suppressed(noprov_callees, noprov_sites, callee, site.func) {
            seq![ProvView::Site(site)]
        } else if m.contains_key(callee) {
            let is_static = caller_pfg.static_callsites@.contains(loc);
            let lowered = caller_pfg.fn_ptr_def_callsites@.contains(loc) || caller_pfg.closure_dyn_callsites@.contains(loc);
            seq![ProvView::Site(site)] + through_provs(params, call_arg_reach(caller_pfg, loc), ctx, is_static, lowered, m[callee])
        } else {
            seq![ProvView::Site(site)]
        }
    }
}

/// The provenance of callee parameter `cp`, ascending.
fn param_prov_of(
    reach: &Vec<(ArgSlot, Vec<u32>)>,
    ctx: &Context<ProvElem>,
    cp: u32,
    is_static: bool,
    is_fn_lowered: bool,
    cpfg: &FuncPFG,
) -> (r: Vec<u32>)
    ensures
        lists_set(r@, param_prov_set(slots_view(reach@), ctx@, cp, is_static, is_fn_lowered, *cpfg)),
{
    let (primary, fallback) = param_slots_of(cp, is_static, is_fn_lowered, cpfg.has_self_parameter, cpfg.is_closure_body);
    match slot_prov_of(reach, ctx, primary) {
        Some(set) => set,
        None => {
            let empty: Vec<u32> = Vec::new();
            proof {
                assert forall|x: u32| #[trigger] empty@.contains(x) <==> Set::<u32>::empty().contains(x) by {}
            }
            match fallback {
                Some(f) => match slot_prov_of(reach, ctx, f) {
                    Some(set) => set,
                    None => empty,
                },
                None => empty,
            }
        },
    }
}

/// The provenance-qualified context of a call to `callee` at `callsite`.
fn argprov_context(
    cache: &mut ContextCache<ProvElem>,
    func_pfg_map: &HashMap<FuncId, FuncPFG>,
    noprov_callees: &HashSet<FuncId>,
    noprov_sites: &HashSet<FuncId>,
    callsite: &CSCallSite,
    caller_pfg: &FuncPFG,
    callee: FuncId,
) -> (id: ContextId)
    requires
        old(cache).wf(),
        caller_pfg.wf(),
    ensures
        final(cache).wf(),
        interned(
            old(cache)@,
            final(cache)@,
            argprov_target(old(cache)@, func_pfg_map@, noprov_callees@, noprov_sites@, *callsite, *caller_pfg, callee),
            id,
        ),
{
    let caller_func = callsite.func.func_id;
    let loc = callsite.location;
    let caller_ctx = match cache.get_context(callsite.func.cid) {
        Some(c) => c.duplicate(),
        None => Context::new_empty(),
    };
    let ghost target = argprov_target(cache@, func_pfg_map@, noprov_callees@, noprov_sites@, *callsite, *caller_pfg, callee);
    let params = sorted_set_of(&callee_flow_params(func_pfg_map, callee));
    proof {
        lemma_sorted_list(params@, callee_params_spec(func_pfg_map@, callee).to_set());
    }
    let is_flow_entry = !caller_pfg.is_cs_callsite(&loc) || caller_ctx.context_elems.len() == 0;
    let mut elems: Vec<ProvElem> = Vec::new();
    if is_flow_entry {
        if params.len() == 0 {
            let e = Context::new_empty();
            return cache.get_context_id(&e);
        }
        let here = BaseCallSite::new(caller_func, loc);
        elems.push(ProvElem::Site(here));
        if noprov_callees.contains(&callee) && (noprov_sites.is_empty() || noprov_sites.contains(&caller_func)) {
            let c = Context { context_elems: elems };
            proof {
                assert(c@ =~= target);
            }
            return cache.get_context_id(&c);
        }
        let mut i: usize = 0;
        while i < params.len()
            invariant
                0 <= i <= params@.len(),
                views_of(elems@) == seq![ProvView::Site(here)] + entry_provs(params@.take(i as int)),
                elems@.len() == i + 1,
            decreases params.len() - i,
        {
            let p = params[i];
            let mut one: Vec<u32> = Vec::new();
            one.push(p);
            let ghost before = elems@;
            elems.push(ProvElem::ParamProv(p, one));
            proof {
                assert(one@ =~= seq![p]);
                assert(elems@ == before.push(ProvElem::ParamProv(p, one)));
                let goal = seq![ProvView::Site(here)] + entry_provs(params@.take(i + 1));
                let prev = seq![ProvView::Site(here)] + entry_provs(params@.take(i as int));
                assert forall|k: int| 0 <= k < i + 2 implies #[trigger] views_of(elems@)[k] == goal[k] by {
                    assert(views_of(elems@)[k] == elems@[k]@);
                    if k < i + 1 {
                        assert(views_of(before)[k] == before[k]@);
                        assert(views_of(before)[k] == prev[k]);
                        if k >= 1 {
                            assert(entry_provs(params@.take(i as int))[k - 1] == ProvView::ParamProv(params@[k - 1], seq![params@[k - 1]]));
                        }
                    }
                }
                assert(views_of(elems@) =~= goal);
            }
            i += 1;
        }
        let c = Context { context_elems: elems };
        proof {
            assert(params@.take(params@.len() as int) =~= params@);
            assert(c@ =~= target);
        }
        cache.get_context_id(&c)
    } else {
        let site = match &caller_ctx.context_elems[0] {
            ProvElem::Site(s) => *s,
            _ => BaseCallSite::new(caller_func, loc),
        };
        proof {
            assert(caller_ctx@[0] == caller_ctx.context_elems@[0]@);
        }
        elems.push(ProvElem::Site(site));
        if noprov_callees.contains(&callee) && (noprov_sites.is_empty() || noprov_sites.contains(&site.func)) {
            let c = Context { context_elems: elems };
            proof {
                assert(c@ =~= target);
            }
            return cache.get_context_id(&c);
        }
        match func_pfg_map.get(&callee) {
            Some(cpfg) => {
                let reach = arg_param_reach_at(caller_pfg, &loc);
                let is_static = contains_location(&caller_pfg.static_callsites, loc);
                let is_fn_lowered = contains_location(&caller_pfg.fn_ptr_def_callsites, loc)
                    || contains_location(&caller_pfg.closure_dyn_callsites, loc);
                let ghost rv = call_arg_reach(*caller_pfg, loc);
                let mut i: usize = 0;
                while i < params.len()
                    invariant
                        0 <= i <= params@.len(),
                        slots_view(reach@) == rv,
                        views_of(elems@) == seq![ProvView::Site(site)] + through_provs(
                            params@.take(i as int),
                            rv,
                            caller_ctx@,
                            is_static,
                            is_fn_lowered,
                            *cpfg,
                        ),
                    decreases params.len() - i,
                {
                    let cp = params[i];
                    let set = param_prov_of(&reach, &caller_ctx, cp, is_static, is_fn_lowered, cpfg);
                    let ghost before = elems@;
                    proof {
                        lemma_sorted_list(set@, param_prov_set(rv, caller_ctx@, cp, is_static, is_fn_lowered, *cpfg));
                        let t = params@.take(i + 1);
                        assert(t.drop_last() =~= params@.take(i as int));
                        assert(t.last() == cp);
                    }
                    if set.len() > 0 {
                        elems.push(ProvElem::ParamProv(cp, set));
                        proof {
                            assert(views_of(elems@) =~= views_of(before).push(ProvView::ParamProv(cp, set@)));
                        }
                    }
                    i += 1;
                }
                let c = Context { context_elems: elems };
                proof {
                    assert(params@.take(params@.len() as int) =~= params@);
                    assert(c@ =~= target);
                }
                cache.get_context_id(&c)
            },
            None => {
                let c = Context { context_elems: elems };
                proof {
                    assert(c@ =~= target);
                }
                cache.get_context_id(&c)
            },
        }
    }
}

/// RCEUS with argument provenance: a precision-critical callee's context is
/// its flow entry followed by, for each flow-carrying parameter, the
/// arguments of the flow-entry callsite its data comes from.
pub struct RCEUSArgProvSensitive {
    pub ctx_cache: ContextCache<ProvElem>,
    pub cs_funcs: HashSet<FuncId>,
    pub func_pfg_map: HashMap<FuncId, FuncPFG>,
    /// Callees whose provenance is left out (their contexts are the bare flow entry).
    pub noprov_callees: HashSet<FuncId>,
    /// When not empty, provenance is left out only under flow entries in these functions.
    pub noprov_sites: HashSet<FuncId>,
}

impl RCEUSArgProvSensitive {
    /// The context a call to `callee` at `callsite` gets: the provenance
    /// context when the callee is precision-critical and both it and the
    /// caller have a flow graph, and the empty context otherwise.
    pub open spec fn target(&self, callsite: CSCallSite, callee: FuncId) -> Seq<ProvView> {
        let m = self.func_pfg_map@;
        if self.cs_funcs@.contains(callee) && m.contains_key(callee) && m.contains_key(callsite.func.func_id) {
            argprov_target(
                self.ctx_cache@,
                m,
                self.noprov_callees@,
                self.noprov_sites@,
                callsite,
                m[callsite.func.func_id],
                callee,
            )
        } else {
            Seq::empty()
        }
    }

    /// Everything but the context cache is unchanged.
    pub open spec fn same_setup(&self, other: &RCEUSArgProvSensitive) -> bool {
        &&& self.cs_funcs@ == other.cs_funcs@
        &&& self.func_pfg_map@ == other.func_pfg_map@
        &&& self.noprov_callees@ == other.noprov_callees@
        &&& self.noprov_sites@ == other.noprov_sites@
    }

    /// The context length limit is not used: contexts are a flow entry and provenance.
    pub fn new(_k: usize) -> (s: RCEUSArgProvSensitive)
        ensures
            s.wf(),
            s.ctx_cache@ == seq![Seq::<ProvView>::empty()],
            s.cs_funcs@ == Set::<FuncId>::empty(),
            s.func_pfg_map@ == Map::<FuncId, FuncPFG>::empty(),
            s.noprov_callees@ == Set::<FuncId>::empty(),
            s.noprov_sites@ == Set::<FuncId>::empty(),
    {
        RCEUSArgProvSensitive {
            ctx_cache: ContextCache::new(),
            cs_funcs: HashSet::new(),
            func_pfg_map: HashMap::new(),
            noprov_callees: HashSet::new(),
            noprov_sites: HashSet::new(),
        }
    }
}

impl ContextStrategy for RCEUSArgProvSensitive {
    type E = ProvElem;

    /// The cache is consistent and every flow graph is well formed.
    open spec fn wf(&self) -> bool {
        &&& self.ctx_cache.wf()
        &&& forall|f: FuncId| #[trigger] self.func_pfg_map@.contains_key(f) ==> self.func_pfg_map@[f].wf()
    }

    open spec fn accepts_static_call(&self, callsite: CSCallSite, callee: FuncId) -> bool {
        true
    }

    open spec fn accepts_instance_call(&self, callsite: CSCallSite, receiver: Option<CSPath>, callee: FuncId) -> bool {
        true
    }

    open spec fn static_call_done(&self, post: Self, callsite: CSCallSite, callee: FuncId, id: ContextId) -> bool {
        &&& post.same_setup(self)
        &&& interned(self.ctx_cache@, post.ctx_cache@, self.target(callsite, callee), id)
    }

    open spec fn instance_call_done(
        &self,
        post: Self,
        callsite: CSCallSite,
        receiver: Option<CSPath>,
        callee: FuncId,
        r: Option<ContextId>,
    ) -> bool {
        &&& post.same_setup(self)
        &&& r is Some
        &&& interned(self.ctx_cache@, post.ctx_cache@, self.target(callsite, callee), r->0)
    }

    fn empty_context(&self) -> (c: Context<ProvElem>) {
        Context::new_empty()
    }

    /// The number of the empty context, which is always 0.
    fn get_empty_context_id(&mut self) -> (id: ContextId)
        ensures
            final(self).same_setup(&*old(self)),
            final(self).ctx_cache@ == old(self).ctx_cache@,
            id == 0,
    {
        let e = Context::new_empty();
        let id = self.ctx_cache.get_context_id(&e);
        proof {
            assert(old(self).ctx_cache@[0] == e@);
        }
        id
    }

    fn get_context_id(&mut self, context: &Context<ProvElem>) -> (id: ContextId)
        ensures
            final(self).same_setup(&*old(self)),
            interned(old(self).ctx_cache@, final(self).ctx_cache@, context@, id),
    {
        self.ctx_cache.get_context_id(context)
    }

    /// The context numbered `context_id`, or the empty context when there is none.
    fn get_context_by_id(&self, context_id: ContextId) -> (c: Context<ProvElem>)
        ensures
            c@ == context_or_empty(self.ctx_cache@, context_id),
    {
        match self.ctx_cache.get_context(context_id) {
            Some(c) => c.duplicate(),
            None => Context::new_empty(),
        }
    }

    fn get_context_iter(&self) -> (r: Option<Vec<(Context<ProvElem>, ContextId)>>)
        ensures
            r matches Some(v) && lists_contexts(v@, self.ctx_cache@),
    {
        Some(self.ctx_cache.get_context_iter())
    }

    fn new_static_call_context(&mut self, callsite: &CSCallSite, callee: FuncId) -> (id: ContextId)
    {
        if self.cs_funcs.contains(&callee) {
            if !self.func_pfg_map.contains_key(&callee) {
                return self.get_empty_context_id();
            }
            match self.func_pfg_map.get(&callsite.func.func_id) {
                Some(caller_pfg) => {
                    return argprov_context(
                        &mut self.ctx_cache,
                        &self.func_pfg_map,
                        &self.noprov_callees,
                        &self.noprov_sites,
                        callsite,
                        caller_pfg,
                        callee,
                    );
                },
                None => {},
            }
        }
        self.get_empty_context_id()
    }

    /// As for a static call; the receiver plays no part.
    fn new_instance_call_context(
        &mut self,
        callsite: &CSCallSite,
        _receiver: Option<&CSPath>,
        callee: FuncId,
    ) -> (r: Option<ContextId>)
    {
        Some(self.new_static_call_context(callsite, callee))
    }

    /// Takes the precision-critical functions and the flow graphs.
    fn set_prec_crit_fn_ident_data(&mut self, cs_funcs: HashSet<FuncId>, func_pfg_map: HashMap<FuncId, FuncPFG>)
        ensures
            final(self).cs_funcs@ == cs_funcs@,
            final(self).func_pfg_map@ == func_pfg_map@,
            final(self).ctx_cache@ == old(self).ctx_cache@,
            final(self).noprov_callees@ == old(self).noprov_callees@,
            final(self).noprov_sites@ == old(self).noprov_sites@,
    {
        self.cs_funcs = cs_funcs;
        self.func_pfg_map = func_pfg_map;
    }

    fn set_noprov_callees(&mut self, callees: HashSet<FuncId>)
        ensures
            final(self).noprov_callees@ == callees@,
            final(self).ctx_cache@ == old(self).ctx_cache@,
            final(self).cs_funcs@ == old(self).cs_funcs@,
            final(self).func_pfg_map@ == old(self).func_pfg_map@,
            final(self).noprov_sites@ == old(self).noprov_sites@,
    {
        self.noprov_callees = callees;
    }

    fn set_noprov_sites(&mut self, sites: HashSet<FuncId>)
        ensures
            final(self).noprov_sites@ == sites@,
            final(self).ctx_cache@ == old(self).ctx_cache@,
            final(self).cs_funcs@ == old(self).cs_funcs@,
            final(self).func_pfg_map@ == old(self).func_pfg_map@,
            final(self).noprov_callees@ == old(self).noprov_callees@,
    {
        self.noprov_sites = sites;
    }

    fn cs_funcs(&self) -> (r: Option<&HashSet<FuncId>>)
        ensures
            r == Some(&self.cs_funcs),
    {
        Some(&self.cs_funcs)
    }
}

/// The callsite a provenance context is built for under flow-entry merging:
/// a call that enters the flow (it is not on the caller's parameter-to-result
/// flow, or the caller has no context) takes the location of its group's
/// canonical callsite; any other call is kept.
pub open spec fn merged_callsite(callsite: CSCallSite, caller_pfg: FuncPFG, callee: FuncId, caller_context_is_empty: bool) -> CSCallSite {
    if caller_pfg.cs_callsites@.contains(callsite.location) && !caller_context_is_empty {
        callsite
    } else {
        CSCallSite {
            location: spec_canonical_flow_entry(caller_pfg.flow_entry_merge@, callsite.location, callee),
            ..callsite
        }
    }
}

/// Merged flow entries with argument provenance: as `RCEUSArgProvSensitive`,
/// but a call that enters the flow is labelled with the canonical callsite of
/// its group of redundant flow entries.
pub struct RCEUSMergeArgProvSensitive {
    pub argprov: RCEUSArgProvSensitive,
}

impl RCEUSMergeArgProvSensitive {
    /// The context a call to `callee` at `callsite` gets.
    pub open spec fn target(&self, callsite: CSCallSite, callee: FuncId) -> Seq<ProvView> {
        let a = self.argprov;
        let m = a.func_pfg_map@;
        if a.cs_funcs@.contains(callee) && m.contains_key(callee) && m.contains_key(callsite.func.func_id) {
            let p = m[callsite.func.func_id];
            let empty = context_or_empty(a.ctx_cache@, callsite.func.cid).len() == 0;
            argprov_target(
                a.ctx_cache@,
                m,
                a.noprov_callees@,
                a.noprov_sites@,
                merged_callsite(callsite, p, callee, empty),
                p,
                callee,
            )
        } else {
            Seq::empty()
        }
    }

    pub fn new(k: usize) -> (s: RCEUSMergeArgProvSensitive)
        ensures
            s.wf(),
            s.argprov.ctx_cache@ == seq![Seq::<ProvView>::empty()],
            s.argprov.cs_funcs@ == Set::<FuncId>::empty(),
            s.argprov.func_pfg_map@ == Map::<FuncId, FuncPFG>::empty(),
            s.argprov.noprov_callees@ == Set::<FuncId>::empty(),
            s.argprov.noprov_sites@ == Set::<FuncId>::empty(),
    {
        RCEUSMergeArgProvSensitive { argprov: RCEUSArgProvSensitive::new(k) }
    }

    /// The callsite with its location replaced by the canonical one when it
    /// enters the flow.
    fn canonicalize_flow_entry(
        callsite: &CSCallSite,
        caller_pfg: &FuncPFG,
        callee: FuncId,
        caller_context_is_empty: bool,
    ) -> (r: CSCallSite)
        ensures
            r == merged_callsite(*callsite, *caller_pfg, callee, caller_context_is_empty),
    {
        if caller_pfg.is_cs_callsite(&callsite.location) && !caller_context_is_empty {
            return *callsite;
        }
        let canonical = caller_pfg.canonical_flow_entry(&callsite.location, callee);
        let mut merged = *callsite;
        merged.location = canonical;
        merged
    }

    fn merged_argprov_context(
        cache: &mut ContextCache<ProvElem>,
        func_pfg_map: &HashMap<FuncId, FuncPFG>,
        noprov_callees: &HashSet<FuncId>,
        noprov_sites: &HashSet<FuncId>,
        callsite: &CSCallSite,
        caller_pfg: &FuncPFG,
        callee: FuncId,
    ) -> (id: ContextId)
        requires
            old(cache).wf(),
            caller_pfg.wf(),
        ensures
            final(cache).wf(),
            interned(
                old(cache)@,
                final(cache)@,
                argprov_target(
                    old(cache)@,
                    func_pfg_map@,
                    noprov_callees@,
                    noprov_sites@,
                    merged_callsite(
                        *callsite,
                        *caller_pfg,
                        callee,
                        context_or_empty(old(cache)@, callsite.func.cid).len() == 0,
                    ),
                    *caller_pfg,
                    callee,
                ),
                id,
            ),
    {
        let caller_context_is_empty = match cache.get_context(callsite.func.cid) {
            Some(ctx) => ctx.len() == 0,
            None => true,
        };
        let merged = Self::canonicalize_flow_entry(callsite, caller_pfg, callee, caller_context_is_empty);
        argprov_context(cache, func_pfg_map, noprov_callees, noprov_sites, &merged, caller_pfg, callee)
    }
}

impl ContextStrategy for RCEUSMergeArgProvSensitive {
    type E = ProvElem;

    open spec fn wf(&self) -> bool {
        self.argprov.wf()
    }

    open spec fn accepts_static_call(&self, callsite: CSCallSite, callee: FuncId) -> bool {
        true
    }

    open spec fn accepts_instance_call(&self, callsite: CSCallSite, receiver: Option<CSPath>, callee: FuncId) -> bool {
        true
    }

    open spec fn static_call_done(&self, post: Self, callsite: CSCallSite, callee: FuncId, id: ContextId) -> bool {
        &&& post.argprov.same_setup(&self.argprov)
        &&& interned(self.argprov.ctx_cache@, post.argprov.ctx_cache@, self.target(callsite, callee), id)
    }

    open spec fn instance_call_done(
        &self,
        post: Self,
        callsite: CSCallSite,
        receiver: Option<CSPath>,
        callee: FuncId,
        r: Option<ContextId>,
    ) -> bool {
        &&& post.argprov.same_setup(&self.argprov)
        &&& r is Some
        &&& interned(self.argprov.ctx_cache@, post.argprov.ctx_cache@, self.target(callsite, callee), r->0)
    }

    fn empty_context(&self) -> (c: Context<ProvElem>) {
        self.argprov.empty_context()
    }

    /// The number of the empty context, which is always 0.
    fn get_empty_context_id(&mut self) -> (id: ContextId)
        ensures
            id == 0,
            final(self).argprov.same_setup(&old(self).argprov),
            final(self).argprov.ctx_cache@ == old(self).argprov.ctx_cache@,
    {
        self.argprov.get_empty_context_id()
    }

    fn get_context_id(&mut self, context: &Context<ProvElem>) -> (id: ContextId)
        ensures
            final(self).argprov.same_setup(&old(self).argprov),
            interned(old(self).argprov.ctx_cache@, final(self).argprov.ctx_cache@, context@, id),
    {
        self.argprov.get_context_id(context)
    }

    /// The context numbered `context_id`, or the empty context when there is none.
    fn get_context_by_id(&self, context_id: ContextId) -> (c: Context<ProvElem>)
        ensures
            c@ == context_or_empty(self.argprov.ctx_cache@, context_id),
    {
        self.argprov.get_context_by_id(context_id)
    }

    fn get_context_iter(&self) -> (r: Option<Vec<(Context<ProvElem>, ContextId)>>)
        ensures
            r matches Some(v) && lists_contexts(v@, self.argprov.ctx_cache@),
    {
        self.argprov.get_context_iter()
    }

    fn new_static_call_context(&mut self, callsite: &CSCallSite, callee: FuncId) -> (id: ContextId)
    {
        if self.argprov.cs_funcs.contains(&callee) {
            if !self.argprov.func_pfg_map.contains_key(&callee) {
                return self.argprov.get_empty_context_id();
            }
            match self.argprov.func_pfg_map.get(&callsite.func.func_id) {
                Some(caller_pfg) => {
                    return Self::merged_argprov_context(
                        &mut self.argprov.ctx_cache,
                        &self.argprov.func_pfg_map,
                        &self.argprov.noprov_callees,
                        &self.argprov.noprov_sites,
                        callsite,
                        caller_pfg,
                        callee,
                    );
                },
                None => {},
            }
        }
        self.argprov.get_empty_context_id()
    }

    fn new_instance_call_context(
        &mut self,
        callsite: &CSCallSite,
        _receiver: Option<&CSPath>,
        callee: FuncId,
    ) -> (r: Option<ContextId>)
    {
        Some(self.new_static_call_context(callsite, callee))
    }

    fn set_noprov_callees(&mut self, callees: HashSet<FuncId>)
        ensures
            final(self).argprov.noprov_callees@ == callees@,
            final(self).argprov.ctx_cache@ == old(self).argprov.ctx_cache@,
            final(self).argprov.cs_funcs@ == old(self).argprov.cs_funcs@,
            final(self).argprov.func_pfg_map@ == old(self).argprov.func_pfg_map@,
            final(self).argprov.noprov_sites@ == old(self).argprov.noprov_sites@,
    {
        self.argprov.set_noprov_callees(callees);
    }

    fn set_noprov_sites(&mut self, sites: HashSet<FuncId>)
        ensures
            final(self).argprov.noprov_sites@ == sites@,
            final(self).argprov.ctx_cache@ == old(self).argprov.ctx_cache@,
            final(self).argprov.cs_funcs@ == old(self).argprov.cs_funcs@,
            final(self).argprov.func_pfg_map@ == old(self).argprov.func_pfg_map@,
            final(self).argprov.noprov_callees@ == old(self).argprov.noprov_callees@,
    {
        self.argprov.set_noprov_sites(sites);
    }

    fn set_prec_crit_fn_ident_data(&mut self, cs_funcs: HashSet<FuncId>, func_pfg_map: HashMap<FuncId, FuncPFG>)
        ensures
            final(self).argprov.cs_funcs@ == cs_funcs@,
            final(self).argprov.func_pfg_map@ == func_pfg_map@,
            final(self).argprov.ctx_cache@ == old(self).argprov.ctx_cache@,
            final(self).argprov.noprov_callees@ == old(self).argprov.noprov_callees@,
            final(self).argprov.noprov_sites@ == old(self).argprov.noprov_sites@,
    {
        self.argprov.set_prec_crit_fn_ident_data(cs_funcs, func_pfg_map);
    }

    fn cs_funcs(&self) -> (r: Option<&HashSet<FuncId>>)
        ensures
            r == Some(&self.argprov.cs_funcs),
    {
        self.argprov.cs_funcs()
    }
}

/// How a lowered `Fn*` call passes arguments to the callee's formals. A
/// static call, a call that is not `Fn*`-lowered, or a callee taking `self`
/// (an actual `Fn*` implementation) passes formal `cp` whole. A closure body
/// takes its environment (formal 1) as the receiver, argument 1, and each
/// later formal `cp` from field `cp - 2` of the tuple argument 2 (formal 2 is
/// field 0), with the whole tuple as fallback. A function item or pointer
/// reached through `Fn*` takes formal `cp` from field `cp - 1` of the tuple,
/// so a closure's formal `cp + 1` reads the field that such a function's
/// formal `cp` reads.
pub proof fn lemma_param_slots_lowering(cp: u32, is_static: bool, is_fn_lowered: bool, has_self: bool, is_closure: bool)
    ensures
        is_static || !is_fn_lowered || has_self ==> param_slots(cp, is_static, is_fn_lowered, has_self, is_closure) == (
        ArgSlot::Whole(cp), None::<ArgSlot>),
        !is_static && is_fn_lowered && !has_self && is_closure && cp == 1 ==> param_slots(
            cp,
            is_static,
            is_fn_lowered,
            has_self,
            is_closure,
        ) == (ArgSlot::Whole(1), None::<ArgSlot>),
        !is_static && is_fn_lowered && !has_self && is_closure && cp >= 2 ==> {
            let r = param_slots(cp, is_static, is_fn_lowered, has_self, is_closure);
            &&& r.0 matches ArgSlot::TupleField(a, j) && a == 2 && j + 2 == cp
            &&& r.1 == Some(ArgSlot::Whole(2))
        },
        !is_static && is_fn_lowered && !has_self && !is_closure && cp >= 1 ==> {
            let r = param_slots(cp, is_static, is_fn_lowered, has_self, is_closure);
            &&& r.0 matches ArgSlot::TupleField(a, j) && a == 2 && j + 1 == cp
            &&& r.1 == Some(ArgSlot::Whole(2))
        },
        1 <= cp < u32::MAX && !is_static && is_fn_lowered && !has_self ==> param_slots((cp + 1) as u32, false, true, false, true)
            == param_slots(cp, false, true, false, false),
{
}

} // verus!
