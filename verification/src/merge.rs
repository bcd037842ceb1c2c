//! Merging redundant flow-entry callsites: in each caller, the flow-entry
//! calls of one precision-critical callee whose flowing arguments have the
//! same backward roots form a group, and every member of a group with more
//! than one member is represented by the group's smallest location.

use vstd::prelude::*;
use vstd::relations::sorted_by;
use vstd::multiset::Multiset;
use crate::ids::{FuncId, Location, Path, location_le, location_lt, strictly_sorted, contains_usize};
use crate::graph::{reaches, is_flow_source};
use crate::pfg::{DFGNode, FuncPFG, FlowEntryMerge, is_first_entry, is_first_merge, spec_canonical_flow_entry, lemma_first_merge_unique, merge_keys_distinct};
use crate::roots::BackwardRootsTable;
use crate::provenance::is_last_node;
use crate::keys::{parts_view, part_leq, sort_parts, parts_eq, lemma_sorted_keys_eq};
use crate::prec_crit::{lemma_first_entry_unique, CGNode, CGEdge, CallGraph, PrecCritFnIdent};
use std::collections::HashMap;

verus! {

/// `s` lists, ascending and each once, the flow sources that reach `v`.
pub open spec fn is_roots_list(edges: Seq<(usize, usize)>, v: usize, s: Seq<usize>) -> bool {
    &&& strictly_sorted(s)
    &&& forall|r: usize| #[trigger] s.contains(r) <==> is_flow_source(edges, r) && reaches(edges, r, v)
}

/// The backward roots of node `v`: the flow sources that reach it, ascending.
pub open spec fn roots_list(edges: Seq<(usize, usize)>, v: usize) -> Seq<usize> {
    choose|s: Seq<usize>| is_roots_list(edges, v, s)
}

proof fn lemma_strictly_sorted_unique(a: Seq<usize>, b: Seq<usize>)
    requires
        strictly_sorted(a),
        strictly_sorted(b),
        forall|x: usize| #[trigger] a.contains(x) <==> b.contains(x),
    ensures
        a == b,
    decreases a.len(),
{
    if a.len() == 0 {
        if b.len() > 0 {
            assert(b.contains(b[0]));
            assert(a.contains(b[0]));
        }
        assert(a =~= b);
    } else {
        assert(a.contains(a[0]));
        assert(b.contains(a[0]));
        assert(b.contains(b[0]));
        assert(a.contains(b[0]));
        let ja = choose|j: int| 0 <= j < b.len() && b[j] == a[0];
        let ia = choose|i: int| 0 <= i < a.len() && a[i] == b[0];
        if ja > 0 {
            assert(b[0] < b[ja]);
            if ia > 0 {
                assert(a[0] < a[ia]);
            }
        }
        assert(a[0] == b[0]);
        let a1 = a.drop_first();
        let b1 = b.drop_first();
        assert forall|x: usize| #[trigger] a1.contains(x) <==> b1.contains(x) by {
            if a1.contains(x) {
                let i = choose|i: int| 0 <= i < a1.len() && a1[i] == x;
                assert(a[i + 1] == x);
                assert(a[0] < a[i + 1]);
                assert(a.contains(x));
                assert(b.contains(x));
                let j = choose|j: int| 0 <= j < b.len() && b[j] == x;
                assert(j != 0);
                assert(b1[j - 1] == x);
            }
            if b1.contains(x) {
                let i = choose|i: int| 0 <= i < b1.len() && b1[i] == x;
                assert(b[i + 1] == x);
                assert(b[0] < b[i + 1]);
                assert(b.contains(x));
                assert(a.contains(x));
                let j = choose|j: int| 0 <= j < a.len() && a[j] == x;
                assert(j != 0);
                assert(a1[j - 1] == x);
            }
        }
        lemma_strictly_sorted_unique(a1, b1);
        assert(a =~= seq![a[0]] + a1);
        assert(b =~= seq![b[0]] + b1);
    }
}

/// The roots a table of the graph gives a node are the node's backward roots.
proof fn lemma_table_roots(t: BackwardRootsTable, nodes: Seq<DFGNode>, edges: Seq<(usize, usize)>, v: int)
    requires
        t.is_table_of(nodes, edges),
        0 <= v < nodes.len(),
    ensures
        t.roots_view(v) == roots_list(edges, v as usize),
{
    let s = t.roots_view(v);
    assert(is_roots_list(edges, v as usize, s));
    let c = roots_list(edges, v as usize);
    assert(is_roots_list(edges, v as usize, c));
    lemma_strictly_sorted_unique(s, c);
}

/// Some edge out of node `n` records the call at `loc`.
pub open spec fn flows_from(p: FuncPFG, n: int, loc: Location) -> bool {
    exists|e: int|
        0 <= e < p.edges_view().len() && (#[trigger] p.edges_view()[e]).0 == n && p.edge_data@[e].call_locs@.contains(loc)
}

/// The key part of argument `a` of the call at `loc`: its position and the
/// roots of its (last) node, when that node flows into the call.
pub open spec fn key_part(p: FuncPFG, loc: Location, a: (usize, Path)) -> Option<(usize, Seq<usize>)> {
    if exists|n: int| is_last_node(p.nodes_view(), a.1, n) {
        let n = choose|n: int| is_last_node(p.nodes_view(), a.1, n);
        if flows_from(p, n, loc) {
            Some((a.0, roots_list(p.edges_view(), n as usize)))
        } else {
            None
        }
    } else {
        None
    }
}

/// The key parts of the arguments `args`, in argument order.
pub open spec fn key_parts(p: FuncPFG, loc: Location, args: Seq<(usize, Path)>) -> Seq<(usize, Seq<usize>)>
    decreases args.len(),
{
    if args.len() == 0 {
        Seq::empty()
    } else {
        let rest = key_parts(p, loc, args.drop_last());
        match key_part(p, loc, args.last()) {
            Some(k) => rest.push(k),
            None => rest,
        }
    }
}

/// The grouping key of the call at `loc`: the positions and backward roots of
/// the recorded arguments that flow into the call (none when the call has no
/// recorded arguments).
pub open spec fn callsite_key(p: FuncPFG, loc: Location) -> Seq<(usize, Seq<usize>)> {
    if exists|j: int| is_first_entry(p.callsite_to_locals@, loc, j) {
        let j = choose|j: int| is_first_entry(p.callsite_to_locals@, loc, j);
        key_parts(p, loc, p.callsite_to_locals@[j].args@)
    } else {
        Seq::empty()
    }
}

proof fn lemma_last_node_unique(nodes: Seq<DFGNode>, p: Path, n1: int, n2: int)
    requires
        is_last_node(nodes, p, n1),
        is_last_node(nodes, p, n2),
    ensures
        n1 == n2,
{
    if n1 < n2 {
        assert(nodes[n2].path != p);
    } else if n2 < n1 {
        assert(nodes[n1].path != p);
    }
}

/// The key parts of the arguments `args` of the call at `loc`, read off the
/// roots table of the caller's graph.
fn key_parts_of(p: &FuncPFG, table: &BackwardRootsTable, loc: &Location, args: &Vec<(usize, Path)>) -> (r: Vec<(usize, Vec<usize>)>)
    requires
        p.wf(),
        table.is_table_of(p.nodes_view(), p.edges_view()),
    ensures
        parts_view(r@) == key_parts(*p, *loc, args@),
{
    let mut r: Vec<(usize, Vec<usize>)> = Vec::new();
    let mut i: usize = 0;
    while i < args.len()
        invariant
            0 <= i <= args@.len(),
            p.wf(),
            table.is_table_of(p.nodes_view(), p.edges_view()),
            parts_view(r@) == key_parts(*p, *loc, args@.take(i as int)),
        decreases args.len() - i,
    {
        let ghost before = r@;
        let ghost t = args@.take(i + 1);
        proof {
            assert(t.drop_last() =~= args@.take(i as int));
            assert(t.last() == args@[i as int]);
        }
        let (arg_idx, arg_path) = args[i];
        match table.node(&arg_path) {
            Some(n) => {
                proof {
                    assert(table.paths_view()[n as int] == p.nodes_view()[n as int].path);
                    assert forall|j: int| n < j < p.nodes_view().len() implies (#[trigger] p.nodes_view()[j]).path != arg_path by {
                        assert(table.paths_view()[j] == p.nodes_view()[j].path);
                    }
                    assert(is_last_node(p.nodes_view(), arg_path, n as int));
                    let n2 = choose|n2: int| is_last_node(p.nodes_view(), arg_path, n2);
                    lemma_last_node_unique(p.nodes_view(), arg_path, n as int, n2);
                }
                if p.flows_at_callsite(n, loc) {
                    let roots = table.roots_of_node(n).clone();
                    proof {
                        lemma_table_roots(*table, p.nodes_view(), p.edges_view(), n as int);
                        assert(roots@ == table.roots_view(n as int));
                    }
                    r.push((arg_idx, roots));
                    proof {
                        assert(parts_view(r@) =~= parts_view(before).push((arg_idx, roots@)));
                    }
                }
            },
            None => {
                proof {
                    if exists|n: int| is_last_node(p.nodes_view(), arg_path, n) {
                        let n = choose|n: int| is_last_node(p.nodes_view(), arg_path, n);
                        assert(table.paths_view()[n] == p.nodes_view()[n].path);
                    }
                }
            },
        }
        i += 1;
    }
    proof {
        assert(args@.take(args@.len() as int) =~= args@);
    }
    r
}

/// What the grouping looks at: the call graph, the flow graphs and the
/// precision-critical functions.
pub struct MergeEnv {
    pub nodes: Seq<CGNode>,
    pub edges: Seq<CGEdge>,
    pub m: Map<FuncId, FuncPFG>,
    pub cs: Seq<FuncId>,
}

impl MergeEnv {
    /// The function calling through edge `e`.
    pub open spec fn caller(self, e: int) -> FuncId {
        self.nodes[self.edges[e].src as int].func
    }

    /// The function called through edge `e`.
    pub open spec fn callee(self, e: int) -> FuncId {
        self.nodes[self.edges[e].dst as int].func
    }

    /// The grouping key of edge `e`'s call, as a multiset of parts.
    pub open spec fn key(self, e: int) -> Multiset<(usize, Seq<usize>)> {
        callsite_key(self.m[self.caller(e)], self.edges[e].location).to_multiset()
    }

    /// Edge `e` is a flow-entry call that may be merged: its caller has a
    /// graph, the call is not on the caller's parameter-to-result flow, its
    /// callee is precision-critical and has a graph, and some recorded
    /// argument flows into the call.
    pub open spec fn candidate(self, e: int) -> bool {
        &&& 0 <= e < self.edges.len()
        &&& self.m.contains_key(self.caller(e))
        &&& !self.m[self.caller(e)].cs_callsites@.contains(self.edges[e].location)
        &&& self.cs.contains(self.callee(e))
        &&& self.m.contains_key(self.callee(e))
        &&& callsite_key(self.m[self.caller(e)], self.edges[e].location).len() > 0
    }

    /// Edges `e1` and `e2` are in one group: candidates from the same caller
    /// node to the same callee whose keys hold the same parts.
    pub open spec fn same_group(self, e1: int, e2: int) -> bool {
        &&& self.candidate(e1)
        &&& self.candidate(e2)
        &&& self.edges[e1].src == self.edges[e2].src
        &&& self.callee(e1) == self.callee(e2)
        &&& self.key(e1) == self.key(e2)
    }

    /// Edge `e`'s group has another member.
    pub open spec fn merged(self, e: int) -> bool {
        exists|e2: int| e2 != e && #[trigger] self.same_group(e, e2)
    }

    /// `l` is the smallest location among the members of `e`'s group.
    pub open spec fn is_group_min(self, e: int, l: Location) -> bool {
        &&& exists|e2: int| #[trigger] self.same_group(e, e2) && self.edges[e2].location == l
        &&& forall|e2: int| #[trigger] self.same_group(e, e2) ==> location_le(l, self.edges[e2].location)
    }

    /// The smallest location among the members of `e`'s group.
    pub open spec fn group_min(self, e: int) -> Location {
        choose|l: Location| self.is_group_min(e, l)
    }

    /// The call to `callee` at `l` from the caller of node `c` is a member of
    /// a group with more than one member.
    pub open spec fn merged_pair(self, c: int, l: Location, callee: FuncId, e: int) -> bool {
        &&& 0 <= e < self.edges.len()
        &&& self.edges[e].src == c
        &&& self.edges[e].location == l
        &&& self.callee(e) == callee
        &&& self.merged(e)
    }

    /// The location that should stand for the call to `callee` at `l` in the
    /// caller of node `c`: its group's smallest location when its group has
    /// more than one member, and `l` itself otherwise.
    pub open spec fn merged_canonical(self, c: int, l: Location, callee: FuncId) -> Location {
        if exists|e: int| self.merged_pair(c, l, callee, e) {
            self.group_min(choose|e: int| self.merged_pair(c, l, callee, e))
        } else {
            l
        }
    }

    /// Some call of node `c` is in a group with more than one member.
    pub open spec fn has_merges(self, c: int) -> bool {
        exists|e: int| 0 <= e < self.edges.len() && self.edges[e].src == c && #[trigger] self.merged(e)
    }

    /// An earlier edge is in edge `e`'s group: the call is merged away into
    /// its group's representative.
    pub open spec fn has_earlier(self, e: int) -> bool {
        exists|e2: int| 0 <= e2 < e && #[trigger] self.same_group(e, e2)
    }

    /// Exactly one earlier edge is in edge `e`'s group: `e` is the call that
    /// makes its group one of more than one member.
    pub open spec fn is_second(self, e: int) -> bool {
        &&& self.has_earlier(e)
        &&& forall|e1: int, e2: int|
            0 <= e1 < e && 0 <= e2 < e && #[trigger] self.same_group(e, e1) && #[trigger] self.same_group(e, e2) ==> e1 == e2
    }

    /// Edge `e` counts: with `second` false when it has an earlier edge in
    /// its group, with `second` true when it has exactly one.
    pub open spec fn counts_as(self, e: int, second: bool) -> bool {
        if second {
            self.is_second(e)
        } else {
            self.has_earlier(e)
        }
    }

    /// The number of edges among the first `n` that leave a node in
    /// `lo..hi` and count (see `counts_as`).
    pub open spec fn merge_count(self, lo: int, hi: int, n: int, second: bool) -> nat
        decreases n,
    {
        if n <= 0 {
            0
        } else {
            self.merge_count(lo, hi, n - 1, second) + if lo <= self.edges[n - 1].src < hi && self.counts_as(n - 1, second) {
                1nat
            } else {
                0nat
            }
        }
    }
}

/// Counting the edges leaving `lo..hi + 1` is counting those leaving
/// `lo..hi` and those leaving `hi`.
proof fn lemma_merge_count_split(env: MergeEnv, lo: int, hi: int, n: int, second: bool)
    requires
        lo <= hi,
    ensures
        env.merge_count(lo, hi + 1, n, second) == env.merge_count(lo, hi, n, second) + env.merge_count(hi, hi + 1, n, second),
    decreases n,
{
    if n > 0 {
        lemma_merge_count_split(env, lo, hi, n - 1, second);
    }
}

/// No edge leaves an empty range of nodes.
proof fn lemma_merge_count_empty(env: MergeEnv, lo: int, n: int, second: bool)
    ensures
        env.merge_count(lo, lo, n, second) == 0,
    decreases n,
{
    if n > 0 {
        lemma_merge_count_empty(env, lo, n - 1, second);
    }
}

/// At most `n` of the first `n` edges count, and no more count as second
/// calls than as merged-away calls.
proof fn lemma_merge_count_bounds(env: MergeEnv, lo: int, hi: int, n: int)
    requires
        0 <= n,
    ensures
        env.merge_count(lo, hi, n, true) <= env.merge_count(lo, hi, n, false) <= n,
    decreases n,
{
    if n > 0 {
        lemma_merge_count_bounds(env, lo, hi, n - 1);
    }
}

/// The calls of the first `n` groups beyond the first of each group: the
/// calls that merging folds into an earlier one.
pub open spec fn excess(gs: Seq<MergeGroup>, n: int) -> int
    decreases n,
{
    if n <= 0 {
        0
    } else {
        excess(gs, n - 1) + gs[n - 1].members@.len() - 1
    }
}

proof fn lemma_excess_same(a: Seq<MergeGroup>, b: Seq<MergeGroup>, n: int)
    requires
        n <= a.len(),
        n <= b.len(),
        forall|i: int| 0 <= i < n ==> (#[trigger] a[i]).members@.len() == b[i].members@.len(),
    ensures
        excess(a, n) == excess(b, n),
    decreases n,
{
    if n > 0 {
        lemma_excess_same(a, b, n - 1);
    }
}

/// One group gaining a member adds one to the excess.
proof fn lemma_excess_grow(a: Seq<MergeGroup>, b: Seq<MergeGroup>, i: int, n: int)
    requires
        0 <= i < n <= a.len(),
        a.len() == b.len(),
        forall|j: int| 0 <= j < a.len() && j != i ==> #[trigger] b[j] == a[j],
        b[i].members@.len() == a[i].members@.len() + 1,
    ensures
        excess(b, n) == excess(a, n) + 1,
    decreases n,
{
    if n - 1 > i {
        lemma_excess_grow(a, b, i, n - 1);
        assert(b[n - 1] == a[n - 1]);
    } else {
        assert forall|j: int| 0 <= j < n - 1 implies (#[trigger] a[j]).members@.len() == b[j].members@.len() by {
            assert(b[j] == a[j]);
        }
        lemma_excess_same(a, b, n - 1);
    }
}

/// A group of flow-entry calls being collected: the callee, the sorted key
/// and the call-graph edges found so far.
pub struct MergeGroup {
    pub callee: FuncId,
    pub key: Vec<(usize, Vec<usize>)>,
    pub members: Vec<usize>,
}

impl MergeGroup {
    /// The group holds candidate calls of node `c` with its callee and key,
    /// in increasing edge order.
    pub open spec fn ok(&self, env: MergeEnv, c: int, upto: int) -> bool {
        &&& sorted_by(parts_view(self.key@), part_leq())
        &&& self.members@.len() > 0
        &&& forall|k: int| 0 <= k < self.members@.len() ==> {
            let ei = #[trigger] self.members@[k] as int;
            &&& ei < upto
            &&& env.edges[ei].src == c
            &&& env.candidate(ei)
            &&& env.callee(ei) == self.callee
            &&& env.key(ei) == parts_view(self.key@).to_multiset()
        }
        &&& forall|k1: int, k2: int| 0 <= k1 < k2 < self.members@.len() ==> #[trigger] self.members@[k1] < #[trigger] self.members@[k2]
    }
}

/// The groups hold, each once, every candidate call of node `c` among the
/// first `upto` edges, and no two groups share a callee and a key.
pub open spec fn groups_ok(env: MergeEnv, c: int, gs: Seq<MergeGroup>, upto: int) -> bool {
    &&& forall|g: int| 0 <= g < gs.len() ==> (#[trigger] gs[g]).ok(env, c, upto)
    &&& forall|g1: int, g2: int|
        0 <= g1 < gs.len() && 0 <= g2 < gs.len() && g1 != g2 && (#[trigger] gs[g1]).callee == (#[trigger] gs[g2]).callee
            ==> parts_view(gs[g1].key@) != parts_view(gs[g2].key@)
    &&& forall|ei: int|
        0 <= ei < upto && env.edges[ei].src == c && #[trigger] env.candidate(ei) ==> exists|g: int, k: int|
            0 <= g < gs.len() && 0 <= k < gs[g].members@.len() && #[trigger] gs[g].members@[k] == ei
}

/// The earlier edges in candidate `e`'s group are the members of the group
/// with `e`'s callee and key, when there is one.
proof fn lemma_earlier_members(env: MergeEnv, c: int, gs: Seq<MergeGroup>, e: int, key: Seq<(usize, Seq<usize>)>)
    requires
        groups_ok(env, c, gs, e),
        env.candidate(e),
        env.edges[e].src == c,
        sorted_by(key, part_leq()),
        key.to_multiset() == env.key(e),
    ensures
        forall|g: int, k: int|
            0 <= g < gs.len() && gs[g].callee == env.callee(e) && parts_view(gs[g].key@) == key && 0 <= k < gs[g].members@.len()
                ==> #[trigger] env.same_group(e, gs[g].members@[k] as int),
        forall|e2: int| 0 <= e2 < e && #[trigger] env.same_group(e, e2) ==> exists|g: int, k: int|
            0 <= g < gs.len() && gs[g].callee == env.callee(e) && parts_view(gs[g].key@) == key && 0 <= k < gs[g].members@.len()
                && #[trigger] gs[g].members@[k] == e2,
{
    assert forall|g: int, k: int|
        0 <= g < gs.len() && gs[g].callee == env.callee(e) && parts_view(gs[g].key@) == key && 0 <= k < gs[g].members@.len()
            implies #[trigger] env.same_group(e, gs[g].members@[k] as int) by {
        assert(gs[g].ok(env, c, e));
    }
    assert forall|e2: int| 0 <= e2 < e && #[trigger] env.same_group(e, e2) implies exists|g: int, k: int|
        0 <= g < gs.len() && gs[g].callee == env.callee(e) && parts_view(gs[g].key@) == key && 0 <= k < gs[g].members@.len()
            && #[trigger] gs[g].members@[k] == e2 by {
        let (g, k) = choose|g: int, k: int| 0 <= g < gs.len() && 0 <= k < gs[g].members@.len() && #[trigger] gs[g].members@[k] == e2;
        assert(gs[g].ok(env, c, e));
        lemma_sorted_keys_eq(parts_view(gs[g].key@), key);
    }
}

/// Joining group `gi`, the group of its callee and key, candidate `e` has
/// an earlier edge in its group, and exactly one when the group had one member.
proof fn lemma_joined(env: MergeEnv, c: int, gs: Seq<MergeGroup>, e: int, key: Seq<(usize, Seq<usize>)>, gi: int)
    requires
        groups_ok(env, c, gs, e),
        env.candidate(e),
        env.edges[e].src == c,
        sorted_by(key, part_leq()),
        key.to_multiset() == env.key(e),
        0 <= gi < gs.len(),
        gs[gi].callee == env.callee(e),
        parts_view(gs[gi].key@) == key,
    ensures
        env.has_earlier(e),
        env.is_second(e) == (gs[gi].members@.len() == 1),
{
    lemma_earlier_members(env, c, gs, e, key);
    let og = gs[gi];
    assert(og.ok(env, c, e));
    let m0 = og.members@[0] as int;
    assert(env.same_group(e, m0));
    if og.members@.len() == 1 {
        assert forall|e1: int, e2: int|
            0 <= e1 < e && 0 <= e2 < e && #[trigger] env.same_group(e, e1) && #[trigger] env.same_group(e, e2) implies e1 == e2 by {
            let (g1, k1) = choose|g: int, k: int|
                0 <= g < gs.len() && gs[g].callee == env.callee(e) && parts_view(gs[g].key@) == key && 0 <= k < gs[g].members@.len()
                    && #[trigger] gs[g].members@[k] == e1;
            let (g2, k2) = choose|g: int, k: int|
                0 <= g < gs.len() && gs[g].callee == env.callee(e) && parts_view(gs[g].key@) == key && 0 <= k < gs[g].members@.len()
                    && #[trigger] gs[g].members@[k] == e2;
            if g1 != gi {
                assert(gs[g1].callee == gs[gi].callee);
            }
            if g2 != gi {
                assert(gs[g2].callee == gs[gi].callee);
            }
        }
    } else {
        let m1 = og.members@[1] as int;
        assert(env.same_group(e, m1));
        assert(m0 < m1);
    }
}

/// With no group of its callee and key, candidate `e` has no earlier edge in
/// its group.
proof fn lemma_no_group(env: MergeEnv, c: int, gs: Seq<MergeGroup>, e: int, key: Seq<(usize, Seq<usize>)>)
    requires
        groups_ok(env, c, gs, e),
        env.candidate(e),
        env.edges[e].src == c,
        sorted_by(key, part_leq()),
        key.to_multiset() == env.key(e),
        forall|g: int| 0 <= g < gs.len() ==> !((#[trigger] gs[g]).callee == env.callee(e) && parts_view(gs[g].key@) == key),
    ensures
        !env.has_earlier(e),
{
    lemma_earlier_members(env, c, gs, e, key);
    if env.has_earlier(e) {
        let e2 = choose|e2: int| 0 <= e2 < e && #[trigger] env.same_group(e, e2);
        let (g, k) = choose|g: int, k: int|
            0 <= g < gs.len() && gs[g].callee == env.callee(e) && parts_view(gs[g].key@) == key && 0 <= k < gs[g].members@.len()
                && #[trigger] gs[g].members@[k] == e2;
        assert(!(gs[g].callee == env.callee(e) && parts_view(gs[g].key@) == key));
    }
}

/// Adds candidate edge `e` to the group of its callee and key, opening a new
/// group when there is none. Tells whether an earlier edge is in `e`'s group
/// and whether exactly one is.
fn add_to_groups(groups: &mut Vec<MergeGroup>, callee: FuncId, key: Vec<(usize, Vec<usize>)>, e: usize, Ghost(env): Ghost<MergeEnv>, Ghost(c): Ghost<int>) -> (r: (bool, bool))
    requires
        groups_ok(env, c, old(groups)@, e as int),
        sorted_by(parts_view(key@), part_leq()),
        parts_view(key@).to_multiset() == env.key(e as int),
        env.candidate(e as int),
        env.edges[e as int].src == c,
        env.callee(e as int) == callee,
    ensures
        groups_ok(env, c, final(groups)@, e + 1),
        r.0 == env.has_earlier(e as int),
        r.1 == env.is_second(e as int),
        r.0 ==> excess(final(groups)@, final(groups)@.len() as int) == excess(old(groups)@, old(groups)@.len() as int) + 1,
        !r.0 ==> excess(final(groups)@, final(groups)@.len() as int) == excess(old(groups)@, old(groups)@.len() as int),
{
    let ghost old_gs = groups@;
    let mut gi: usize = 0;
    while gi < groups.len()
        invariant
            0 <= gi <= groups@.len(),
            groups@ == old_gs,
            old_gs == old(groups)@,
            groups_ok(env, c, old_gs, e as int),
            sorted_by(parts_view(key@), part_leq()),
            parts_view(key@).to_multiset() == env.key(e as int),
            env.candidate(e as int),
            env.edges[e as int].src == c,
            env.callee(e as int) == callee,
            forall|g: int| 0 <= g < gi ==> !((#[trigger] groups@[g]).callee == callee && parts_view(groups@[g].key@) == parts_view(key@)),
        decreases groups.len() - gi,
    {
        if groups[gi].callee == callee && parts_eq(&groups[gi].key, &key) {
            let single = groups[gi].members.len() == 1;
            let mut members = groups[gi].members.clone();
            proof {
                assert(members@ =~= old_gs[gi as int].members@);
            }
            members.push(e);
            let g = MergeGroup { callee, key, members };
            groups.set(gi, g);
            proof {
                let gs = groups@;
                let og = old_gs[gi as int];
                assert(og.ok(env, c, e as int));
                assert forall|k: int| 0 <= k < og.members@.len() implies #[trigger] og.members@[k] < e by {
                    assert(og.members@[k] < e);
                }
                assert(gs[gi as int].ok(env, c, e + 1)) by {
                    let ng = gs[gi as int];
                    assert forall|k: int| 0 <= k < ng.members@.len() implies {
                        let ei = #[trigger] ng.members@[k] as int;
                        &&& ei < e + 1
                        &&& env.edges[ei].src == c
                        &&& env.candidate(ei)
                        &&& env.callee(ei) == ng.callee
                        &&& env.key(ei) == parts_view(ng.key@).to_multiset()
                    } by {
                        if k < og.members@.len() {
                            assert(ng.members@[k] == og.members@[k]);
                        }
                    }
                    assert forall|k1: int, k2: int| 0 <= k1 < k2 < ng.members@.len() implies #[trigger] ng.members@[k1] < #[trigger] ng.members@[k2] by {
                        if k2 < og.members@.len() {
                            assert(ng.members@[k1] == og.members@[k1]);
                            assert(ng.members@[k2] == og.members@[k2]);
                        } else {
                            assert(ng.members@[k1] == og.members@[k1]);
                        }
                    }
                }
                assert forall|g: int| 0 <= g < gs.len() implies (#[trigger] gs[g]).ok(env, c, e + 1) by {
                    if g != gi {
                        assert(gs[g] == old_gs[g]);
                        assert(old_gs[g].ok(env, c, e as int));
                    }
                }
                assert forall|g1: int, g2: int|
                    0 <= g1 < gs.len() && 0 <= g2 < gs.len() && g1 != g2 && (#[trigger] gs[g1]).callee == (#[trigger] gs[g2]).callee
                        implies parts_view(gs[g1].key@) != parts_view(gs[g2].key@) by {
                    assert(old_gs[g1].callee == gs[g1].callee && parts_view(old_gs[g1].key@) == parts_view(gs[g1].key@));
                    assert(old_gs[g2].callee == gs[g2].callee && parts_view(old_gs[g2].key@) == parts_view(gs[g2].key@));
                }
                assert forall|ei: int|
                    0 <= ei < e + 1 && env.edges[ei].src == c && #[trigger] env.candidate(ei) implies exists|g: int, k: int|
                        0 <= g < gs.len() && 0 <= k < gs[g].members@.len() && #[trigger] gs[g].members@[k] == ei by {
                    if ei < e {
                        let (g, k) = choose|g: int, k: int|
                            0 <= g < old_gs.len() && 0 <= k < old_gs[g].members@.len() && #[trigger] old_gs[g].members@[k] == ei;
                        if g == gi {
                            assert(gs[g].members@[k] == ei);
                        } else {
                            assert(gs[g] == old_gs[g]);
                        }
                    } else {
                        assert(gs[gi as int].members@[og.members@.len() as int] == ei);
                    }
                }
                lemma_joined(env, c, old_gs, e as int, parts_view(key@), gi as int);
                assert(gs[gi as int].members@.len() == og.members@.len() + 1);
                lemma_excess_grow(old_gs, gs, gi as int, old_gs.len() as int);
            }
            return (true, single);
        }
        gi += 1;
    }
    let mut members: Vec<usize> = Vec::new();
    members.push(e);
    groups.push(MergeGroup { callee, key, members });
    proof {
        let gs = groups@;
        let n = old_gs.len() as int;
        assert(gs[n].ok(env, c, e + 1)) by {
            assert(gs[n].members@ =~= seq![e]);
        }
        assert forall|g: int| 0 <= g < gs.len() implies (#[trigger] gs[g]).ok(env, c, e + 1) by {
            if g < n {
                assert(gs[g] == old_gs[g]);
                assert(old_gs[g].ok(env, c, e as int));
            }
        }
        assert forall|g1: int, g2: int|
            0 <= g1 < gs.len() && 0 <= g2 < gs.len() && g1 != g2 && (#[trigger] gs[g1]).callee == (#[trigger] gs[g2]).callee
                implies parts_view(gs[g1].key@) != parts_view(gs[g2].key@) by {
            if g1 < n && g2 < n {
                assert(gs[g1] == old_gs[g1] && gs[g2] == old_gs[g2]);
            } else if g1 == n {
                assert(gs[g2] == old_gs[g2]);
            } else {
                assert(gs[g1] == old_gs[g1]);
            }
        }
        assert forall|ei: int|
            0 <= ei < e + 1 && env.edges[ei].src == c && #[trigger] env.candidate(ei) implies exists|g: int, k: int|
                0 <= g < gs.len() && 0 <= k < gs[g].members@.len() && #[trigger] gs[g].members@[k] == ei by {
            if ei < e {
                let (g, k) = choose|g: int, k: int|
                    0 <= g < old_gs.len() && 0 <= k < old_gs[g].members@.len() && #[trigger] old_gs[g].members@[k] == ei;
                assert(gs[g] == old_gs[g]);
            } else {
                assert(gs[n].members@[0] == ei);
            }
        }
        lemma_no_group(env, c, old_gs, e as int, parts_view(key@));
        lemma_excess_same(old_gs, gs, n);
        assert(gs[n].members@.len() == 1);
    }
    (false, false)
}

/// The environment of a call graph, flow graphs and critical functions.
pub open spec fn env_of(cg: &CallGraph, m: Map<FuncId, FuncPFG>, cs: Seq<FuncId>) -> MergeEnv {
    MergeEnv { nodes: cg.nodes@, edges: cg.edges@, m, cs }
}

/// Every flow graph of the map is well formed.
pub open spec fn all_wf(m: Map<FuncId, FuncPFG>) -> bool {
    forall|f: FuncId| #[trigger] m.contains_key(f) ==> m[f].wf()
}

/// No edge counts where no edge of node `c` is a candidate.
proof fn lemma_merge_count_none(env: MergeEnv, c: int, n: int, second: bool)
    requires
        forall|e: int| 0 <= e < n && env.edges[e].src == c ==> !#[trigger] env.candidate(e),
    ensures
        env.merge_count(c, c + 1, n, second) == 0,
    decreases n,
{
    if n > 0 {
        lemma_merge_count_none(env, c, n - 1, second);
        let e = n - 1;
        if env.edges[e].src == c {
            assert(!env.candidate(e));
            assert(!env.has_earlier(e));
        }
    }
}

/// The groups of the flow-entry calls of node `c`, with the number of its
/// calls that have an earlier call in their group and the number that have
/// exactly one.
fn collect_groups(cg: &CallGraph, map: &HashMap<FuncId, FuncPFG>, cs: &Vec<FuncId>, c: usize) -> (r: (Vec<MergeGroup>, usize, usize))
    requires
        cg.wf(),
        c < cg.nodes@.len(),
        all_wf(map@),
    ensures
        groups_ok(env_of(cg, map@, cs@), c as int, r.0@, cg.edges@.len() as int),
        r.1 == env_of(cg, map@, cs@).merge_count(c as int, c + 1, cg.edges@.len() as int, false),
        r.1 == excess(r.0@, r.0@.len() as int),
        r.2 == env_of(cg, map@, cs@).merge_count(c as int, c + 1, cg.edges@.len() as int, true),
{
    let ghost env = env_of(cg, map@, cs@);
    let mut groups: Vec<MergeGroup> = Vec::new();
    let mut merged_away: usize = 0;
    let mut seconds: usize = 0;
    let caller_func = cg.nodes[c].func;
    let caller_pfg = match map.get(&caller_func) {
        Some(p) => p,
        None => {
            proof {
                assert forall|ei: int| 0 <= ei < cg.edges@.len() && env.edges[ei].src == c implies !#[trigger] env.candidate(ei) by {}
                lemma_merge_count_none(env, c as int, cg.edges@.len() as int, false);
                lemma_merge_count_none(env, c as int, cg.edges@.len() as int, true);
            }
            return (groups, 0, 0);
        },
    };
    let mut table: Option<BackwardRootsTable> = None;
    let mut e: usize = 0;
    while e < cg.edges.len()
        invariant
            0 <= e <= cg.edges@.len(),
            env == env_of(cg, map@, cs@),
            cg.wf(),
            c < cg.nodes@.len(),
            caller_func == cg.nodes@[c as int].func,
            map@.contains_key(caller_func),
            map@[caller_func] == *caller_pfg,
            caller_pfg.wf(),
            groups_ok(env, c as int, groups@, e as int),
            table matches Some(t) ==> t.is_table_of(caller_pfg.nodes_view(), caller_pfg.edges_view()),
            merged_away == env.merge_count(c as int, c + 1, e as int, false),
            merged_away == excess(groups@, groups@.len() as int),
            seconds == env.merge_count(c as int, c + 1, e as int, true),
            seconds <= merged_away <= e,
        decreases cg.edges.len() - e,
    {
        proof {
            lemma_merge_count_bounds(env, c as int, c + 1, e + 1);
        }
        let edge = cg.edges[e];
        let ghost candidate = false;
        if edge.src == c {
            let loc = edge.location;
            let callee = cg.nodes[edge.dst].func;
            proof {
                assert(env.caller(e as int) == caller_func);
                assert(env.callee(e as int) == callee);
            }
            if !caller_pfg.is_cs_callsite(&loc) && contains_usize(cs, callee) && map.contains_key(&callee) {
                match caller_pfg.callsite_locals(&loc) {
                    Some(entry) => {
                        proof {
                            let j = choose|j: int|
                                0 <= j < caller_pfg.callsite_to_locals@.len() && caller_pfg.callsite_to_locals@[j] == *entry
                                    && entry.location == loc && forall|jj: int| 0 <= jj < j ==> (#[trigger] caller_pfg.callsite_to_locals@[jj]).location != loc;
                            assert(is_first_entry(caller_pfg.callsite_to_locals@, loc, j));
                            let j2 = choose|j2: int| is_first_entry(caller_pfg.callsite_to_locals@, loc, j2);
                            lemma_first_entry_unique(caller_pfg.callsite_to_locals@, loc, j, j2);
                            assert(callsite_key(*caller_pfg, loc) == key_parts(*caller_pfg, loc, entry.args@));
                        }
                        if table.is_none() {
                            table = Some(caller_pfg.backward_roots_table());
                        }
                        let key = match &table {
                            Some(t) => key_parts_of(caller_pfg, t, &loc, &entry.args),
                            None => Vec::new(),
                        };
                        if key.len() > 0 {
                            let sorted = sort_parts(&key);
                            proof {
                                assert(env.candidate(e as int));
                            }
                            let (joined, second) = add_to_groups(&mut groups, callee, sorted, e, Ghost(env), Ghost(c as int));
                            if joined {
                                merged_away += 1;
                            }
                            if second {
                                seconds += 1;
                            }
                        } else {
                            proof {
                                assert(!env.candidate(e as int));
                                assert(!env.has_earlier(e as int));
                                assert(groups_ok(env, c as int, groups@, e + 1));
                            }
                        }
                    },
                    None => {
                        proof {
                            assert(!env.candidate(e as int));
                            assert(!env.has_earlier(e as int));
                            assert(groups_ok(env, c as int, groups@, e + 1));
                        }
                    },
                }
            } else {
                proof {
                    assert(!env.candidate(e as int));
                    assert(!env.has_earlier(e as int));
                    assert(groups_ok(env, c as int, groups@, e + 1));
                }
            }
        } else {
            proof {
                assert(groups_ok(env, c as int, groups@, e + 1));
            }
        }
        e += 1;
    }
    (groups, merged_away, seconds)
}

/// The call to `callee` at `l` is a member of group `g`.
pub open spec fn in_group(env: MergeEnv, g: MergeGroup, l: Location, callee: FuncId) -> bool {
    g.callee == callee && exists|k: int| 0 <= k < g.members@.len() && env.edges[#[trigger] g.members@[k] as int].location == l
}

/// `l` is the smallest location of the members of group `g`.
pub open spec fn is_loc_min(env: MergeEnv, g: MergeGroup, l: Location) -> bool {
    &&& exists|k: int| 0 <= k < g.members@.len() && env.edges[#[trigger] g.members@[k] as int].location == l
    &&& forall|k: int| 0 <= k < g.members@.len() ==> location_le(l, env.edges[#[trigger] g.members@[k] as int].location)
}

/// The smallest location of the members of group `g`.
pub open spec fn loc_min(env: MergeEnv, g: MergeGroup) -> Location {
    choose|l: Location| is_loc_min(env, g, l)
}

proof fn lemma_loc_min(env: MergeEnv, g: MergeGroup, l: Location)
    requires
        is_loc_min(env, g, l),
    ensures
        loc_min(env, g) == l,
{
    let l2 = loc_min(env, g);
    assert(is_loc_min(env, g, l2));
    let k1 = choose|k: int| 0 <= k < g.members@.len() && env.edges[#[trigger] g.members@[k] as int].location == l;
    let k2 = choose|k: int| 0 <= k < g.members@.len() && env.edges[#[trigger] g.members@[k] as int].location == l2;
    assert(location_le(l, env.edges[g.members@[k2] as int].location));
    assert(location_le(l2, env.edges[g.members@[k1] as int].location));
}

/// Two members of groups whose calls have the same callee and the same key
/// are in the same group.
proof fn lemma_one_group(env: MergeEnv, c: int, gs: Seq<MergeGroup>, upto: int, g1: int, k1: int, g2: int, k2: int)
    requires
        groups_ok(env, c, gs, upto),
        0 <= g1 < gs.len(),
        0 <= g2 < gs.len(),
        0 <= k1 < gs[g1].members@.len(),
        0 <= k2 < gs[g2].members@.len(),
        env.callee(gs[g1].members@[k1] as int) == env.callee(gs[g2].members@[k2] as int),
        env.key(gs[g1].members@[k1] as int) == env.key(gs[g2].members@[k2] as int),
    ensures
        g1 == g2,
{
    assert(gs[g1].ok(env, c, upto));
    assert(gs[g2].ok(env, c, upto));
    let e1 = gs[g1].members@[k1] as int;
    let e2 = gs[g2].members@[k2] as int;
    assert(env.key(e1) == parts_view(gs[g1].key@).to_multiset());
    assert(env.key(e2) == parts_view(gs[g2].key@).to_multiset());
    lemma_sorted_keys_eq(parts_view(gs[g1].key@), parts_view(gs[g2].key@));
    if g1 != g2 {
        assert(gs[g1].callee == gs[g2].callee);
    }
}

/// Entry `e` is for a call in one of the first `gi` groups that have more
/// than one member, and maps it to that group's smallest location.
pub open spec fn entry_from_groups(env: MergeEnv, gs: Seq<MergeGroup>, gi: int, e: FlowEntryMerge) -> bool {
    exists|g: int| #![trigger gs[g]]
        0 <= g < gi && gs[g].members@.len() >= 2 && in_group(env, gs[g], e.location, e.callee)
            && e.canonical == loc_min(env, gs[g])
}

/// A call of a group with more than one member is represented by the
/// group's smallest location in the merge entries `r` of the groups before
/// `gi`, and every entry names a member of such a group.
pub open spec fn entries_ok(env: MergeEnv, gs: Seq<MergeGroup>, gi: int, r: Seq<FlowEntryMerge>) -> bool {
    &&& forall|g: int| 0 <= g < gi && (#[trigger] gs[g]).members@.len() >= 2 ==> is_loc_min(env, gs[g], loc_min(env, gs[g]))
    &&& forall|i: int| 0 <= i < r.len() ==> entry_from_groups(env, gs, gi, #[trigger] r[i])
    &&& forall|g: int, k: int|
        0 <= g < gi && gs[g].members@.len() >= 2 && 0 <= k < gs[g].members@.len()
            && env.edges[#[trigger] gs[g].members@[k] as int].location != loc_min(env, gs[g])
            ==> exists|i: int| 0 <= i < r.len() && (#[trigger] r[i]).matches(env.edges[gs[g].members@[k] as int].location, gs[g].callee)
}

/// No two entries are for the same call, and no entry maps a call to its
/// own location.
pub open spec fn entries_clean(r: Seq<FlowEntryMerge>) -> bool {
    &&& merge_keys_distinct(r)
    &&& forall|i: int| 0 <= i < r.len() ==> (#[trigger] r[i]).canonical != r[i].location
}

/// No two edges of the call graph are for the same call: the same caller
/// node, location and callee.
pub open spec fn edges_unique(env: MergeEnv) -> bool {
    forall|e1: int, e2: int|
        #![trigger env.edges[e1], env.edges[e2]]
        0 <= e1 < env.edges.len() && 0 <= e2 < env.edges.len() && env.edges[e1].src == env.edges[e2].src
            && env.edges[e1].location == env.edges[e2].location && env.callee(e1) == env.callee(e2) ==> e1 == e2
}

/// With every call on one edge, a member of group `gi` other than the one at
/// its smallest location has no entry yet while the entries come from the
/// earlier groups and from the group's members before it.
proof fn lemma_no_entry_yet(
    env: MergeEnv,
    c: int,
    gs: Seq<MergeGroup>,
    gi: int,
    r0: Seq<FlowEntryMerge>,
    r: Seq<FlowEntryMerge>,
    k: int,
    kmin: int,
)
    requires
        edges_unique(env),
        groups_ok(env, c, gs, env.edges.len() as int),
        0 <= gi < gs.len(),
        entries_ok(env, gs, gi, r0),
        r0.len() <= r.len(),
        r.subrange(0, r0.len() as int) == r0,
        forall|i: int| #![trigger r[i]] r0.len() <= i < r.len() ==> exists|j: int|
            0 <= j < k && env.edges[#[trigger] gs[gi].members@[j] as int].location == r[i].location,
        0 <= k < gs[gi].members@.len(),
        0 <= kmin < gs[gi].members@.len(),
        k != kmin,
    ensures
        env.edges[gs[gi].members@[k] as int].location != env.edges[gs[gi].members@[kmin] as int].location,
        !exists|i: int| 0 <= i < r.len() && (#[trigger] r[i]).matches(env.edges[gs[gi].members@[k] as int].location, gs[gi].callee),
{
    let g = gs[gi];
    assert(g.ok(env, c, env.edges.len() as int));
    let e = g.members@[k] as int;
    let l = env.edges[e].location;
    let em = g.members@[kmin] as int;
    if k < kmin {
        assert(g.members@[k] < g.members@[kmin]);
    } else {
        assert(g.members@[kmin] < g.members@[k]);
    }
    assert(env.edges[e] == env.edges[e] && env.edges[em] == env.edges[em]);
    if exists|i: int| 0 <= i < r.len() && (#[trigger] r[i]).matches(l, g.callee) {
        let i = choose|i: int| 0 <= i < r.len() && (#[trigger] r[i]).matches(l, g.callee);
        if i < r0.len() {
            assert(r[i] == r0[i]);
            assert(entry_from_groups(env, gs, gi, r0[i]));
            let g2 = choose|g2: int| #![trigger gs[g2]]
                0 <= g2 < gi && gs[g2].members@.len() >= 2 && in_group(env, gs[g2], r0[i].location, r0[i].callee)
                    && r0[i].canonical == loc_min(env, gs[g2]);
            let k2 = choose|k2: int| 0 <= k2 < gs[g2].members@.len() && env.edges[#[trigger] gs[g2].members@[k2] as int].location == l;
            assert(gs[g2].ok(env, c, env.edges.len() as int));
            let e2 = gs[g2].members@[k2] as int;
            assert(env.edges[e2] == env.edges[e2]);
            assert(e2 == e);
            lemma_one_group(env, c, gs, env.edges.len() as int, g2, k2, gi, k);
        } else {
            let j = choose|j: int| 0 <= j < k && env.edges[#[trigger] gs[gi].members@[j] as int].location == r[i].location;
            let ej = g.members@[j] as int;
            assert(g.members@[j] < g.members@[k]);
            assert(env.edges[ej] == env.edges[ej]);
        }
    }
}

/// Whether some entry is for the call at `l` to `callee`.
fn has_entry(r: &Vec<FlowEntryMerge>, l: Location, callee: FuncId) -> (b: bool)
    ensures
        b == exists|i: int| 0 <= i < r@.len() && (#[trigger] r@[i]).matches(l, callee),
{
    let mut i: usize = 0;
    while i < r.len()
        invariant
            0 <= i <= r@.len(),
            forall|j: int| 0 <= j < i ==> !(#[trigger] r@[j]).matches(l, callee),
        decreases r.len() - i,
    {
        if r[i].location == l && r[i].callee == callee {
            return true;
        }
        i += 1;
    }
    false
}

/// The entries of one group: every member not at the smallest location is
/// represented by it, once.
#[verifier::rlimit(40)]
#[verifier::spinoff_prover]
fn push_group_entries(
    r: &mut Vec<FlowEntryMerge>,
    edges: &Vec<crate::prec_crit::CGEdge>,
    groups: &Vec<MergeGroup>,
    gi: usize,
    Ghost(env): Ghost<MergeEnv>,
    Ghost(c): Ghost<int>,
)
    requires
        env.edges == edges@,
        groups_ok(env, c, groups@, edges@.len() as int),
        gi < groups@.len(),
        groups@[gi as int].members@.len() >= 2,
        entries_ok(env, groups@, gi as int, old(r)@),
        entries_clean(old(r)@),
    ensures
        entries_ok(env, groups@, gi + 1, final(r)@),
        entries_clean(final(r)@),
        edges_unique(env) ==> final(r)@.len() == old(r)@.len() + groups@[gi as int].members@.len() - 1,
{
    let g = &groups[gi];
    proof {
        assert(groups@[gi as int].ok(env, c, edges@.len() as int));
    }
    let mut kmin: usize = 0;
    let mut k: usize = 1;
    while k < g.members.len()
        invariant
            1 <= k <= g.members@.len(),
            kmin < k,
            gi < groups@.len(),
            *g == groups@[gi as int],
            env.edges == edges@,
            groups@[gi as int].ok(env, c, edges@.len() as int),
            forall|j: int| 0 <= j < k ==> location_le(
                edges@[g.members@[kmin as int] as int].location,
                edges@[#[trigger] g.members@[j] as int].location,
            ),
        decreases g.members.len() - k,
    {
        if location_lt(edges[g.members[k]].location, edges[g.members[kmin]].location) {
            kmin = k;
        }
        k += 1;
    }
    let lmin = edges[g.members[kmin]].location;
    proof {
        assert(is_loc_min(env, *g, lmin));
        lemma_loc_min(env, *g, lmin);
    }
    let ghost r0 = r@;
    let mut k: usize = 0;
    while k < g.members.len()
        invariant
            0 <= k <= g.members@.len(),
            kmin < g.members@.len(),
            *g == groups@[gi as int],
            env.edges == edges@,
            groups_ok(env, c, groups@, edges@.len() as int),
            gi < groups@.len(),
            g.members@.len() >= 2,
            lmin == loc_min(env, *g),
            lmin == edges@[g.members@[kmin as int] as int].location,
            entries_ok(env, groups@, gi as int, r0),
            r@.len() >= r0.len(),
            r@.subrange(0, r0.len() as int) == r0,
            entries_clean(r@),
            forall|i: int| r0.len() <= i < r@.len() ==> in_group(env, *g, (#[trigger] r@[i]).location, r@[i].callee)
                && r@[i].canonical == lmin,
            forall|j: int| 0 <= j < k && edges@[#[trigger] g.members@[j] as int].location != lmin ==> exists|i: int|
                0 <= i < r@.len() && r@[i].matches(edges@[g.members@[j] as int].location, g.callee),
            forall|i: int| #![trigger r@[i]] r0.len() <= i < r@.len() ==> exists|j: int|
                0 <= j < k && env.edges[#[trigger] groups@[gi as int].members@[j] as int].location == r@[i].location,
            edges_unique(env) ==> r@.len() == r0.len() + k - (if kmin < k { 1int } else { 0int }),
        decreases g.members.len() - k,
    {
        let l = edges[g.members[k]].location;
        if l != lmin && !has_entry(r, l, g.callee) {
            let ghost before = r@;
            r.push(FlowEntryMerge { location: l, callee: g.callee, canonical: lmin });
            proof {
                assert forall|i: int, j: int| 0 <= i < j < r@.len() implies !(#[trigger] r@[i]).matches((#[trigger] r@[j]).location, r@[j].callee) by {
                    if j < before.len() {
                        assert(r@[i] == before[i] && r@[j] == before[j]);
                    } else {
                        assert(r@[i] == before[i]);
                    }
                }
                assert forall|i: int| 0 <= i < r@.len() implies (#[trigger] r@[i]).canonical != r@[i].location by {
                    if i < before.len() {
                        assert(r@[i] == before[i]);
                    }
                }
                assert(r@.subrange(0, r0.len() as int) =~= before.subrange(0, r0.len() as int));
                assert(in_group(env, *g, l, g.callee));
                assert forall|j: int| 0 <= j < k + 1 && edges@[#[trigger] g.members@[j] as int].location != lmin implies exists|i: int|
                    0 <= i < r@.len() && r@[i].matches(edges@[g.members@[j] as int].location, g.callee) by {
                    if j < k {
                        let i = choose|i: int| 0 <= i < before.len() && before[i].matches(edges@[g.members@[j] as int].location, g.callee);
                        assert(r@[i] == before[i]);
                    } else {
                        assert(r@[before.len() as int].matches(l, g.callee));
                    }
                }
                assert forall|i: int| r0.len() <= i < r@.len() implies in_group(env, *g, (#[trigger] r@[i]).location, r@[i].callee)
                    && r@[i].canonical == lmin by {
                    if i < before.len() {
                        assert(r@[i] == before[i]);
                    }
                }
                assert forall|i: int| #![trigger r@[i]] r0.len() <= i < r@.len() implies exists|j: int|
                    0 <= j < k + 1 && env.edges[#[trigger] groups@[gi as int].members@[j] as int].location == r@[i].location by {
                    if i < before.len() {
                        assert(r@[i] == before[i]);
                        let j = choose|j: int| 0 <= j < k && env.edges[#[trigger] groups@[gi as int].members@[j] as int].location == before[i].location;
                        assert(0 <= j < k + 1 && env.edges[groups@[gi as int].members@[j] as int].location == r@[i].location);
                    } else {
                        assert(env.edges[groups@[gi as int].members@[k as int] as int].location == r@[i].location);
                    }
                }
                if edges_unique(env) {
                    assert(k != kmin);
                }
            }
        } else {
            proof {
                if edges_unique(env) && k != kmin {
                    lemma_no_entry_yet(env, c, groups@, gi as int, r0, r@, k as int, kmin as int);
                }
                assert forall|j: int| 0 <= j < k + 1 && edges@[#[trigger] g.members@[j] as int].location != lmin implies exists|i: int|
                    0 <= i < r@.len() && r@[i].matches(edges@[g.members@[j] as int].location, g.callee) by {
                    if j == k {
                        assert(l != lmin);
                    }
                }
            }
        }
        k += 1;
    }
    proof {
        let rf = r@;
        assert forall|i: int| 0 <= i < rf.len() implies entry_from_groups(env, groups@, gi + 1, #[trigger] rf[i]) by {
            if i < r0.len() {
                assert(rf[i] == r0[i]);
                assert(entry_from_groups(env, groups@, gi as int, r0[i]));
                let g2 = choose|g2: int| #![trigger groups@[g2]]
                    0 <= g2 < gi && groups@[g2].members@.len() >= 2 && in_group(env, groups@[g2], r0[i].location, r0[i].callee)
                        && r0[i].canonical == loc_min(env, groups@[g2]);
                assert(0 <= g2 < gi + 1 && groups@[g2].members@.len() >= 2 && in_group(env, groups@[g2], rf[i].location, rf[i].callee)
                        && rf[i].canonical == loc_min(env, groups@[g2]));
            } else {
                assert(in_group(env, groups@[gi as int], rf[i].location, rf[i].callee));
                assert(rf[i].canonical == loc_min(env, groups@[gi as int]));
            }
        }
        assert forall|g2: int| 0 <= g2 < gi + 1 && (#[trigger] groups@[g2]).members@.len() >= 2 implies is_loc_min(env, groups@[g2], loc_min(env, groups@[g2])) by {
            if g2 == gi {
                assert(is_loc_min(env, *g, lmin));
            }
        }
        assert(entries_ok(env, groups@, gi + 1, rf));
        assert forall|g2: int, k2: int|
            0 <= g2 < gi + 1 && groups@[g2].members@.len() >= 2 && 0 <= k2 < groups@[g2].members@.len()
                && env.edges[#[trigger] groups@[g2].members@[k2] as int].location != loc_min(env, groups@[g2])
                implies exists|i: int| 0 <= i < rf.len() && (#[trigger] rf[i]).matches(env.edges[groups@[g2].members@[k2] as int].location, groups@[g2].callee) by {
            if g2 < gi {
                let i = choose|i: int| 0 <= i < r0.len() && (#[trigger] r0[i]).matches(env.edges[groups@[g2].members@[k2] as int].location, groups@[g2].callee);
                assert(rf[i] == r0[i]);
            } else {
                assert(edges@[g.members@[k2] as int].location != lmin);
            }
        }
    }
}

/// The merge entries of the groups, and how many groups have more than one member.
fn group_entries(edges: &Vec<crate::prec_crit::CGEdge>, groups: &Vec<MergeGroup>, Ghost(env): Ghost<MergeEnv>, Ghost(c): Ghost<int>) -> (res: (Vec<FlowEntryMerge>, bool))
    requires
        env.edges == edges@,
        groups_ok(env, c, groups@, edges@.len() as int),
    ensures
        entries_ok(env, groups@, groups@.len() as int, res.0@),
        entries_clean(res.0@),
        res.1 <==> exists|g: int| 0 <= g < groups@.len() && (#[trigger] groups@[g]).members@.len() >= 2,
        edges_unique(env) ==> res.0@.len() == excess(groups@, groups@.len() as int),
{
    let mut r: Vec<FlowEntryMerge> = Vec::new();
    let mut any = false;
    let mut gi: usize = 0;
    while gi < groups.len()
        invariant
            0 <= gi <= groups@.len(),
            env.edges == edges@,
            groups_ok(env, c, groups@, edges@.len() as int),
            entries_ok(env, groups@, gi as int, r@),
            entries_clean(r@),
            any <==> exists|g: int| 0 <= g < gi && (#[trigger] groups@[g]).members@.len() >= 2,
            edges_unique(env) ==> r@.len() == excess(groups@, gi as int),
        decreases groups.len() - gi,
    {
        if groups[gi].members.len() >= 2 {
            push_group_entries(&mut r, edges, groups, gi, Ghost(env), Ghost(c));
            any = true;
        } else {
            proof {
                assert(groups@[gi as int].ok(env, c, edges@.len() as int));
                assert forall|g: int, k: int|
                    0 <= g < gi + 1 && groups@[g].members@.len() >= 2 && 0 <= k < groups@[g].members@.len()
                        && env.edges[#[trigger] groups@[g].members@[k] as int].location != loc_min(env, groups@[g])
                        implies exists|i: int| 0 <= i < r@.len() && (#[trigger] r@[i]).matches(env.edges[groups@[g].members@[k] as int].location, groups@[g].callee) by {
                    assert(g < gi);
                }
                let rr = r@;
                let gs = groups@;
                assert forall|i: int| 0 <= i < rr.len() implies entry_from_groups(env, gs, gi + 1, #[trigger] rr[i]) by {
                    assert(entry_from_groups(env, gs, gi as int, rr[i]));
                    let g = choose|g: int| #![trigger gs[g]]
                        0 <= g < gi && gs[g].members@.len() >= 2 && in_group(env, gs[g], rr[i].location, rr[i].callee)
                            && rr[i].canonical == loc_min(env, gs[g]);
                    assert(0 <= g < gi + 1 && gs[g].members@.len() >= 2 && in_group(env, gs[g], rr[i].location, rr[i].callee)
                            && rr[i].canonical == loc_min(env, gs[g]));
                }
                assert forall|g: int| 0 <= g < gi + 1 && (#[trigger] gs[g]).members@.len() >= 2 implies is_loc_min(env, gs[g], loc_min(env, gs[g])) by {
                    assert(g < gi);
                }
                assert(entries_ok(env, gs, gi + 1, rr));
            }
        }
        gi += 1;
    }
    (r, any)
}

/// The location the groups give the call to `callee` at `l`: the smallest
/// location of its group when that group has more than one member.
pub open spec fn groups_canonical(env: MergeEnv, gs: Seq<MergeGroup>, l: Location, callee: FuncId) -> Location {
    if exists|g: int| #![trigger gs[g]] 0 <= g < gs.len() && gs[g].members@.len() >= 2 && in_group(env, gs[g], l, callee) {
        loc_min(env, gs[choose|g: int| #![trigger gs[g]] 0 <= g < gs.len() && gs[g].members@.len() >= 2 && in_group(env, gs[g], l, callee)])
    } else {
        l
    }
}

/// A call belongs to at most one group.
proof fn lemma_in_group_unique(env: MergeEnv, c: int, gs: Seq<MergeGroup>, g1: int, g2: int, l: Location, callee: FuncId)
    requires
        groups_ok(env, c, gs, env.edges.len() as int),
        0 <= g1 < gs.len(),
        0 <= g2 < gs.len(),
        in_group(env, gs[g1], l, callee),
        in_group(env, gs[g2], l, callee),
    ensures
        g1 == g2,
{
    let k1 = choose|k: int| 0 <= k < gs[g1].members@.len() && env.edges[#[trigger] gs[g1].members@[k] as int].location == l;
    let k2 = choose|k: int| 0 <= k < gs[g2].members@.len() && env.edges[#[trigger] gs[g2].members@[k] as int].location == l;
    assert(gs[g1].ok(env, c, env.edges.len() as int));
    assert(gs[g2].ok(env, c, env.edges.len() as int));
    let e1 = gs[g1].members@[k1] as int;
    let e2 = gs[g2].members@[k2] as int;
    assert(env.edges[e1].src == c && env.edges[e2].src == c);
    assert(env.caller(e1) == env.caller(e2));
    assert(env.key(e1) == env.key(e2));
    lemma_one_group(env, c, gs, env.edges.len() as int, g1, k1, g2, k2);
}

/// The first entry matching a pair exists when some entry matches it.
proof fn lemma_first_match(m: Seq<FlowEntryMerge>, l: Location, callee: FuncId, i: int)
    requires
        0 <= i < m.len(),
        m[i].matches(l, callee),
    ensures
        exists|i0: int| is_first_merge(m, l, callee, i0),
    decreases i,
{
    if forall|j: int| 0 <= j < i ==> !(#[trigger] m[j]).matches(l, callee) {
        assert(is_first_merge(m, l, callee, i));
    } else {
        let j = choose|j: int| 0 <= j < i && (#[trigger] m[j]).matches(l, callee);
        lemma_first_match(m, l, callee, j);
    }
}

/// The entries give every pair the location the groups give it.
proof fn lemma_entries_canonical(env: MergeEnv, c: int, gs: Seq<MergeGroup>, r: Seq<FlowEntryMerge>, l: Location, callee: FuncId)
    requires
        groups_ok(env, c, gs, env.edges.len() as int),
        entries_ok(env, gs, gs.len() as int, r),
    ensures
        spec_canonical_flow_entry(r, l, callee) == groups_canonical(env, gs, l, callee),
{
    if exists|i: int| 0 <= i < r.len() && (#[trigger] r[i]).matches(l, callee) {
        let i = choose|i: int| 0 <= i < r.len() && (#[trigger] r[i]).matches(l, callee);
        lemma_first_match(r, l, callee, i);
        let i0 = choose|i0: int| is_first_merge(r, l, callee, i0);
        lemma_first_merge_unique(r, l, callee, i0);
        assert(r[i0].location == l && r[i0].callee == callee);
        let g = choose|g: int| #![trigger gs[g]] 0 <= g < gs.len() && gs[g].members@.len() >= 2 && in_group(env, gs[g], r[i0].location, r[i0].callee)
            && r[i0].canonical == loc_min(env, gs[g]);
        let g2 = choose|g2: int| #![trigger gs[g2]] 0 <= g2 < gs.len() && gs[g2].members@.len() >= 2 && in_group(env, gs[g2], l, callee);
        lemma_in_group_unique(env, c, gs, g, g2, l, callee);
    } else {
        assert(!exists|i0: int| is_first_merge(r, l, callee, i0));
        if exists|g: int| #![trigger gs[g]] 0 <= g < gs.len() && gs[g].members@.len() >= 2 && in_group(env, gs[g], l, callee) {
            let g = choose|g: int| #![trigger gs[g]] 0 <= g < gs.len() && gs[g].members@.len() >= 2 && in_group(env, gs[g], l, callee);
            let k = choose|k: int| 0 <= k < gs[g].members@.len() && env.edges[#[trigger] gs[g].members@[k] as int].location == l;
            if env.edges[gs[g].members@[k] as int].location != loc_min(env, gs[g]) {
                let i = choose|i: int| 0 <= i < r.len() && (#[trigger] r[i]).matches(env.edges[gs[g].members@[k] as int].location, gs[g].callee);
                assert(r[i].matches(l, callee));
            }
        }
    }
}

/// A call of node `c` is merged exactly when its group has more than one
/// member, and then its group's smallest location is that of its group.
proof fn lemma_merged_member(env: MergeEnv, c: int, gs: Seq<MergeGroup>, g: int, k: int)
    requires
        groups_ok(env, c, gs, env.edges.len() as int),
        forall|g2: int| 0 <= g2 < gs.len() && (#[trigger] gs[g2]).members@.len() >= 2 ==> is_loc_min(env, gs[g2], loc_min(env, gs[g2])),
        0 <= g < gs.len(),
        0 <= k < gs[g].members@.len(),
    ensures
        env.merged(gs[g].members@[k] as int) <==> gs[g].members@.len() >= 2,
        gs[g].members@.len() >= 2 ==> env.group_min(gs[g].members@[k] as int) == loc_min(env, gs[g]),
{
    let E = env.edges.len() as int;
    assert(gs[g].ok(env, c, E));
    let e = gs[g].members@[k] as int;
    if env.merged(e) {
        let e2 = choose|e2: int| e2 != e && #[trigger] env.same_group(e, e2);
        assert(env.edges[e2].src == c);
        assert(env.candidate(e2));
        let (g2, k2) = choose|g2: int, k2: int| 0 <= g2 < gs.len() && 0 <= k2 < gs[g2].members@.len() && #[trigger] gs[g2].members@[k2] == e2;
        lemma_one_group(env, c, gs, E, g, k, g2, k2);
        if gs[g].members@.len() < 2 {
            assert(k == 0 && k2 == 0);
        }
    }
    if gs[g].members@.len() >= 2 {
        let k2: int = if k == 0 { 1 } else { 0 };
        let e2 = gs[g].members@[k2] as int;
        if k < k2 {
            assert(gs[g].members@[k] < gs[g].members@[k2]);
        } else {
            assert(gs[g].members@[k2] < gs[g].members@[k]);
        }
        assert(env.same_group(e, e2));
        assert(env.merged(e));
        let lm = loc_min(env, gs[g]);
        assert(is_loc_min(env, gs[g], lm));
        assert(env.is_group_min(e, lm)) by {
            let km = choose|km: int| 0 <= km < gs[g].members@.len() && env.edges[#[trigger] gs[g].members@[km] as int].location == lm;
            assert(env.same_group(e, gs[g].members@[km] as int));
            assert forall|e3: int| #[trigger] env.same_group(e, e3) implies location_le(lm, env.edges[e3].location) by {
                assert(env.edges[e3].src == c);
                let (g3, k3) = choose|g3: int, k3: int| 0 <= g3 < gs.len() && 0 <= k3 < gs[g3].members@.len() && #[trigger] gs[g3].members@[k3] == e3;
                lemma_one_group(env, c, gs, E, g, k, g3, k3);
            }
        }
        let gm = env.group_min(e);
        assert(env.is_group_min(e, gm));
        let w1 = choose|w: int| #[trigger] env.same_group(e, w) && env.edges[w].location == lm;
        let w2 = choose|w: int| #[trigger] env.same_group(e, w) && env.edges[w].location == gm;
        assert(location_le(lm, env.edges[w2].location));
        assert(location_le(gm, env.edges[w1].location));
    }
}

/// The groups give every call the location its merging calls for, and some
/// group has more than one member exactly when node `c` has merged calls.
proof fn lemma_groups_env(env: MergeEnv, c: int, gs: Seq<MergeGroup>, l: Location, callee: FuncId)
    requires
        groups_ok(env, c, gs, env.edges.len() as int),
        forall|g2: int| 0 <= g2 < gs.len() && (#[trigger] gs[g2]).members@.len() >= 2 ==> is_loc_min(env, gs[g2], loc_min(env, gs[g2])),
    ensures
        groups_canonical(env, gs, l, callee) == env.merged_canonical(c, l, callee),
        (exists|g: int| 0 <= g < gs.len() && (#[trigger] gs[g]).members@.len() >= 2) <==> env.has_merges(c),
{
    let E = env.edges.len() as int;
    if exists|e: int| env.merged_pair(c, l, callee, e) {
        let e = choose|e: int| env.merged_pair(c, l, callee, e);
        assert(env.candidate(e)) by {
            let e2 = choose|e2: int| e2 != e && #[trigger] env.same_group(e, e2);
        }
        let (g, k) = choose|g: int, k: int| 0 <= g < gs.len() && 0 <= k < gs[g].members@.len() && #[trigger] gs[g].members@[k] == e;
        lemma_merged_member(env, c, gs, g, k);
        assert(gs[g].ok(env, c, E));
        assert(in_group(env, gs[g], l, callee));
        let g2 = choose|g2: int| #![trigger gs[g2]] 0 <= g2 < gs.len() && gs[g2].members@.len() >= 2 && in_group(env, gs[g2], l, callee);
        lemma_in_group_unique(env, c, gs, g, g2, l, callee);
    } else {
        if exists|g: int| #![trigger gs[g]] 0 <= g < gs.len() && gs[g].members@.len() >= 2 && in_group(env, gs[g], l, callee) {
            let g = choose|g: int| #![trigger gs[g]] 0 <= g < gs.len() && gs[g].members@.len() >= 2 && in_group(env, gs[g], l, callee);
            let k = choose|k: int| 0 <= k < gs[g].members@.len() && env.edges[#[trigger] gs[g].members@[k] as int].location == l;
            lemma_merged_member(env, c, gs, g, k);
            assert(gs[g].ok(env, c, E));
            assert(env.merged_pair(c, l, callee, gs[g].members@[k] as int));
        }
    }
    if exists|g: int| 0 <= g < gs.len() && (#[trigger] gs[g]).members@.len() >= 2 {
        let g = choose|g: int| 0 <= g < gs.len() && (#[trigger] gs[g]).members@.len() >= 2;
        lemma_merged_member(env, c, gs, g, 0);
        assert(gs[g].ok(env, c, E));
        let e = gs[g].members@[0] as int;
        assert(0 <= e < env.edges.len() && env.edges[e].src == c && env.merged(e));
    }
    if env.has_merges(c) {
        let e = choose|e: int| 0 <= e < env.edges.len() && env.edges[e].src == c && #[trigger] env.merged(e);
        assert(env.candidate(e)) by {
            let e2 = choose|e2: int| e2 != e && #[trigger] env.same_group(e, e2);
        }
        let (g, k) = choose|g: int, k: int| 0 <= g < gs.len() && 0 <= k < gs[g].members@.len() && #[trigger] gs[g].members@[k] == e;
        lemma_merged_member(env, c, gs, g, k);
    }
}

/// The merge entries of node `c`: every flow-entry call of `c` in a group
/// with more than one member is represented by the group's smallest
/// location, every other call by its own location. Also returns the number
/// of calls of `c` merged away (those with an earlier call in their group)
/// and the number of groups with more than one member (counted at their
/// second call).
pub fn caller_merges(cg: &CallGraph, func_pfg_map: &HashMap<FuncId, FuncPFG>, cs_funcs: &Vec<FuncId>, c: usize) -> (res: (
    Vec<FlowEntryMerge>,
    bool,
    usize,
    usize,
))
    requires
        cg.wf(),
        c < cg.nodes@.len(),
        all_wf(func_pfg_map@),
    ensures
        res.1 <==> env_of(cg, func_pfg_map@, cs_funcs@).has_merges(c as int),
        entries_clean(res.0@),
        edges_unique(env_of(cg, func_pfg_map@, cs_funcs@)) ==> res.0@.len() == res.2,
        forall|l: Location, callee: FuncId|
            #[trigger] spec_canonical_flow_entry(res.0@, l, callee) == env_of(cg, func_pfg_map@, cs_funcs@).merged_canonical(
                c as int,
                l,
                callee,
            ),
        res.2 == env_of(cg, func_pfg_map@, cs_funcs@).merge_count(c as int, c + 1, cg.edges@.len() as int, false),
        res.3 == env_of(cg, func_pfg_map@, cs_funcs@).merge_count(c as int, c + 1, cg.edges@.len() as int, true),
{
    let ghost env = env_of(cg, func_pfg_map@, cs_funcs@);
    let (groups, merged_away, seconds) = collect_groups(cg, func_pfg_map, cs_funcs, c);
    let (r, any) = group_entries(&cg.edges, &groups, Ghost(env), Ghost(c as int));
    proof {
        assert forall|l: Location, callee: FuncId|
            #[trigger] spec_canonical_flow_entry(r@, l, callee) == env.merged_canonical(c as int, l, callee) by {
            lemma_entries_canonical(env, c as int, groups@, r@, l, callee);
            lemma_groups_env(env, c as int, groups@, l, callee);
        }
        let l = Location { block: 0, statement_index: 0 };
        lemma_groups_env(env, c as int, groups@, l, 0);
    }
    (r, any, merged_away, seconds)
}

/// Everything of the graph `a` but its merge entries is as in `b`.
pub open spec fn same_but_merge(a: FuncPFG, b: FuncPFG) -> bool {
    &&& a.graph == b.graph
    &&& a.edge_data@ == b.edge_data@
    &&& a.func_id == b.func_id
    &&& a.has_arg_to_return_flow == b.has_arg_to_return_flow
    &&& a.callsite_to_locals@ == b.callsite_to_locals@
    &&& a.static_callsites@ == b.static_callsites@
    &&& a.fn_ptr_def_callsites@ == b.fn_ptr_def_callsites@
    &&& a.closure_dyn_callsites@ == b.closure_dyn_callsites@
    &&& a.cs_callsites@ == b.cs_callsites@
    &&& a.param_with_flow@ == b.param_with_flow@
    &&& a.is_closure_body == b.is_closure_body
    &&& a.has_self_parameter == b.has_self_parameter
}

/// Node `c`'s function has merged calls.
pub open spec fn merges_in(env: MergeEnv, f: FuncId) -> bool {
    exists|c: int| 0 <= c < env.nodes.len() && env.nodes[c].func == f && #[trigger] env.has_merges(c)
}

/// `l` is the smallest location among the members of `e`'s group with an
/// index below `n`.
spec fn min_upto(env: MergeEnv, e: int, n: int, l: Location) -> bool {
    &&& exists|e2: int| 0 <= e2 < n && #[trigger] env.same_group(e, e2) && env.edges[e2].location == l
    &&& forall|e2: int| 0 <= e2 < n && #[trigger] env.same_group(e, e2) ==> location_le(l, env.edges[e2].location)
}

/// Among the members of `e`'s group with an index below `n`, if any, one has
/// the smallest location.
proof fn lemma_group_min_upto(env: MergeEnv, e: int, n: int)
    requires
        0 <= n,
    ensures
        (exists|e2: int| 0 <= e2 < n && #[trigger] env.same_group(e, e2)) ==> exists|l: Location| #[trigger] min_upto(env, e, n, l),
    decreases n,
{
    if n > 0 {
        lemma_group_min_upto(env, e, n - 1);
        if exists|e2: int| 0 <= e2 < n - 1 && #[trigger] env.same_group(e, e2) {
            let l = choose|l: Location| #[trigger] min_upto(env, e, n - 1, l);
            let w = choose|e2: int| 0 <= e2 < n - 1 && #[trigger] env.same_group(e, e2) && env.edges[e2].location == l;
            if env.same_group(e, n - 1) && !location_le(l, env.edges[n - 1].location) {
                let l2 = env.edges[n - 1].location;
                assert(env.same_group(e, n - 1) && env.edges[n - 1].location == l2);
                assert forall|e2: int| 0 <= e2 < n && #[trigger] env.same_group(e, e2) implies location_le(l2, env.edges[e2].location) by {
                    if e2 < n - 1 {
                        assert(location_le(l, env.edges[e2].location));
                    }
                }
                assert(min_upto(env, e, n, l2));
            } else {
                assert(0 <= w < n && env.same_group(e, w) && env.edges[w].location == l);
                assert(min_upto(env, e, n, l));
            }
        } else if env.same_group(e, n - 1) {
            let l2 = env.edges[n - 1].location;
            assert(env.same_group(e, n - 1) && env.edges[n - 1].location == l2);
            assert forall|e2: int| 0 <= e2 < n && #[trigger] env.same_group(e, e2) implies location_le(l2, env.edges[e2].location) by {
                if e2 < n - 1 {
                    assert(false);
                }
            }
            assert(min_upto(env, e, n, l2));
        }
    }
}

/// A candidate's group has a smallest location, and it is the smallest
/// location of every other member's group too.
proof fn lemma_group_min(env: MergeEnv, e: int, e2: int)
    requires
        env.candidate(e),
        env.same_group(e, e2),
    ensures
        env.is_group_min(e, env.group_min(e)),
        env.group_min(e2) == env.group_min(e),
{
    lemma_group_min_upto(env, e, env.edges.len() as int);
    assert(env.same_group(e, e));
    let l = choose|l: Location| #[trigger] min_upto(env, e, env.edges.len() as int, l);
    assert(env.is_group_min(e, l));
    let w = choose|x: int| #[trigger] env.same_group(e, x) && env.edges[x].location == l;
    assert(env.same_group(e2, w));
    assert forall|x: int| #[trigger] env.same_group(e2, x) implies location_le(l, env.edges[x].location) by {
        assert(env.same_group(e, x));
    }
    assert(env.is_group_min(e2, l));
    let g1 = env.group_min(e);
    let g2 = env.group_min(e2);
    assert(env.is_group_min(e, g1));
    assert(env.is_group_min(e2, g2));
    let w1 = choose|x: int| #[trigger] env.same_group(e, x) && env.edges[x].location == g1;
    let w2 = choose|x: int| #[trigger] env.same_group(e2, x) && env.edges[x].location == g2;
    assert(location_le(g1, env.edges[w2].location));
    assert(location_le(g2, env.edges[w1].location));
}

/// Two flow-entry calls that may be merged, from one caller node to one
/// callee at different locations, get the same representative exactly when
/// their keys of backward roots (argument positions with the roots of the
/// arguments that flow into the call) are the same.
pub proof fn lemma_canonical_agrees_iff_keys(env: MergeEnv, e1: int, e2: int)
    requires
        env.candidate(e1),
        env.candidate(e2),
        env.edges[e1].src == env.edges[e2].src,
        env.callee(e1) == env.callee(e2),
        env.edges[e1].location != env.edges[e2].location,
    ensures
        env.merged_canonical(env.edges[e1].src as int, env.edges[e1].location, env.callee(e1))
            == env.merged_canonical(env.edges[e2].src as int, env.edges[e2].location, env.callee(e2))
            <==> env.key(e1) == env.key(e2),
{
    let c = env.edges[e1].src as int;
    let g = env.callee(e1);
    let l1 = env.edges[e1].location;
    let l2 = env.edges[e2].location;
    if env.key(e1) == env.key(e2) {
        assert(env.same_group(e1, e2));
        assert(env.same_group(e2, e1));
        assert(env.merged_pair(c, l1, g, e1));
        assert(env.merged_pair(c, l2, g, e2));
        let x1 = choose|x: int| env.merged_pair(c, l1, g, x);
        let x2 = choose|x: int| env.merged_pair(c, l2, g, x);
        assert(env.same_group(e1, x1));
        assert(env.same_group(e1, x2));
        lemma_group_min(env, e1, x1);
        lemma_group_min(env, e1, x2);
    } else {
        if env.merged_canonical(c, l1, g) == env.merged_canonical(c, l2, g) {
            if exists|x: int| env.merged_pair(c, l1, g, x) {
                let x1 = choose|x: int| env.merged_pair(c, l1, g, x);
                let y1 = choose|y: int| y != x1 && #[trigger] env.same_group(x1, y);
                lemma_group_min(env, x1, x1);
                let lm = env.group_min(x1);
                let w1 = choose|x: int| #[trigger] env.same_group(x1, x) && env.edges[x].location == lm;
                assert(env.same_group(e1, x1));
                if exists|x: int| env.merged_pair(c, l2, g, x) {
                    let x2 = choose|x: int| env.merged_pair(c, l2, g, x);
                    let y2 = choose|y: int| y != x2 && #[trigger] env.same_group(x2, y);
                    lemma_group_min(env, x2, x2);
                    let w2 = choose|x: int| #[trigger] env.same_group(x2, x) && env.edges[x].location == lm;
                    assert(env.key(w1) == env.key(w2));
                    assert(env.same_group(e2, x2));
                    assert(false);
                } else {
                    assert(env.edges[w1].location == l2);
                    if w1 == x1 {
                        assert(env.same_group(w1, y1));
                        assert(env.merged(w1));
                    } else {
                        assert(env.same_group(w1, x1));
                        assert(env.merged(w1));
                    }
                    assert(env.merged_pair(c, l2, g, w1));
                }
            } else if exists|x: int| env.merged_pair(c, l2, g, x) {
                let x2 = choose|x: int| env.merged_pair(c, l2, g, x);
                let y2 = choose|y: int| y != x2 && #[trigger] env.same_group(x2, y);
                lemma_group_min(env, x2, x2);
                let lm = env.group_min(x2);
                let w2 = choose|x: int| #[trigger] env.same_group(x2, x) && env.edges[x].location == lm;
                assert(env.edges[w2].location == l1);
                if w2 == x2 {
                    assert(env.same_group(w2, y2));
                    assert(env.merged(w2));
                } else {
                    assert(env.same_group(w2, x2));
                    assert(env.merged(w2));
                }
                assert(env.merged_pair(c, l1, g, w2));
            }
        }
    }
}

/// The total length of the merge entries of the functions of the first `n`
/// nodes that have merged calls.
pub open spec fn stored_merges(env: MergeEnv, m: Map<FuncId, FuncPFG>, n: int) -> int
    decreases n,
{
    if n <= 0 {
        0
    } else {
        stored_merges(env, m, n - 1) + if env.has_merges(n - 1) {
            m[env.nodes[n - 1].func].flow_entry_merge@.len() as int
        } else {
            0int
        }
    }
}

/// A node without merged calls has no edge with an earlier one in its group.
proof fn lemma_merge_count_no_merges(env: MergeEnv, c: int, n: int)
    requires
        !env.has_merges(c),
        n <= env.edges.len(),
    ensures
        env.merge_count(c, c + 1, n, false) == 0,
    decreases n,
{
    if n > 0 {
        lemma_merge_count_no_merges(env, c, n - 1);
        let e = n - 1;
        if env.edges[e].src == c && env.has_earlier(e) {
            let e2 = choose|e2: int| 0 <= e2 < e && #[trigger] env.same_group(e, e2);
            assert(env.merged(e));
        }
    }
}

/// With every node's entries as long as its count of calls merged away, the
/// entries of the first `n` nodes are as many as their calls merged away.
proof fn lemma_stored_merges(env: MergeEnv, m: Map<FuncId, FuncPFG>, n: int)
    requires
        0 <= n <= env.nodes.len(),
        forall|c: int| 0 <= c < env.nodes.len() && #[trigger] env.has_merges(c)
            ==> m[env.nodes[c].func].flow_entry_merge@.len() == env.merge_count(c, c + 1, env.edges.len() as int, false),
    ensures
        env.merge_count(0, n, env.edges.len() as int, false) == stored_merges(env, m, n),
    decreases n,
{
    if n == 0 {
        lemma_merge_count_empty(env, 0, env.edges.len() as int, false);
    } else {
        lemma_stored_merges(env, m, n - 1);
        lemma_merge_count_split(env, 0, n - 1, env.edges.len() as int, false);
        if !env.has_merges(n - 1) {
            lemma_merge_count_no_merges(env, n - 1, env.edges.len() as int);
        }
    }
}

/// The merge entries `r` of node `c` are exactly its merged calls that are
/// not their group's smallest location: each entry is for a merged call,
/// maps it to the location its merging calls for (never to itself), and no
/// call has two entries.
pub open spec fn merge_entries_exact(env: MergeEnv, c: int, r: Seq<FlowEntryMerge>) -> bool {
    &&& entries_clean(r)
    &&& forall|i: int| 0 <= i < r.len() ==> (exists|e: int| env.merged_pair(c, (#[trigger] r[i]).location, r[i].callee, e))
        && r[i].canonical == env.merged_canonical(c, r[i].location, r[i].callee)
}

/// Entries without repeats that give every call its merged location hold
/// only merged calls.
proof fn lemma_entries_exact(env: MergeEnv, c: int, r: Seq<FlowEntryMerge>)
    requires
        entries_clean(r),
        forall|l: Location, callee: FuncId| #[trigger] spec_canonical_flow_entry(r, l, callee) == env.merged_canonical(c, l, callee),
    ensures
        merge_entries_exact(env, c, r),
{
    assert forall|i: int| 0 <= i < r.len() implies (exists|e: int| env.merged_pair(c, (#[trigger] r[i]).location, r[i].callee, e))
        && r[i].canonical == env.merged_canonical(c, r[i].location, r[i].callee) by {
        let l = r[i].location;
        let callee = r[i].callee;
        assert forall|j: int| 0 <= j < i implies !(#[trigger] r[j]).matches(l, callee) by {
            assert(!r[j].matches(r[i].location, r[i].callee));
        }
        assert(is_first_merge(r, l, callee, i));
        lemma_first_merge_unique(r, l, callee, i);
        assert(spec_canonical_flow_entry(r, l, callee) == env.merged_canonical(c, l, callee));
        assert(r[i].canonical != l);
    }
}

/// `m1` is `m0` after merging: the graphs are unchanged but for their merge
/// entries; the function of a node with merged calls represents every call
/// as its merging calls for, by entries for exactly its merged calls away
/// from their group's smallest location (as many as the calls merged away
/// when no two edges are for the same call), and any other function keeps
/// its entries.
pub open spec fn merge_result(env: MergeEnv, m0: Map<FuncId, FuncPFG>, m1: Map<FuncId, FuncPFG>) -> bool {
    &&& m1.dom() == m0.dom()
    &&& forall|f: FuncId| #[trigger] m0.contains_key(f) ==> same_but_merge(m0[f], m1[f])
    &&& forall|c: int, l: Location, callee: FuncId|
        0 <= c < env.nodes.len() && #[trigger] env.has_merges(c) ==> m0.contains_key(env.nodes[c].func)
            && #[trigger] spec_canonical_flow_entry(m1[env.nodes[c].func].flow_entry_merge@, l, callee) == env.merged_canonical(c, l, callee)
    &&& forall|c: int| 0 <= c < env.nodes.len() && #[trigger] env.has_merges(c)
        ==> merge_entries_exact(env, c, m1[env.nodes[c].func].flow_entry_merge@)
    &&& edges_unique(env) ==> forall|c: int| 0 <= c < env.nodes.len() && #[trigger] env.has_merges(c)
        ==> m1[env.nodes[c].func].flow_entry_merge@.len() == env.merge_count(c, c + 1, env.edges.len() as int, false)
    &&& forall|f: FuncId| #[trigger] m0.contains_key(f) && !merges_in(env, f) ==> m1[f].flow_entry_merge@ == m0[f].flow_entry_merge@
}

/// After merging, two flow-entry calls that may be merged, from one caller
/// node to one callee at different locations, are looked up to the same
/// location exactly when their keys of backward roots are the same (the
/// caller holding no merge entries before).
pub proof fn lemma_merged_lookups_agree_iff_keys(env: MergeEnv, m0: Map<FuncId, FuncPFG>, m1: Map<FuncId, FuncPFG>, e1: int, e2: int)
    requires
        merge_result(env, m0, m1),
        env.m == m0,
        forall|a: int, b: int|
            0 <= a < env.nodes.len() && 0 <= b < env.nodes.len() && a != b ==> (#[trigger] env.nodes[a]).func != (#[trigger] env.nodes[b]).func,
        env.edges[e1].src < env.nodes.len(),
        m0[env.caller(e1)].flow_entry_merge@.len() == 0,
        env.candidate(e1),
        env.candidate(e2),
        env.edges[e1].src == env.edges[e2].src,
        env.callee(e1) == env.callee(e2),
        env.edges[e1].location != env.edges[e2].location,
    ensures
        spec_canonical_flow_entry(m1[env.caller(e1)].flow_entry_merge@, env.edges[e1].location, env.callee(e1))
            == spec_canonical_flow_entry(m1[env.caller(e1)].flow_entry_merge@, env.edges[e2].location, env.callee(e2))
            <==> env.key(e1) == env.key(e2),
{
    let c = env.edges[e1].src as int;
    let f = env.caller(e1);
    let g = env.callee(e1);
    let r = m1[f].flow_entry_merge@;
    assert forall|l: Location| #[trigger] spec_canonical_flow_entry(r, l, g) == env.merged_canonical(c, l, g) by {
        if env.has_merges(c) {
            assert(spec_canonical_flow_entry(m1[env.nodes[c].func].flow_entry_merge@, l, g) == env.merged_canonical(c, l, g));
        } else {
            assert(!merges_in(env, f)) by {
                if merges_in(env, f) {
                    let c2 = choose|c2: int| 0 <= c2 < env.nodes.len() && env.nodes[c2].func == f && #[trigger] env.has_merges(c2);
                    assert(env.nodes[c2].func == env.nodes[c].func);
                }
            }
            assert(m0.contains_key(f));
            assert(r.len() == 0);
            assert(!exists|i: int| is_first_merge(r, l, g, i));
            if exists|e: int| env.merged_pair(c, l, g, e) {
                let e = choose|e: int| env.merged_pair(c, l, g, e);
                assert(env.has_merges(c));
            }
        }
    }
    lemma_canonical_agrees_iff_keys(env, e1, e2);
    assert(spec_canonical_flow_entry(r, env.edges[e1].location, g) == env.merged_canonical(c, env.edges[e1].location, g));
    assert(spec_canonical_flow_entry(r, env.edges[e2].location, g) == env.merged_canonical(c, env.edges[e2].location, g));
}

impl PrecCritFnIdent {
    /// Identifies the redundant flow-entry callsites of every caller and
    /// records, in the caller's graph, the location that represents each
    /// merged call (see `merge_result`). Returns the number of calls merged
    /// away (those with an earlier call in their group) and the number of
    /// groups with more than one member (counted at their second call); when
    /// no two call-graph edges are for the same call, the first is the total
    /// length of the stored merge entries.
    #[verifier::rlimit(40)]
    #[verifier::spinoff_prover]
    pub fn compute_flow_entry_merge(&mut self) -> (counts: (usize, usize))
        requires
            old(self).call_graph.wf(),
            all_wf(old(self).func_pfg_map@),
        ensures
            final(self).call_graph == old(self).call_graph,
            final(self).cs_funcs@ == old(self).cs_funcs@,
            final(self).worklist@ == old(self).worklist@,
            merge_result(env_of(&old(self).call_graph, old(self).func_pfg_map@, old(self).cs_funcs@), old(self).func_pfg_map@, final(self).func_pfg_map@),
            counts.0 == env_of(&old(self).call_graph, old(self).func_pfg_map@, old(self).cs_funcs@).merge_count(
                0,
                old(self).call_graph.nodes@.len() as int,
                old(self).call_graph.edges@.len() as int,
                false,
            ),
            counts.1 == env_of(&old(self).call_graph, old(self).func_pfg_map@, old(self).cs_funcs@).merge_count(
                0,
                old(self).call_graph.nodes@.len() as int,
                old(self).call_graph.edges@.len() as int,
                true,
            ),
            counts.1 <= counts.0 <= old(self).call_graph.edges@.len(),
            edges_unique(env_of(&old(self).call_graph, old(self).func_pfg_map@, old(self).cs_funcs@)) ==> counts.0 == stored_merges(
                env_of(&old(self).call_graph, old(self).func_pfg_map@, old(self).cs_funcs@),
                final(self).func_pfg_map@,
                old(self).call_graph.nodes@.len() as int,
            ),
    {
        broadcast use vstd::std_specs::hash::group_hash_axioms;
        let ghost env = env_of(&self.call_graph, self.func_pfg_map@, self.cs_funcs@);
        let ghost m0 = self.func_pfg_map@;
        let n = self.call_graph.nodes.len();
        let mut merged: Vec<(usize, Vec<FlowEntryMerge>)> = Vec::new();
        let mut n_sites: usize = 0;
        let mut n_groups: usize = 0;
        let elen = self.call_graph.edges.len();
        proof {
            lemma_merge_count_empty(env, 0, elen as int, false);
            lemma_merge_count_empty(env, 0, elen as int, true);
        }
        let mut c: usize = 0;
        while c < n
            invariant
                0 <= c <= n,
                n == self.call_graph.nodes@.len(),
                env == env_of(&self.call_graph, self.func_pfg_map@, self.cs_funcs@),
                self.func_pfg_map@ == m0,
                self.call_graph == old(self).call_graph,
                self.cs_funcs@ == old(self).cs_funcs@,
                self.worklist@ == old(self).worklist@,
                self.call_graph.wf(),
                all_wf(m0),
                elen == env.edges.len(),
                n_sites == env.merge_count(0, c as int, env.edges.len() as int, false),
                n_groups == env.merge_count(0, c as int, env.edges.len() as int, true),
                env.edges == self.call_graph.edges@,
                forall|i: int| 0 <= i < merged@.len() ==> {
                    let (c2, r) = #[trigger] merged@[i];
                    &&& c2 < c
                    &&& env.has_merges(c2 as int)
                    &&& entries_clean(r@)
                    &&& edges_unique(env) ==> r@.len() == env.merge_count(c2 as int, c2 + 1, env.edges.len() as int, false)
                    &&& forall|l: Location, callee: FuncId| #[trigger] spec_canonical_flow_entry(r@, l, callee) == env.merged_canonical(c2 as int, l, callee)
                },
                forall|i: int, j: int| 0 <= i < j < merged@.len() ==> (#[trigger] merged@[i]).0 < (#[trigger] merged@[j]).0,
                forall|c2: int| 0 <= c2 < c && #[trigger] env.has_merges(c2) ==> exists|i: int| 0 <= i < merged@.len() && (#[trigger] merged@[i]).0 == c2,
            decreases n - c,
        {
            let (r, any, merged_away, seconds) = caller_merges(&self.call_graph, &self.func_pfg_map, &self.cs_funcs, c);
            proof {
                lemma_merge_count_split(env, 0, c as int, env.edges.len() as int, false);
                lemma_merge_count_split(env, 0, c as int, env.edges.len() as int, true);
                lemma_merge_count_bounds(env, 0, c + 1, env.edges.len() as int);
            }
            n_sites = n_sites + merged_away;
            n_groups = n_groups + seconds;
            if any {
                let ghost before = merged@;
                merged.push((c, r));
                proof {
                    assert forall|c2: int| 0 <= c2 < c + 1 && #[trigger] env.has_merges(c2) implies exists|i: int| 0 <= i < merged@.len() && (#[trigger] merged@[i]).0 == c2 by {
                        if c2 < c {
                            let i = choose|i: int| 0 <= i < before.len() && (#[trigger] before[i]).0 == c2;
                            assert(merged@[i] == before[i]);
                        } else {
                            assert(merged@[before.len() as int].0 == c2);
                        }
                    }
                    assert forall|i: int, j: int| 0 <= i < j < merged@.len() implies (#[trigger] merged@[i]).0 < (#[trigger] merged@[j]).0 by {
                        if j < before.len() {
                            assert(merged@[i] == before[i] && merged@[j] == before[j]);
                        } else {
                            assert(merged@[i] == before[i]);
                        }
                    }
                    assert(env.has_merges(c as int));
                }
            } else {
                proof {
                    assert(!env.has_merges(c as int));
                }
            }
            c += 1;
        }
        let ghost all = merged@;
        let mut k = merged.len();
        while k > 0
            invariant
                0 <= k <= all.len(),
                merged@ == all.take(k as int),
                n == env.nodes.len(),
                env.nodes == self.call_graph.nodes@,
                env.m == m0,
                self.call_graph == old(self).call_graph,
                self.cs_funcs@ == old(self).cs_funcs@,
                self.worklist@ == old(self).worklist@,
                self.call_graph.wf(),
                self.func_pfg_map@.dom() == m0.dom(),
                forall|i: int| 0 <= i < all.len() ==> {
                    let (c2, r) = #[trigger] all[i];
                    &&& c2 < n
                    &&& env.has_merges(c2 as int)
                    &&& entries_clean(r@)
                    &&& edges_unique(env) ==> r@.len() == env.merge_count(c2 as int, c2 + 1, env.edges.len() as int, false)
                    &&& forall|l: Location, callee: FuncId| #[trigger] spec_canonical_flow_entry(r@, l, callee) == env.merged_canonical(c2 as int, l, callee)
                },
                forall|i: int, j: int| 0 <= i < j < all.len() ==> (#[trigger] all[i]).0 < (#[trigger] all[j]).0,
                forall|f: FuncId| #[trigger] m0.contains_key(f) ==> same_but_merge(m0[f], self.func_pfg_map@[f]),
                forall|f: FuncId| #[trigger] m0.contains_key(f) && !(exists|i: int| k <= i < all.len() && env.nodes[all[i].0 as int].func == f)
                    ==> self.func_pfg_map@[f].flow_entry_merge@ == m0[f].flow_entry_merge@,
                forall|i: int| k <= i < all.len() ==> m0.contains_key(env.nodes[(#[trigger] all[i]).0 as int].func)
                    && self.func_pfg_map@[env.nodes[all[i].0 as int].func].flow_entry_merge@ == all[i].1@,
            decreases k,
        {
            let ghost mb = self.func_pfg_map@;
            let (c2, r) = merged.pop().unwrap();
            proof {
                assert(all.take(k as int).last() == all[k - 1]);
                assert(merged@ =~= all.take(k - 1));
                assert(all[k - 1].0 == c2);
            }
            let f = self.call_graph.nodes[c2].func;
            proof {
                let e = choose|e: int| 0 <= e < env.edges.len() && env.edges[e].src == c2 && #[trigger] env.merged(e);
                let e2 = choose|e2: int| e2 != e && #[trigger] env.same_group(e, e2);
                assert(env.candidate(e));
                assert(m0.contains_key(f));
            }
            match self.func_pfg_map.remove(&f) {
                Some(mut pfg) => {
                    let ghost p0 = pfg;
                    pfg.flow_entry_merge = r;
                    self.func_pfg_map.insert(f, pfg);
                    proof {
                        let m2 = self.func_pfg_map@;
                        assert(m2 =~= mb.insert(f, pfg));
                        assert(p0 == mb[f]);
                        assert forall|g: FuncId| #[trigger] m0.contains_key(g) implies same_but_merge(m0[g], m2[g]) by {
                            if g == f {
                                assert(same_but_merge(m0[g], mb[g]));
                            } else {
                                assert(m2[g] == mb[g]);
                            }
                        }
                        assert forall|g: FuncId| #[trigger] m0.contains_key(g) && !(exists|i: int| k - 1 <= i < all.len() && env.nodes[all[i].0 as int].func == g)
                            implies m2[g].flow_entry_merge@ == m0[g].flow_entry_merge@ by {
                            assert(g != f) by {
                                if g == f {
                                    assert(env.nodes[all[k - 1].0 as int].func == g);
                                }
                            }
                            assert(m2[g] == mb[g]);
                            assert(!(exists|i: int| k <= i < all.len() && env.nodes[all[i].0 as int].func == g)) by {
                                if exists|i: int| k <= i < all.len() && env.nodes[all[i].0 as int].func == g {
                                    let i = choose|i: int| k <= i < all.len() && env.nodes[all[i].0 as int].func == g;
                                    assert(k - 1 <= i < all.len());
                                }
                            }
                        }
                        assert forall|i: int| k - 1 <= i < all.len() implies m0.contains_key(env.nodes[(#[trigger] all[i]).0 as int].func)
                            && m2[env.nodes[all[i].0 as int].func].flow_entry_merge@ == all[i].1@ by {
                            if i >= k {
                                assert(all[k - 1].0 < all[i].0);
                                assert(env.nodes[all[i].0 as int].func != f);
                            }
                        }
                    }
                },
                None => {
                    proof {
                        assert(false);
                    }
                },
            }
            k -= 1;
        }
        proof {
            lemma_merge_count_bounds(env, 0, n as int, env.edges.len() as int);
            let m1 = self.func_pfg_map@;
            assert forall|c: int, l: Location, callee: FuncId|
                0 <= c < env.nodes.len() && #[trigger] env.has_merges(c) implies m0.contains_key(env.nodes[c].func)
                    && #[trigger] spec_canonical_flow_entry(m1[env.nodes[c].func].flow_entry_merge@, l, callee) == env.merged_canonical(c, l, callee) by {
                let i = choose|i: int| 0 <= i < all.len() && (#[trigger] all[i]).0 == c;
                assert(all[i].0 == c);
            }
            if edges_unique(env) {
                assert forall|c: int| 0 <= c < env.nodes.len() && #[trigger] env.has_merges(c)
                    implies m1[env.nodes[c].func].flow_entry_merge@.len() == env.merge_count(c, c + 1, env.edges.len() as int, false) by {
                    let i = choose|i: int| 0 <= i < all.len() && (#[trigger] all[i]).0 == c;
                    assert(all[i].0 == c);
                }
                lemma_stored_merges(env, m1, n as int);
            }
            assert forall|c: int| 0 <= c < env.nodes.len() && #[trigger] env.has_merges(c)
                implies merge_entries_exact(env, c, m1[env.nodes[c].func].flow_entry_merge@) by {
                let i = choose|i: int| 0 <= i < all.len() && (#[trigger] all[i]).0 == c;
                assert(all[i].0 == c);
                lemma_entries_exact(env, c, all[i].1@);
            }
            assert forall|f: FuncId| #[trigger] m0.contains_key(f) && !merges_in(env, f) implies m1[f].flow_entry_merge@ == m0[f].flow_entry_merge@ by {
                if exists|i: int| 0 <= i < all.len() && env.nodes[all[i].0 as int].func == f {
                    let i = choose|i: int| 0 <= i < all.len() && env.nodes[all[i].0 as int].func == f;
                    assert(env.has_merges(all[i].0 as int));
                    assert(merges_in(env, f));
                }
            }
        }
        (n_sites, n_groups)
    }
}

/// A call that lies on its caller's parameter-to-result flow (a flow-through
/// callsite of the caller) is never merged: it is no candidate, has no
/// merged group, counts neither among the calls merged away nor among the
/// groups, and merging leaves it its own location for every callee.
pub proof fn lemma_flow_through_calls_not_merged(env: MergeEnv, e: int, callee: FuncId)
    requires
        0 <= e < env.edges.len(),
        env.m.contains_key(env.caller(e)),
        env.m[env.caller(e)].cs_callsites@.contains(env.edges[e].location),
    ensures
        !env.candidate(e),
        !env.merged(e),
        !env.counts_as(e, false),
        !env.counts_as(e, true),
        env.merged_canonical(env.edges[e].src as int, env.edges[e].location, callee) == env.edges[e].location,
{
    let c = env.edges[e].src as int;
    let l = env.edges[e].location;
    if exists|x: int| env.merged_pair(c, l, callee, x) {
        let x = choose|x: int| env.merged_pair(c, l, callee, x);
        let y = choose|y: int| y != x && #[trigger] env.same_group(x, y);
        assert(env.caller(x) == env.caller(e));
    }
    if env.has_earlier(e) {
        let y = choose|y: int| 0 <= y < e && #[trigger] env.same_group(e, y);
    }
}

/// After merging, a flow-through callsite of a caller that held no merge
/// entries before is looked up to itself, for every callee.
pub proof fn lemma_flow_through_lookup(env: MergeEnv, m0: Map<FuncId, FuncPFG>, m1: Map<FuncId, FuncPFG>, c: int, l: Location, callee: FuncId)
    requires
        merge_result(env, m0, m1),
        env.m == m0,
        forall|a: int, b: int|
            0 <= a < env.nodes.len() && 0 <= b < env.nodes.len() && a != b ==> (#[trigger] env.nodes[a]).func != (#[trigger] env.nodes[b]).func,
        0 <= c < env.nodes.len(),
        m0.contains_key(env.nodes[c].func),
        m0[env.nodes[c].func].flow_entry_merge@.len() == 0,
        m0[env.nodes[c].func].cs_callsites@.contains(l),
    ensures
        spec_canonical_flow_entry(m1[env.nodes[c].func].flow_entry_merge@, l, callee) == l,
{
    let f = env.nodes[c].func;
    if exists|x: int| env.merged_pair(c, l, callee, x) {
        let x = choose|x: int| env.merged_pair(c, l, callee, x);
        lemma_flow_through_calls_not_merged(env, x, callee);
    }
    assert(env.merged_canonical(c, l, callee) == l);
    if env.has_merges(c) {
        assert(spec_canonical_flow_entry(m1[env.nodes[c].func].flow_entry_merge@, l, callee) == env.merged_canonical(c, l, callee));
    } else {
        assert(!merges_in(env, f)) by {
            if merges_in(env, f) {
                let c2 = choose|c2: int| 0 <= c2 < env.nodes.len() && env.nodes[c2].func == f && #[trigger] env.has_merges(c2);
                assert(env.nodes[c2].func == env.nodes[c].func);
            }
        }
        assert(m1[f].flow_entry_merge@.len() == 0);
        assert(!exists|i: int| is_first_merge(m1[f].flow_entry_merge@, l, callee, i));
    }
}

} // verus!
