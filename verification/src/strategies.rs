//! Context strategies: how the calling context of a callee is built from the
//! callsite, the receiver and the caller's context, for k-callsite, k-object,
//! hybrid, selective and flow-entry (RCEUS) context sensitivity.

use vstd::prelude::*;
use std::collections::{HashMap, HashSet};
use crate::ids::{BaseCallSite, CSCallSite, CSPath, ContextId, FuncId, Location, Path};
use crate::context::{Context, ContextCache, ContextElement, k_limited, interned, lists_contexts, lemma_interned_same};
use crate::pfg::{FuncPFG, spec_canonical_flow_entry};

verus! {

broadcast use vstd::std_specs::hash::group_hash_axioms;

/// The context of a callee reached through a flow entry: first the flow
/// entry (the callsite itself when the call enters the flow here or the
/// caller has no context, else the caller's own flow entry), then the
/// k-limited callsite context.
pub open spec fn flow_entry_context(
    caller: Seq<BaseCallSite>,
    enters_here: bool,
    entry: BaseCallSite,
    site: BaseCallSite,
    k: usize,
) -> Seq<BaseCallSite> {
    seq![if enters_here || caller.len() == 0 { entry } else { caller[0] }] + k_limited(caller, site, k)
}

/// The context numbered `id` in `cache`, or the empty context when there is none.
pub open spec fn context_or_empty<V>(cache: Seq<Seq<V>>, id: ContextId) -> Seq<V> {
    if id < cache.len() {
        cache[id as int]
    } else {
        Seq::empty()
    }
}

/// A k-limited context holds at most `k` elements; unless `k` is 0 the new
/// element comes first and the rest is the start of the old context.
pub proof fn lemma_k_limited<V>(old: Seq<V>, elem: V, k: usize)
    ensures
        k_limited(old, elem, k).len() <= k,
        k > 0 ==> k_limited(old, elem, k)[0] == elem,
        k > 0 ==> k_limited(old, elem, k).drop_first() == old.take(k_limited(old, elem, k).len() - 1),
        k == 0 ==> k_limited(old, elem, k).len() == 0,
{
    if k > 0 {
        let c = k_limited(old, elem, k);
        if old.len() < k {
            assert(old.take(old.len() as int) =~= old);
            assert(c.drop_first() =~= old);
        } else {
            assert(c.drop_first() =~= old.take(k - 1));
        }
    }
}

/// Along a chain of flow-through calls the flow entry is passed on: a callee
/// whose call does not enter the flow, from a caller with a context, starts
/// with the caller's first element; a call that enters the flow starts with
/// the entry.
pub proof fn lemma_flow_entry_first(
    caller: Seq<BaseCallSite>,
    enters_here: bool,
    entry: BaseCallSite,
    site: BaseCallSite,
    k: usize,
)
    ensures
        !enters_here && caller.len() > 0 ==> flow_entry_context(caller, enters_here, entry, site, k)[0] == caller[0],
        enters_here ==> flow_entry_context(caller, enters_here, entry, site, k)[0] == entry,
        flow_entry_context(caller, enters_here, entry, site, k).len() <= k + 1,
{
    lemma_k_limited(caller, site, k);
}

/// A set with the same functions as `s`.
fn clone_func_set(s: &HashSet<FuncId>) -> (r: HashSet<FuncId>)
    ensures
        r@ == s@,
{
    let mut r: HashSet<FuncId> = HashSet::new();
    for x in it: s.iter()
        invariant
            forall|f: FuncId| #[trigger] it.seq().unref().to_set().contains(f) <==> s@.contains(f),
            forall|f: FuncId| #[trigger] r@.contains(f) ==> s@.contains(f),
            forall|f: FuncId| #[trigger] s@.contains(f) ==> r@.contains(f) || exists|i: int| it.index() <= i < it.seq().len() && *it.seq()[i] == f,
    {
        let ghost before = r@;
        proof {
            assert(it.seq().unref()[it.index() as int] == *x);
            assert(it.seq().unref().to_set().contains(*x));
        }
        r.insert(*x);
        proof {
            assert forall|f: FuncId| #[trigger] s@.contains(f) implies r@.contains(f) || exists|i: int| it.index() + 1 <= i < it.seq().len() && *it.seq()[i] == f by {
                if !before.contains(f) && f != *x {
                    let i = choose|i: int| it.index() <= i < it.seq().len() && *it.seq()[i] == f;
                    assert(i != it.index());
                }
            }
        }
    }
    proof {
        assert(r@ =~= s@);
    }
    r
}

/// The receiver of a call, by value.
pub open spec fn receiver_of(receiver: Option<&CSPath>) -> Option<CSPath> {
    match receiver {
        Some(p) => Some(*p),
        None => None,
    }
}

/// How a context-sensitive analysis numbers calling contexts and chooses the
/// context of each callee. Each strategy states in its own methods which
/// context it gives; what every strategy keeps is its well-formedness.
pub trait ContextStrategy: Sized {
    type E: ContextElement;

    /// The strategy's state is consistent.
    spec fn wf(&self) -> bool;

    /// The strategy can give a context to a static call at `callsite` to
    /// `callee`: the contexts it has to look up are known.
    spec fn accepts_static_call(&self, callsite: CSCallSite, callee: FuncId) -> bool;

    /// The strategy can give a context to a method call at `callsite` to
    /// `callee` on `receiver`.
    spec fn accepts_instance_call(&self, callsite: CSCallSite, receiver: Option<CSPath>, callee: FuncId) -> bool;

    /// What a static call to `callee` at `callsite` that returned `id` did,
    /// `post` being the strategy after the call: the context the strategy
    /// gives such a call was interned under `id`.
    spec fn static_call_done(&self, post: Self, callsite: CSCallSite, callee: FuncId, id: ContextId) -> bool;

    /// What a method call to `callee` at `callsite` on `receiver` that
    /// returned `r` did, `post` being the strategy after the call.
    spec fn instance_call_done(
        &self,
        post: Self,
        callsite: CSCallSite,
        receiver: Option<CSPath>,
        callee: FuncId,
        r: Option<ContextId>,
    ) -> bool;

    /// The context with no element.
    fn empty_context(&self) -> (c: Context<Self::E>)
        ensures
            c@.len() == 0,
    ;

    /// The number of the empty context.
    fn get_empty_context_id(&mut self) -> (id: ContextId)
        requires
            old(self).wf(),
        ensures
            final(self).wf(),
    ;

    /// The number of `context`, interning it when it is new.
    fn get_context_id(&mut self, context: &Context<Self::E>) -> (id: ContextId)
        requires
            old(self).wf(),
        ensures
            final(self).wf(),
    ;

    /// The context numbered `context_id`.
    fn get_context_by_id(&self, context_id: ContextId) -> (c: Context<Self::E>);

    /// The contexts the strategy has interned, with their numbers, for the
    /// strategies that keep them.
    fn get_context_iter(&self) -> (r: Option<Vec<(Context<Self::E>, ContextId)>>)
        default_ensures
            r is None,
    {
        None
    }

    /// The context of `callee` called as a method at `callsite` on `receiver`,
    /// if the strategy gives one.
    fn new_instance_call_context(&mut self, callsite: &CSCallSite, receiver: Option<&CSPath>, callee: FuncId) -> (r: Option<
        ContextId,
    >)
        requires
            old(self).wf(),
            old(self).accepts_instance_call(*callsite, receiver_of(receiver), callee),
        ensures
            final(self).wf(),
            old(self).instance_call_done(*final(self), *callsite, receiver_of(receiver), callee, r),
    ;

    /// The context of `callee` called statically at `callsite`.
    fn new_static_call_context(&mut self, callsite: &CSCallSite, callee: FuncId) -> (id: ContextId)
        requires
            old(self).wf(),
            old(self).accepts_static_call(*callsite, callee),
        ensures
            final(self).wf(),
            old(self).static_call_done(*final(self), *callsite, callee, id),
    ;

    /// Hands the strategy the precision-critical functions and the pointer
    /// flow graphs of the pre-analysis; most strategies ignore them.
    fn set_prec_crit_fn_ident_data(&mut self, cs_funcs: HashSet<FuncId>, func_pfg_map: HashMap<FuncId, FuncPFG>)
        requires
            old(self).wf(),
            forall|f: FuncId| #[trigger] func_pfg_map@.contains_key(f) ==> func_pfg_map@[f].wf(),
        ensures
            final(self).wf(),
        default_ensures
            *final(self) == *old(self),
    {
    }

    /// Suppresses the provenance of the given flow-entry callees; most
    /// strategies ignore it.
    fn set_noprov_callees(&mut self, callees: HashSet<FuncId>)
        requires
            old(self).wf(),
        ensures
            final(self).wf(),
        default_ensures
            *final(self) == *old(self),
    {
    }

    /// Restricts the suppression to flow entries in the given functions; most
    /// strategies ignore it.
    fn set_noprov_sites(&mut self, sites: HashSet<FuncId>)
        requires
            old(self).wf(),
        ensures
            final(self).wf(),
        default_ensures
            *final(self) == *old(self),
    {
    }

    /// Treats the given functions as the precision-critical ones, the flow
    /// entries being the calls into them from outside; most strategies
    /// ignore it.
    fn set_library_mode(&mut self, library_funcs: HashSet<FuncId>)
        requires
            old(self).wf(),
        ensures
            final(self).wf(),
        default_ensures
            *final(self) == *old(self),
    {
    }

    /// The precision-critical functions the strategy was handed, for
    /// strategies that use them.
    fn cs_funcs(&self) -> (r: Option<&HashSet<FuncId>>)
        default_ensures
            r is None,
    {
        None
    }
}

/// Context-insensitive analysis: every function has the empty context, number 0.
pub struct ContextInsensitive {}

impl ContextStrategy for ContextInsensitive {
    type E = BaseCallSite;

    open spec fn wf(&self) -> bool {
        true
    }

    open spec fn accepts_static_call(&self, callsite: CSCallSite, callee: FuncId) -> bool {
        true
    }

    open spec fn accepts_instance_call(&self, callsite: CSCallSite, receiver: Option<CSPath>, callee: FuncId) -> bool {
        true
    }

    open spec fn static_call_done(&self, post: Self, callsite: CSCallSite, callee: FuncId, id: ContextId) -> bool {
        &&& id == 0
    }

    open spec fn instance_call_done(
        &self,
        post: Self,
        callsite: CSCallSite,
        receiver: Option<CSPath>,
        callee: FuncId,
        r: Option<ContextId>,
    ) -> bool {
        &&& r == Some(0usize)
    }

    fn empty_context(&self) -> (c: Context<BaseCallSite>) {
        Context::new_empty()
    }

    fn get_empty_context_id(&mut self) -> (id: ContextId)
        ensures
            id == 0,
    {
        0
    }

    fn get_context_id(&mut self, _context: &Context<BaseCallSite>) -> (id: ContextId)
        ensures
            id == 0,
    {
        0
    }

    fn get_context_by_id(&self, _context_id: ContextId) -> (c: Context<BaseCallSite>)
        ensures
            c@ == Seq::<BaseCallSite>::empty(),
    {
        Context::new_empty()
    }

    fn new_instance_call_context(
        &mut self,
        _callsite: &CSCallSite,
        _receiver: Option<&CSPath>,
        _callee: FuncId,
    ) -> (r: Option<ContextId>)
    {
        Some(0)
    }

    fn new_static_call_context(&mut self, _callsite: &CSCallSite, _callee: FuncId) -> (id: ContextId)
    {
        0
    }
}

/// k-callsite sensitivity: a callee's context is the callsite followed by the
/// caller's context, at most `k` callsites.
pub struct KCallSiteSensitive {
    /// Context length limit for methods
    pub k: usize,
    pub ctx_cache: ContextCache<BaseCallSite>,
}

impl KCallSiteSensitive {
    pub fn new(k: usize) -> (s: KCallSiteSensitive)
        ensures
            s.wf(),
            s.k == k,
            s.ctx_cache@ == seq![Seq::<BaseCallSite>::empty()],
    {
        KCallSiteSensitive { k, ctx_cache: ContextCache::new() }
    }

    /// The context of a call at `callsite`, whose caller's context must be known.
    pub fn new_context(&mut self, callsite: &CSCallSite) -> (id: ContextId)
        requires
            old(self).wf(),
            callsite.func.cid < old(self).ctx_cache@.len(),
        ensures
            final(self).wf(),
            final(self).k == old(self).k,
            interned(
                old(self).ctx_cache@,
                final(self).ctx_cache@,
                k_limited(old(self).ctx_cache@[callsite.func.cid as int], callsite.spec_base(), old(self).k),
                id,
            ),
    {
        let caller_ctx = self.ctx_cache.get_context(callsite.func.cid).unwrap();
        let callee_ctx = Context::new_k_limited_context(caller_ctx, callsite.base(), self.k);
        self.ctx_cache.get_context_id(&callee_ctx)
    }
}

impl ContextStrategy for KCallSiteSensitive {
    type E = BaseCallSite;

    open spec fn wf(&self) -> bool {
        self.ctx_cache.wf()
    }

    open spec fn accepts_static_call(&self, callsite: CSCallSite, callee: FuncId) -> bool {
        callsite.func.cid < self.ctx_cache@.len()
    }

    open spec fn accepts_instance_call(&self, callsite: CSCallSite, receiver: Option<CSPath>, callee: FuncId) -> bool {
        callsite.func.cid < self.ctx_cache@.len()
    }

    open spec fn static_call_done(&self, post: Self, callsite: CSCallSite, callee: FuncId, id: ContextId) -> bool {
        &&& post.k == self.k
        &&& interned(
            self.ctx_cache@,
            post.ctx_cache@,
            k_limited(self.ctx_cache@[callsite.func.cid as int], callsite.spec_base(), self.k),
            id
        )
    }

    open spec fn instance_call_done(
        &self,
        post: Self,
        callsite: CSCallSite,
        receiver: Option<CSPath>,
        callee: FuncId,
        r: Option<ContextId>,
    ) -> bool {
        &&& post.k == self.k
        &&& r is Some
        &&& interned(
            self.ctx_cache@,
            post.ctx_cache@,
            k_limited(self.ctx_cache@[callsite.func.cid as int], callsite.spec_base(), self.k),
            r->0
        )
    }

    fn empty_context(&self) -> (c: Context<BaseCallSite>) {
        Context::new_empty()
    }

    fn get_context_id(&mut self, context: &Context<BaseCallSite>) -> (id: ContextId)
        ensures
            final(self).wf(),
            final(self).k == old(self).k,
            interned(old(self).ctx_cache@, final(self).ctx_cache@, context@, id),
    {
        self.ctx_cache.get_context_id(context)
    }

    /// The context numbered `context_id`, or the empty context when there is none.
    fn get_context_by_id(&self, context_id: ContextId) -> (c: Context<BaseCallSite>)
        ensures
            c@ == context_or_empty(self.ctx_cache@, context_id),
    {
        match self.ctx_cache.get_context(context_id) {
            Some(c) => c.duplicate(),
            None => Context::new_empty(),
        }
    }

    fn get_context_iter(&self) -> (r: Option<Vec<(Context<BaseCallSite>, ContextId)>>)
        ensures
            r matches Some(v) && lists_contexts(v@, self.ctx_cache@),
    {
        Some(self.ctx_cache.get_context_iter())
    }

    /// The number of the empty context, which is always 0.
    fn get_empty_context_id(&mut self) -> (id: ContextId)
        ensures
            final(self).wf(),
            id == 0,
            final(self).ctx_cache@ == old(self).ctx_cache@,
            final(self).k == old(self).k,
    {
        let e = Context::new_empty();
        let id = self.ctx_cache.get_context_id(&e);
        proof {
            assert(old(self).ctx_cache@[0] == e@);
        }
        id
    }

    fn new_instance_call_context(
        &mut self,
        callsite: &CSCallSite,
        _receiver: Option<&CSPath>,
        _callee: FuncId,
    ) -> (r: Option<ContextId>)
    {
        Some(self.new_context(callsite))
    }

    fn new_static_call_context(&mut self, callsite: &CSCallSite, _callee: FuncId) -> (id: ContextId)
    {
        self.new_context(callsite)
    }
}

/// k-object sensitivity: a method's context is its receiver object followed by
/// the receiver's context, at most `k` objects; a static call keeps the
/// caller's context.
pub struct KObjectSensitive {
    /// Context length limit for methods
    pub k: usize,
    pub ctx_cache: ContextCache<Path>,
}

impl KObjectSensitive {
    pub fn new(k: usize) -> (s: KObjectSensitive)
        ensures
            s.wf(),
            s.k == k,
            s.ctx_cache@ == seq![Seq::<Path>::empty()],
    {
        KObjectSensitive { k, ctx_cache: ContextCache::new() }
    }

    /// The context of a method called on `receiver`, whose context must be known.
    pub fn new_context(&mut self, receiver: CSPath) -> (id: ContextId)
        requires
            old(self).wf(),
            receiver.cid < old(self).ctx_cache@.len(),
        ensures
            final(self).wf(),
            final(self).k == old(self).k,
            interned(
                old(self).ctx_cache@,
                final(self).ctx_cache@,
                k_limited(old(self).ctx_cache@[receiver.cid as int], receiver.path, old(self).k),
                id,
            ),
    {
        let receiver_ctx = self.ctx_cache.get_context(receiver.cid).unwrap();
        let callee_ctx = Context::new_k_limited_context(receiver_ctx, receiver.path, self.k);
        self.ctx_cache.get_context_id(&callee_ctx)
    }
}

impl ContextStrategy for KObjectSensitive {
    type E = Path;

    open spec fn wf(&self) -> bool {
        self.ctx_cache.wf()
    }

    open spec fn accepts_static_call(&self, callsite: CSCallSite, callee: FuncId) -> bool {
        true
    }

    open spec fn accepts_instance_call(&self, callsite: CSCallSite, receiver: Option<CSPath>, callee: FuncId) -> bool {
        receiver matches Some(p) ==> p.cid < self.ctx_cache@.len()
    }

    open spec fn static_call_done(&self, post: Self, callsite: CSCallSite, callee: FuncId, id: ContextId) -> bool {
        &&& id == callsite.func.cid
        &&& post.ctx_cache@ == self.ctx_cache@
        &&& post.k == self.k
    }

    open spec fn instance_call_done(
        &self,
        post: Self,
        callsite: CSCallSite,
        receiver: Option<CSPath>,
        callee: FuncId,
        r: Option<ContextId>,
    ) -> bool {
        &&& post.k == self.k
        &&& receiver is None ==> r is None && post.ctx_cache@ == self.ctx_cache@
        &&& receiver matches Some(p) ==> r is Some && interned(
            self.ctx_cache@,
            post.ctx_cache@,
            k_limited(self.ctx_cache@[p.cid as int], p.path, self.k),
            r->0
        )
    }

    fn empty_context(&self) -> (c: Context<Path>) {
        Context::new_empty()
    }

    fn get_context_id(&mut self, context: &Context<Path>) -> (id: ContextId)
        ensures
            final(self).k == old(self).k,
            interned(old(self).ctx_cache@, final(self).ctx_cache@, context@, id),
    {
        self.ctx_cache.get_context_id(context)
    }

    /// The context numbered `context_id`, or the empty context when there is none.
    fn get_context_by_id(&self, context_id: ContextId) -> (c: Context<Path>)
        ensures
            c@ == context_or_empty(self.ctx_cache@, context_id),
    {
        match self.ctx_cache.get_context(context_id) {
            Some(c) => c.duplicate(),
            None => Context::new_empty(),
        }
    }

    /// The number of the empty context, which is always 0.
    fn get_empty_context_id(&mut self) -> (id: ContextId)
        ensures
            id == 0,
            final(self).ctx_cache@ == old(self).ctx_cache@,
            final(self).k == old(self).k,
    {
        let e = Context::new_empty();
        let id = self.ctx_cache.get_context_id(&e);
        proof {
            assert(old(self).ctx_cache@[0] == e@);
        }
        id
    }

    /// A method call gets the receiver's object context; without a receiver
    /// there is none.
    fn new_instance_call_context(
        &mut self,
        _callsite: &CSCallSite,
        receiver: Option<&CSPath>,
        _callee: FuncId,
    ) -> (r: Option<ContextId>)
    {
        match receiver {
            Some(p) => Some(self.new_context(*p)),
            None => None,
        }
    }

    /// A static call keeps the caller's context.
    fn new_static_call_context(&mut self, callsite: &CSCallSite, _callee: FuncId) -> (id: ContextId)
    {
        callsite.func.cid
    }
}

/// An element of a hybrid context: a receiver object or a callsite.
#[derive(Clone, Copy, Debug, PartialEq, Eq, Hash, Structural)]
pub enum HybridCtxElem {
    Object(Path),
    CallSite(BaseCallSite),
}

impl View for HybridCtxElem {
    type V = HybridCtxElem;

    open spec fn view(&self) -> HybridCtxElem {
        *self
    }
}

impl ContextElement for HybridCtxElem {
    fn same(&self, other: &Self) -> (r: bool) {
        *self == *other
    }

    fn duplicate(&self) -> (r: Self) {
        *self
    }
}

/// Hybrid sensitivity: methods called on a receiver are analysed
/// object-sensitively, statically called functions callsite-sensitively.
pub struct SimpleHybridContextSensitive {
    /// Context length limit for methods
    pub k: usize,
    pub ctx_cache: ContextCache<HybridCtxElem>,
}

impl SimpleHybridContextSensitive {
    pub fn new(k: usize) -> (s: SimpleHybridContextSensitive)
        ensures
            s.wf(),
            s.k == k,
            s.ctx_cache@ == seq![Seq::<HybridCtxElem>::empty()],
    {
        SimpleHybridContextSensitive { k, ctx_cache: ContextCache::new() }
    }

    /// The context of a method called on `receiver`: the receiver object
    /// followed by the receiver's context.
    pub fn new_instance_call_context(&mut self, receiver: CSPath) -> (id: ContextId)
        requires
            old(self).wf(),
            receiver.cid < old(self).ctx_cache@.len(),
        ensures
            final(self).wf(),
            final(self).k == old(self).k,
            interned(
                old(self).ctx_cache@,
                final(self).ctx_cache@,
                k_limited(old(self).ctx_cache@[receiver.cid as int], HybridCtxElem::Object(receiver.path), old(self).k),
                id,
            ),
    {
        let receiver_ctx = self.ctx_cache.get_context(receiver.cid).unwrap();
        let callee_ctx = Context::new_k_limited_context(receiver_ctx, HybridCtxElem::Object(receiver.path), self.k);
        self.ctx_cache.get_context_id(&callee_ctx)
    }

    /// The context of a statically called function: the callsite followed by
    /// the caller's context.
    pub fn new_static_call_context(&mut self, callsite: &CSCallSite) -> (id: ContextId)
        requires
            old(self).wf(),
            callsite.func.cid < old(self).ctx_cache@.len(),
        ensures
            final(self).wf(),
            final(self).k == old(self).k,
            interned(
                old(self).ctx_cache@,
                final(self).ctx_cache@,
                k_limited(
                    old(self).ctx_cache@[callsite.func.cid as int],
                    HybridCtxElem::CallSite(callsite.spec_base()),
                    old(self).k,
                ),
                id,
            ),
    {
        let caller_ctx = self.ctx_cache.get_context(callsite.func.cid).unwrap();
        let callee_ctx = Context::new_k_limited_context(caller_ctx, HybridCtxElem::CallSite(callsite.base()), self.k);
        self.ctx_cache.get_context_id(&callee_ctx)
    }
}

impl ContextStrategy for SimpleHybridContextSensitive {
    type E = HybridCtxElem;

    open spec fn wf(&self) -> bool {
        self.ctx_cache.wf()
    }

    open spec fn accepts_static_call(&self, callsite: CSCallSite, callee: FuncId) -> bool {
        callsite.func.cid < self.ctx_cache@.len()
    }

    open spec fn accepts_instance_call(&self, callsite: CSCallSite, receiver: Option<CSPath>, callee: FuncId) -> bool {
        receiver matches Some(p) ==> p.cid < self.ctx_cache@.len()
    }

    open spec fn static_call_done(&self, post: Self, callsite: CSCallSite, callee: FuncId, id: ContextId) -> bool {
        &&& post.k == self.k
        &&& interned(
            self.ctx_cache@,
            post.ctx_cache@,
            k_limited(self.ctx_cache@[callsite.func.cid as int], HybridCtxElem::CallSite(callsite.spec_base()), self.k),
            id,
        )
    }

    open spec fn instance_call_done(
        &self,
        post: Self,
        callsite: CSCallSite,
        receiver: Option<CSPath>,
        callee: FuncId,
        r: Option<ContextId>,
    ) -> bool {
        &&& post.k == self.k
        &&& receiver is None ==> r is None && post.ctx_cache@ == self.ctx_cache@
        &&& receiver matches Some(p) ==> r is Some && interned(
            self.ctx_cache@,
            post.ctx_cache@,
            k_limited(self.ctx_cache@[p.cid as int], HybridCtxElem::Object(p.path), self.k),
            r->0,
        )
    }

    fn empty_context(&self) -> (c: Context<HybridCtxElem>) {
        Context::new_empty()
    }

    fn get_context_id(&mut self, context: &Context<HybridCtxElem>) -> (id: ContextId)
        ensures
            final(self).k == old(self).k,
            interned(old(self).ctx_cache@, final(self).ctx_cache@, context@, id),
    {
        self.ctx_cache.get_context_id(context)
    }

    /// The context numbered `context_id`, or the empty context when there is none.
    fn get_context_by_id(&self, context_id: ContextId) -> (c: Context<HybridCtxElem>)
        ensures
            c@ == context_or_empty(self.ctx_cache@, context_id),
    {
        match self.ctx_cache.get_context(context_id) {
            Some(c) => c.duplicate(),
            None => Context::new_empty(),
        }
    }

    /// The number of the empty context, which is always 0.
    fn get_empty_context_id(&mut self) -> (id: ContextId)
        ensures
            id == 0,
            final(self).ctx_cache@ == old(self).ctx_cache@,
            final(self).k == old(self).k,
    {
        let e = Context::new_empty();
        let id = self.ctx_cache.get_context_id(&e);
        proof {
            assert(old(self).ctx_cache@[0] == e@);
        }
        id
    }

    /// A method call gets the receiver's object context; without a receiver
    /// there is none.
    fn new_instance_call_context(
        &mut self,
        _callsite: &CSCallSite,
        receiver: Option<&CSPath>,
        _callee: FuncId,
    ) -> (r: Option<ContextId>)
    {
        match receiver {
            Some(p) => Some(SimpleHybridContextSensitive::new_instance_call_context(self, *p)),
            None => None,
        }
    }

    /// A static call gets the callsite context.
    fn new_static_call_context(&mut self, callsite: &CSCallSite, _callee: FuncId) -> (id: ContextId)
    {
        SimpleHybridContextSensitive::new_static_call_context(self, callsite)
    }
}

/// Selective callsite sensitivity: a precision-critical callee gets the
/// k-limited callsite context, every other callee the empty context.
pub struct SelectiveCallSiteSensitive {
    pub inner: KCallSiteSensitive,
    pub cs_funcs: HashSet<FuncId>,
}

impl SelectiveCallSiteSensitive {
    /// The context a call to `callee` at `callsite` gets.
    pub open spec fn target(&self, callsite: CSCallSite, callee: FuncId) -> Seq<BaseCallSite> {
        if self.cs_funcs@.contains(callee) {
            k_limited(self.inner.ctx_cache@[callsite.func.cid as int], callsite.spec_base(), self.inner.k)
        } else {
            Seq::empty()
        }
    }

    pub fn new(k: usize) -> (s: SelectiveCallSiteSensitive)
        ensures
            s.wf(),
            s.inner.k == k,
            s.inner.ctx_cache@ == seq![Seq::<BaseCallSite>::empty()],
            s.cs_funcs@ == Set::<FuncId>::empty(),
    {
        SelectiveCallSiteSensitive { inner: KCallSiteSensitive::new(k), cs_funcs: HashSet::new() }
    }

    /// The context of a callee that is not precision-critical: the empty one.
    pub fn insensitive_context(&mut self) -> (id: ContextId)
        requires
            old(self).wf(),
        ensures
            final(self).wf(),
            id == 0,
            final(self).inner.ctx_cache@ == old(self).inner.ctx_cache@,
            final(self).inner.k == old(self).inner.k,
            final(self).cs_funcs@ == old(self).cs_funcs@,
    {
        self.inner.get_empty_context_id()
    }
}

impl ContextStrategy for SelectiveCallSiteSensitive {
    type E = BaseCallSite;

    open spec fn wf(&self) -> bool {
        self.inner.wf()
    }

    open spec fn accepts_static_call(&self, callsite: CSCallSite, callee: FuncId) -> bool {
        self.cs_funcs@.contains(callee) ==> callsite.func.cid < self.inner.ctx_cache@.len()
    }

    open spec fn accepts_instance_call(&self, callsite: CSCallSite, receiver: Option<CSPath>, callee: FuncId) -> bool {
        self.cs_funcs@.contains(callee) ==> callsite.func.cid < self.inner.ctx_cache@.len()
    }

    open spec fn static_call_done(&self, post: Self, callsite: CSCallSite, callee: FuncId, id: ContextId) -> bool {
        &&& post.inner.k == self.inner.k
        &&& post.cs_funcs@ == self.cs_funcs@
        &&& interned(self.inner.ctx_cache@, post.inner.ctx_cache@, self.target(callsite, callee), id)
    }

    open spec fn instance_call_done(
        &self,
        post: Self,
        callsite: CSCallSite,
        receiver: Option<CSPath>,
        callee: FuncId,
        r: Option<ContextId>,
    ) -> bool {
        &&& post.inner.k == self.inner.k
        &&& post.cs_funcs@ == self.cs_funcs@
        &&& r is Some
        &&& interned(self.inner.ctx_cache@, post.inner.ctx_cache@, self.target(callsite, callee), r->0)
    }

    fn empty_context(&self) -> (c: Context<BaseCallSite>) {
        self.inner.empty_context()
    }

    /// The number of the empty context, which is always 0.
    fn get_empty_context_id(&mut self) -> (id: ContextId)
        ensures
            id == 0,
            final(self).inner.ctx_cache@ == old(self).inner.ctx_cache@,
            final(self).inner.k == old(self).inner.k,
            final(self).cs_funcs@ == old(self).cs_funcs@,
    {
        self.inner.get_empty_context_id()
    }

    fn get_context_id(&mut self, context: &Context<BaseCallSite>) -> (id: ContextId)
        ensures
            final(self).inner.k == old(self).inner.k,
            final(self).cs_funcs@ == old(self).cs_funcs@,
            interned(old(self).inner.ctx_cache@, final(self).inner.ctx_cache@, context@, id),
    {
        self.inner.get_context_id(context)
    }

    /// The context numbered `context_id`, or the empty context when there is none.
    fn get_context_by_id(&self, context_id: ContextId) -> (c: Context<BaseCallSite>)
        ensures
            c@ == context_or_empty(self.inner.ctx_cache@, context_id),
    {
        self.inner.get_context_by_id(context_id)
    }

    fn get_context_iter(&self) -> (r: Option<Vec<(Context<BaseCallSite>, ContextId)>>)
        ensures
            r matches Some(v) && lists_contexts(v@, self.inner.ctx_cache@),
    {
        self.inner.get_context_iter()
    }

    fn new_static_call_context(&mut self, callsite: &CSCallSite, callee: FuncId) -> (id: ContextId)
    {
        if self.cs_funcs.contains(&callee) {
            self.inner.new_static_call_context(callsite, callee)
        } else {
            let id = self.insensitive_context();
            proof {
                assert(old(self).inner.ctx_cache@[0] == Seq::<BaseCallSite>::empty());
            }
            id
        }
    }

    /// As for a static call: the callsite context, never the receiver's.
    fn new_instance_call_context(
        &mut self,
        callsite: &CSCallSite,
        _receiver: Option<&CSPath>,
        callee: FuncId,
    ) -> (r: Option<ContextId>)
    {
        if self.cs_funcs.contains(&callee) {
            Some(self.inner.new_context(callsite))
        } else {
            let id = self.insensitive_context();
            proof {
                assert(old(self).inner.ctx_cache@[0] == Seq::<BaseCallSite>::empty());
            }
            Some(id)
        }
    }

    /// Takes the precision-critical functions; the flow graphs are not needed.
    fn set_prec_crit_fn_ident_data(&mut self, cs_funcs: HashSet<FuncId>, _func_pfg_map: HashMap<FuncId, FuncPFG>)
        ensures
            final(self).cs_funcs@ == cs_funcs@,
            final(self).inner == old(self).inner,
    {
        self.cs_funcs = cs_funcs;
    }

    fn cs_funcs(&self) -> (r: Option<&HashSet<FuncId>>)
        ensures
            r == Some(&self.cs_funcs),
    {
        Some(&self.cs_funcs)
    }
}

/// Callsite sensitivity with flow entries (RCEUS): a precision-critical callee's
/// context starts with the callsite where the pointer flow entered the chain
/// of precision-critical calls, then holds the k-limited callsite context.
/// Callees that are not precision-critical get the k-limited context, or the
/// empty one when `selective` is set.
pub struct RCEUSCallSiteSensitive {
    pub inner: KCallSiteSensitive,
    pub cs_funcs: HashSet<FuncId>,
    pub func_pfg_map: HashMap<FuncId, FuncPFG>,
    pub selective: bool,
    /// When set, the precision-critical functions are these library functions
    /// and a call enters the flow where a function outside them calls in.
    pub library_funcs: Option<HashSet<FuncId>>,
}

impl RCEUSCallSiteSensitive {
    /// The context a call to `callee` at `callsite` gets.
    pub open spec fn target(&self, callsite: CSCallSite, callee: FuncId) -> Seq<BaseCallSite> {
        let cache = self.inner.ctx_cache@;
        let caller = context_or_empty(cache, callsite.func.cid);
        let site = callsite.spec_base();
        let caller_func = callsite.func.func_id;
        let k = self.inner.k;
        let critical = self.cs_funcs@.contains(callee);
        if critical && !self.func_pfg_map@.contains_key(callee) {
            Seq::empty()
        } else if critical && self.library_funcs is Some {
            flow_entry_context(caller, !self.library_funcs->0@.contains(caller_func), site, site, k)
        } else if critical && self.func_pfg_map@.contains_key(caller_func) {
            let enters = !self.func_pfg_map@[caller_func].cs_callsites@.contains(callsite.location);
            flow_entry_context(caller, enters, site, site, k)
        } else if self.selective {
            Seq::empty()
        } else {
            k_limited(cache[callsite.func.cid as int], site, k)
        }
    }

    /// The caller's context must be known where the k-limited context is built.
    pub open spec fn call_ok(&self, callsite: CSCallSite, callee: FuncId) -> bool {
        let critical = self.cs_funcs@.contains(callee);
        let flow_case = critical && (!self.func_pfg_map@.contains_key(callee) || self.library_funcs is Some
            || self.func_pfg_map@.contains_key(callsite.func.func_id));
        !flow_case && !self.selective ==> callsite.func.cid < self.inner.ctx_cache@.len()
    }

    /// Everything but the context cache is unchanged.
    pub open spec fn same_setup(&self, other: &RCEUSCallSiteSensitive) -> bool {
        &&& self.inner.k == other.inner.k
        &&& self.cs_funcs@ == other.cs_funcs@
        &&& self.func_pfg_map@ == other.func_pfg_map@
        &&& self.selective == other.selective
        &&& self.library_funcs == other.library_funcs
    }

    pub fn new(k: usize) -> (s: RCEUSCallSiteSensitive)
        ensures
            s.wf(),
            s.inner.k == k,
            s.inner.ctx_cache@ == seq![Seq::<BaseCallSite>::empty()],
            s.cs_funcs@ == Set::<FuncId>::empty(),
            s.func_pfg_map@ == Map::<FuncId, FuncPFG>::empty(),
            !s.selective,
            s.library_funcs is None,
    {
        RCEUSCallSiteSensitive {
            inner: KCallSiteSensitive::new(k),
            cs_funcs: HashSet::new(),
            func_pfg_map: HashMap::new(),
            selective: false,
            library_funcs: None,
        }
    }

    /// As `new`, but callees that are not precision-critical are analysed
    /// context-insensitively.
    pub fn new_selective(k: usize) -> (s: RCEUSCallSiteSensitive)
        ensures
            s.wf(),
            s.inner.k == k,
            s.inner.ctx_cache@ == seq![Seq::<BaseCallSite>::empty()],
            s.cs_funcs@ == Set::<FuncId>::empty(),
            s.func_pfg_map@ == Map::<FuncId, FuncPFG>::empty(),
            s.selective,
            s.library_funcs is None,
    {
        let mut s = Self::new(k);
        s.selective = true;
        s
    }

    /// The flow-entry context where a call enters the flow when its caller is
    /// not a library function or has no context.
    fn library_context(inner: &mut KCallSiteSensitive, callsite: &CSCallSite, library_funcs: &HashSet<FuncId>) -> (id: ContextId)
        requires
            old(inner).wf(),
        ensures
            final(inner).wf(),
            final(inner).k == old(inner).k,
            interned(
                old(inner).ctx_cache@,
                final(inner).ctx_cache@,
                flow_entry_context(
                    context_or_empty(old(inner).ctx_cache@, callsite.func.cid),
                    !library_funcs@.contains(callsite.func.func_id),
                    callsite.spec_base(),
                    callsite.spec_base(),
                    old(inner).k,
                ),
                id,
            ),
    {
        let enters = !library_funcs.contains(&callsite.func.func_id);
        Self::flow_entry_callee_context(inner, callsite, enters, callsite.base())
    }

    /// The flow-entry context where a call enters the flow unless it lies on
    /// the caller's parameter-to-result flow.
    fn rceus_context(inner: &mut KCallSiteSensitive, callsite: &CSCallSite, caller_pfg: &FuncPFG) -> (id: ContextId)
        requires
            old(inner).wf(),
        ensures
            final(inner).wf(),
            final(inner).k == old(inner).k,
            interned(
                old(inner).ctx_cache@,
                final(inner).ctx_cache@,
                flow_entry_context(
                    context_or_empty(old(inner).ctx_cache@, callsite.func.cid),
                    !caller_pfg.cs_callsites@.contains(callsite.location),
                    callsite.spec_base(),
                    callsite.spec_base(),
                    old(inner).k,
                ),
                id,
            ),
    {
        let enters = !caller_pfg.is_cs_callsite(&callsite.location);
        Self::flow_entry_callee_context(inner, callsite, enters, callsite.base())
    }

    /// Interns `[e] ++ k-limited context`, where `e` is `entry` when the call
    /// enters the flow or the caller has no context, and else the caller's
    /// first element.
    pub(crate) fn flow_entry_callee_context(
        inner: &mut KCallSiteSensitive,
        callsite: &CSCallSite,
        enters: bool,
        entry: BaseCallSite,
    ) -> (id: ContextId)
        requires
            old(inner).wf(),
        ensures
            final(inner).wf(),
            final(inner).k == old(inner).k,
            interned(
                old(inner).ctx_cache@,
                final(inner).ctx_cache@,
                flow_entry_context(
                    context_or_empty(old(inner).ctx_cache@, callsite.func.cid),
                    enters,
                    entry,
                    callsite.spec_base(),
                    old(inner).k,
                ),
                id,
            ),
    {
        let caller_ctx = inner.get_context_by_id(callsite.func.cid);
        let flow_entry = if enters || caller_ctx.context_elems.len() == 0 {
            entry
        } else {
            caller_ctx.context_elems[0]
        };
        let callee_ctx = Context::new_k_limited_context(&caller_ctx, callsite.base(), inner.k);
        let mut elems: Vec<BaseCallSite> = Vec::new();
        elems.push(flow_entry);
        let mut i: usize = 0;
        while i < callee_ctx.context_elems.len()
            invariant
                0 <= i <= callee_ctx@.len(),
                callee_ctx.context_elems@.len() == callee_ctx@.len(),
                elems@ == seq![flow_entry] + callee_ctx@.take(i as int),
            decreases callee_ctx.context_elems.len() - i,
        {
            elems.push(callee_ctx.context_elems[i]);
            proof {
                assert(elems@ =~= seq![flow_entry] + callee_ctx@.take(i + 1));
            }
            i += 1;
        }
        let new_ctx = Context { context_elems: elems };
        proof {
            assert(callee_ctx@.take(callee_ctx@.len() as int) =~= callee_ctx@);
            assert(new_ctx@ =~= elems@);
            if !(enters || caller_ctx@.len() == 0) {
                assert(caller_ctx@[0] == caller_ctx.context_elems@[0]);
            }
        }
        inner.get_context_id(&new_ctx)
    }
}

impl ContextStrategy for RCEUSCallSiteSensitive {
    type E = BaseCallSite;

    open spec fn wf(&self) -> bool {
        self.inner.wf()
    }

    open spec fn accepts_static_call(&self, callsite: CSCallSite, callee: FuncId) -> bool {
        self.call_ok(callsite, callee)
    }

    open spec fn accepts_instance_call(&self, callsite: CSCallSite, receiver: Option<CSPath>, callee: FuncId) -> bool {
        self.call_ok(callsite, callee)
    }

    open spec fn static_call_done(&self, post: Self, callsite: CSCallSite, callee: FuncId, id: ContextId) -> bool {
        &&& post.same_setup(self)
        &&& interned(self.inner.ctx_cache@, post.inner.ctx_cache@, self.target(callsite, callee), id)
    }

    open spec fn instance_call_done(
        &self,
        post: Self,
        callsite: CSCallSite,
        receiver: Option<CSPath>,
        callee: FuncId,
        r: Option<ContextId>,
    ) -> bool {
        &&& post.same_setup(self)
        &&& r is Some
        &&& interned(self.inner.ctx_cache@, post.inner.ctx_cache@, self.target(callsite, callee), r->0)
    }

    fn empty_context(&self) -> (c: Context<BaseCallSite>) {
        self.inner.empty_context()
    }

    /// The number of the empty context, which is always 0.
    fn get_empty_context_id(&mut self) -> (id: ContextId)
        ensures
            id == 0,
            final(self).same_setup(&*old(self)),
            final(self).inner.ctx_cache@ == old(self).inner.ctx_cache@,
    {
        self.inner.get_empty_context_id()
    }

    fn get_context_id(&mut self, context: &Context<BaseCallSite>) -> (id: ContextId)
        ensures
            final(self).same_setup(&*old(self)),
            interned(old(self).inner.ctx_cache@, final(self).inner.ctx_cache@, context@, id),
    {
        self.inner.get_context_id(context)
    }

    /// The context numbered `context_id`, or the empty context when there is none.
    fn get_context_by_id(&self, context_id: ContextId) -> (c: Context<BaseCallSite>)
        ensures
            c@ == context_or_empty(self.inner.ctx_cache@, context_id),
    {
        self.inner.get_context_by_id(context_id)
    }

    fn get_context_iter(&self) -> (r: Option<Vec<(Context<BaseCallSite>, ContextId)>>)
        ensures
            r matches Some(v) && lists_contexts(v@, self.inner.ctx_cache@),
    {
        self.inner.get_context_iter()
    }

    fn new_static_call_context(&mut self, callsite: &CSCallSite, callee: FuncId) -> (id: ContextId)
    {
        if self.cs_funcs.contains(&callee) {
            if !self.func_pfg_map.contains_key(&callee) {
                let id = self.inner.get_empty_context_id();
                proof {
                    assert(old(self).inner.ctx_cache@[0] == Seq::<BaseCallSite>::empty());
                }
                return id;
            }
            match &self.library_funcs {
                Some(lib) => {
                    return Self::library_context(&mut self.inner, callsite, lib);
                },
                None => {},
            }
            match self.func_pfg_map.get(&callsite.func.func_id) {
                Some(caller_pfg) => {
                    return Self::rceus_context(&mut self.inner, callsite, caller_pfg);
                },
                None => {},
            }
        }
        if self.selective {
            let id = self.inner.get_empty_context_id();
            proof {
                assert(old(self).inner.ctx_cache@[0] == Seq::<BaseCallSite>::empty());
            }
            return id;
        }
        self.inner.new_static_call_context(callsite, callee)
    }

    fn new_instance_call_context(
        &mut self,
        callsite: &CSCallSite,
        _receiver: Option<&CSPath>,
        callee: FuncId,
    ) -> (r: Option<ContextId>)
    {
        Some(self.new_static_call_context(callsite, callee))
    }

    fn set_prec_crit_fn_ident_data(&mut self, cs_funcs: HashSet<FuncId>, func_pfg_map: HashMap<FuncId, FuncPFG>)
        ensures
            final(self).cs_funcs@ == cs_funcs@,
            final(self).func_pfg_map@ == func_pfg_map@,
            final(self).inner == old(self).inner,
            final(self).selective == old(self).selective,
            final(self).library_funcs == old(self).library_funcs,
    {
        self.cs_funcs = cs_funcs;
        self.func_pfg_map = func_pfg_map;
    }

    /// Treats the given library functions as the precision-critical ones.
    fn set_library_mode(&mut self, library_funcs: HashSet<FuncId>)
        ensures
            final(self).cs_funcs@ == library_funcs@,
            final(self).library_funcs matches Some(l) && l@ == library_funcs@,
            final(self).inner == old(self).inner,
            final(self).func_pfg_map == old(self).func_pfg_map,
            final(self).selective == old(self).selective,
    {
        self.cs_funcs = clone_func_set(&library_funcs);
        self.library_funcs = Some(library_funcs);
    }

    fn cs_funcs(&self) -> (r: Option<&HashSet<FuncId>>)
        ensures
            r == Some(&self.cs_funcs),
    {
        Some(&self.cs_funcs)
    }
}

/// RCEUS with merged flow entries: as `RCEUSCallSiteSensitive`, but a call
/// that enters the flow is labelled with the canonical callsite of its group
/// of redundant flow entries.
pub struct RCEUSMergeCallSiteSensitive {
    pub inner: KCallSiteSensitive,
    pub cs_funcs: HashSet<FuncId>,
    pub func_pfg_map: HashMap<FuncId, FuncPFG>,
}

impl RCEUSMergeCallSiteSensitive {
    /// The context a call to `callee` at `callsite` gets.
    pub open spec fn target(&self, callsite: CSCallSite, callee: FuncId) -> Seq<BaseCallSite> {
        let cache = self.inner.ctx_cache@;
        let caller = context_or_empty(cache, callsite.func.cid);
        let site = callsite.spec_base();
        let caller_func = callsite.func.func_id;
        let critical = self.cs_funcs@.contains(callee);
        if critical && !self.func_pfg_map@.contains_key(callee) {
            Seq::empty()
        } else if critical && self.func_pfg_map@.contains_key(caller_func) {
            let p = self.func_pfg_map@[caller_func];
            let enters = !p.cs_callsites@.contains(callsite.location);
            let entry = BaseCallSite {
                func: caller_func,
                location: spec_canonical_flow_entry(p.flow_entry_merge@, callsite.location, callee),
            };
            flow_entry_context(caller, enters, entry, site, self.inner.k)
        } else {
            k_limited(cache[callsite.func.cid as int], site, self.inner.k)
        }
    }

    /// The caller's context must be known where the k-limited context is built.
    pub open spec fn call_ok(&self, callsite: CSCallSite, callee: FuncId) -> bool {
        let flow_case = self.cs_funcs@.contains(callee) && (!self.func_pfg_map@.contains_key(callee)
            || self.func_pfg_map@.contains_key(callsite.func.func_id));
        !flow_case ==> callsite.func.cid < self.inner.ctx_cache@.len()
    }

    pub fn new(k: usize) -> (s: RCEUSMergeCallSiteSensitive)
        ensures
            s.wf(),
            s.inner.k == k,
            s.inner.ctx_cache@ == seq![Seq::<BaseCallSite>::empty()],
            s.cs_funcs@ == Set::<FuncId>::empty(),
            s.func_pfg_map@ == Map::<FuncId, FuncPFG>::empty(),
    {
        RCEUSMergeCallSiteSensitive { inner: KCallSiteSensitive::new(k), cs_funcs: HashSet::new(), func_pfg_map: HashMap::new() }
    }

    /// The flow-entry context, with an entering call labelled by its group's
    /// canonical callsite.
    fn rceus_merge_context(
        inner: &mut KCallSiteSensitive,
        callsite: &CSCallSite,
        caller_pfg: &FuncPFG,
        callee: FuncId,
    ) -> (id: ContextId)
        requires
            old(inner).wf(),
        ensures
            final(inner).wf(),
            final(inner).k == old(inner).k,
            interned(
                old(inner).ctx_cache@,
                final(inner).ctx_cache@,
                flow_entry_context(
                    context_or_empty(old(inner).ctx_cache@, callsite.func.cid),
                    !caller_pfg.cs_callsites@.contains(callsite.location),
                    BaseCallSite {
                        func: callsite.func.func_id,
                        location: spec_canonical_flow_entry(caller_pfg.flow_entry_merge@, callsite.location, callee),
                    },
                    callsite.spec_base(),
                    old(inner).k,
                ),
                id,
            ),
    {
        let enters = !caller_pfg.is_cs_callsite(&callsite.location);
        let mut entry = callsite.base();
        entry.location = caller_pfg.canonical_flow_entry(&callsite.location, callee);
        RCEUSCallSiteSensitive::flow_entry_callee_context(inner, callsite, enters, entry)
    }
}

impl ContextStrategy for RCEUSMergeCallSiteSensitive {
    type E = BaseCallSite;

    open spec fn wf(&self) -> bool {
        self.inner.wf()
    }

    open spec fn accepts_static_call(&self, callsite: CSCallSite, callee: FuncId) -> bool {
        self.call_ok(callsite, callee)
    }

    open spec fn accepts_instance_call(&self, callsite: CSCallSite, receiver: Option<CSPath>, callee: FuncId) -> bool {
        self.call_ok(callsite, callee)
    }

    open spec fn static_call_done(&self, post: Self, callsite: CSCallSite, callee: FuncId, id: ContextId) -> bool {
        &&& post.inner.k == self.inner.k
        &&& post.cs_funcs@ == self.cs_funcs@
        &&& post.func_pfg_map@ == self.func_pfg_map@
        &&& interned(self.inner.ctx_cache@, post.inner.ctx_cache@, self.target(callsite, callee), id)
    }

    open spec fn instance_call_done(
        &self,
        post: Self,
        callsite: CSCallSite,
        receiver: Option<CSPath>,
        callee: FuncId,
        r: Option<ContextId>,
    ) -> bool {
        &&& post.inner.k == self.inner.k
        &&& post.cs_funcs@ == self.cs_funcs@
        &&& post.func_pfg_map@ == self.func_pfg_map@
        &&& r is Some
        &&& interned(self.inner.ctx_cache@, post.inner.ctx_cache@, self.target(callsite, callee), r->0)
    }

    fn empty_context(&self) -> (c: Context<BaseCallSite>) {
        self.inner.empty_context()
    }

    /// The number of the empty context, which is always 0.
    fn get_empty_context_id(&mut self) -> (id: ContextId)
        ensures
            id == 0,
            final(self).inner.ctx_cache@ == old(self).inner.ctx_cache@,
            final(self).inner.k == old(self).inner.k,
            final(self).cs_funcs@ == old(self).cs_funcs@,
            final(self).func_pfg_map@ == old(self).func_pfg_map@,
    {
        self.inner.get_empty_context_id()
    }

    fn get_context_id(&mut self, context: &Context<BaseCallSite>) -> (id: ContextId)
        ensures
            final(self).inner.k == old(self).inner.k,
            final(self).cs_funcs@ == old(self).cs_funcs@,
            final(self).func_pfg_map@ == old(self).func_pfg_map@,
            interned(old(self).inner.ctx_cache@, final(self).inner.ctx_cache@, context@, id),
    {
        self.inner.get_context_id(context)
    }

    /// The context numbered `context_id`, or the empty context when there is none.
    fn get_context_by_id(&self, context_id: ContextId) -> (c: Context<BaseCallSite>)
        ensures
            c@ == context_or_empty(self.inner.ctx_cache@, context_id),
    {
        self.inner.get_context_by_id(context_id)
    }

    fn get_context_iter(&self) -> (r: Option<Vec<(Context<BaseCallSite>, ContextId)>>)
        ensures
            r matches Some(v) && lists_contexts(v@, self.inner.ctx_cache@),
    {
        self.inner.get_context_iter()
    }

    fn new_static_call_context(&mut self, callsite: &CSCallSite, callee: FuncId) -> (id: ContextId)
    {
        if self.cs_funcs.contains(&callee) {
            if !self.func_pfg_map.contains_key(&callee) {
                let id = self.inner.get_empty_context_id();
                proof {
                    assert(old(self).inner.ctx_cache@[0] == Seq::<BaseCallSite>::empty());
                }
                return id;
            }
            match self.func_pfg_map.get(&callsite.func.func_id) {
                Some(caller_pfg) => {
                    return Self::rceus_merge_context(&mut self.inner, callsite, caller_pfg, callee);
                },
                None => {},
            }
        }
        self.inner.new_static_call_context(callsite, callee)
    }

    fn new_instance_call_context(
        &mut self,
        callsite: &CSCallSite,
        _receiver: Option<&CSPath>,
        callee: FuncId,
    ) -> (r: Option<ContextId>)
    {
        Some(self.new_static_call_context(callsite, callee))
    }

    fn set_prec_crit_fn_ident_data(&mut self, cs_funcs: HashSet<FuncId>, func_pfg_map: HashMap<FuncId, FuncPFG>)
        ensures
            final(self).cs_funcs@ == cs_funcs@,
            final(self).func_pfg_map@ == func_pfg_map@,
            final(self).inner == old(self).inner,
    {
        self.cs_funcs = cs_funcs;
        self.func_pfg_map = func_pfg_map;
    }

    fn cs_funcs(&self) -> (r: Option<&HashSet<FuncId>>)
        ensures
            r == Some(&self.cs_funcs),
    {
        Some(&self.cs_funcs)
    }
}

/// Selective callsite sensitivity spends k-callsite sensitivity only on
/// precision-critical callees: from one state, a call to a critical callee
/// gets the number and the cache that k-callsite sensitivity gives the same
/// call, and a call to any other callee gets the empty context, number 0.
pub proof fn lemma_selective_as_k_callsite(
    s: SelectiveCallSiteSensitive,
    s2: SelectiveCallSiteSensitive,
    k2: KCallSiteSensitive,
    callsite: CSCallSite,
    callee: FuncId,
    id: ContextId,
    kid: ContextId,
)
    requires
        s.wf(),
        s2.wf(),
        k2.wf(),
        s.static_call_done(s2, callsite, callee, id),
        s.inner.static_call_done(k2, callsite, callee, kid),
    ensures
        s.cs_funcs@.contains(callee) ==> id == kid && s2.inner.ctx_cache@ == k2.ctx_cache@,
        !s.cs_funcs@.contains(callee) ==> id == 0 && s2.inner.ctx_cache@ == s.inner.ctx_cache@,
{
    let old = s.inner.ctx_cache@;
    if s.cs_funcs@.contains(callee) {
        assert(s2.inner.ctx_cache@ == k2.ctx_cache@);
        crate::context::lemma_interned_once(k2.ctx_cache@, id as int, kid as int);
    } else {
        assert(old[0] == Seq::<BaseCallSite>::empty());
        assert(old.contains(Seq::<BaseCallSite>::empty()));
        crate::context::lemma_interned_once(old, id as int, 0);
    }
}

/// Merging changes only the label of a call that enters the flow: from the
/// same state, a call whose callsite is its own group's representative gets
/// from merging RCEUS the context that plain RCEUS gives it.
pub proof fn lemma_merge_keeps_representatives(
    m: RCEUSMergeCallSiteSensitive,
    r: RCEUSCallSiteSensitive,
    callsite: CSCallSite,
    callee: FuncId,
)
    requires
        m.inner.ctx_cache@ == r.inner.ctx_cache@,
        m.inner.k == r.inner.k,
        m.cs_funcs@ == r.cs_funcs@,
        m.func_pfg_map@ == r.func_pfg_map@,
        !r.selective,
        r.library_funcs is None,
        m.func_pfg_map@.contains_key(callsite.func.func_id) ==> spec_canonical_flow_entry(
            m.func_pfg_map@[callsite.func.func_id].flow_entry_merge@,
            callsite.location,
            callee,
        ) == callsite.location,
    ensures
        m.target(callsite, callee) == r.target(callsite, callee),
{
}

/// A callsite that is its own representative gets from the merge strategy
/// exactly the context RCEUS gives it: starting from the same contexts, the
/// two intern the same context, so they end with the same contexts and hand
/// out the same number.
pub proof fn lemma_merge_context_as_rceus(
    cache: Seq<Seq<BaseCallSite>>,
    k: usize,
    callsite: CSCallSite,
    caller_pfg: FuncPFG,
    callee: FuncId,
    cache_merge: Seq<Seq<BaseCallSite>>,
    id_merge: usize,
    cache_rceus: Seq<Seq<BaseCallSite>>,
    id_rceus: usize,
)
    requires
        forall|i: int, j: int| 0 <= i < cache.len() && 0 <= j < cache.len() && i != j ==> cache[i] != cache[j],
        spec_canonical_flow_entry(caller_pfg.flow_entry_merge@, callsite.location, callee) == callsite.location,
        interned(
            cache,
            cache_merge,
            flow_entry_context(
                context_or_empty(cache, callsite.func.cid),
                !caller_pfg.cs_callsites@.contains(callsite.location),
                BaseCallSite {
                    func: callsite.func.func_id,
                    location: spec_canonical_flow_entry(caller_pfg.flow_entry_merge@, callsite.location, callee),
                },
                callsite.spec_base(),
                k,
            ),
            id_merge,
        ),
        interned(
            cache,
            cache_rceus,
            flow_entry_context(
                context_or_empty(cache, callsite.func.cid),
                !caller_pfg.cs_callsites@.contains(callsite.location),
                callsite.spec_base(),
                callsite.spec_base(),
                k,
            ),
            id_rceus,
        ),
    ensures
        cache_merge == cache_rceus,
        id_merge == id_rceus,
{
    lemma_interned_same(
        cache,
        flow_entry_context(
            context_or_empty(cache, callsite.func.cid),
            !caller_pfg.cs_callsites@.contains(callsite.location),
            callsite.spec_base(),
            callsite.spec_base(),
            k,
        ),
        cache_merge,
        id_merge,
        cache_rceus,
        id_rceus,
    );
}

/// From the same state, merging RCEUS and plain RCEUS give a call whose
/// callsite is its own representative the same number and leave the same
/// contexts.
pub proof fn lemma_merge_call_as_rceus(
    m: RCEUSMergeCallSiteSensitive,
    m2: RCEUSMergeCallSiteSensitive,
    r: RCEUSCallSiteSensitive,
    r2: RCEUSCallSiteSensitive,
    callsite: CSCallSite,
    callee: FuncId,
    id_merge: ContextId,
    id_rceus: ContextId,
)
    requires
        r.wf(),
        m.inner.ctx_cache@ == r.inner.ctx_cache@,
        m.inner.k == r.inner.k,
        m.cs_funcs@ == r.cs_funcs@,
        m.func_pfg_map@ == r.func_pfg_map@,
        !r.selective,
        r.library_funcs is None,
        m.func_pfg_map@.contains_key(callsite.func.func_id) ==> spec_canonical_flow_entry(
            m.func_pfg_map@[callsite.func.func_id].flow_entry_merge@,
            callsite.location,
            callee,
        ) == callsite.location,
        m.static_call_done(m2, callsite, callee, id_merge),
        r.static_call_done(r2, callsite, callee, id_rceus),
    ensures
        id_merge == id_rceus,
        m2.inner.ctx_cache@ == r2.inner.ctx_cache@,
{
    lemma_merge_keeps_representatives(m, r, callsite, callee);
    lemma_interned_same(r.inner.ctx_cache@, r.target(callsite, callee), m2.inner.ctx_cache@, id_merge, r2.inner.ctx_cache@, id_rceus);
}

/// RCEUS without pre-analysis data (no precision-critical function, not
/// selective) is k-callsite sensitivity: from one state, a call gets the
/// number and the contexts that k-callsite sensitivity gives it.
pub proof fn lemma_rceus_without_data_as_k_callsite(
    r: RCEUSCallSiteSensitive,
    r2: RCEUSCallSiteSensitive,
    k2: KCallSiteSensitive,
    callsite: CSCallSite,
    callee: FuncId,
    id: ContextId,
    kid: ContextId,
)
    requires
        r.wf(),
        r.cs_funcs@ == Set::<FuncId>::empty(),
        !r.selective,
        callsite.func.cid < r.inner.ctx_cache@.len(),
        r.static_call_done(r2, callsite, callee, id),
        r.inner.static_call_done(k2, callsite, callee, kid),
    ensures
        id == kid,
        r2.inner.ctx_cache@ == k2.ctx_cache@,
{
    assert(!r.cs_funcs@.contains(callee));
    lemma_interned_same(
        r.inner.ctx_cache@,
        k_limited(r.inner.ctx_cache@[callsite.func.cid as int], callsite.spec_base(), r.inner.k),
        r2.inner.ctx_cache@,
        id,
        k2.ctx_cache@,
        kid,
    );
}

/// For RCEUS the receiver of an instance call plays no part: from one state,
/// an instance call always gets a context, the one the static call gets,
/// and leaves the same contexts.
pub proof fn lemma_rceus_instance_as_static(
    r: RCEUSCallSiteSensitive,
    r2: RCEUSCallSiteSensitive,
    r3: RCEUSCallSiteSensitive,
    callsite: CSCallSite,
    receiver: Option<CSPath>,
    callee: FuncId,
    res: Option<ContextId>,
    id: ContextId,
)
    requires
        r.wf(),
        r.instance_call_done(r2, callsite, receiver, callee, res),
        r.static_call_done(r3, callsite, callee, id),
    ensures
        res == Some(id),
        r2.inner.ctx_cache@ == r3.inner.ctx_cache@,
{
    lemma_interned_same(r.inner.ctx_cache@, r.target(callsite, callee), r2.inner.ctx_cache@, res->0, r3.inner.ctx_cache@, id);
}

/// For selective callsite sensitivity the receiver of an instance call
/// plays no part: from one state, an instance call always gets a context,
/// the one the static call gets, and leaves the same contexts.
pub proof fn lemma_selective_instance_as_static(
    s: SelectiveCallSiteSensitive,
    s2: SelectiveCallSiteSensitive,
    s3: SelectiveCallSiteSensitive,
    callsite: CSCallSite,
    receiver: Option<CSPath>,
    callee: FuncId,
    res: Option<ContextId>,
    id: ContextId,
)
    requires
        s.wf(),
        s.instance_call_done(s2, callsite, receiver, callee, res),
        s.static_call_done(s3, callsite, callee, id),
    ensures
        res == Some(id),
        s2.inner.ctx_cache@ == s3.inner.ctx_cache@,
{
    lemma_interned_same(s.inner.ctx_cache@, s.target(callsite, callee), s2.inner.ctx_cache@, res->0, s3.inner.ctx_cache@, id);
}

/// The shape of a flow-entry context: the flow entry first, then (for
/// `k >= 1`) the callsite, then the caller's whole context, its first
/// element included, cut to `k - 1` elements.
pub proof fn lemma_flow_entry_context_shape(caller: Seq<BaseCallSite>, enters_here: bool, entry: BaseCallSite, site: BaseCallSite, k: usize)
    ensures
        ({
            let c = flow_entry_context(caller, enters_here, entry, site, k);
            &&& c[0] == (if enters_here || caller.len() == 0 { entry } else { caller[0] })
            &&& k == 0 ==> c.len() == 1
            &&& k >= 1 ==> c.len() == 2 + (if caller.len() < k - 1 { caller.len() as int } else { k - 1 })
            &&& k >= 1 ==> c[1] == site
            &&& k >= 1 ==> forall|i: int| 2 <= i < c.len() ==> #[trigger] c[i] == caller[i - 2]
        }),
{
    let c = flow_entry_context(caller, enters_here, entry, site, k);
    let kl = k_limited(caller, site, k);
    lemma_k_limited(caller, site, k);
    if k >= 1 {
        assert forall|i: int| 2 <= i < c.len() implies #[trigger] c[i] == caller[i - 2] by {
            assert(c[i] == kl[i - 1]);
            assert(kl[i - 1] == kl.drop_first()[i - 2]);
        }
    }
}

} // verus!
