//! Calling contexts: bounded lists of context elements, and a cache that
//! interns each distinct context under a number.

use vstd::prelude::*;
use crate::ids::{BaseCallSite, ContextId, Path};

verus! {

/// An element of a calling context, compared by its view.
pub trait ContextElement: View + Sized {
    /// Whether the two elements are the same.
    fn same(&self, other: &Self) -> (r: bool)
        ensures
            r == (self@ == other@),
    ;

    /// A copy of the element.
    fn duplicate(&self) -> (r: Self)
        ensures
            r@ == self@,
    ;
}

impl View for BaseCallSite {
    type V = BaseCallSite;

    open spec fn view(&self) -> BaseCallSite {
        *self
    }
}

impl ContextElement for BaseCallSite {
    fn same(&self, other: &Self) -> (r: bool) {
        self.func == other.func && self.location == other.location
    }

    fn duplicate(&self) -> (r: Self) {
        *self
    }
}

impl View for Path {
    type V = Path;

    open spec fn view(&self) -> Path {
        *self
    }
}

impl ContextElement for Path {
    fn same(&self, other: &Self) -> (r: bool) {
        *self == *other
    }

    fn duplicate(&self) -> (r: Self) {
        *self
    }
}

/// The views of a list of elements.
pub open spec fn views_of<E: View>(s: Seq<E>) -> Seq<E::V> {
    s.map_values(|e: E| e@)
}

/// A calling context: the most recent element first.
pub struct Context<E> {
    pub context_elems: Vec<E>,
}

impl<E: View> View for Context<E> {
    type V = Seq<E::V>;

    open spec fn view(&self) -> Seq<E::V> {
        views_of(self.context_elems@)
    }
}

/// The context made of `elem` followed by at most `k - 1` elements of `old`,
/// most recent first; the empty context when `k` is 0.
pub open spec fn k_limited<V>(old: Seq<V>, elem: V, k: usize) -> Seq<V> {
    if k == 0 {
        Seq::empty()
    } else if old.len() < k {
        seq![elem] + old
    } else {
        seq![elem] + old.take(k - 1)
    }
}

impl<E: ContextElement> Context<E> {
    /// The context with no element.
    pub fn new_empty() -> (c: Context<E>)
        ensures
            c@ == Seq::<E::V>::empty(),
    {
        let c = Context { context_elems: Vec::new() };
        proof {
            assert(c@ =~= Seq::<E::V>::empty());
        }
        c
    }

    /// The number of elements.
    pub fn len(&self) -> (n: usize)
        ensures
            n == self@.len(),
    {
        self.context_elems.len()
    }

    /// A copy of the context.
    pub fn duplicate(&self) -> (c: Context<E>)
        ensures
            c@ == self@,
    {
        let mut elems: Vec<E> = Vec::new();
        let mut i: usize = 0;
        while i < self.context_elems.len()
            invariant
                0 <= i <= self.context_elems@.len(),
                views_of(elems@) == self@.take(i as int),
                elems@.len() == i,
                self.context_elems@.len() == self@.len(),
            decreases self.context_elems.len() - i,
        {
            let e = self.context_elems[i].duplicate();
            let ghost before = elems@;
            elems.push(e);
            proof {
                assert(elems@ == before.push(e));
                assert forall|k: int| 0 <= k < i + 1 implies #[trigger] views_of(elems@)[k] == self@.take(i + 1)[k] by {
                    assert(views_of(elems@)[k] == elems@[k]@);
                    assert(self@[k] == self.context_elems@[k]@);
                    if k < i {
                        assert(views_of(before)[k] == before[k]@);
                        assert(views_of(before)[k] == self@.take(i as int)[k]);
                    }
                }
                assert(views_of(elems@) =~= self@.take(i + 1));
            }
            i += 1;
        }
        proof {
            assert(self@.take(self@.len() as int) =~= self@);
        }
        Context { context_elems: elems }
    }

    /// The context made of `elem` followed by the first elements of `old`,
    /// at most `k` elements in all (none when `k` is 0).
    pub fn new_k_limited_context(old: &Context<E>, elem: E, k: usize) -> (c: Context<E>)
        ensures
            c@ == k_limited(old@, elem@, k),
    {
        let mut elems: Vec<E> = Vec::new();
        if k > 0 {
            let ghost ev = elem@;
            elems.push(elem);
            let n: usize = if old.context_elems.len() < k {
                old.context_elems.len()
            } else {
                k - 1
            };
            let mut i: usize = 0;
            while i < n
                invariant
                    0 <= i <= n,
                    n <= old@.len(),
                    views_of(elems@) == seq![ev] + old@.take(i as int),
                    elems@.len() == i + 1,
                    old.context_elems@.len() == old@.len(),
                decreases n - i,
            {
                let e = old.context_elems[i].duplicate();
                let ghost before = elems@;
                elems.push(e);
                proof {
                    assert(elems@ == before.push(e));
                    assert forall|k: int| 0 <= k < i + 2 implies #[trigger] views_of(elems@)[k] == (seq![ev] + old@.take(i + 1))[k] by {
                        assert(views_of(elems@)[k] == elems@[k]@);
                        if k < i + 1 {
                            assert(views_of(before)[k] == before[k]@);
                            assert(views_of(before)[k] == (seq![ev] + old@.take(i as int))[k]);
                        } else {
                            assert(old@[i as int] == old.context_elems@[i as int]@);
                        }
                    }
                    assert(views_of(elems@) =~= seq![ev] + old@.take(i + 1));
                }
                i += 1;
            }
            proof {
                if old@.len() < k {
                    assert(old@.take(n as int) =~= old@);
                }
            }
        }
        let c = Context { context_elems: elems };
        proof {
            assert(c@ =~= k_limited(old@, elem@, k));
        }
        c
    }

    /// Whether two contexts hold the same elements in the same order.
    pub fn same_context(&self, other: &Context<E>) -> (r: bool)
        ensures
            r == (self@ == other@),
    {
        if self.context_elems.len() != other.context_elems.len() {
            proof {
                assert(self@.len() != other@.len());
            }
            return false;
        }
        let mut i: usize = 0;
        while i < self.context_elems.len()
            invariant
                0 <= i <= self@.len(),
                self@.len() == other@.len(),
                self.context_elems@.len() == self@.len(),
                other.context_elems@.len() == other@.len(),
                forall|j: int| 0 <= j < i ==> self@[j] == other@[j],
            decreases self.context_elems.len() - i,
        {
            if !self.context_elems[i].same(&other.context_elems[i]) {
                proof {
                    assert(self@[i as int] != other@[i as int]);
                }
                return false;
            }
            i += 1;
        }
        proof {
            assert(self@ =~= other@);
        }
        true
    }
}

/// `new` is `old` after interning `c`, which got the number `id`: a context
/// already kept keeps its number, and a new one is added at the end.
pub open spec fn interned<V>(old: Seq<Seq<V>>, new: Seq<Seq<V>>, c: Seq<V>, id: usize) -> bool {
    &&& id < new.len()
    &&& new[id as int] == c
    &&& old.contains(c) ==> new == old
    &&& !old.contains(c) ==> new == old.push(c)
}

/// `v` lists the contexts of `cache` with their numbers, in number order.
pub open spec fn lists_contexts<E: View>(v: Seq<(Context<E>, ContextId)>, cache: Seq<Seq<E::V>>) -> bool {
    &&& v.len() == cache.len()
    &&& forall|i: int| 0 <= i < v.len() ==> (#[trigger] v[i]).1 == i && v[i].0@ == cache[i]
}

/// Interns contexts: each distinct context is kept once, under the number
/// of its position; the empty context is number 0.
pub struct ContextCache<E> {
    context_list: Vec<Context<E>>,
}

impl<E: View> View for ContextCache<E> {
    type V = Seq<Seq<E::V>>;

    closed spec fn view(&self) -> Seq<Seq<E::V>> {
        self.context_list@.map_values(|c: Context<E>| c@)
    }
}

impl<E: ContextElement> ContextCache<E> {
    /// The empty context is number 0 and no context is kept twice.
    pub open spec fn wf(&self) -> bool {
        &&& self@.len() >= 1
        &&& self@[0] == Seq::<E::V>::empty()
        &&& forall|i: int, j: int| 0 <= i < self@.len() && 0 <= j < self@.len() && i != j ==> self@[i] != self@[j]
    }

    /// A cache holding only the empty context.
    pub fn new() -> (c: ContextCache<E>)
        ensures
            c.wf(),
            c@ == seq![Seq::<E::V>::empty()],
    {
        let mut list: Vec<Context<E>> = Vec::new();
        list.push(Context::new_empty());
        let c = ContextCache { context_list: list };
        proof {
            assert(c@ =~= seq![Seq::<E::V>::empty()]);
        }
        c
    }

    /// The number of contexts interned so far.
    pub fn len(&self) -> (n: usize)
        ensures
            n == self@.len(),
    {
        self.context_list.len()
    }

    /// The number of `context`, interning it first when it is new.
    pub fn get_context_id(&mut self, context: &Context<E>) -> (id: ContextId)
        requires
            old(self).wf(),
        ensures
            final(self).wf(),
            interned(old(self)@, final(self)@, context@, id),
    {
        let mut i: usize = 0;
        while i < self.context_list.len()
            invariant
                0 <= i <= self@.len(),
                self@ == old(self)@,
                self.wf(),
                self.context_list@.len() == self@.len(),
                forall|j: int| 0 <= j < i ==> self@[j] != context@,
            decreases self.context_list.len() - i,
        {
            if self.context_list[i].same_context(context) {
                proof {
                    assert(self@[i as int] == self.context_list@[i as int]@);
                    assert(old(self)@[i as int] == context@);
                }
                return i;
            }
            i += 1;
        }
        let ghost old_v = self@;
        let c = context.duplicate();
        self.context_list.push(c);
        proof {
            assert(self@ =~= old_v.push(context@));
            assert(!old_v.contains(context@)) by {
                if old_v.contains(context@) {
                    let j = choose|j: int| 0 <= j < old_v.len() && old_v[j] == context@;
                    assert(old_v[j] != context@);
                }
            }
        }
        i
    }

    /// Every context interned so far with its number, in number order.
    pub fn get_context_iter(&self) -> (r: Vec<(Context<E>, ContextId)>)
        ensures
            lists_contexts(r@, self@),
    {
        let mut r: Vec<(Context<E>, ContextId)> = Vec::new();
        let mut i: usize = 0;
        while i < self.context_list.len()
            invariant
                0 <= i <= self.context_list@.len(),
                self.context_list@.len() == self@.len(),
                r@.len() == i,
                forall|j: int| 0 <= j < i ==> (#[trigger] r@[j]).1 == j && r@[j].0@ == self@[j],
            decreases self.context_list.len() - i,
        {
            let c = self.context_list[i].duplicate();
            proof {
                assert(self@[i as int] == self.context_list@[i as int]@);
            }
            r.push((c, i));
            i += 1;
        }
        r
    }

    /// The context numbered `id`, if there is one.
    pub fn get_context(&self, id: ContextId) -> (r: Option<&Context<E>>)
        ensures
            match r {
                Some(c) => id < self@.len() && c@ == self@[id as int],
                None => id >= self@.len(),
            },
    {
        if id < self.context_list.len() {
            Some(&self.context_list[id])
        } else {
            None
        }
    }
}

/// Interning gives every context one number: a context asked for twice gets
/// the same number, and the context under a number is the one interned.
pub proof fn lemma_interned_once<V>(cache: Seq<Seq<V>>, i: int, j: int)
    requires
        forall|a: int, b: int| 0 <= a < cache.len() && 0 <= b < cache.len() && a != b ==> cache[a] != cache[b],
        0 <= i < cache.len(),
        0 <= j < cache.len(),
        cache[i] == cache[j],
    ensures
        i == j,
{
}

/// Interning is deterministic: from one cache without repeats, interning
/// one context gives one cache and one number.
pub proof fn lemma_interned_same<V>(cache: Seq<Seq<V>>, c: Seq<V>, n1: Seq<Seq<V>>, i1: usize, n2: Seq<Seq<V>>, i2: usize)
    requires
        forall|a: int, b: int| 0 <= a < cache.len() && 0 <= b < cache.len() && a != b ==> cache[a] != cache[b],
        interned(cache, n1, c, i1),
        interned(cache, n2, c, i2),
    ensures
        n1 == n2,
        i1 == i2,
{
    if !cache.contains(c) {
        assert forall|a: int, b: int| 0 <= a < n1.len() && 0 <= b < n1.len() && a != b implies n1[a] != n1[b] by {
            if a == cache.len() {
                assert(n1[b] == cache[b]);
            } else if b == cache.len() {
                assert(n1[a] == cache[a]);
            } else {
                assert(n1[a] == cache[a] && n1[b] == cache[b]);
            }
        }
    }
    lemma_interned_once(n1, i1 as int, i2 as int);
}

} // verus!
