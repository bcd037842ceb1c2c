use vstd::prelude::*;

verus! {

/// Identifies a function of the analysed program.
pub type FuncId = usize;

/// Identifies an interned calling context.
pub type ContextId = usize;

/// A program point: a basic block and the index of a statement in it.
#[derive(Clone, Copy, Debug, PartialEq, Eq, Hash, Structural)]
pub struct Location {
    pub block: usize,
    pub statement_index: usize,
}

impl Location {
    pub fn new(block: usize, statement_index: usize) -> (l: Location)
        ensures
            l.block == block,
            l.statement_index == statement_index,
    {
        Location { block, statement_index }
    }
}

/// The order in which locations are compared: by block, then by statement.
pub open spec fn location_le(a: Location, b: Location) -> bool {
    a.block < b.block || (a.block == b.block && a.statement_index <= b.statement_index)
}

/// Whether `a` comes strictly before `b` in the order of `location_le`.
pub fn location_lt(a: Location, b: Location) -> (r: bool)
    ensures
        r == (location_le(a, b) && a != b),
{
    a.block < b.block || (a.block == b.block && a.statement_index < b.statement_index)
}

/// A callsite without its calling context: the calling function and the location.
#[derive(Clone, Copy, Debug, PartialEq, Eq, Hash, Structural)]
pub struct BaseCallSite {
    pub func: FuncId,
    pub location: Location,
}

impl BaseCallSite {
    pub fn new(func: FuncId, location: Location) -> (c: BaseCallSite)
        ensures
            c.func == func,
            c.location == location,
    {
        BaseCallSite { func, location }
    }
}

/// A function analysed under a context.
#[derive(Clone, Copy, Debug, PartialEq, Eq, Hash, Structural)]
pub struct CSFuncId {
    pub cid: ContextId,
    pub func_id: FuncId,
}

/// A callsite in a calling function that is analysed under a context.
#[derive(Clone, Copy, Debug, PartialEq, Eq, Hash, Structural)]
pub struct CSCallSite {
    pub func: CSFuncId,
    pub location: Location,
}

impl CSCallSite {
    pub fn new(cid: ContextId, func_id: FuncId, location: Location) -> (c: CSCallSite)
        ensures
            c.func.cid == cid,
            c.func.func_id == func_id,
            c.location == location,
    {
        CSCallSite { func: CSFuncId { cid, func_id }, location }
    }

    /// The callsite without the caller's context.
    pub fn base(&self) -> (b: BaseCallSite)
        ensures
            b == self.spec_base(),
    {
        BaseCallSite { func: self.func.func_id, location: self.location }
    }

    pub open spec fn spec_base(self) -> BaseCallSite {
        BaseCallSite { func: self.func.func_id, location: self.location }
    }
}

/// A path of a function analysed under a context.
#[derive(Clone, Copy, Debug, PartialEq, Eq, Hash, Structural)]
pub struct CSPath {
    pub cid: ContextId,
    pub path: Path,
}

/// Where a path starts: a parameter, a local variable or the result of a function.
#[derive(Clone, Copy, Debug, PartialEq, Eq, Hash, Structural)]
pub enum PathRoot {
    Parameter { ordinal: usize },
    LocalVariable { ordinal: usize },
    ReturnValue,
}

/// A memory path in a function: a local, a parameter or the result, or one field of it.
#[derive(Clone, Copy, Debug, PartialEq, Eq, Hash, Structural)]
pub struct Path {
    pub func_id: FuncId,
    pub root: PathRoot,
    pub field: Option<usize>,
}

impl Path {
    /// The path of MIR local `local` in a function with `arg_count` arguments:
    /// local 0 is the result, locals 1..=arg_count are the parameters.
    pub fn new_local_parameter_or_result(func_id: FuncId, local: usize, arg_count: usize) -> (p: Path)
        ensures
            p == spec_local_path(func_id, local, arg_count),
    {
        let root = if local == 0 {
            PathRoot::ReturnValue
        } else if local <= arg_count {
            PathRoot::Parameter { ordinal: local }
        } else {
            PathRoot::LocalVariable { ordinal: local }
        };
        Path { func_id, root, field: None }
    }

    /// The path of the result of `func_id`.
    pub fn new_return_value(func_id: FuncId) -> (p: Path)
        ensures
            p == (Path { func_id, root: PathRoot::ReturnValue, field: None }),
    {
        Path { func_id, root: PathRoot::ReturnValue, field: None }
    }

    /// The path of field `field` of the whole local `self`.
    pub fn append_field(&self, field: usize) -> (p: Path)
        requires
            self.field.is_none(),
        ensures
            p == (Path { field: Some(field), ..*self }),
    {
        Path { func_id: self.func_id, root: self.root, field: Some(field) }
    }

    /// The ordinal of the parameter this path is, if it is a whole parameter.
    pub fn parameter_ordinal(&self) -> (r: Option<usize>)
        ensures
            r == spec_parameter_ordinal(*self),
    {
        match (self.root, self.field) {
            (PathRoot::Parameter { ordinal }, None) => Some(ordinal),
            _ => None,
        }
    }
}

pub open spec fn spec_local_path(func_id: FuncId, local: usize, arg_count: usize) -> Path {
    Path {
        func_id,
        root: if local == 0 {
            PathRoot::ReturnValue
        } else if local <= arg_count {
            PathRoot::Parameter { ordinal: local }
        } else {
            PathRoot::LocalVariable { ordinal: local }
        },
        field: None,
    }
}

/// The ordinal of a path that is a whole parameter.
pub open spec fn spec_parameter_ordinal(p: Path) -> Option<usize> {
    match p.root {
        PathRoot::Parameter { ordinal } => if p.field.is_none() { Some(ordinal) } else { None },
        _ => None,
    }
}

} // verus!

verus! {

/// Whether `v` holds `l`.
pub fn contains_location(v: &Vec<Location>, l: Location) -> (r: bool)
    ensures
        r == v@.contains(l),
{
    let mut i: usize = 0;
    while i < v.len()
        invariant
            0 <= i <= v.len(),
            forall|j: int| 0 <= j < i ==> v@[j] != l,
        decreases v.len() - i,
    {
        if v[i] == l {
            return true;
        }
        i += 1;
    }
    false
}

/// Adds `l` to the set of locations `v` unless it is there already; returns
/// whether it was added.
pub fn insert_location(v: &mut Vec<Location>, l: Location) -> (added: bool)
    ensures
        added == !old(v)@.contains(l),
        final(v)@ == if added { old(v)@.push(l) } else { old(v)@ },
{
    if contains_location(v, l) {
        false
    } else {
        v.push(l);
        true
    }
}

} // verus!

verus! {

/// Adds `x` to the set of numbers `v` unless it is there already; returns
/// whether it was added.
pub fn insert_usize(v: &mut Vec<usize>, x: usize) -> (added: bool)
    ensures
        added == !old(v)@.contains(x),
        final(v)@ == if added { old(v)@.push(x) } else { old(v)@ },
{
    let mut i: usize = 0;
    while i < v.len()
        invariant
            0 <= i <= v.len(),
            forall|j: int| 0 <= j < i ==> v@[j] != x,
        decreases v.len() - i,
    {
        if v[i] == x {
            return false;
        }
        i += 1;
    }
    v.push(x);
    true
}

/// Whether `v` holds `x`.
pub fn contains_usize(v: &Vec<usize>, x: usize) -> (r: bool)
    ensures
        r == v@.contains(x),
{
    let mut i: usize = 0;
    while i < v.len()
        invariant
            0 <= i <= v.len(),
            forall|j: int| 0 <= j < i ==> v@[j] != x,
        decreases v.len() - i,
    {
        if v[i] == x {
            return true;
        }
        i += 1;
    }
    false
}

} // verus!

verus! {

pub proof fn lemma_push_contains<T>(s: Seq<T>, x: T)
    ensures
        forall|y: T| #[trigger] s.push(x).contains(y) <==> s.contains(y) || y == x,
{
    assert forall|y: T| #[trigger] s.push(x).contains(y) <==> s.contains(y) || y == x by {
        if s.push(x).contains(y) {
            let k = choose|k: int| 0 <= k < s.push(x).len() && s.push(x)[k] == y;
            if k < s.len() {
                assert(s[k] == y);
            }
        }
        if s.contains(y) {
            let k = choose|k: int| 0 <= k < s.len() && s[k] == y;
            assert(s.push(x)[k] == y);
        }
        if y == x {
            assert(s.push(x)[s.len() as int] == y);
        }
    }
}

} // verus!

verus! {

/// Every entry is smaller than the next: a sorted list without repeats.
pub open spec fn strictly_sorted(s: Seq<usize>) -> bool {
    forall|i: int, j: int| 0 <= i < j < s.len() ==> #[trigger] s[i] < #[trigger] s[j]
}

/// Adds `x` to the sorted list `v` at its place unless it is there already.
pub fn sorted_insert(v: &mut Vec<usize>, x: usize)
    requires
        strictly_sorted(old(v)@),
    ensures
        strictly_sorted(final(v)@),
        forall|y: usize| #[trigger] final(v)@.contains(y) <==> old(v)@.contains(y) || y == x,
{
    let mut k: usize = 0;
    while k < v.len() && v[k] < x
        invariant
            0 <= k <= v.len(),
            strictly_sorted(v@),
            forall|j: int| 0 <= j < k ==> v@[j] < x,
        decreases v.len() - k,
    {
        k += 1;
    }
    if k < v.len() && v[k] == x {
        return;
    }
    let ghost old_v = v@;
    v.insert(k, x);
    proof {
        old_v.insert_ensures(k as int, x);
        let nv = v@;
        assert forall|i: int, j: int| 0 <= i < j < nv.len() implies #[trigger] nv[i] < #[trigger] nv[j] by {
            if j < k {
            } else if j == k {
            } else if i < k {
                assert(nv[j] == old_v[j - 1]);
            } else if i == k {
                assert(nv[j] == old_v[j - 1]);
                assert(old_v[k as int] >= x);
                if j - 1 > k {
                    assert(old_v[k as int] < old_v[j - 1]);
                }
            } else {
                assert(nv[i] == old_v[i - 1]);
                assert(nv[j] == old_v[j - 1]);
            }
        }
        assert forall|y: usize| #[trigger] nv.contains(y) <==> old_v.contains(y) || y == x by {
            if nv.contains(y) {
                let i = choose|i: int| 0 <= i < nv.len() && nv[i] == y;
                if i < k {
                    assert(old_v[i] == y);
                } else if i > k {
                    assert(old_v[i - 1] == y);
                }
            }
            if old_v.contains(y) {
                let i = choose|i: int| 0 <= i < old_v.len() && old_v[i] == y;
                if i < k {
                    assert(nv[i] == y);
                } else {
                    assert(nv[i + 1] == y);
                }
            }
            if y == x {
                assert(nv[k as int] == y);
            }
        }
    }
}

} // verus!
