//! The part of a function body the pointer flow analysis reads: locals with
//! whether their types carry pointers, assignments, and calls with what their
//! callee's type says about how the call dispatches.

use vstd::prelude::*;
use crate::ids::{FuncId, Location, Path, spec_local_path};

verus! {

/// The kind of the first generic type argument of a `Fn*` trait method call.
#[derive(Clone, Copy, Debug, PartialEq, Eq, Structural)]
pub enum TypeArgKind {
    FnPtr,
    FnDef,
    Closure,
    Coroutine,
    Dynamic,
    Other,
}

/// What the type of a called operand says about the call.
#[derive(Clone, Copy, Debug, PartialEq, Eq, Structural)]
pub enum CalleeTy {
    /// A closure, function item or coroutine: whether it is a method of the
    /// `Fn`, `FnMut` or `FnOnce` traits, and the kind of its first generic
    /// type argument, if it has one.
    Item { fn_trait_call: bool, first_type_arg: Option<TypeArgKind> },
    /// A function pointer.
    FnPtr,
    Other,
}

/// A local of the body: whether its type carries a pointer or reference, and
/// what its type says when the local is called.
#[derive(Clone, Copy, Debug, PartialEq, Eq, Structural)]
pub struct LocalDecl {
    pub has_ptr: bool,
    pub callee_ty: CalleeTy,
}

/// A place: its local, whether the place's own type carries a pointer, and,
/// when that type is a tuple, whether each of its fields does.
#[derive(Clone, Debug)]
pub struct Place {
    pub local: usize,
    pub has_ptr: bool,
    pub tuple_fields: Option<Vec<bool>>,
}

#[derive(Clone, Debug)]
pub enum Operand {
    Copy(Place),
    Move(Place),
    /// A constant, with what its type says when it is called.
    Constant(CalleeTy),
}

#[derive(Clone, Debug)]
pub enum Rvalue {
    Use(Operand),
    Repeat(Operand),
    Ref(Place),
    AddressOf(Place),
    Cast(Operand),
    Aggregate { is_tuple: bool, operands: Vec<Operand> },
    BinaryOp(Operand, Operand),
    ShallowInitBox(Operand),
    CopyForDeref(Place),
    Other,
}

#[derive(Clone, Debug)]
pub enum Statement {
    Assign(Place, Rvalue),
    Other,
}

#[derive(Clone, Debug)]
pub enum Terminator {
    Call { func: Operand, args: Vec<Operand>, destination: Place },
    Other,
}

#[derive(Clone, Debug)]
pub struct BasicBlock {
    pub statements: Vec<Statement>,
    pub terminator: Option<Terminator>,
}

/// A function body: locals `0` (the result), `1..=arg_count` (the
/// parameters) and the others, and the basic blocks.
#[derive(Clone, Debug)]
pub struct MirBody {
    pub arg_count: usize,
    pub local_decls: Vec<LocalDecl>,
    pub basic_blocks: Vec<BasicBlock>,
}

impl MirBody {
    /// The local's type carries a pointer.
    pub open spec fn local_has_ptr(&self, l: usize) -> bool {
        self.local_decls@[l as int].has_ptr
    }

    /// The path of local `l` in function `f`.
    pub open spec fn path_of(&self, f: FuncId, l: usize) -> Path {
        spec_local_path(f, l, self.arg_count)
    }
}

/// Every local a place names exists.
pub open spec fn place_ok(n: nat, p: Place) -> bool {
    p.local < n
}

pub open spec fn operand_ok(n: nat, o: Operand) -> bool {
    match o {
        Operand::Copy(p) => place_ok(n, p),
        Operand::Move(p) => place_ok(n, p),
        Operand::Constant(_) => true,
    }
}

pub open spec fn rvalue_ok(n: nat, r: Rvalue) -> bool {
    match r {
        Rvalue::Use(o) => operand_ok(n, o),
        Rvalue::Repeat(o) => operand_ok(n, o),
        Rvalue::Ref(p) => place_ok(n, p),
        Rvalue::AddressOf(p) => place_ok(n, p),
        Rvalue::Cast(o) => operand_ok(n, o),
        Rvalue::Aggregate { is_tuple, operands } => forall|i: int| 0 <= i < operands@.len() ==> operand_ok(n, #[trigger] operands@[i]),
        Rvalue::BinaryOp(a, _b) => operand_ok(n, a),
        Rvalue::ShallowInitBox(o) => operand_ok(n, o),
        Rvalue::CopyForDeref(p) => place_ok(n, p),
        Rvalue::Other => true,
    }
}

pub open spec fn statement_ok(n: nat, s: Statement) -> bool {
    match s {
        Statement::Assign(p, r) => place_ok(n, p) && rvalue_ok(n, r),
        Statement::Other => true,
    }
}

pub open spec fn terminator_ok(n: nat, t: Option<Terminator>) -> bool {
    match t {
        Some(Terminator::Call { func, args, destination }) => {
            &&& operand_ok(n, func)
            &&& place_ok(n, destination)
            &&& forall|i: int| 0 <= i < args@.len() ==> operand_ok(n, #[trigger] args@[i])
        },
        _ => true,
    }
}

/// A place whose type carries a pointer belongs to a local whose type does:
/// a projection of a local has no pointer the local lacks.
pub open spec fn place_ptr_ok(decls: Seq<LocalDecl>, p: Place) -> bool {
    p.has_ptr ==> p.local < decls.len() && decls[p.local as int].has_ptr
}

pub open spec fn operand_ptr_ok(decls: Seq<LocalDecl>, o: Operand) -> bool {
    match o {
        Operand::Copy(p) => place_ptr_ok(decls, p),
        Operand::Move(p) => place_ptr_ok(decls, p),
        Operand::Constant(_) => true,
    }
}

pub open spec fn rvalue_ptr_ok(decls: Seq<LocalDecl>, r: Rvalue) -> bool {
    match r {
        Rvalue::Use(o) => operand_ptr_ok(decls, o),
        Rvalue::Repeat(o) => operand_ptr_ok(decls, o),
        Rvalue::Cast(o) => operand_ptr_ok(decls, o),
        Rvalue::Aggregate { is_tuple, operands } => forall|i: int|
            0 <= i < operands@.len() ==> operand_ptr_ok(decls, #[trigger] operands@[i]),
        Rvalue::BinaryOp(a, _b) => operand_ptr_ok(decls, a),
        Rvalue::ShallowInitBox(o) => operand_ptr_ok(decls, o),
        _ => true,
    }
}

pub open spec fn statement_ptr_ok(decls: Seq<LocalDecl>, s: Statement) -> bool {
    match s {
        Statement::Assign(_p, r) => rvalue_ptr_ok(decls, r),
        Statement::Other => true,
    }
}

impl MirBody {
    /// Every place of the body names one of its locals, a place's pointer
    /// flag agrees with its local's, and it has a result local and its
    /// parameters.
    pub open spec fn wf(&self) -> bool {
        let n = self.local_decls@.len();
        &&& self.arg_count < n
        &&& forall|b: int, i: int|
            0 <= b < self.basic_blocks@.len() && 0 <= i < self.basic_blocks@[b].statements@.len() ==> statement_ok(
                n,
                #[trigger] self.basic_blocks@[b].statements@[i],
            ) && statement_ptr_ok(self.local_decls@, self.basic_blocks@[b].statements@[i])
        &&& forall|b: int| 0 <= b < self.basic_blocks@.len() ==> terminator_ok(n, #[trigger] self.basic_blocks@[b].terminator)
    }
}

// ---------------------------------------------------------------------------
// The flows of a body: the (source, target) path pairs the analysis connects.
// ---------------------------------------------------------------------------

/// Field `i` of the whole local path `p`.
pub open spec fn field_path(p: Path, i: usize) -> Path {
    Path { field: Some(i), ..p }
}

/// The flows between the pointer-carrying fields of two tuples, among the
/// first fields listed in `fields`.
pub open spec fn field_flows(r: Path, l: Path, fields: Seq<bool>) -> Seq<(Path, Path)>
    decreases fields.len(),
{
    if fields.len() == 0 {
        Seq::empty()
    } else {
        let i = (fields.len() - 1) as usize;
        field_flows(r, l, fields.drop_last()) + if fields.last() {
            seq![(field_path(r, i), field_path(l, i))]
        } else {
            Seq::empty()
        }
    }
}

/// The flows of using `op` to assign `lplace`: from a pointer-carrying place
/// to the assigned local, and, when provenance is tracked, between the
/// pointer-carrying fields of a tuple.
pub open spec fn use_flows(body: MirBody, f: FuncId, ap: bool, lplace: Place, op: Operand) -> Seq<(Path, Path)> {
    let place_flows = |p: Place|
        if p.has_ptr {
            let r = body.path_of(f, p.local);
            let l = body.path_of(f, lplace.local);
            seq![(r, l)] + match p.tuple_fields {
                Some(fs) => if ap {
                    field_flows(r, l, fs@)
                } else {
                    Seq::empty()
                },
                None => Seq::empty(),
            }
        } else {
            Seq::empty()
        };
    match op {
        Operand::Copy(p) => place_flows(p),
        Operand::Move(p) => place_flows(p),
        Operand::Constant(_) => Seq::empty(),
    }
}

/// The flow of taking a reference to `rplace` into `lplace`, when the local
/// of `rplace` carries a pointer.
pub open spec fn ref_flows(body: MirBody, f: FuncId, lplace: Place, rplace: Place) -> Seq<(Path, Path)> {
    if body.local_has_ptr(rplace.local) {
        seq![(body.path_of(f, rplace.local), body.path_of(f, lplace.local))]
    } else {
        Seq::empty()
    }
}

/// The local path of a pointer-carrying place operand.
pub open spec fn pointer_operand(body: MirBody, f: FuncId, op: Operand) -> Option<Path> {
    match op {
        Operand::Copy(p) => if p.has_ptr {
            Some(body.path_of(f, p.local))
        } else {
            None
        },
        Operand::Move(p) => if p.has_ptr {
            Some(body.path_of(f, p.local))
        } else {
            None
        },
        Operand::Constant(_) => None,
    }
}

/// The flow from operand `op`, at position `i` of a tuple being built in
/// `lplace`, to that field, when provenance is tracked and `op` is a
/// pointer-carrying place.
pub open spec fn tuple_flow(body: MirBody, f: FuncId, ap: bool, is_tuple: bool, lplace: Place, op: Operand, i: usize) -> Seq<(Path, Path)> {
    if ap && is_tuple {
        match pointer_operand(body, f, op) {
            Some(src) => seq![(src, field_path(body.path_of(f, lplace.local), i))],
            None => Seq::empty(),
        }
    } else {
        Seq::empty()
    }
}

/// The flows of building an aggregate from the first operands of `ops`: each
/// operand flows to the assigned local, and, for a tuple when provenance is
/// tracked, a pointer-carrying operand also flows to its field.
pub open spec fn aggregate_flows(body: MirBody, f: FuncId, ap: bool, is_tuple: bool, lplace: Place, ops: Seq<Operand>) -> Seq<(Path, Path)>
    decreases ops.len(),
{
    if ops.len() == 0 {
        Seq::empty()
    } else {
        let i = (ops.len() - 1) as usize;
        aggregate_flows(body, f, ap, is_tuple, lplace, ops.drop_last()) + tuple_flow(body, f, ap, is_tuple, lplace, ops.last(), i)
            + use_flows(body, f, ap, lplace, ops.last())
    }
}

/// The flows of assigning `rv` to `lplace`.
pub open spec fn assign_flows(body: MirBody, f: FuncId, ap: bool, lplace: Place, rv: Rvalue) -> Seq<(Path, Path)> {
    match rv {
        Rvalue::Use(o) => use_flows(body, f, ap, lplace, o),
        Rvalue::Repeat(o) => use_flows(body, f, ap, lplace, o),
        Rvalue::Ref(p) => ref_flows(body, f, lplace, p),
        Rvalue::AddressOf(p) => ref_flows(body, f, lplace, p),
        Rvalue::Cast(o) => use_flows(body, f, ap, lplace, o),
        Rvalue::Aggregate { is_tuple, operands } => aggregate_flows(body, f, ap, is_tuple, lplace, operands@),
        Rvalue::BinaryOp(a, _b) => use_flows(body, f, ap, lplace, a),
        Rvalue::ShallowInitBox(o) => use_flows(body, f, ap, lplace, o),
        Rvalue::CopyForDeref(p) => ref_flows(body, f, lplace, p),
        Rvalue::Other => Seq::empty(),
    }
}

/// The flows of a statement: those of an assignment to a local whose type
/// carries a pointer.
pub open spec fn statement_flows(body: MirBody, f: FuncId, ap: bool, s: Statement) -> Seq<(Path, Path)> {
    match s {
        Statement::Assign(p, rv) => if body.local_has_ptr(p.local) {
            assign_flows(body, f, ap, p, rv)
        } else {
            Seq::empty()
        },
        Statement::Other => Seq::empty(),
    }
}

/// The flows of the first statements in `stmts`, in order.
pub open spec fn statements_flows(body: MirBody, f: FuncId, ap: bool, stmts: Seq<Statement>) -> Seq<(Path, Path)>
    decreases stmts.len(),
{
    if stmts.len() == 0 {
        Seq::empty()
    } else {
        statements_flows(body, f, ap, stmts.drop_last()) + statement_flows(body, f, ap, stmts.last())
    }
}

/// The flows of the first blocks in `bbs`, in order.
pub open spec fn blocks_flows(body: MirBody, f: FuncId, ap: bool, bbs: Seq<BasicBlock>) -> Seq<(Path, Path)>
    decreases bbs.len(),
{
    if bbs.len() == 0 {
        Seq::empty()
    } else {
        blocks_flows(body, f, ap, bbs.drop_last()) + statements_flows(body, f, ap, bbs.last().statements@)
    }
}

/// All flows of the body, block by block.
pub open spec fn body_flows(body: MirBody, f: FuncId, ap: bool) -> Seq<(Path, Path)> {
    blocks_flows(body, f, ap, body.basic_blocks@)
}

/// Path `q` is a field path, or the path of a local of the body whose type
/// carries a pointer.
pub open spec fn flow_end_ok(body: MirBody, f: FuncId, q: Path) -> bool {
    q.field is Some || exists|l: usize|
        l < body.local_decls@.len() && body.local_has_ptr(l) && #[trigger] body.path_of(f, l) == q
}

/// Both ends of every flow of `s` are field paths or paths of pointer-carrying locals.
pub open spec fn flow_ends_ok(body: MirBody, f: FuncId, s: Seq<(Path, Path)>) -> bool {
    forall|k: int| 0 <= k < s.len() ==> flow_end_ok(body, f, (#[trigger] s[k]).0) && flow_end_ok(body, f, s[k].1)
}

proof fn lemma_ends_concat(body: MirBody, f: FuncId, a: Seq<(Path, Path)>, b: Seq<(Path, Path)>)
    requires
        flow_ends_ok(body, f, a),
        flow_ends_ok(body, f, b),
    ensures
        flow_ends_ok(body, f, a + b),
{
    assert forall|k: int| 0 <= k < (a + b).len() implies flow_end_ok(body, f, (#[trigger] (a + b)[k]).0) && flow_end_ok(body, f, (a + b)[k].1) by {
        if k < a.len() {
            assert((a + b)[k] == a[k]);
        } else {
            assert((a + b)[k] == b[k - a.len()]);
        }
    }
}

proof fn lemma_field_flows_ends(body: MirBody, f: FuncId, r: Path, l: Path, fs: Seq<bool>)
    ensures
        flow_ends_ok(body, f, field_flows(r, l, fs)),
    decreases fs.len(),
{
    if fs.len() > 0 {
        lemma_field_flows_ends(body, f, r, l, fs.drop_last());
        let i = (fs.len() - 1) as usize;
        let t: Seq<(Path, Path)> = if fs.last() { seq![(field_path(r, i), field_path(l, i))] } else { Seq::empty() };
        assert(flow_ends_ok(body, f, t));
        lemma_ends_concat(body, f, field_flows(r, l, fs.drop_last()), t);
    }
}

proof fn lemma_use_flows_ends(body: MirBody, f: FuncId, ap: bool, lplace: Place, op: Operand)
    requires
        operand_ptr_ok(body.local_decls@, op),
        lplace.local < body.local_decls@.len(),
        body.local_has_ptr(lplace.local),
    ensures
        flow_ends_ok(body, f, use_flows(body, f, ap, lplace, op)),
{
    let lp = body.path_of(f, lplace.local);
    assert(flow_end_ok(body, f, lp));
    match op {
        Operand::Copy(p) => lemma_place_flows_ends(body, f, ap, lplace, p),
        Operand::Move(p) => lemma_place_flows_ends(body, f, ap, lplace, p),
        Operand::Constant(_) => {},
    }
}

proof fn lemma_place_flows_ends(body: MirBody, f: FuncId, ap: bool, lplace: Place, p: Place)
    requires
        place_ptr_ok(body.local_decls@, p),
        lplace.local < body.local_decls@.len(),
        body.local_has_ptr(lplace.local),
    ensures
        flow_ends_ok(body, f, use_flows(body, f, ap, lplace, Operand::Copy(p))),
        flow_ends_ok(body, f, use_flows(body, f, ap, lplace, Operand::Move(p))),
{
    if p.has_ptr {
        let r = body.path_of(f, p.local);
        let l = body.path_of(f, lplace.local);
        assert(flow_end_ok(body, f, r));
        assert(flow_end_ok(body, f, l));
        let head: Seq<(Path, Path)> = seq![(r, l)];
        assert(flow_ends_ok(body, f, head));
        let tail: Seq<(Path, Path)> = match p.tuple_fields {
            Some(fs) => if ap {
                field_flows(r, l, fs@)
            } else {
                Seq::empty()
            },
            None => Seq::empty(),
        };
        match p.tuple_fields {
            Some(fs) => lemma_field_flows_ends(body, f, r, l, fs@),
            None => {},
        }
        assert(flow_ends_ok(body, f, tail));
        lemma_ends_concat(body, f, head, tail);
        assert(use_flows(body, f, ap, lplace, Operand::Copy(p)) == head + tail);
        assert(use_flows(body, f, ap, lplace, Operand::Move(p)) == head + tail);
    } else {
        assert(use_flows(body, f, ap, lplace, Operand::Copy(p)) =~= Seq::<(Path, Path)>::empty());
        assert(use_flows(body, f, ap, lplace, Operand::Move(p)) =~= Seq::<(Path, Path)>::empty());
    }
}

proof fn lemma_aggregate_flows_ends(body: MirBody, f: FuncId, ap: bool, is_tuple: bool, lplace: Place, ops: Seq<Operand>)
    requires
        forall|i: int| 0 <= i < ops.len() ==> operand_ptr_ok(body.local_decls@, #[trigger] ops[i]),
        lplace.local < body.local_decls@.len(),
        body.local_has_ptr(lplace.local),
    ensures
        flow_ends_ok(body, f, aggregate_flows(body, f, ap, is_tuple, lplace, ops)),
    decreases ops.len(),
{
    if ops.len() > 0 {
        let i = (ops.len() - 1) as usize;
        assert(operand_ptr_ok(body.local_decls@, ops[ops.len() - 1]));
        lemma_aggregate_flows_ends(body, f, ap, is_tuple, lplace, ops.drop_last());
        let t = tuple_flow(body, f, ap, is_tuple, lplace, ops.last(), i);
        assert(flow_ends_ok(body, f, t)) by {
            match pointer_operand(body, f, ops.last()) {
                Some(src) => {
                    match ops.last() {
                        Operand::Copy(p) => assert(flow_end_ok(body, f, body.path_of(f, p.local))),
                        Operand::Move(p) => assert(flow_end_ok(body, f, body.path_of(f, p.local))),
                        Operand::Constant(_) => {},
                    }
                },
                None => {},
            }
        }
        lemma_use_flows_ends(body, f, ap, lplace, ops.last());
        lemma_ends_concat(body, f, aggregate_flows(body, f, ap, is_tuple, lplace, ops.drop_last()), t);
        lemma_ends_concat(
            body,
            f,
            aggregate_flows(body, f, ap, is_tuple, lplace, ops.drop_last()) + t,
            use_flows(body, f, ap, lplace, ops.last()),
        );
    }
}

proof fn lemma_statement_flows_ends(body: MirBody, f: FuncId, ap: bool, st: Statement)
    requires
        statement_ok(body.local_decls@.len(), st),
        statement_ptr_ok(body.local_decls@, st),
    ensures
        flow_ends_ok(body, f, statement_flows(body, f, ap, st)),
{
    match st {
        Statement::Assign(p, rv) => {
            if body.local_has_ptr(p.local) {
                match rv {
                    Rvalue::Use(o) => lemma_use_flows_ends(body, f, ap, p, o),
                    Rvalue::Repeat(o) => lemma_use_flows_ends(body, f, ap, p, o),
                    Rvalue::Cast(o) => lemma_use_flows_ends(body, f, ap, p, o),
                    Rvalue::BinaryOp(a, _b) => lemma_use_flows_ends(body, f, ap, p, a),
                    Rvalue::ShallowInitBox(o) => lemma_use_flows_ends(body, f, ap, p, o),
                    Rvalue::Aggregate { is_tuple, operands } => lemma_aggregate_flows_ends(body, f, ap, is_tuple, p, operands@),
                    Rvalue::Ref(q) => {
                        if body.local_has_ptr(q.local) {
                            assert(flow_end_ok(body, f, body.path_of(f, q.local)));
                            assert(flow_end_ok(body, f, body.path_of(f, p.local)));
                        }
                    },
                    Rvalue::AddressOf(q) => {
                        if body.local_has_ptr(q.local) {
                            assert(flow_end_ok(body, f, body.path_of(f, q.local)));
                            assert(flow_end_ok(body, f, body.path_of(f, p.local)));
                        }
                    },
                    Rvalue::CopyForDeref(q) => {
                        if body.local_has_ptr(q.local) {
                            assert(flow_end_ok(body, f, body.path_of(f, q.local)));
                            assert(flow_end_ok(body, f, body.path_of(f, p.local)));
                        }
                    },
                    Rvalue::Other => {},
                }
            }
        },
        Statement::Other => {},
    }
}

proof fn lemma_statements_flows_ends(body: MirBody, f: FuncId, ap: bool, stmts: Seq<Statement>)
    requires
        forall|i: int| 0 <= i < stmts.len() ==> statement_ok(body.local_decls@.len(), #[trigger] stmts[i])
            && statement_ptr_ok(body.local_decls@, stmts[i]),
    ensures
        flow_ends_ok(body, f, statements_flows(body, f, ap, stmts)),
    decreases stmts.len(),
{
    if stmts.len() > 0 {
        assert(statement_ok(body.local_decls@.len(), stmts[stmts.len() - 1]));
        lemma_statements_flows_ends(body, f, ap, stmts.drop_last());
        lemma_statement_flows_ends(body, f, ap, stmts.last());
        lemma_ends_concat(body, f, statements_flows(body, f, ap, stmts.drop_last()), statement_flows(body, f, ap, stmts.last()));
    }
}

proof fn lemma_blocks_flows_ends(body: MirBody, f: FuncId, ap: bool, bbs: Seq<BasicBlock>)
    requires
        forall|b: int, i: int|
            0 <= b < bbs.len() && 0 <= i < bbs[b].statements@.len() ==> statement_ok(body.local_decls@.len(), #[trigger] bbs[b].statements@[i])
                && statement_ptr_ok(body.local_decls@, bbs[b].statements@[i]),
    ensures
        flow_ends_ok(body, f, blocks_flows(body, f, ap, bbs)),
    decreases bbs.len(),
{
    if bbs.len() > 0 {
        let last = bbs.len() - 1;
        assert forall|i: int| 0 <= i < bbs.last().statements@.len() implies statement_ok(body.local_decls@.len(), #[trigger] bbs.last().statements@[i])
            && statement_ptr_ok(body.local_decls@, bbs.last().statements@[i]) by {
            assert(statement_ok(body.local_decls@.len(), bbs[last].statements@[i]));
        }
        assert forall|b: int, i: int|
            0 <= b < bbs.drop_last().len() && 0 <= i < bbs.drop_last()[b].statements@.len() implies statement_ok(body.local_decls@.len(), #[trigger] bbs.drop_last()[b].statements@[i])
                && statement_ptr_ok(body.local_decls@, bbs.drop_last()[b].statements@[i]) by {
            assert(bbs.drop_last()[b] == bbs[b]);
            assert(statement_ok(body.local_decls@.len(), bbs[b].statements@[i]));
        }
        lemma_blocks_flows_ends(body, f, ap, bbs.drop_last());
        lemma_statements_flows_ends(body, f, ap, bbs.last().statements@);
        lemma_ends_concat(body, f, blocks_flows(body, f, ap, bbs.drop_last()), statements_flows(body, f, ap, bbs.last().statements@));
    }
}

/// Both ends of every flow of a well-formed body are field paths or paths of
/// pointer-carrying locals.
pub proof fn lemma_body_flows_ends(body: MirBody, f: FuncId, ap: bool)
    requires
        body.wf(),
    ensures
        flow_ends_ok(body, f, body_flows(body, f, ap)),
{
    assert forall|b: int, i: int|
        0 <= b < body.basic_blocks@.len() && 0 <= i < body.basic_blocks@[b].statements@.len() implies statement_ok(
            body.local_decls@.len(),
            #[trigger] body.basic_blocks@[b].statements@[i],
        ) && statement_ptr_ok(body.local_decls@, body.basic_blocks@[b].statements@[i]) by {}
    lemma_blocks_flows_ends(body, f, ap, body.basic_blocks@);
}

// ---------------------------------------------------------------------------
// The calls of a body.
// ---------------------------------------------------------------------------

/// The pointer-carrying arguments among the first of `args`, with their
/// positions counted from 1.
pub open spec fn arg_paths(body: MirBody, f: FuncId, args: Seq<Operand>) -> Seq<(usize, Path)>
    decreases args.len(),
{
    if args.len() == 0 {
        Seq::empty()
    } else {
        let rest = arg_paths(body, f, args.drop_last());
        let idx = args.len() as usize;
        match args.last() {
            Operand::Copy(p) => if body.local_has_ptr(p.local) {
                rest.push((idx, body.path_of(f, p.local)))
            } else {
                rest
            },
            Operand::Move(p) => if body.local_has_ptr(p.local) {
                rest.push((idx, body.path_of(f, p.local)))
            } else {
                rest
            },
            Operand::Constant(_) => rest,
        }
    }
}

/// The location of the terminator of block `b`.
pub open spec fn terminator_location(body: MirBody, b: int) -> Location {
    Location { block: b as usize, statement_index: body.basic_blocks@[b].statements@.len() as usize }
}

/// Block `b` ends in a call whose destination local carries a pointer.
pub open spec fn is_pointer_call(body: MirBody, b: int) -> bool {
    match body.basic_blocks@[b].terminator {
        Some(Terminator::Call { func, args, destination }) => body.local_has_ptr(destination.local),
        _ => false,
    }
}

/// The record of the pointer call ending block `b`: its location, its
/// pointer-carrying arguments and its destination.
pub open spec fn call_record(body: MirBody, f: FuncId, b: int) -> (Location, Seq<(usize, Path)>, Path) {
    match body.basic_blocks@[b].terminator {
        Some(Terminator::Call { func, args, destination }) => (
            terminator_location(body, b),
            arg_paths(body, f, args@),
            body.path_of(f, destination.local),
        ),
        _ => (terminator_location(body, b), Seq::empty(), body.path_of(f, 0)),
    }
}

/// The records of the pointer calls among the first `upto` blocks, in order.
pub open spec fn calls_upto(body: MirBody, f: FuncId, upto: nat) -> Seq<(Location, Seq<(usize, Path)>, Path)>
    decreases upto,
{
    if upto == 0 {
        Seq::empty()
    } else {
        let b = upto - 1;
        let rest = calls_upto(body, f, b as nat);
        if b < body.basic_blocks@.len() && is_pointer_call(body, b) {
            rest.push(call_record(body, f, b))
        } else {
            rest
        }
    }
}

/// The type a call's called operand has.
pub open spec fn callee_ty(body: MirBody, func: Operand) -> CalleeTy {
    match func {
        Operand::Copy(p) => body.local_decls@[p.local as int].callee_ty,
        Operand::Move(p) => body.local_decls@[p.local as int].callee_ty,
        Operand::Constant(ct) => ct,
    }
}

/// How a pointer call dispatches.
pub enum CallKind {
    /// Through a function pointer, or to a closure, function item or
    /// coroutine that is not a `Fn*` trait method.
    Static,
    /// A `Fn*` trait method called on a function pointer or function item.
    FnPtrOrDef,
    /// A `Fn*` trait method called on a closure, coroutine or trait object.
    ClosureOrDyn,
    /// Neither.
    Unknown,
}

pub open spec fn call_kind(ct: CalleeTy) -> CallKind {
    match ct {
        CalleeTy::Item { fn_trait_call, first_type_arg } => if !fn_trait_call {
            CallKind::Static
        } else {
            match first_type_arg {
                Some(TypeArgKind::FnPtr) => CallKind::FnPtrOrDef,
                Some(TypeArgKind::FnDef) => CallKind::FnPtrOrDef,
                Some(TypeArgKind::Closure) => CallKind::ClosureOrDyn,
                Some(TypeArgKind::Coroutine) => CallKind::ClosureOrDyn,
                Some(TypeArgKind::Dynamic) => CallKind::ClosureOrDyn,
                _ => CallKind::Unknown,
            }
        },
        CalleeTy::FnPtr => CallKind::Static,
        CalleeTy::Other => CallKind::Unknown,
    }
}

/// `l` is the location of a pointer call of the body whose dispatch is `k`.
pub open spec fn is_call_site_of_kind(body: MirBody, l: Location, k: CallKind) -> bool {
    &&& l.block < body.basic_blocks@.len()
    &&& l == terminator_location(body, l.block as int)
    &&& is_pointer_call(body, l.block as int)
    &&& match body.basic_blocks@[l.block as int].terminator {
        Some(Terminator::Call { func, args, destination }) => call_kind(callee_ty(body, func)) == k,
        _ => false,
    }
}

/// The total number of pointer-carrying arguments of the body's calls.
pub open spec fn call_args_total(calls: Seq<(Location, Seq<(usize, Path)>, Path)>) -> nat
    decreases calls.len(),
{
    if calls.len() == 0 {
        0
    } else {
        call_args_total(calls.drop_last()) + calls.last().1.len()
    }
}

/// Whether every local the place names exists.
fn place_in(n: usize, p: &Place) -> (r: bool)
    ensures
        r == place_ok(n as nat, *p),
{
    p.local < n
}

fn operand_in(n: usize, o: &Operand) -> (r: bool)
    ensures
        r == operand_ok(n as nat, *o),
{
    match o {
        Operand::Copy(p) | Operand::Move(p) => place_in(n, p),
        Operand::Constant(_) => true,
    }
}

fn operands_in(n: usize, ops: &Vec<Operand>) -> (r: bool)
    ensures
        r == forall|i: int| 0 <= i < ops@.len() ==> operand_ok(n as nat, #[trigger] ops@[i]),
{
    let mut i: usize = 0;
    while i < ops.len()
        invariant
            0 <= i <= ops@.len(),
            forall|j: int| 0 <= j < i ==> operand_ok(n as nat, #[trigger] ops@[j]),
        decreases ops.len() - i,
    {
        if !operand_in(n, &ops[i]) {
            return false;
        }
        i += 1;
    }
    true
}

fn rvalue_in(n: usize, r: &Rvalue) -> (b: bool)
    ensures
        b == rvalue_ok(n as nat, *r),
{
    match r {
        Rvalue::Use(o) | Rvalue::Repeat(o) | Rvalue::Cast(o) | Rvalue::ShallowInitBox(o) => operand_in(n, o),
        Rvalue::Ref(p) | Rvalue::AddressOf(p) | Rvalue::CopyForDeref(p) => place_in(n, p),
        Rvalue::Aggregate { is_tuple: _, operands } => operands_in(n, operands),
        Rvalue::BinaryOp(a, _b) => operand_in(n, a),
        Rvalue::Other => true,
    }
}

fn statement_in(n: usize, s: &Statement) -> (b: bool)
    ensures
        b == statement_ok(n as nat, *s),
{
    match s {
        Statement::Assign(p, r) => place_in(n, p) && rvalue_in(n, r),
        Statement::Other => true,
    }
}

fn terminator_in(n: usize, t: &Option<Terminator>) -> (b: bool)
    ensures
        b == terminator_ok(n as nat, *t),
{
    match t {
        Some(Terminator::Call { func, args, destination }) => operand_in(n, func) && place_in(n, destination) && operands_in(n, args),
        _ => true,
    }
}

fn place_ptr_in(decls: &Vec<LocalDecl>, p: &Place) -> (r: bool)
    ensures
        r == place_ptr_ok(decls@, *p),
{
    !p.has_ptr || (p.local < decls.len() && decls[p.local].has_ptr)
}

fn operand_ptr_in(decls: &Vec<LocalDecl>, o: &Operand) -> (r: bool)
    ensures
        r == operand_ptr_ok(decls@, *o),
{
    match o {
        Operand::Copy(p) | Operand::Move(p) => place_ptr_in(decls, p),
        Operand::Constant(_) => true,
    }
}

fn operands_ptr_in(decls: &Vec<LocalDecl>, ops: &Vec<Operand>) -> (r: bool)
    ensures
        r == forall|i: int| 0 <= i < ops@.len() ==> operand_ptr_ok(decls@, #[trigger] ops@[i]),
{
    let mut i: usize = 0;
    while i < ops.len()
        invariant
            0 <= i <= ops@.len(),
            forall|j: int| 0 <= j < i ==> operand_ptr_ok(decls@, #[trigger] ops@[j]),
        decreases ops.len() - i,
    {
        if !operand_ptr_in(decls, &ops[i]) {
            return false;
        }
        i += 1;
    }
    true
}

fn rvalue_ptr_in(decls: &Vec<LocalDecl>, r: &Rvalue) -> (b: bool)
    ensures
        b == rvalue_ptr_ok(decls@, *r),
{
    match r {
        Rvalue::Use(o) | Rvalue::Repeat(o) | Rvalue::Cast(o) | Rvalue::ShallowInitBox(o) => operand_ptr_in(decls, o),
        Rvalue::Aggregate { is_tuple: _, operands } => operands_ptr_in(decls, operands),
        Rvalue::BinaryOp(a, _b) => operand_ptr_in(decls, a),
        _ => true,
    }
}

fn statement_ptr_in(decls: &Vec<LocalDecl>, s: &Statement) -> (b: bool)
    ensures
        b == statement_ptr_ok(decls@, *s),
{
    match s {
        Statement::Assign(_p, r) => rvalue_ptr_in(decls, r),
        Statement::Other => true,
    }
}

impl MirBody {
    /// Whether every place of the body names one of its locals, a place's
    /// pointer flag agrees with its local's, and it has a result local and
    /// its parameters.
    pub fn is_well_formed(&self) -> (r: bool)
        ensures
            r == self.wf(),
    {
        let n = self.local_decls.len();
        if self.arg_count >= n {
            return false;
        }
        let mut b: usize = 0;
        while b < self.basic_blocks.len()
            invariant
                0 <= b <= self.basic_blocks@.len(),
                n == self.local_decls@.len(),
                self.arg_count < n,
                forall|b2: int, i: int|
                    0 <= b2 < b && 0 <= i < self.basic_blocks@[b2].statements@.len() ==> statement_ok(
                        n as nat,
                        #[trigger] self.basic_blocks@[b2].statements@[i],
                    ) && statement_ptr_ok(self.local_decls@, self.basic_blocks@[b2].statements@[i]),
                forall|b2: int| 0 <= b2 < b ==> terminator_ok(n as nat, #[trigger] self.basic_blocks@[b2].terminator),
            decreases self.basic_blocks.len() - b,
        {
            let bb = &self.basic_blocks[b];
            let mut i: usize = 0;
            while i < bb.statements.len()
                invariant
                    0 <= i <= bb.statements@.len(),
                    b < self.basic_blocks@.len(),
                    n == self.local_decls@.len(),
                    *bb == self.basic_blocks@[b as int],
                    forall|j: int| 0 <= j < i ==> statement_ok(n as nat, #[trigger] bb.statements@[j])
                        && statement_ptr_ok(self.local_decls@, bb.statements@[j]),
                decreases bb.statements.len() - i,
            {
                if !statement_in(n, &bb.statements[i]) || !statement_ptr_in(&self.local_decls, &bb.statements[i]) {
                    proof {
                        let st = self.basic_blocks@[b as int].statements@[i as int];
                        assert(!(statement_ok(n as nat, st) && statement_ptr_ok(self.local_decls@, st)));
                    }
                    return false;
                }
                i += 1;
            }
            if !terminator_in(n, &bb.terminator) {
                proof {
                    assert(!terminator_ok(n as nat, self.basic_blocks@[b as int].terminator));
                }
                return false;
            }
            b += 1;
        }
        true
    }
}

/// A cast moves a value like a plain use: assigning a cast of an operand
/// has exactly the flows of assigning the operand itself, and casting a
/// pointer-carrying place into a local gives the flow from that place's
/// local to the assigned local.
pub proof fn lemma_cast_flows_as_use(body: MirBody, f: FuncId, ap: bool, lplace: Place, p: Place, is_move: bool)
    ensures
        ({
            let o = if is_move { Operand::Move(p) } else { Operand::Copy(p) };
            &&& assign_flows(body, f, ap, lplace, Rvalue::Cast(o)) == assign_flows(body, f, ap, lplace, Rvalue::Use(o))
            &&& p.has_ptr ==> assign_flows(body, f, ap, lplace, Rvalue::Cast(o)).contains(
                (body.path_of(f, p.local), body.path_of(f, lplace.local)),
            )
            &&& body.local_has_ptr(lplace.local) && p.has_ptr ==> statement_flows(body, f, ap, Statement::Assign(lplace, Rvalue::Cast(o))).contains(
                (body.path_of(f, p.local), body.path_of(f, lplace.local)),
            )
        }),
{
    let o = if is_move { Operand::Move(p) } else { Operand::Copy(p) };
    if p.has_ptr {
        let fl = assign_flows(body, f, ap, lplace, Rvalue::Cast(o));
        assert(fl[0] == (body.path_of(f, p.local), body.path_of(f, lplace.local)));
    }
}

} // verus!
