//! Lowering of desugared expressions to a linear bytecode with a
//! deduplicated constant pool and numbered local slots.
use vstd::prelude::*;

use indexmap::IndexMap;

use crate::desugar::{copy_string, Acc, Cond, CondM, Expression, FnDefinition, Tree};
use crate::pool::{pool_entries, pool_get, pool_insert, pool_len, pool_new};

pub mod lowering;
pub mod machine;

use lowering::{
    branches_spec, clause_spec, cond_spec, constant_spec, err_model, find_constant, join_jumps, list_spec, lower_spec,
    patch_at, path_code, push_code, slot_spec, tree_spec, ErrM, LState,
};

pub use machine::{Machine, Value, VmError};

verus! {

#[derive(Clone, Copy, Debug, PartialEq, Eq, Structural)]
pub enum Bytecode {
    Return,
    PushNumber { val: i32 },
    LoadConstant { id: u16 },
    GetLocal { id: usize },
    SetLocal { id: usize },
    /// Branch to the next or default case when the value differs from the
    /// constant.
    TestExact { id: u16, branch: usize },
    /// Branch to the next or default case when the value is not a tuple of
    /// this size.
    TestTuple { size: usize, branch: usize },
    TestCons { branch: usize },
    TestNil { branch: usize },
    MakeTuple { size: usize },
    GetTuple { index: usize },
    GetHd,
    GetTl,
    Jump { index: usize },
    MatchFail,
    /// Pops a tail, then a head, and pushes the cons cell of the two.
    MakeCons,
    PushNil,
}

#[derive(Clone, Debug, Eq, Hash)]
pub enum Constant {
    Number(i32),
    Atom(String),
    String(String),
}

pub enum ConstantM {
    Number(i32),
    Atom(Seq<char>),
    Str(Seq<char>),
}

impl Constant {
    pub open spec fn model(&self) -> ConstantM {
        match self {
            Constant::Number(n) => ConstantM::Number(*n),
            Constant::Atom(a) => ConstantM::Atom(a@),
            Constant::String(s) => ConstantM::Str(s@),
        }
    }
}

impl PartialEq for Constant {
    fn eq(&self, other: &Constant) -> (r: bool) {
        match (self, other) {
            (Constant::Number(a), Constant::Number(b)) => *a == *b,
            (Constant::Atom(a), Constant::Atom(b)) => a.eq(b),
            (Constant::String(a), Constant::String(b)) => a.eq(b),
            _ => false,
        }
    }
}

impl vstd::std_specs::cmp::PartialEqSpecImpl for Constant {
    open spec fn obeys_eq_spec() -> bool {
        true
    }

    open spec fn eq_spec(&self, other: &Constant) -> bool {
        self.model() == other.model()
    }
}

/// Why an expression could not be compiled.
#[derive(Debug)]
pub enum CompileError {
    /// More constants than 16-bit ids can number.
    ConstantPoolOverflow,
    /// A variable with no local slot.
    UnboundVariable(String),
    /// An arithmetic operation or a call: neither has an instruction.
    Unsupported,
    /// A decision-tree leaf whose action index has no action.
    InvalidAction,
}

/// The largest number of constants in one pool.
pub const MAX_CONSTANTS: usize = 65536;

/// The target of a test or jump emitted before its destination is known.
pub const TEMP_BRANCH: usize = 0;

/// Per-function compiler state: the instructions so far, the constant pool
/// and the local slots, slot `i` holding the name in `locals[i]`.
pub struct Ctx {
    pub bytecode: Vec<Bytecode>,
    pub constants: IndexMap<Constant, u16>,
    pub locals: Vec<String>,
}

/// A compiled unit.
pub struct BytecodeInfo {
    pub bytecode: Vec<Bytecode>,
    pub locals: usize,
    pub constants: IndexMap<Constant, u16>,
}

// ---------------------------------------------------------------------
// Well-formedness of code.

/// The branch target of a test or jump.
pub open spec fn branch_target(b: Bytecode) -> Option<usize> {
    match b {
        Bytecode::TestExact { branch, .. } => Some(branch),
        Bytecode::TestTuple { branch, .. } => Some(branch),
        Bytecode::TestCons { branch } => Some(branch),
        Bytecode::TestNil { branch } => Some(branch),
        Bytecode::Jump { index } => Some(index),
        _ => None,
    }
}

/// The instruction at `i` branches, if at all, forward and at most to `end`.
pub open spec fn branch_ok(b: Bytecode, i: int, end: int) -> bool {
    match branch_target(b) {
        Some(t) => i < t <= end,
        None => true,
    }
}

/// The instruction names only existing constants and local slots.
pub open spec fn operands_ok(b: Bytecode, nconst: nat, nlocals: nat) -> bool {
    match b {
        Bytecode::LoadConstant { id } => id < nconst,
        Bytecode::TestExact { id, .. } => id < nconst,
        Bytecode::GetLocal { id } => id < nlocals,
        Bytecode::SetLocal { id } => id < nlocals,
        _ => true,
    }
}

pub open spec fn operands_ok_all(code: Seq<Bytecode>, nconst: nat, nlocals: nat) -> bool {
    forall|i: int| 0 <= i < code.len() ==> operands_ok(#[trigger] code[i], nconst, nlocals)
}

/// Ids number the pool's entries in order and no two entries are equal.
pub open spec fn pool_ok(es: Seq<(Constant, u16)>) -> bool {
    &&& es.len() <= MAX_CONSTANTS
    &&& forall|i: int| 0 <= i < es.len() ==> (#[trigger] es[i]).1 == i
    &&& forall|i: int, j: int|
        0 <= i < es.len() && 0 <= j < es.len() && i != j ==> (#[trigger] es[i]).0.model() != (
        #[trigger] es[j]).0.model()
}

/// Code that ends in `Return` and whose tests and jumps all go forward to
/// an instruction of the code: every run of it from its start ends at a
/// `Return` or a `MatchFail`, unless a value has the wrong shape.
pub open spec fn closed_code(code: Seq<Bytecode>) -> bool {
    &&& code.len() > 0
    &&& code.last() == Bytecode::Return
    &&& forall|i: int|
        0 <= i < code.len() ==> match branch_target(#[trigger] code[i]) {
            Some(t) => i < t < code.len(),
            None => true,
        }
}

/// The expression names `n`, as a variable, in a case's actions or in the
/// roots its decision tree reads.
pub open spec fn mentions(e: crate::desugar::ExprM, n: Seq<char>) -> bool
    decreases e,
{
    match e {
        crate::desugar::ExprM::Variable(x) => x == n,
        crate::desugar::ExprM::Let(_, v, b) => mentions(*v, n) || mentions(*b, n),
        crate::desugar::ExprM::Match(t, acts) => tree_mentions(*t, n) || exists|i: int|
            0 <= i < acts.len() && mentions(#[trigger] acts[i], n),
        crate::desugar::ExprM::Tuple(es) => exists|i: int| 0 <= i < es.len() && mentions(#[trigger] es[i], n),
        crate::desugar::ExprM::Binary(_, l, r) => mentions(*l, n) || mentions(*r, n),
        crate::desugar::ExprM::Call(c, args) => mentions(*c, n) || exists|i: int|
            0 <= i < args.len() && mentions(#[trigger] args[i], n),
        crate::desugar::ExprM::If(c, t, f) => mentions(*c, n) || mentions(*t, n) || mentions(*f, n),
        crate::desugar::ExprM::Access(x, _) => mentions(*x, n),
        crate::desugar::ExprM::Cons(h, t) => mentions(*h, n) || mentions(*t, n),
        _ => false,
    }
}

pub open spec fn tree_mentions(t: crate::desugar::TreeM, n: Seq<char>) -> bool
    decreases t,
{
    match t {
        crate::desugar::TreeM::Switch(o, bs, d) => mentions(o.root, n) || (exists|i: int|
            0 <= i < bs.len() && tree_mentions(#[trigger] bs[i].1, n)) || tree_mentions(*d, n),
        _ => false,
    }
}

/// The expression uses no arithmetic and no call, also in the actions of
/// its cases and the roots their trees read.
pub open spec fn fully_supported(e: crate::desugar::ExprM) -> bool
    decreases e,
{
    match e {
        crate::desugar::ExprM::Binary(..) => false,
        crate::desugar::ExprM::Call(..) => false,
        crate::desugar::ExprM::Let(_, v, n) => fully_supported(*v) && fully_supported(*n),
        crate::desugar::ExprM::Match(t, acts) => tree_supported(*t) && forall|i: int|
            0 <= i < acts.len() ==> fully_supported(#[trigger] acts[i]),
        crate::desugar::ExprM::Tuple(es) => forall|i: int| 0 <= i < es.len() ==> fully_supported(#[trigger] es[i]),
        crate::desugar::ExprM::If(c, t, f) => fully_supported(*c) && fully_supported(*t) && fully_supported(*f),
        crate::desugar::ExprM::Access(x, _) => fully_supported(*x),
        crate::desugar::ExprM::Cons(h, t) => fully_supported(*h) && fully_supported(*t),
        _ => true,
    }
}

pub open spec fn tree_supported(t: crate::desugar::TreeM) -> bool
    decreases t,
{
    match t {
        crate::desugar::TreeM::Switch(o, bs, d) => fully_supported(o.root) && (forall|i: int|
            0 <= i < bs.len() ==> tree_supported(#[trigger] bs[i].1)) && tree_supported(*d),
        _ => true,
    }
}

/// A case in `e`, or in the roots its trees read, has a leaf whose index
/// has no action.
pub open spec fn bad_leaf(e: crate::desugar::ExprM) -> bool
    decreases e,
{
    match e {
        crate::desugar::ExprM::Match(t, acts) => tree_bad_leaf(*t, acts.len()) || exists|i: int|
            0 <= i < acts.len() && bad_leaf(#[trigger] acts[i]),
        crate::desugar::ExprM::Let(_, v, b) => bad_leaf(*v) || bad_leaf(*b),
        crate::desugar::ExprM::Tuple(es) => exists|i: int| 0 <= i < es.len() && bad_leaf(#[trigger] es[i]),
        crate::desugar::ExprM::If(c, t, f) => bad_leaf(*c) || bad_leaf(*t) || bad_leaf(*f),
        crate::desugar::ExprM::Access(x, _) => bad_leaf(*x),
        crate::desugar::ExprM::Cons(h, t) => bad_leaf(*h) || bad_leaf(*t),
        _ => false,
    }
}

/// A leaf of `t` has an index of at least `n`, or a root it reads has a
/// bad leaf.
pub open spec fn tree_bad_leaf(t: crate::desugar::TreeM, n: nat) -> bool
    decreases t,
{
    match t {
        crate::desugar::TreeM::Leaf(i) => i >= n,
        crate::desugar::TreeM::Switch(o, bs, d) => bad_leaf(o.root) || (exists|i: int|
            0 <= i < bs.len() && tree_bad_leaf(#[trigger] bs[i].1, n)) || tree_bad_leaf(*d, n),
        _ => false,
    }
}

/// Why lowering `e` failed, left `after` behind: arithmetic or a call,
/// a variable of `e` with no slot, a full pool, or a leaf without action
/// in a case of `e`.
pub open spec fn error_cause(e: crate::desugar::ExprM, err: CompileError, after: Ctx) -> bool {
    match err {
        CompileError::Unsupported => !fully_supported(e),
        CompileError::UnboundVariable(n) => mentions(e, n@) && slot_of(after.locals@, n@) == -1,
        CompileError::ConstantPoolOverflow => pool_entries(after.constants).len() == MAX_CONSTANTS,
        CompileError::InvalidAction => bad_leaf(e),
    }
}

/// Why lowering a decision tree with `acts` failed.
pub open spec fn tree_error_cause(
    t: crate::desugar::TreeM,
    acts: Seq<crate::desugar::ExprM>,
    err: CompileError,
    after: Ctx,
) -> bool {
    match err {
        CompileError::Unsupported => !tree_supported(t) || exists|i: int|
            0 <= i < acts.len() && !fully_supported(#[trigger] acts[i]),
        CompileError::UnboundVariable(n) => (tree_mentions(t, n@) || exists|i: int|
            0 <= i < acts.len() && mentions(#[trigger] acts[i], n@)) && slot_of(after.locals@, n@) == -1,
        CompileError::ConstantPoolOverflow => pool_entries(after.constants).len() == MAX_CONSTANTS,
        CompileError::InvalidAction => tree_bad_leaf(t, acts.len()) || exists|i: int|
            0 <= i < acts.len() && bad_leaf(#[trigger] acts[i]),
    }
}

/// Some entry of the pool equals `c`.
pub open spec fn pooled(es: Seq<(Constant, u16)>, c: ConstantM) -> bool {
    exists|i: int| 0 <= i < es.len() && (#[trigger] es[i]).0.model() == c
}

/// The constant a discriminator is tested against, if any.
pub open spec fn cond_constant(k: CondM) -> Option<ConstantM> {
    match k {
        CondM::Number(n) => Some(ConstantM::Number(n)),
        CondM::Str(s) => Some(ConstantM::Str(s)),
        CondM::Atom(a) => Some(ConstantM::Atom(a)),
        _ => None,
    }
}

/// `b` is the unpatched test for discriminator `k`: `TestExact` of a pool
/// entry equal to its constant, `TestTuple` of its size, `TestCons` or
/// `TestNil`.
pub open spec fn tests_cond(b: Bytecode, k: CondM, pool: Seq<(Constant, u16)>) -> bool {
    match k {
        CondM::Tuple(n) => b == (Bytecode::TestTuple { size: n as usize, branch: TEMP_BRANCH }),
        CondM::Cons => b == (Bytecode::TestCons { branch: TEMP_BRANCH }),
        CondM::Nil => b == (Bytecode::TestNil { branch: TEMP_BRANCH }),
        _ => b is TestExact && b->TestExact_branch == TEMP_BRANCH && (b->TestExact_id as int) < pool.len()
            && Some(pool[b->TestExact_id as int].0.model()) == cond_constant(k),
    }
}

/// The models of the pool's constants, in id order.
pub open spec fn pool_models(es: Seq<(Constant, u16)>) -> Seq<ConstantM> {
    Seq::new(es.len(), |i: int| es[i].0.model())
}

pub open spec fn names_of(v: Seq<String>) -> Seq<Seq<char>> {
    Seq::new(v.len(), |i: int| v[i]@)
}

/// The result and state agree with what the lowering spec gives.
pub open spec fn agrees_spec(r: Result<(), CompileError>, after: Ctx, s: Result<LState, ErrM>) -> bool {
    match s {
        Ok(st) => r is Ok && after.lstate() == st,
        Err(m) => r is Err && err_model(r->Err_0) == m,
    }
}

proof fn lemma_find_constant(p: Seq<ConstantM>, c: ConstantM, j: int)
    requires
        0 <= j <= p.len(),
    ensures
        j <= find_constant(p, c, j) <= p.len(),
        find_constant(p, c, j) < p.len() ==> p[find_constant(p, c, j)] == c,
        forall|t: int| j <= t < find_constant(p, c, j) ==> p[t] != c,
    decreases p.len() - j,
{
    if j < p.len() && p[j] != c {
        lemma_find_constant(p, c, j + 1);
    }
}

proof fn lemma_slot_spec(l: Seq<String>, n: Seq<char>)
    ensures
        slot_spec(names_of(l), n) == slot_of(l, n),
    decreases l.len(),
{
    if l.len() > 0 {
        assert(names_of(l).drop_last() =~= names_of(l.drop_last()));
        lemma_slot_spec(l.drop_last(), n);
    }
}

/// `a` is a prefix of `b`.
pub open spec fn prefix_of<T>(a: Seq<T>, b: Seq<T>) -> bool {
    &&& a.len() <= b.len()
    &&& forall|i: int| 0 <= i < a.len() ==> #[trigger] b[i] == a[i]
}

/// The slot a name resolves to: the last one holding it.
pub open spec fn resolves(locals: Seq<String>, name: Seq<char>, slot: int) -> bool {
    &&& 0 <= slot < locals.len()
    &&& locals[slot]@ == name
    &&& forall|j: int| slot < j < locals.len() ==> (#[trigger] locals[j])@ != name
}

/// The expression uses no arithmetic and no call.
pub open spec fn supported(e: crate::desugar::ExprM) -> bool
    decreases e,
{
    match e {
        crate::desugar::ExprM::Binary(..) => false,
        crate::desugar::ExprM::Call(..) => false,
        crate::desugar::ExprM::Let(_, v, n) => supported(*v) && supported(*n),
        crate::desugar::ExprM::Tuple(es) => forall|i: int| 0 <= i < es.len() ==> supported(#[trigger] es[i]),
        crate::desugar::ExprM::If(c, t, f) => supported(*c) && supported(*t) && supported(*f),
        crate::desugar::ExprM::Access(x, _) => supported(*x),
        crate::desugar::ExprM::Cons(h, t) => supported(*h) && supported(*t),
        _ => true,
    }
}

/// Every expression is a number, atom or string literal.
pub open spec fn all_literals(es: Seq<crate::desugar::ExprM>) -> bool {
    forall|i: int|
        0 <= i < es.len() ==> (#[trigger] es[i]) is Number || es[i] is Atom || es[i] is Str
}

/// `b` loads literal `e`: pushes its number, or loads the pool entry equal
/// to its atom or string.
pub open spec fn loads_literal(b: Bytecode, e: crate::desugar::ExprM, pool: Seq<(Constant, u16)>) -> bool {
    match e {
        crate::desugar::ExprM::Number(v) => b == (Bytecode::PushNumber { val: v }),
        crate::desugar::ExprM::Atom(a) => b is LoadConstant && (b->LoadConstant_id as int) < pool.len()
            && pool[b->LoadConstant_id as int].0.model() == ConstantM::Atom(a),
        crate::desugar::ExprM::Str(t) => b is LoadConstant && (b->LoadConstant_id as int) < pool.len()
            && pool[b->LoadConstant_id as int].0.model() == ConstantM::Str(t),
        _ => false,
    }
}

/// Every expression is a number literal.
pub open spec fn all_numbers(es: Seq<crate::desugar::ExprM>) -> bool {
    forall|i: int| 0 <= i < es.len() ==> (#[trigger] es[i]) is Number
}

/// The values of number literals.
pub open spec fn numbers_of(es: Seq<crate::desugar::ExprM>) -> Seq<i32> {
    Seq::new(es.len(), |i: int| es[i]->Number_0)
}

/// One `PushNumber` per number literal, in order.
pub open spec fn number_pushes(es: Seq<crate::desugar::ExprM>) -> Seq<Bytecode> {
    Seq::new(es.len(), |i: int| Bytecode::PushNumber { val: es[i]->Number_0 })
}

/// The last slot holding `name`, or -1.
pub open spec fn slot_of(locals: Seq<String>, name: Seq<char>) -> int
    decreases locals.len(),
{
    if locals.len() == 0 {
        -1
    } else if locals.last()@ == name {
        locals.len() - 1
    } else {
        slot_of(locals.drop_last(), name)
    }
}

/// `after` is `before` with one `LoadConstant` appended, of an entry
/// whose model is `c`.
pub open spec fn loads_constant(before: Ctx, after: Ctx, c: ConstantM) -> bool {
    &&& after.bytecode@.len() == before.bytecode@.len() + 1
    &&& after.bytecode@.drop_last() == before.bytecode@
    &&& after.bytecode@.last() is LoadConstant
    &&& after.bytecode@.last()->LoadConstant_id < pool_entries(after.constants).len()
    &&& pool_entries(after.constants)[after.bytecode@.last()->LoadConstant_id as int].0.model() == c
}

/// What lowering `e` appends, for the forms that lower to one
/// instruction or end in one: a number pushes itself, a variable loads the
/// slot it resolves to (and fails when it has none), an atom or string
/// loads its pool entry, a tuple ends in `MakeTuple` of its size, `[]`
/// pushes nil; arithmetic and calls fail.
pub open spec fn lowers_to(e: crate::desugar::ExprM, before: Ctx, after: Ctx, ok: bool) -> bool {
    match e {
        crate::desugar::ExprM::Number(v) => ok && after.bytecode@ == before.bytecode@.push(
            Bytecode::PushNumber { val: v },
        ),
        crate::desugar::ExprM::Nil => ok && after.bytecode@ == before.bytecode@.push(Bytecode::PushNil),
        crate::desugar::ExprM::Variable(name) => (ok <==> slot_of(before.locals@, name) >= 0) && (ok
            ==> after.bytecode@ == before.bytecode@.push(
            Bytecode::GetLocal { id: slot_of(before.locals@, name) as usize },
        )),
        crate::desugar::ExprM::Atom(a) => (pooled(pool_entries(before.constants), ConstantM::Atom(a))
            || pool_entries(before.constants).len() < MAX_CONSTANTS ==> ok) && (ok ==> loads_constant(
            before,
            after,
            ConstantM::Atom(a),
        )),
        crate::desugar::ExprM::Str(t) => ok ==> loads_constant(before, after, ConstantM::Str(t)),
        crate::desugar::ExprM::Tuple(es) => (all_numbers(es) ==> ok) && (ok ==> after.bytecode@.len()
            > before.bytecode@.len() && after.bytecode@.last() == (Bytecode::MakeTuple {
            size: es.len() as usize,
        }) && (all_numbers(es) ==> after.bytecode@ == before.bytecode@ + number_pushes(es).push(
            Bytecode::MakeTuple { size: es.len() as usize },
        )) && (all_literals(es) ==> after.bytecode@.len() == before.bytecode@.len() + es.len() + 1
            && prefix_of(before.bytecode@, after.bytecode@) && forall|i: int|
            0 <= i < es.len() ==> loads_literal(
                #[trigger] after.bytecode@[before.bytecode@.len() + i],
                es[i],
                pool_entries(after.constants),
            ))),
        crate::desugar::ExprM::Binary(..) => !ok,
        crate::desugar::ExprM::Call(..) => !ok,
        crate::desugar::ExprM::Match(..) => ok ==> exists|mid: Seq<Bytecode>|
            #[trigger] match_joined(mid, after.bytecode@, before.bytecode@.len() as int)
                && prefix_of(before.bytecode@, mid) && patched_or_leaf_jump(mid, before.bytecode@.len() as int),
        _ => true,
    }
}

/// `after` is `mid` with each unpatched leaf jump pointed at the end.
pub open spec fn joined(m: Bytecode, a: Bytecode, end: int) -> bool {
    if m == (Bytecode::Jump { index: TEMP_BRANCH }) {
        a == (Bytecode::Jump { index: end as usize })
    } else {
        a == m
    }
}

/// The code of a case is its decision tree's code `mid`, emitted from
/// `from` on, with every leaf's jump going to the join point just after it.
pub open spec fn match_joined(mid: Seq<Bytecode>, after: Seq<Bytecode>, from: int) -> bool {
    &&& mid.len() == after.len()
    &&& forall|j: int| 0 <= j < from ==> #[trigger] after[j] == mid[j]
    &&& forall|j: int| from <= j < after.len() ==> joined(#[trigger] mid[j], after[j], after.len() as int)
}

/// The instruction with its branch target replaced.
pub open spec fn retarget(b: Bytecode, t: usize) -> Bytecode {
    match b {
        Bytecode::TestExact { id, .. } => Bytecode::TestExact { id, branch: t },
        Bytecode::TestTuple { size, .. } => Bytecode::TestTuple { size, branch: t },
        Bytecode::TestCons { .. } => Bytecode::TestCons { branch: t },
        Bytecode::TestNil { .. } => Bytecode::TestNil { branch: t },
        Bytecode::Jump { .. } => Bytecode::Jump { index: t },
        other => other,
    }
}

fn with_target(b: Bytecode, t: usize) -> (r: Bytecode)
    ensures
        r == retarget(b, t),
{
    match b {
        Bytecode::TestExact { id, .. } => Bytecode::TestExact { id, branch: t },
        Bytecode::TestTuple { size, .. } => Bytecode::TestTuple { size, branch: t },
        Bytecode::TestCons { .. } => Bytecode::TestCons { branch: t },
        Bytecode::TestNil { .. } => Bytecode::TestNil { branch: t },
        Bytecode::Jump { .. } => Bytecode::Jump { index: t },
        other => other,
    }
}

impl Ctx {
    /// The compiler's invariant: all branches patched and forward, all
    /// operands valid, the pool numbered in order without duplicates.
    pub open spec fn wf(&self) -> bool {
        &&& patched_from(self.bytecode@, 0)
        &&& operands_ok_all(self.bytecode@, pool_entries(self.constants).len(), self.locals.len() as nat)
        &&& pool_ok(pool_entries(self.constants))
    }

    /// What a step of compilation keeps: the code emitted before, the pool
    /// entries and the local slots, each only extended.
    /// The abstract state lowering works on.
    pub open spec fn lstate(&self) -> LState {
        LState { code: self.bytecode@, pool: pool_models(pool_entries(self.constants)), locals: names_of(self.locals@) }
    }

    pub open spec fn extends(&self, old: &Ctx) -> bool {
        &&& prefix_of(old.bytecode@, self.bytecode@)
        &&& prefix_of(pool_entries(old.constants), pool_entries(self.constants))
        &&& pool_ok(pool_entries(self.constants))
        &&& prefix_of(old.locals@, self.locals@)
        &&& operands_ok_all(self.bytecode@, pool_entries(self.constants).len(), self.locals.len() as nat)
    }

    pub fn new() -> (r: Self)
        ensures
            r.wf(),
            r.bytecode@.len() == 0,
            r.locals@.len() == 0,
            pool_entries(r.constants).len() == 0,
    {
        Ctx { bytecode: Vec::new(), constants: pool_new(), locals: Vec::new() }
    }

    /// Hands out the compiled unit and leaves the context empty for the
    /// next function.
    pub fn bytecode(&mut self) -> (r: BytecodeInfo)
        ensures
            r.bytecode@ == old(self).bytecode@,
            r.locals == old(self).locals.len(),
            pool_entries(r.constants) == pool_entries(old(self).constants),
            final(self).bytecode@.len() == 0,
            final(self).locals@.len() == 0,
            pool_entries(final(self).constants).len() == 0,
    {
        let mut bytecode: Vec<Bytecode> = Vec::new();
        core::mem::swap(&mut bytecode, &mut self.bytecode);
        let locals = self.locals.len();
        self.locals = Vec::new();
        let mut constants = pool_new();
        core::mem::swap(&mut constants, &mut self.constants);
        BytecodeInfo { bytecode, locals, constants }
    }

    /// Appends an instruction and returns its index.
    pub fn push(&mut self, bytecode: Bytecode) -> (r: usize)
        ensures
            r == old(self).bytecode@.len(),
            final(self).bytecode@ == old(self).bytecode@.push(bytecode),
            final(self).constants == old(self).constants,
            final(self).locals@ == old(self).locals@,
    {
        let index = self.bytecode.len();
        self.bytecode.push(bytecode);
        index
    }

    /// A fresh slot for `name`; slots are never reused.
    pub fn make_local(&mut self, name: String) -> (r: usize)
        ensures
            r == old(self).locals@.len(),
            final(self).locals@ == old(self).locals@.push(name),
            final(self).bytecode@ == old(self).bytecode@,
            final(self).constants == old(self).constants,
    {
        let id = self.locals.len();
        self.locals.push(name);
        id
    }

    /// The slot `name` resolves to: the most recent one made for it.
    pub fn get_local(&self, name: &str) -> (r: Option<usize>)
        ensures
            r is Some ==> resolves(self.locals@, name@, r->0 as int),
            r is None ==> forall|j: int| 0 <= j < self.locals@.len() ==> (#[trigger] self.locals@[j])@ != name@,
            match r {
                Some(s) => s as int == slot_of(self.locals@, name@),
                None => slot_of(self.locals@, name@) == -1,
            },
    {
        let key = String::from_str(name);
        let mut i: usize = self.locals.len();
        assert(self.locals@.take(i as int) =~= self.locals@);
        while i > 0
            invariant
                i <= self.locals.len(),
                forall|j: int| i <= j < self.locals@.len() ==> (#[trigger] self.locals@[j])@ != name@,
                key@ == name@,
                slot_of(self.locals@, name@) == slot_of(self.locals@.take(i as int), name@),
            decreases i,
        {
            assert(self.locals@.take(i as int).drop_last() =~= self.locals@.take(i - 1));
            i -= 1;
            if self.locals[i].eq(&key) {
                return Some(i);
            }
        }
        None
    }

    /// The id of `constant` in the pool, adding it when no equal constant
    /// is there yet.
    pub fn make_constant(&mut self, constant: Constant) -> (r: Result<u16, CompileError>)
        requires
            pool_ok(pool_entries(old(self).constants)),
        ensures
            final(self).bytecode@ == old(self).bytecode@,
            final(self).locals@ == old(self).locals@,
            pool_ok(pool_entries(final(self).constants)),
            prefix_of(pool_entries(old(self).constants), pool_entries(final(self).constants)),
            r is Err <==> !pooled(pool_entries(old(self).constants), constant.model())
                && pool_entries(old(self).constants).len() == MAX_CONSTANTS,
            match constant_spec(old(self).lstate(), constant.model()) {
                Ok((id, st)) => r == Ok::<u16, CompileError>(id as u16) && final(self).lstate() == st,
                Err(_) => r is Err,
            },
            match r {
                Ok(id) => {
                    &&& id < pool_entries(final(self).constants).len()
                    &&& pool_entries(final(self).constants)[id as int].0.model() == constant.model()
                    &&& if exists|i: int|
                        0 <= i < pool_entries(old(self).constants).len()
                            && (#[trigger] pool_entries(old(self).constants)[i]).0.model()
                            == constant.model() {
                        pool_entries(final(self).constants) == pool_entries(old(self).constants)
                    } else {
                        pool_entries(final(self).constants) == pool_entries(old(self).constants).push(
                            (constant, id),
                        )
                    }
                },
                Err(e) => {
                    &&& e is ConstantPoolOverflow
                    &&& pool_entries(old(self).constants).len() == MAX_CONSTANTS
                    &&& forall|i: int|
                        0 <= i < pool_entries(old(self).constants).len() ==> (#[trigger] pool_entries(
                            old(self).constants,
                        )[i]).0.model() != constant.model()
                    &&& pool_entries(final(self).constants) == pool_entries(old(self).constants)
                },
            },
    {
        let ghost pm = pool_models(pool_entries(self.constants));
        proof {
            lemma_find_constant(pm, constant.model(), 0);
        }
        match pool_get(&self.constants, &constant) {
            Some(id) => {
                proof {
                    let es = pool_entries(self.constants);
                    let i = choose|i: int| 0 <= i < es.len() && (#[trigger] es[i]).0.model() == constant.model() && es[i].1 == id;
                    let f = find_constant(pm, constant.model(), 0);
                    assert(pm[i] == constant.model());
                    if f != i {
                        assert(f < i);
                        assert(es[f].0.model() == es[i].0.model());
                    }
                }
                Ok(id)
            },
            None => {
                let id = pool_len(&self.constants);
                proof {
                    let f = find_constant(pm, constant.model(), 0);
                    if f < pm.len() {
                        assert(pool_entries(self.constants)[f].0.model() == constant.model());
                    }
                }
                if id >= MAX_CONSTANTS {
                    return Err(CompileError::ConstantPoolOverflow);
                }
                let ghost before = pool_entries(self.constants);
                pool_insert(&mut self.constants, constant, id as u16);
                let ghost after = pool_entries(self.constants);
                assert forall|i: int, j: int|
                    0 <= i < after.len() && 0 <= j < after.len() && i != j implies (#[trigger] after[i]).0.model()
                    != (#[trigger] after[j]).0.model() by {
                    if i < before.len() && j < before.len() {
                        assert(after[i] == before[i] && after[j] == before[j]);
                    } else if i < before.len() {
                        assert(after[i] == before[i]);
                    } else {
                        assert(after[j] == before[j]);
                    }
                }
                assert(pool_models(after) =~= pm.push(constant.model()));
                Ok(id as u16)
            },
        }
    }

    /// Emits the test for `cond` with its branch target still to patch, and
    /// returns its index.
    pub fn compile_cond(&mut self, cond: Cond) -> (r: Result<usize, CompileError>)
        requires
            old(self).sound_operands(),
        ensures
            final(self).extends_plain(old(self)),
            final(self).extends(old(self)),
            final(self).sound_operands(),
            r is Ok ==> r->Ok_0 == old(self).bytecode@.len() && final(self).bytecode@.len() == r->Ok_0 + 1
                && branch_target(final(self).bytecode@[r->Ok_0 as int]) is Some && operands_ok(
                final(self).bytecode@[r->Ok_0 as int],
                pool_entries(final(self).constants).len(),
                0,
            ),
            r is Ok ==> final(self).bytecode@ == old(self).bytecode@.push(final(self).bytecode@.last())
                && tests_cond(final(self).bytecode@.last(), cond.model(), pool_entries(final(self).constants)),
            r is Err <==> cond_constant(cond.model()) is Some && !pooled(pool_entries(old(self).constants), cond_constant(cond.model())->0)
                && pool_entries(old(self).constants).len() == MAX_CONSTANTS,
            r is Err ==> r->Err_0 is ConstantPoolOverflow && final(self).bytecode@ == old(self).bytecode@,
            match cond_spec(old(self).lstate(), cond.model()) {
                Ok(st) => r is Ok && final(self).lstate() == st,
                Err(m) => r is Err && err_model(r->Err_0) == m,
            },
    {
        let b = match cond {
            Cond::Cons => Bytecode::TestCons { branch: TEMP_BRANCH },
            Cond::Nil => Bytecode::TestNil { branch: TEMP_BRANCH },
            Cond::Number(n) => {
                let id = self.make_constant(Constant::Number(n))?;
                Bytecode::TestExact { id, branch: TEMP_BRANCH }
            },
            Cond::String(s) => {
                let id = self.make_constant(Constant::String(s))?;
                Bytecode::TestExact { id, branch: TEMP_BRANCH }
            },
            Cond::Atom(a) => {
                let id = self.make_constant(Constant::Atom(a))?;
                Bytecode::TestExact { id, branch: TEMP_BRANCH }
            },
            Cond::Tuple(size) => Bytecode::TestTuple { size, branch: TEMP_BRANCH },
        };
        let idx = self.push(b);
        Ok(idx)
    }

    /// Pool and locals only extended, code only appended to; nothing said
    /// of the operands.
    pub open spec fn extends_plain(&self, old: &Ctx) -> bool {
        &&& prefix_of(old.bytecode@, self.bytecode@)
        &&& prefix_of(pool_entries(old.constants), pool_entries(self.constants))
        &&& pool_ok(pool_entries(self.constants))
        &&& self.locals@ == old.locals@
    }
}

/// From `from` on, every instruction branches forward within the code, or
/// is a leaf's jump whose target is still to patch.
pub open spec fn patched_or_leaf_jump(code: Seq<Bytecode>, from: int) -> bool {
    forall|i: int|
        from <= i < code.len() ==> branch_ok(#[trigger] code[i], i, code.len() as int) || code[i]
            == Bytecode::Jump { index: TEMP_BRANCH }
}

/// From `from` on, every instruction branches forward within the code.
pub open spec fn patched_from(code: Seq<Bytecode>, from: int) -> bool {
    forall|i: int| from <= i < code.len() ==> branch_ok(#[trigger] code[i], i, code.len() as int)
}

impl Ctx {
    /// The invariant that holds between the steps of one lowering: the
    /// pool numbered without duplicates, all operands valid.
    pub open spec fn sound_operands(&self) -> bool {
        &&& operands_ok_all(self.bytecode@, pool_entries(self.constants).len(), self.locals.len() as nat)
        &&& pool_ok(pool_entries(self.constants))
    }

    proof fn lemma_extends_by_pool(a: &Ctx, b: &Ctx)
        requires
            a.sound_operands(),
            b.bytecode@ == a.bytecode@,
            b.locals@ == a.locals@,
            pool_ok(pool_entries(b.constants)),
            prefix_of(pool_entries(a.constants), pool_entries(b.constants)),
        ensures
            b.extends(a),
            b.sound_operands(),
    {
        assert forall|i: int| 0 <= i < b.bytecode@.len() implies operands_ok(
            #[trigger] b.bytecode@[i],
            pool_entries(b.constants).len(),
            b.locals.len() as nat,
        ) by {
            assert(operands_ok(a.bytecode@[i], pool_entries(a.constants).len(), a.locals.len() as nat));
        }
    }

    /// Appends an instruction whose operands are valid and that does not
    /// branch.
    fn emit(&mut self, b: Bytecode)
        requires
            old(self).sound_operands(),
            operands_ok(b, pool_entries(old(self).constants).len(), old(self).locals.len() as nat),
        ensures
            final(self).extends(old(self)),
            final(self).bytecode@ == old(self).bytecode@.push(b),
            final(self).constants == old(self).constants,
            final(self).locals@ == old(self).locals@,
    {
        self.push(b);
    }

    /// Sets the branch target of the test or jump at `at`.
    fn patch(&mut self, at: usize, target: usize)
        requires
            at < old(self).bytecode@.len(),
            old(self).sound_operands(),
        ensures
            final(self).bytecode@ == old(self).bytecode@.update(
                at as int,
                retarget(old(self).bytecode@[at as int], target),
            ),
            final(self).constants == old(self).constants,
            final(self).locals@ == old(self).locals@,
            final(self).sound_operands(),
    {
        let b = with_target(self.bytecode[at], target);
        self.bytecode.set(at, b);
    }

    /// Emits the projections of an occurrence path.
    fn compile_path(&mut self, path: &Vec<Acc>)
        requires
            old(self).sound_operands(),
        ensures
            final(self).extends(old(self)),
            patched_from(final(self).bytecode@, old(self).bytecode@.len() as int),
            final(self).constants == old(self).constants,
            final(self).locals@ == old(self).locals@,
            final(self).bytecode@ == old(self).bytecode@ + path_code(path@),
    {
        let ghost start = *self;
        let mut i: usize = 0;
        while i < path.len()
            invariant
                self.sound_operands(),
                self.extends(&start),
                patched_from(self.bytecode@, start.bytecode@.len() as int),
                self.constants == start.constants,
                self.locals@ == start.locals@,
                i <= path.len(),
                self.bytecode@ == start.bytecode@ + path_code(path@.take(i as int)),
            decreases path.len() - i,
        {
            match path[i] {
                Acc::Tup(index) => self.emit(Bytecode::GetTuple { index }),
                Acc::Head => self.emit(Bytecode::GetHd),
                Acc::Tail => self.emit(Bytecode::GetTl),
            }
            i += 1;
            assert(self.bytecode@ =~= start.bytecode@ + path_code(path@.take(i as int)));
        }
        assert(path@.take(i as int) =~= path@);
    }
}

impl Ctx {
    /// Lowers a decision tree: a `Switch` re-reads its occurrence before
    /// each test, a test that fails branches to the next test or to the
    /// default, a `Leaf` lowers its action followed by a jump to patch, and
    /// `Failure` becomes `MatchFail`.
    fn compile_case_tree(&mut self, owner: Ghost<Expression>, tree: &Tree, actions: &Vec<Expression>) -> (r: Result<(), CompileError>)
        requires
            old(self).sound_operands(),
            owner@ is Match,
            *actions == owner@->actions,
            decreases_to!(owner@ => *tree),
            decreases_to!(owner@.model() => tree.model()),
        ensures
            agrees_spec(r, *final(self), tree_spec(owner@.model(), tree.model(), old(self).lstate())),
            final(self).extends(old(self)),
            final(self).sound_operands(),
            r is Ok ==> patched_or_leaf_jump(final(self).bytecode@, old(self).bytecode@.len() as int),
            r is Ok ==> final(self).bytecode@.len() > old(self).bytecode@.len(),
            r is Err ==> tree_error_cause(tree.model(), owner@.model()->Match_1, r->Err_0, *final(self)),
            *tree is Failure ==> r is Ok && final(self).bytecode@ == old(self).bytecode@.push(Bytecode::MatchFail),
            *tree is Leaf && tree->Leaf_0 >= actions.len() ==> r is Err && r->Err_0 is InvalidAction,
            *tree is Leaf && r is Ok ==> final(self).bytecode@.last() == (Bytecode::Jump { index: TEMP_BRANCH }),
        decreases owner@, *tree,
    {
        let ghost start = *self;
        match tree {
            Tree::Failure => {
                self.emit(Bytecode::MatchFail);
                Ok(())
            },
            Tree::Leaf(index) => {
                let ghost om = owner@.model();
                assert(om->Match_1.len() == actions.len());
                if *index >= actions.len() {
                    return Err(CompileError::InvalidAction);
                }
                proof {
                    assert(decreases_to!(owner@ => owner@->actions));
                    assert(decreases_to!(owner@->actions => owner@->actions@));
                    assert(decreases_to!(owner@->actions@ => owner@->actions@[*index as int]));
                }
                assert(om->Match_1[*index as int] == actions[*index as int].model());
                let r = self.lower(&actions[*index]);
                if r.is_err() {
                    return r;
                }
                self.emit(Bytecode::Jump { index: TEMP_BRANCH });
                Ok(())
            },
            Tree::Switch(occ, branches, default) => {
                let ghost om = owner@.model();
                let ghost tm = tree.model();
                proof {
                    assert(decreases_to!(*tree => tree->Switch_2));
                    assert(decreases_to!(*tree => tree->Switch_1));
                    assert(decreases_to!(*tree => tree->Switch_0));
                    assert(decreases_to!(tm => tm->Switch_2));
                }
                assert(tree.model()->Switch_0 == occ.model());
                assert(*tree.model()->Switch_2 == default.model());
                assert forall|j: int| 0 <= j < branches.len() implies (#[trigger] tree.model()->Switch_1[j]).1
                    == branches[j].1.model() && tree.model()->Switch_1[j].0 == branches[j].0.model() by {}
                if branches.len() == 0 {
                    return self.compile_case_tree(owner, default, actions);
                }
                let mut i: usize = 0;
                while i < branches.len()
                    invariant
                        *tree == Tree::Switch(*occ, *branches, *default),
                        owner@ is Match,
                        *actions == owner@->actions,
                        decreases_to!(owner@ => *tree),
                        om == owner@.model(),
                        tm == tree.model(),
                        decreases_to!(om => tm),
                        tm is Switch,
                        tm->Switch_1.len() == branches.len(),
                        i <= branches.len(),
                        tree_spec(om, tm, start.lstate()) == branches_spec(om, tm, i as nat, self.lstate()),
                        self.sound_operands(),
                        start == *old(self),
                        self.extends(&start),
                        patched_or_leaf_jump(self.bytecode@, start.bytecode@.len() as int),
                        i > 0 ==> self.bytecode@.len() > start.bytecode@.len(),
                        tree.model()->Switch_0 == occ.model(),
                        *tree.model()->Switch_2 == default.model(),
                        forall|j: int| 0 <= j < branches.len() ==> (#[trigger] tree.model()->Switch_1[j]).1 == branches[j].1.model()
                            && tree.model()->Switch_1[j].0 == branches[j].0.model(),
                    decreases branches.len() - i,
                {
                    proof {
                        assert(decreases_to!(tree->Switch_0 => tree->Switch_0.0));
                        assert(decreases_to!(*tree => tree->Switch_2));
                        assert(decreases_to!(tree->Switch_1 => tree->Switch_1@));
                        assert(decreases_to!(tree->Switch_1@ => tree->Switch_1@[i as int]));
                        assert(decreases_to!(tree->Switch_1@[i as int] => tree->Switch_1@[i as int].1));
                        assert(decreases_to!(tm => tm->Switch_1));
                        assert(decreases_to!(tm->Switch_1 => tm->Switch_1[i as int]));
                        assert(decreases_to!(tm->Switch_1[i as int] => tm->Switch_1[i as int].1));
                        assert(decreases_to!(tm => tm->Switch_2));
                    }
                    let r0 = self.lower(&occ.0);
                    if r0.is_err() {
                        return r0;
                    }
                    self.compile_path(&occ.1);
                    let ghost s2 = *self;
                    let rc = self.compile_cond(branches[i].0.duplicate());
                    if rc.is_err() {
                        return Err(rc.unwrap_err());
                    }
                    let loc = rc.unwrap();
                    let ghost s3 = *self;
                    let r1 = self.compile_case_tree(owner, &branches[i].1, actions);
                    if r1.is_err() {
                        return r1;
                    }
                    let ghost s4 = *self;
                    proof {
                        assert(s3.extends(&s2));
                    }
                    let len = self.bytecode.len();
                    if i + 1 < branches.len() {
                        self.patch(loc, len);
                        proof {
                            self.lemma_patched_keeps(&s4, &start, loc as int, len);
                        }
                    } else {
                        let r2 = self.compile_case_tree(owner, default, actions);
                        if r2.is_err() {
                            return r2;
                        }
                        let ghost s5 = *self;
                        self.patch(loc, len);
                        proof {
                            self.lemma_patched_keeps(&s5, &start, loc as int, len);
                        }
                    }
                    i += 1;
                }
                Ok(())
            },
        }
    }

    /// After patching the test at `at` of `before` to the end of the code,
    /// the code still extends `start` and everything from `start` on is
    /// patched or a leaf jump.
    proof fn lemma_patched_keeps(&self, before: &Ctx, start: &Ctx, at: int, t: usize)
        requires
            before.extends(start),
            start.bytecode@.len() <= at < before.bytecode@.len(),
            at < t <= before.bytecode@.len(),
            branch_target(before.bytecode@[at]) is Some,
            self.bytecode@ == before.bytecode@.update(at, retarget(before.bytecode@[at], t)),
            self.constants == before.constants,
            self.locals@ == before.locals@,
            self.sound_operands(),
            forall|i: int|
                start.bytecode@.len() <= i < before.bytecode@.len() && i != at ==> branch_ok(
                    #[trigger] before.bytecode@[i],
                    i,
                    before.bytecode@.len() as int,
                ) || before.bytecode@[i] == (Bytecode::Jump { index: TEMP_BRANCH }),
        ensures
            self.extends(start),
            patched_or_leaf_jump(self.bytecode@, start.bytecode@.len() as int),
    {
        assert forall|i: int|
            start.bytecode@.len() <= i < self.bytecode@.len() implies branch_ok(
            #[trigger] self.bytecode@[i],
            i,
            self.bytecode@.len() as int,
        ) || self.bytecode@[i] == (Bytecode::Jump { index: TEMP_BRANCH }) by {
            if i != at {
                assert(self.bytecode@[i] == before.bytecode@[i]);
            }
        }
    }

    /// Lowers an expression, appending its code.
    #[verifier::rlimit(40)]
    fn lower(&mut self, e: &Expression) -> (r: Result<(), CompileError>)
        requires
            old(self).sound_operands(),
        ensures
            final(self).extends(old(self)),
            final(self).sound_operands(),
            r is Ok ==> patched_from(final(self).bytecode@, old(self).bytecode@.len() as int),
            !supported(e.model()) ==> r is Err,
            lowers_to(e.model(), *old(self), *final(self), r is Ok),
            r is Ok ==> final(self).bytecode@.len() > old(self).bytecode@.len(),
            r is Err ==> error_cause(e.model(), r->Err_0, *final(self)),
            agrees_spec(r, *final(self), lower_spec(e.model(), old(self).lstate())),
        decreases *e, *e,
    {
        let ghost start = *self;

        match e {
            Expression::Variable { name } => {
                match self.get_local(name.as_str()) {
                    Some(id) => {
                        proof {
                            lemma_slot_spec(start.locals@, name@);
                        }
                        self.emit(Bytecode::GetLocal { id });
                        assert(agrees_spec(Ok(()), *self, lower_spec(e.model(), start.lstate())));
                        Ok(())
                    },
                    None => {
                        proof {
                            lemma_slot_spec(start.locals@, name@);
                        }
                        Err(CompileError::UnboundVariable(copy_string(name)))
                    },
                }
            },
            Expression::Number { value } => {
                self.emit(Bytecode::PushNumber { val: *value });
                Ok(())
            },
            Expression::Atom { value } => {
                let c = self.make_constant(Constant::Atom(copy_string(value)));
                let ghost s1 = *self;
                proof { Ctx::lemma_extends_by_pool(&start, &s1); }
                let id = c?;
                self.emit(Bytecode::LoadConstant { id });
                assert(pool_entries(self.constants)[id as int].0.model() == ConstantM::Atom(value@));
                assert(self.bytecode@.drop_last() =~= start.bytecode@);

                Ok(())
            },
            Expression::String { value } => {
                let c = self.make_constant(Constant::String(copy_string(value)));
                let ghost s1 = *self;
                proof { Ctx::lemma_extends_by_pool(&start, &s1); }
                let id = c?;
                self.emit(Bytecode::LoadConstant { id });
                assert(pool_entries(self.constants)[id as int].0.model() == ConstantM::Str(value@));
                assert(self.bytecode@.drop_last() =~= start.bytecode@);

                Ok(())
            },
            Expression::Let { bind, value, next } => {
                self.lower(value)?;
                let ghost st1 = self.lstate();
                let id = self.make_local(copy_string(bind));
                self.emit(Bytecode::SetLocal { id });
                assert(names_of(self.locals@) =~= st1.locals.push(bind@));
                assert(self.lstate() == LState {
                    code: st1.code.push(Bytecode::SetLocal { id: st1.locals.len() as usize }),
                    locals: st1.locals.push(bind@),
                    ..st1
                });
                let r = self.lower(next);
                r?;
                assert(agrees_spec(Ok(()), *self, lower_spec(e.model(), start.lstate())));
                Ok(())
            },
            Expression::Match { tree, actions } => {
                proof {
                    assert(decreases_to!(*e => e->tree));
                }
                let start_len = self.bytecode.len();
                proof {
                    assert(e.model()->Match_0 == tree.model());
                    assert(decreases_to!(e.model() => e.model()->Match_0));
                }
                self.compile_case_tree(Ghost(*e), tree, actions)?;
                let next = self.bytecode.len();
                let ghost mid = self.bytecode@;
                let ghost st1 = self.lstate();
                let mut i: usize = start_len;
                while i < next
                    invariant
                        start.bytecode@.len() <= i <= next,
                        pool_models(pool_entries(self.constants)) == st1.pool,
                        names_of(self.locals@) == st1.locals,
                        mid.len() == next,
                        forall|j: int| start.bytecode@.len() <= j < next ==> joined(#[trigger] mid[j], self.bytecode@[j], next as int)
                            || (j >= i && mid[j] == self.bytecode@[j]),
                        forall|j: int| 0 <= j < start.bytecode@.len() ==> #[trigger] self.bytecode@[j] == mid[j],
                        next == self.bytecode@.len(),
                        self.sound_operands(),
                        self.extends(&start),
                        forall|j: int|
                            start.bytecode@.len() <= j < i ==> branch_ok(#[trigger] self.bytecode@[j], j, next as int),
                        forall|j: int|
                            i <= j < next ==> branch_ok(#[trigger] self.bytecode@[j], j, next as int)
                                || self.bytecode@[j] == (Bytecode::Jump { index: TEMP_BRANCH }),
                    decreases next - i,
                {
                    if self.bytecode[i] == (Bytecode::Jump { index: TEMP_BRANCH }) {
                        let ghost before = *self;
                        self.patch(i, next);
                        proof {
                            assert forall|j: int| 0 <= j < next && j != i implies #[trigger] self.bytecode@[j]
                                == before.bytecode@[j] by {}
                        }
                    }
                    i += 1;
                }
                assert(match_joined(mid, self.bytecode@, start.bytecode@.len() as int));
                assert(self.bytecode@ =~= join_jumps(mid, start.bytecode@.len() as int, next as int));
                assert(self.lstate() == LState { code: join_jumps(st1.code, start.bytecode@.len() as int, next as int), ..st1 });
                assert(agrees_spec(Ok(()), *self, lower_spec(e.model(), start.lstate())));
                Ok(())
            },
            Expression::Tuple { elements } => {
                assert(e.model()->Tuple_0.skip(0) =~= e.model()->Tuple_0);
                let mut i: usize = 0;
                while i < elements.len()
                    invariant
                        *e == (Expression::Tuple { elements: *elements }),
                        i <= elements.len(),
                        start == *old(self),
                        self.sound_operands(),
                        self.extends(&start),
                        patched_from(self.bytecode@, start.bytecode@.len() as int),
                        forall|j: int| 0 <= j < i ==> supported((#[trigger] elements[j]).model()),
                        all_numbers(e.model()->Tuple_0) ==> self.bytecode@ == start.bytecode@ + number_pushes(
                            e.model()->Tuple_0.take(i as int),
                        ),
                        list_spec(e.model()->Tuple_0, start.lstate()) == list_spec(
                            e.model()->Tuple_0.skip(i as int),
                            self.lstate(),
                        ),
                        all_literals(e.model()->Tuple_0) ==> self.bytecode@.len() == start.bytecode@.len() + i
                            && forall|t: int| 0 <= t < i ==> loads_literal(
                                #[trigger] self.bytecode@[start.bytecode@.len() + t],
                                e.model()->Tuple_0[t],
                                pool_entries(self.constants),
                            ),
                        e.model()->Tuple_0.len() == elements.len(),
                    decreases elements.len() - i,
                {
                    proof {
                        assert(decreases_to!(*e => e->elements));
                        assert(decreases_to!(e->elements => e->elements@));
                        assert(decreases_to!(e->elements@ => e->elements@[i as int]));
                    }
                    let ghost before = self.bytecode@;
                    let ghost mid_pool = self.constants;
                    assert(e.model()->Tuple_0.skip(i as int)[0] == elements[i as int].model());
                    assert(e.model()->Tuple_0.skip(i as int).drop_first() =~= e.model()->Tuple_0.skip(i + 1));
                    let r = self.lower(&elements[i]);
                    assert(e.model()->Tuple_0[i as int] == elements[i as int].model());
                    if r.is_err() {
                        assert(!all_numbers(e.model()->Tuple_0)) by {
                            if all_numbers(e.model()->Tuple_0) {
                                assert(e.model()->Tuple_0[i as int] is Number);
                            }
                        }
                        return r;
                    }
                    proof {
                        if all_literals(e.model()->Tuple_0) {
                            let x = e.model()->Tuple_0[i as int];
                            assert(x is Number || x is Atom || x is Str);
                            assert forall|t: int| 0 <= t < i + 1 implies loads_literal(
                                #[trigger] self.bytecode@[start.bytecode@.len() + t],
                                e.model()->Tuple_0[t],
                                pool_entries(self.constants),
                            ) by {
                                if t < i {
                                    assert(self.bytecode@[start.bytecode@.len() + t] == before[start.bytecode@.len() + t]);
                                    assert(loads_literal(before[start.bytecode@.len() + t], e.model()->Tuple_0[t], pool_entries(mid_pool)));
                                }
                            }
                        }
                        if all_numbers(e.model()->Tuple_0) {
                            assert(e.model()->Tuple_0[i as int] is Number);
                            assert(number_pushes(e.model()->Tuple_0.take(i + 1)) =~= number_pushes(
                                e.model()->Tuple_0.take(i as int),
                            ).push(Bytecode::PushNumber { val: e.model()->Tuple_0[i as int]->Number_0 }));
                            assert(self.bytecode@ =~= start.bytecode@ + number_pushes(e.model()->Tuple_0.take(i + 1)));
                        }
                    }
                    i += 1;
                }
                let ghost pre = self.bytecode@;
                let ghost lstate_pre = self.lstate();
                assert(e.model()->Tuple_0.skip(i as int) =~= seq![]);
                self.emit(Bytecode::MakeTuple { size: elements.len() });
                proof {
                    assert(e.model()->Tuple_0.take(elements.len() as int) =~= e.model()->Tuple_0);
                    if all_numbers(e.model()->Tuple_0) {
                        assert(i == elements.len());
                        assert(number_pushes(e.model()->Tuple_0.take(i as int)) =~= number_pushes(e.model()->Tuple_0));
                        assert(pre == start.bytecode@ + number_pushes(e.model()->Tuple_0));
                        assert(self.bytecode@ =~= start.bytecode@ + number_pushes(e.model()->Tuple_0).push(
                            Bytecode::MakeTuple { size: elements.len() },
                        ));
                    }
                    assert(e.model()->Tuple_0.len() == elements.len());
                    assert forall|j: int| 0 <= j < e.model()->Tuple_0.len() implies supported(#[trigger] e.model()->Tuple_0[j]) by {
                        assert(e.model()->Tuple_0[j] == elements[j].model());
                    }
                }
                assert(list_spec(e.model()->Tuple_0.skip(i as int), lstate_pre) == Ok::<LState, ErrM>(lstate_pre));
                assert(agrees_spec(Ok(()), *self, lower_spec(e.model(), start.lstate())));
                Ok(())
            },
            Expression::Binary { .. } => Err(CompileError::Unsupported),
            Expression::Call { .. } => Err(CompileError::Unsupported),
            Expression::If { condition, then_branch, else_branch } => {
                self.lower(condition)?;
                let ghost s1 = *self;
                proof {
                    reveal_strlit("true");
                }
                let tv = String::from_str("true");
                assert(tv@ =~= seq!['t', 'r', 'u', 'e']);
                let c = self.make_constant(Constant::Atom(tv));
                let ghost s2 = *self;
                proof {
                    Ctx::lemma_extends_by_pool(&s1, &s2);
                }
                let id = c?;
                let test = self.push(Bytecode::TestExact { id, branch: TEMP_BRANCH });
                let ghost st3 = self.lstate();
                let r = self.lower(then_branch);

                r?;
                let jump = self.push(Bytecode::Jump { index: TEMP_BRANCH });
                let ghost s5 = *self;
                let else_start = self.bytecode.len();
                let r = self.lower(else_branch);
                let ghost s7 = *self;
                r?;
                let end = self.bytecode.len();
                let ghost st6 = self.lstate();
                self.patch(test, else_start);
                self.patch(jump, end);
                assert(self.lstate() == patch_at(patch_at(st6, test as int, else_start as int), jump as int, end as int));
                assert(agrees_spec(Ok(()), *self, lower_spec(e.model(), start.lstate())));
                proof {
                    assert(self.extends(&start));
                    assert forall|i: int| start.bytecode@.len() <= i < self.bytecode@.len() implies branch_ok(
                        #[trigger] self.bytecode@[i],
                        i,
                        self.bytecode@.len() as int,
                    ) by {
                        if i != test && i != jump {
                            assert(self.bytecode@[i] == s7.bytecode@[i]);
                            assert(s7.bytecode@[i] == s5.bytecode@[i] || i >= s5.bytecode@.len());
                        }
                    }
                }
                Ok(())
            },
            Expression::Access { expr, idx } => {
                self.lower(expr)?;
                match idx {
                    Acc::Tup(index) => self.emit(Bytecode::GetTuple { index: *index }),
                    Acc::Head => self.emit(Bytecode::GetHd),
                    Acc::Tail => self.emit(Bytecode::GetTl),
                }
                assert(agrees_spec(Ok(()), *self, lower_spec(e.model(), start.lstate())));
                Ok(())
            },
            Expression::Cons { hd, tl } => {
                self.lower(hd)?;
                let r = self.lower(tl);

                r?;
                self.emit(Bytecode::MakeCons);
                assert(agrees_spec(Ok(()), *self, lower_spec(e.model(), start.lstate())));
                Ok(())
            },
            Expression::Nil => {
                self.emit(Bytecode::PushNil);
                Ok(())
            },
        }
    }
}

impl Ctx {
    /// Lowers an expression, appending its code; on success the context
    /// keeps its invariant.
    pub fn compile_expr(&mut self, expression: Expression) -> (r: Result<(), CompileError>)
        requires
            old(self).wf(),
        ensures
            final(self).extends(old(self)),
            r is Ok ==> final(self).wf(),
            !supported(expression.model()) ==> r is Err,
            lowers_to(expression.model(), *old(self), *final(self), r is Ok),
            r is Ok ==> final(self).bytecode@.len() > old(self).bytecode@.len(),
            r is Err ==> error_cause(expression.model(), r->Err_0, *final(self)),
            agrees_spec(r, *final(self), lower_spec(expression.model(), old(self).lstate())),
    {
        self.lower(&expression)
    }

    /// Lowers a function body followed by `Return`. On success the code
    /// is closed: every test and jump goes forward to an instruction of the
    /// code, and the last instruction is the `Return`.
    pub fn fn_clause(&mut self, expression: Expression) -> (r: Result<(), CompileError>)
        requires
            old(self).wf(),
        ensures
            final(self).extends(old(self)),
            r is Ok ==> final(self).wf() && closed_code(final(self).bytecode@),
            !supported(expression.model()) ==> r is Err,
            r is Ok ==> final(self).bytecode@.len() > old(self).bytecode@.len() + 1,
            r is Err ==> error_cause(expression.model(), r->Err_0, *final(self)),
            expression.model() is Tuple && all_numbers(expression.model()->Tuple_0) ==> r is Ok
                && final(self).bytecode@ == old(self).bytecode@ + machine::tuple_code(
                numbers_of(expression.model()->Tuple_0),
            ),
            agrees_spec(r, *final(self), clause_spec(expression.model(), old(self).lstate())),
    {
        self.lower(&expression)?;
        let ghost mid = self.bytecode@;
        self.emit(Bytecode::Return);
        proof {
            if expression.model() is Tuple && all_numbers(expression.model()->Tuple_0) {
                let es = expression.model()->Tuple_0;
                assert(number_pushes(es) =~= Seq::new(
                    numbers_of(es).len(),
                    |i: int| Bytecode::PushNumber { val: numbers_of(es)[i] },
                ));
                assert(self.bytecode@ =~= old(self).bytecode@ + machine::tuple_code(numbers_of(es)));
            }
        }
        Ok(())
    }

    /// Gives each parameter a slot, in order, and lowers the body.
    pub fn fn_definition(&mut self, fun: FnDefinition) -> (r: Result<(), CompileError>)
        requires
            old(self).wf(),
        ensures
            final(self).locals@.len() >= old(self).locals@.len() + fun.parameters@.len(),
            r is Ok ==> final(self).wf() && closed_code(final(self).bytecode@),
            !supported(fun.body.model()) ==> r is Err,
            forall|j: int| 0 <= j < fun.parameters@.len() ==> (#[trigger] final(self).locals@[old(self).locals@.len() + j])@
                == fun.parameters@[j]@,
            r is Err ==> error_cause(fun.body.model(), r->Err_0, *final(self)),
            agrees_spec(r, *final(self), clause_spec(
                fun.body.model(),
                (LState { locals: old(self).lstate().locals + names_of(fun.parameters@), ..old(self).lstate() }),
            )),
    {
        let FnDefinition { name: _, parameters, body } = fun;
        assert(names_of(parameters@.take(0)) =~= seq![]);
        assert(old(self).lstate().locals + seq![] =~= old(self).lstate().locals);
        let mut i: usize = 0;
        let ghost n0 = self.locals@.len();
        while i < parameters.len()
            invariant
                self.wf(),
                i <= parameters.len(),
                self.locals@.len() == n0 + i,
                n0 == old(self).locals@.len(),
                prefix_of(old(self).locals@, self.locals@),
                forall|j: int| 0 <= j < i ==> (#[trigger] self.locals@[n0 + j])@ == parameters@[j]@,
                self.lstate() == (LState { locals: old(self).lstate().locals + names_of(parameters@.take(i as int)), ..old(self).lstate() }),
            decreases parameters.len() - i,
        {
            self.make_local(copy_string(&parameters[i]));
            i += 1;
            assert forall|k: int| 0 <= k < self.locals@.len() implies names_of(self.locals@)[k]
                == (old(self).lstate().locals + names_of(parameters@.take(i as int)))[k] by {
                if k >= n0 {
                    assert(self.locals@[n0 + (k - n0)]@ == parameters@[k - n0]@);
                }
            }
            assert(names_of(self.locals@) =~= old(self).lstate().locals + names_of(parameters@.take(i as int)));
        }
        assert(parameters@.take(i as int) =~= parameters@);
        let ghost before = self.locals@;
        let r = self.fn_clause(*body);
        assert forall|j: int| 0 <= j < parameters@.len() implies (#[trigger] self.locals@[n0 + j])@ == parameters@[j]@ by {
            assert(self.locals@[n0 + j] == before[n0 + j]);
        }
        r
    }
}

/// Constant dedup: in a well-formed context, two loads of constants with
/// the same model carry the same id, so a constant referenced many times
/// has one pool entry.
pub proof fn lemma_equal_constants_share_an_id(ctx: Ctx, i: int, j: int)
    requires
        ctx.wf(),
        0 <= i < ctx.bytecode@.len(),
        0 <= j < ctx.bytecode@.len(),
        ctx.bytecode@[i] is LoadConstant,
        ctx.bytecode@[j] is LoadConstant,
        pool_entries(ctx.constants)[ctx.bytecode@[i]->LoadConstant_id as int].0.model() == pool_entries(
            ctx.constants,
        )[ctx.bytecode@[j]->LoadConstant_id as int].0.model(),
    ensures
        ctx.bytecode@[i]->LoadConstant_id == ctx.bytecode@[j]->LoadConstant_id,
{
    assert(operands_ok(ctx.bytecode@[i], pool_entries(ctx.constants).len(), ctx.locals.len() as nat));
    assert(operands_ok(ctx.bytecode@[j], pool_entries(ctx.constants).len(), ctx.locals.len() as nat));
}

/// Constant dedup through the compiler: once a tuple whose elements are all
/// the atom `a` has been compiled, every element is loaded by the same
/// `LoadConstant`, of the one pool entry equal to `a`.
pub proof fn lemma_repeated_atom_loads_one_entry(before: Ctx, after: Ctx, es: Seq<crate::desugar::ExprM>, a: Seq<char>)
    requires
        after.wf(),
        lowers_to(crate::desugar::ExprM::Tuple(es), before, after, true),
        forall|i: int| 0 <= i < es.len() ==> #[trigger] es[i] == crate::desugar::ExprM::Atom(a),
    ensures
        forall|i: int, j: int|
            0 <= i < es.len() && 0 <= j < es.len() ==> #[trigger] after.bytecode@[before.bytecode@.len() + i]
                == #[trigger] after.bytecode@[before.bytecode@.len() + j],
        forall|i: int|
            0 <= i < es.len() ==> (#[trigger] after.bytecode@[before.bytecode@.len() + i]) is LoadConstant
                && pool_entries(after.constants)[after.bytecode@[before.bytecode@.len() + i]->LoadConstant_id as int].0.model()
                == ConstantM::Atom(a),
{
    assert(all_literals(es)) by {
        assert forall|i: int| 0 <= i < es.len() implies (#[trigger] es[i]) is Number || es[i] is Atom || es[i] is Str by {
            assert(es[i] == crate::desugar::ExprM::Atom(a));
        }
    }
    let base = before.bytecode@.len() as int;
    assert forall|i: int| 0 <= i < es.len() implies (#[trigger] after.bytecode@[base + i]) is LoadConstant
        && pool_entries(after.constants)[after.bytecode@[base + i]->LoadConstant_id as int].0.model() == ConstantM::Atom(a) by {
        assert(es[i] == crate::desugar::ExprM::Atom(a));
        assert(loads_literal(after.bytecode@[base + i], es[i], pool_entries(after.constants)));
    }
    assert forall|i: int, j: int|
        0 <= i < es.len() && 0 <= j < es.len() implies #[trigger] after.bytecode@[base + i]
            == #[trigger] after.bytecode@[base + j] by {
        assert(es[i] == crate::desugar::ExprM::Atom(a));
        assert(es[j] == crate::desugar::ExprM::Atom(a));
        assert(loads_literal(after.bytecode@[base + i], es[i], pool_entries(after.constants)));
        assert(loads_literal(after.bytecode@[base + j], es[j], pool_entries(after.constants)));
        lemma_equal_constants_share_an_id(after, base + i, base + j);
    }
}

} // verus!
