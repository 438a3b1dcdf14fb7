//! The code that lowering emits, stated over an abstract compiler state:
//! the instructions so far, the models of the pool's constants in id order,
//! and the names of the local slots.
use vstd::prelude::*;

use super::{Bytecode, CompileError, ConstantM, MAX_CONSTANTS, TEMP_BRANCH, retarget};
use crate::desugar::{Acc, CondM, ExprM, TreeM};

verus! {

pub struct LState {
    pub code: Seq<Bytecode>,
    pub pool: Seq<ConstantM>,
    pub locals: Seq<Seq<char>>,
}

/// A compile error without its string.
pub enum ErrM {
    Unsupported,
    Unbound(Seq<char>),
    Overflow,
    InvalidAction,
}

pub open spec fn err_model(e: CompileError) -> ErrM {
    match e {
        CompileError::Unsupported => ErrM::Unsupported,
        CompileError::UnboundVariable(n) => ErrM::Unbound(n@),
        CompileError::ConstantPoolOverflow => ErrM::Overflow,
        CompileError::InvalidAction => ErrM::InvalidAction,
    }
}

pub open spec fn push_code(st: LState, b: Bytecode) -> LState {
    LState { code: st.code.push(b), ..st }
}

/// The first index from `i` on of a constant equal to `c`, or the length.
pub open spec fn find_constant(pool: Seq<ConstantM>, c: ConstantM, i: int) -> int
    decreases pool.len() - i,
{
    if i < 0 || i >= pool.len() {
        pool.len() as int
    } else if pool[i] == c {
        i
    } else {
        find_constant(pool, c, i + 1)
    }
}

/// The id of `c` in the pool, adding it last when no equal constant is
/// there; fails when it would be added to a full pool.
pub open spec fn constant_spec(st: LState, c: ConstantM) -> Result<(nat, LState), ErrM> {
    let i = find_constant(st.pool, c, 0);
    if i < st.pool.len() {
        Ok((i as nat, st))
    } else if st.pool.len() < MAX_CONSTANTS {
        Ok((st.pool.len(), LState { pool: st.pool.push(c), ..st }))
    } else {
        Err(ErrM::Overflow)
    }
}

/// The last slot named `n`, or -1.
pub open spec fn slot_spec(locals: Seq<Seq<char>>, n: Seq<char>) -> int
    decreases locals.len(),
{
    if locals.len() == 0 {
        -1
    } else if locals.last() == n {
        locals.len() - 1
    } else {
        slot_spec(locals.drop_last(), n)
    }
}

/// The projection instruction for one accessor.
pub open spec fn projection(a: Acc) -> Bytecode {
    match a {
        Acc::Tup(i) => Bytecode::GetTuple { index: i },
        Acc::Head => Bytecode::GetHd,
        Acc::Tail => Bytecode::GetTl,
    }
}

/// One projection per accessor of the path, in order.
pub open spec fn path_code(path: Seq<Acc>) -> Seq<Bytecode> {
    Seq::new(path.len(), |i: int| projection(path[i]))
}

/// The unpatched test for a discriminator: `TestExact` of its constant,
/// `TestTuple` of its size, `TestCons` or `TestNil`.
pub open spec fn cond_spec(st: LState, k: CondM) -> Result<LState, ErrM> {
    match k {
        CondM::Tuple(n) => Ok(push_code(st, Bytecode::TestTuple { size: n as usize, branch: TEMP_BRANCH })),
        CondM::Cons => Ok(push_code(st, Bytecode::TestCons { branch: TEMP_BRANCH })),
        CondM::Nil => Ok(push_code(st, Bytecode::TestNil { branch: TEMP_BRANCH })),
        _ => {
            let c = match k {
                CondM::Number(n) => ConstantM::Number(n),
                CondM::Str(s) => ConstantM::Str(s),
                CondM::Atom(a) => ConstantM::Atom(a),
                _ => ConstantM::Number(0),
            };
            match constant_spec(st, c) {
                Ok((id, st1)) => Ok(push_code(st1, Bytecode::TestExact { id: id as u16, branch: TEMP_BRANCH })),
                Err(e) => Err(e),
            }
        },
    }
}

/// Every leaf jump from `from` on pointed at `end`.
pub open spec fn join_jumps(code: Seq<Bytecode>, from: int, end: int) -> Seq<Bytecode> {
    Seq::new(
        code.len(),
        |j: int|
            if from <= j && code[j] == (Bytecode::Jump { index: TEMP_BRANCH }) {
                Bytecode::Jump { index: end as usize }
            } else {
                code[j]
            },
    )
}

pub open spec fn patch_at(st: LState, at: int, target: int) -> LState {
    LState { code: st.code.update(at, retarget(st.code[at], target as usize)), ..st }
}

pub open spec fn tree_rank(t: TreeM) -> nat {
    match t {
        TreeM::Switch(_, bs, _) => bs.len() + 1,
        _ => 0,
    }
}

/// The code of an expression, form by form:
/// - a variable loads its latest slot, a number is pushed, an atom or
///   string is loaded from the pool;
/// - `let` lowers the value, gives the name a new slot and stores into it,
///   then lowers the body;
/// - a tuple lowers its elements left to right, then `MakeTuple`;
/// - `if` lowers the condition, tests it against the atom `true` (failing
///   to the else branch), lowers the then branch and jumps past the else
///   branch;
/// - a projection lowers its operand then projects; a cons lowers head
///   and tail then `MakeCons`; `[]` pushes nil;
/// - a case lowers its decision tree, then points every leaf jump at the
///   join point just after it;
/// - arithmetic and calls are not supported.
pub open spec fn lower_spec(e: ExprM, st: LState) -> Result<LState, ErrM>
    decreases e, e, 0nat,
{
    match e {
        ExprM::Variable(n) => {
            let s = slot_spec(st.locals, n);
            if s >= 0 {
                Ok(push_code(st, Bytecode::GetLocal { id: s as usize }))
            } else {
                Err(ErrM::Unbound(n))
            }
        },
        ExprM::Number(v) => Ok(push_code(st, Bytecode::PushNumber { val: v })),
        ExprM::Atom(a) => match constant_spec(st, ConstantM::Atom(a)) {
            Ok((id, st1)) => Ok(push_code(st1, Bytecode::LoadConstant { id: id as u16 })),
            Err(err) => Err(err),
        },
        ExprM::Str(s) => match constant_spec(st, ConstantM::Str(s)) {
            Ok((id, st1)) => Ok(push_code(st1, Bytecode::LoadConstant { id: id as u16 })),
            Err(err) => Err(err),
        },
        ExprM::Let(b, v, n) => match lower_spec(*v, st) {
            Ok(st1) => {
                let st2 = LState {
                    code: st1.code.push(Bytecode::SetLocal { id: st1.locals.len() as usize }),
                    locals: st1.locals.push(b),
                    ..st1
                };
                lower_spec(*n, st2)
            },
            Err(err) => Err(err),
        },
        ExprM::Match(t, acts) => {
            proof {
                assert(decreases_to!(e => e->Match_0));
            }
            match tree_spec(e, *t, st) {
                Ok(st1) => Ok(
                    LState { code: join_jumps(st1.code, st.code.len() as int, st1.code.len() as int), ..st1 },
                ),
                Err(err) => Err(err),
            }
        },
        ExprM::Tuple(es) => match list_spec(es, st) {
            Ok(st1) => Ok(push_code(st1, Bytecode::MakeTuple { size: es.len() as usize })),
            Err(err) => Err(err),
        },
        ExprM::Binary(..) => Err(ErrM::Unsupported),
        ExprM::Call(..) => Err(ErrM::Unsupported),
        ExprM::If(c, t, f) => match lower_spec(*c, st) {
            Ok(st1) => match constant_spec(st1, ConstantM::Atom(seq!['t', 'r', 'u', 'e'])) {
                Ok((id, st2)) => {
                    let test = st2.code.len() as int;
                    let st3 = push_code(st2, Bytecode::TestExact { id: id as u16, branch: TEMP_BRANCH });
                    match lower_spec(*t, st3) {
                        Ok(st4) => {
                            let jump = st4.code.len() as int;
                            let st5 = push_code(st4, Bytecode::Jump { index: TEMP_BRANCH });
                            let else_start = st5.code.len() as int;
                            match lower_spec(*f, st5) {
                                Ok(st6) => Ok(patch_at(patch_at(st6, test, else_start), jump, st6.code.len() as int)),
                                Err(err) => Err(err),
                            }
                        },
                        Err(err) => Err(err),
                    }
                },
                Err(err) => Err(err),
            },
            Err(err) => Err(err),
        },
        ExprM::Access(x, a) => match lower_spec(*x, st) {
            Ok(st1) => Ok(push_code(st1, projection(a))),
            Err(err) => Err(err),
        },
        ExprM::Cons(h, t) => match lower_spec(*h, st) {
            Ok(st1) => match lower_spec(*t, st1) {
                Ok(st2) => Ok(push_code(st2, Bytecode::MakeCons)),
                Err(err) => Err(err),
            },
            Err(err) => Err(err),
        },
        ExprM::Nil => Ok(push_code(st, Bytecode::PushNil)),
    }
}

/// A function body's code: the lowered body followed by `Return`.
pub open spec fn clause_spec(e: ExprM, st: LState) -> Result<LState, ErrM> {
    match lower_spec(e, st) {
        Ok(st1) => Ok(push_code(st1, Bytecode::Return)),
        Err(err) => Err(err),
    }
}

/// The code of expressions one after the other.
pub open spec fn list_spec(es: Seq<ExprM>, st: LState) -> Result<LState, ErrM>
    decreases es, es, 0nat,
{
    if es.len() == 0 {
        Ok(st)
    } else {
        match lower_spec(es[0], st) {
            Ok(st1) => list_spec(es.drop_first(), st1),
            Err(err) => Err(err),
        }
    }
}

/// The code of a decision tree of the case `owner`: `Failure` is
/// `MatchFail`; a leaf lowers its action and jumps (to a join point still
/// to patch); a switch with no branch is its default, else its branches.
pub open spec fn tree_spec(owner: ExprM, t: TreeM, st: LState) -> Result<LState, ErrM>
    decreases owner, t, tree_rank(t),
    when decreases_to!(owner => t)
{
    match t {
        TreeM::Failure => Ok(push_code(st, Bytecode::MatchFail)),
        TreeM::Leaf(i) => match owner {
            ExprM::Match(_, acts) => if i >= acts.len() {
                Err(ErrM::InvalidAction)
            } else {
                match lower_spec(acts[i as int], st) {
                    Ok(st1) => Ok(push_code(st1, Bytecode::Jump { index: TEMP_BRANCH })),
                    Err(err) => Err(err),
                }
            },
            _ => Err(ErrM::InvalidAction),
        },
        TreeM::Switch(o, bs, d) => {
            proof {
                assert(decreases_to!(t => t->Switch_2));
            }
            if bs.len() == 0 {
                tree_spec(owner, *d, st)
            } else {
                branches_spec(owner, t, 0, st)
            }
        },
    }
}

/// The branches of switch `t` from `k` on: for each, the occurrence's
/// root and projections, the test, then the branch's tree; a failed test
/// goes to the next branch's occurrence code, the last one's to the
/// default's code, which follows the last branch.
pub open spec fn branches_spec(owner: ExprM, t: TreeM, k: nat, st: LState) -> Result<LState, ErrM>
    decreases owner, t, (t->Switch_1.len() - k) as nat,
    when decreases_to!(owner => t) && t is Switch
{
    let o = t->Switch_0;
    let bs = t->Switch_1;
    if k >= bs.len() {
        Ok(st)
    } else {
        proof {
            assert(decreases_to!(t => t->Switch_0));
            assert(decreases_to!(t->Switch_0 => t->Switch_0.root));
            assert(decreases_to!(t => t->Switch_1));
            assert(decreases_to!(t->Switch_1 => t->Switch_1[k as int]));
            assert(decreases_to!(t->Switch_1[k as int] => t->Switch_1[k as int].1));
            assert(decreases_to!(t => t->Switch_2));
        }
        match lower_spec(o.root, st) {
            Ok(st1) => {
                let st2 = LState { code: st1.code + path_code(o.path), ..st1 };
                let loc = st2.code.len() as int;
                match cond_spec(st2, bs[k as int].0) {
                    Ok(st3) => match tree_spec(owner, bs[k as int].1, st3) {
                        Ok(st4) => if k + 1 < bs.len() {
                            branches_spec(owner, t, k + 1, patch_at(st4, loc, st4.code.len() as int))
                        } else {
                            let len = st4.code.len() as int;
                            match tree_spec(owner, *t->Switch_2, st4) {
                                Ok(st5) => Ok(patch_at(st5, loc, len)),
                                Err(err) => Err(err),
                            }
                        },
                        Err(err) => Err(err),
                    },
                    Err(err) => Err(err),
                }
            },
            Err(err) => Err(err),
        }
    }
}

} // verus!
