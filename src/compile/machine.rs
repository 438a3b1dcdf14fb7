//! The stack machine that runs one compiled function body.
use vstd::prelude::*;

use super::{BytecodeInfo, Bytecode, Constant, ConstantM, closed_code, operands_ok_all, operands_ok};
use crate::desugar::copy_string;
use crate::pool::{pool_entries, pool_key_at, pool_len};

verus! {

/// A runtime value.
#[derive(Debug)]
pub enum Value {
    Number(i32),
    Tuple(Vec<Value>),
    Atom(String),
    String(String),
    Cons(Box<Value>, Box<Value>),
    Nil,
}

pub enum ValueM {
    Number(i32),
    Tuple(Seq<ValueM>),
    Atom(Seq<char>),
    Str(Seq<char>),
    Cons(Box<ValueM>, Box<ValueM>),
    Nil,
}

/// Why a run stopped without a result.
#[derive(Clone, Copy, Debug, PartialEq, Eq, Structural)]
pub enum VmError {
    /// `MatchFail` ran: no clause matched.
    MatchFailure,
    /// A projection met a value of the wrong shape.
    TypeMismatch,
    /// An instruction needed more values than the stack held.
    StackUnderflow,
    /// The code names a missing constant or slot, runs past its end, or
    /// branches backwards.
    InvalidCode,
}

impl Value {
    pub open spec fn model(&self) -> ValueM
        decreases self,
    {
        match self {
            Value::Number(n) => ValueM::Number(*n),
            Value::Tuple(vs) => ValueM::Tuple(
                Seq::new(
                    vs.len() as nat,
                    |i: int|
                        if 0 <= i < vs.len() {
                            vs[i].model()
                        } else {
                            ValueM::Nil
                        },
                ),
            ),
            Value::Atom(a) => ValueM::Atom(a@),
            Value::String(s) => ValueM::Str(s@),
            Value::Cons(h, t) => ValueM::Cons(Box::new(h.model()), Box::new(t.model())),
            Value::Nil => ValueM::Nil,
        }
    }

    /// A copy of the value.
    pub fn duplicate(&self) -> (r: Value)
        ensures
            r.model() == self.model(),
        decreases self,
    {
        match self {
            Value::Number(n) => Value::Number(*n),
            Value::Tuple(vs) => {
                let mut out: Vec<Value> = Vec::new();
                let mut i: usize = 0;
                while i < vs.len()
                    invariant
                        *self == Value::Tuple(*vs),
                        i <= vs.len(),
                        out.len() == i,
                        forall|j: int| 0 <= j < i ==> (#[trigger] out[j]).model() == vs[j].model(),
                    decreases vs.len() - i,
                {
                    proof {
                        assert(decreases_to!(*self => self->Tuple_0));
                        assert(decreases_to!(self->Tuple_0 => self->Tuple_0@));
                        assert(decreases_to!(self->Tuple_0@ => self->Tuple_0@[i as int]));
                    }
                    out.push(vs[i].duplicate());
                    i += 1;
                }
                let r = Value::Tuple(out);
                assert(r.model()->Tuple_0 =~= self.model()->Tuple_0);
                r
            },
            Value::Atom(a) => Value::Atom(copy_string(a)),
            Value::String(s) => Value::String(copy_string(s)),
            Value::Cons(h, t) => Value::Cons(Box::new(h.duplicate()), Box::new(t.duplicate())),
            Value::Nil => Value::Nil,
        }
    }
}

impl Default for Value {
    fn default() -> (r: Self)
        ensures
            r.model() == ValueM::Number(0),
    {
        Value::Number(0)
    }
}

pub open spec fn values_model(v: Seq<Value>) -> Seq<ValueM> {
    Seq::new(v.len(), |i: int| v[i].model())
}

impl Constant {
    /// A copy of the constant.
    pub fn duplicate(&self) -> (r: Constant)
        ensures
            r.model() == self.model(),
    {
        match self {
            Constant::Number(n) => Constant::Number(*n),
            Constant::Atom(a) => Constant::Atom(copy_string(a)),
            Constant::String(s) => Constant::String(copy_string(s)),
        }
    }
}

// ---------------------------------------------------------------------
// Semantics.

/// The value a constant loads as.
pub open spec fn constant_value(c: ConstantM) -> ValueM {
    match c {
        ConstantM::Number(n) => ValueM::Number(n),
        ConstantM::Atom(a) => ValueM::Atom(a),
        ConstantM::Str(s) => ValueM::Str(s),
    }
}

pub struct VmState {
    pub ip: int,
    pub stack: Seq<ValueM>,
    pub locals: Seq<ValueM>,
}

pub enum Step {
    Next(VmState),
    Halt(Result<(), VmError>, Seq<ValueM>),
}

pub open spec fn next(ip: int, stack: Seq<ValueM>, locals: Seq<ValueM>) -> Step {
    Step::Next(VmState { ip, stack, locals })
}

/// One instruction's effect. A test pops the tested value and falls
/// through on a match, else goes to its branch target.
pub open spec fn step(code: Seq<Bytecode>, consts: Seq<ConstantM>, s: VmState) -> Step {
    let st = s.stack;
    let n = st.len();
    let after = s.ip + 1;
    match code[s.ip] {
        Bytecode::Return => Step::Halt(Ok(()), st),
        Bytecode::PushNumber { val } => next(after, st.push(ValueM::Number(val)), s.locals),
        Bytecode::LoadConstant { id } => if id < consts.len() {
            next(after, st.push(constant_value(consts[id as int])), s.locals)
        } else {
            Step::Halt(Err(VmError::InvalidCode), st)
        },
        Bytecode::GetLocal { id } => if id < s.locals.len() {
            next(after, st.push(s.locals[id as int]), s.locals)
        } else {
            Step::Halt(Err(VmError::InvalidCode), st)
        },
        Bytecode::SetLocal { id } => if n == 0 {
            Step::Halt(Err(VmError::StackUnderflow), st)
        } else if id >= s.locals.len() {
            Step::Halt(Err(VmError::InvalidCode), st.drop_last())
        } else {
            next(after, st.drop_last(), s.locals.update(id as int, st.last()))
        },
        Bytecode::TestExact { id, branch } => if n == 0 {
            Step::Halt(Err(VmError::StackUnderflow), st)
        } else if id >= consts.len() {
            Step::Halt(Err(VmError::InvalidCode), st.drop_last())
        } else if st.last() == constant_value(consts[id as int]) {
            next(after, st.drop_last(), s.locals)
        } else {
            next(branch as int, st.drop_last(), s.locals)
        },
        Bytecode::TestTuple { size, branch } => if n == 0 {
            Step::Halt(Err(VmError::StackUnderflow), st)
        } else if st.last() is Tuple && st.last()->Tuple_0.len() == size {
            next(after, st.drop_last(), s.locals)
        } else {
            next(branch as int, st.drop_last(), s.locals)
        },
        Bytecode::TestCons { branch } => if n == 0 {
            Step::Halt(Err(VmError::StackUnderflow), st)
        } else if st.last() is Cons {
            next(after, st.drop_last(), s.locals)
        } else {
            next(branch as int, st.drop_last(), s.locals)
        },
        Bytecode::TestNil { branch } => if n == 0 {
            Step::Halt(Err(VmError::StackUnderflow), st)
        } else if st.last() is Nil {
            next(after, st.drop_last(), s.locals)
        } else {
            next(branch as int, st.drop_last(), s.locals)
        },
        Bytecode::MakeTuple { size } => if size > n {
            Step::Halt(Err(VmError::StackUnderflow), st)
        } else {
            next(
                after,
                st.take(n - size).push(ValueM::Tuple(st.skip(n - size))),
                s.locals,
            )
        },
        Bytecode::GetTuple { index } => if n == 0 {
            Step::Halt(Err(VmError::StackUnderflow), st)
        } else if st.last() is Tuple && index < st.last()->Tuple_0.len() {
            next(after, st.drop_last().push(st.last()->Tuple_0[index as int]), s.locals)
        } else {
            Step::Halt(Err(VmError::TypeMismatch), st.drop_last())
        },
        Bytecode::GetHd => if n == 0 {
            Step::Halt(Err(VmError::StackUnderflow), st)
        } else if st.last() is Cons {
            next(after, st.drop_last().push(*st.last()->Cons_0), s.locals)
        } else {
            Step::Halt(Err(VmError::TypeMismatch), st.drop_last())
        },
        Bytecode::GetTl => if n == 0 {
            Step::Halt(Err(VmError::StackUnderflow), st)
        } else if st.last() is Cons {
            next(after, st.drop_last().push(*st.last()->Cons_1), s.locals)
        } else {
            Step::Halt(Err(VmError::TypeMismatch), st.drop_last())
        },
        Bytecode::Jump { index } => next(index as int, st, s.locals),
        Bytecode::MatchFail => Step::Halt(Err(VmError::MatchFailure), st),
        Bytecode::MakeCons => if n < 2 {
            Step::Halt(Err(VmError::StackUnderflow), st)
        } else {
            next(
                after,
                st.take(n - 2).push(ValueM::Cons(Box::new(st[n - 2]), Box::new(st[n - 1]))),
                s.locals,
            )
        },
        Bytecode::PushNil => next(after, st.push(ValueM::Nil), s.locals),
    }
}

/// The outcome of running from state `s`: the result and the final
/// stack. Running past the end of the code, or a step that does not move
/// forward, is invalid code.
pub open spec fn run_from(code: Seq<Bytecode>, consts: Seq<ConstantM>, s: VmState) -> (Result<(), VmError>, Seq<ValueM>)
    decreases code.len() - s.ip,
{
    if s.ip < 0 || s.ip >= code.len() {
        (Err(VmError::InvalidCode), s.stack)
    } else {
        match step(code, consts, s) {
            Step::Halt(r, st) => (r, st),
            Step::Next(n) => if s.ip < n.ip <= code.len() {
                run_from(code, consts, n)
            } else {
                (Err(VmError::InvalidCode), n.stack)
            },
        }
    }
}

pub open spec fn constants_model(v: Seq<Constant>) -> Seq<ConstantM> {
    Seq::new(v.len(), |i: int| v[i].model())
}

/// The machine: the code it runs, its instruction pointer, and the pool's
/// constants in id order.
pub struct Machine<'a> {
    pub code: &'a [Bytecode],
    pub ip: usize,
    pub constants: Vec<Constant>,
}

impl<'a> Machine<'a> {
    /// A machine at the start of the unit's code.
    pub fn new(info: &'a BytecodeInfo) -> (r: Self)
        ensures
            r.code@ == info.bytecode@,
            r.ip == 0,
            r.constants@.len() == pool_entries(info.constants).len(),
            forall|i: int|
                0 <= i < r.constants@.len() ==> (#[trigger] r.constants@[i]).model() == pool_entries(
                    info.constants,
                )[i].0.model(),
    {
        let n = pool_len(&info.constants);
        let mut constants: Vec<Constant> = Vec::new();
        let mut i: usize = 0;
        while i < n
            invariant
                n == pool_entries(info.constants).len(),
                i <= n,
                constants.len() == i,
                forall|j: int|
                    0 <= j < i ==> (#[trigger] constants@[j]).model() == pool_entries(info.constants)[j].0.model(),
            decreases n - i,
        {
            constants.push(pool_key_at(&info.constants, i).duplicate());
            i += 1;
        }
        Machine { code: info.bytecode.as_slice(), ip: 0, constants }
    }

    /// The value of constant `id`.
    fn load_constant(&self, id: u16) -> (r: Value)
        requires
            (id as int) < self.constants@.len(),
        ensures
            r.model() == constant_value(self.constants@[id as int].model()),
    {
        match &self.constants[id as usize] {
            Constant::Number(n) => Value::Number(*n),
            Constant::Atom(a) => Value::Atom(copy_string(a)),
            Constant::String(s) => Value::String(copy_string(s)),
        }
    }

    /// The instruction at the instruction pointer, which moves on by one.
    fn fetch(&mut self) -> (r: Bytecode)
        requires
            old(self).ip < old(self).code@.len(),
        ensures
            r == old(self).code@[old(self).ip as int],
            final(self).ip == old(self).ip + 1,
            final(self).code == old(self).code,
            final(self).constants == old(self).constants,
    {
        let r = self.code[self.ip];
        self.ip = self.ip + 1;
        r
    }
}

/// Whether a value equals the value of a constant.
fn matches_constant(v: &Value, c: &Constant) -> (r: bool)
    ensures
        r == (v.model() == constant_value(c.model())),
{
    match (v, c) {
        (Value::Number(a), Constant::Number(b)) => *a == *b,
        (Value::Atom(a), Constant::Atom(b)) => a.eq(b),
        (Value::String(a), Constant::String(b)) => a.eq(b),
        _ => false,
    }
}

impl<'a> Machine<'a> {
    /// Runs from the instruction pointer with `stack` and `locals` until an
    /// instruction halts: `Return` gives `Ok` with the result on top of the
    /// stack, `MatchFail` gives `MatchFailure`.
    #[verifier::rlimit(60)]
    pub fn run(&mut self, stack: &mut Vec<Value>, locals: Vec<Value>) -> (r: Result<(), VmError>)
        ensures
            (r, values_model(final(stack)@)) == run_from(
                old(self).code@,
                constants_model(old(self).constants@),
                VmState {
                    ip: old(self).ip as int,
                    stack: values_model(old(stack)@),
                    locals: values_model(locals@),
                },
            ),
    {
        let ghost code = self.code@;
        let ghost consts = constants_model(self.constants@);
        let ghost target = run_from(
            code,
            consts,
            VmState { ip: self.ip as int, stack: values_model(stack@), locals: values_model(locals@) },
        );
        proof {
            assert(target == run_from(
                old(self).code@,
                constants_model(old(self).constants@),
                VmState {
                    ip: old(self).ip as int,
                    stack: values_model(old(stack)@),
                    locals: values_model(locals@),
                },
            ));
        }
        let ghost init = (old(self).code@, constants_model(old(self).constants@), old(self).ip as int, values_model(old(stack)@), values_model(locals@));
        let mut slots = locals;
        if self.ip >= self.code.len() {
            return Err(VmError::InvalidCode);
        }
        loop
            invariant
                code == self.code@,
                consts == constants_model(self.constants@),
                self.ip < code.len(),
                init == (old(self).code@, constants_model(old(self).constants@), old(self).ip as int, values_model(old(stack)@), values_model(locals@)),
                target == run_from(init.0, init.1, VmState { ip: init.2, stack: init.3, locals: init.4 }),
                target == run_from(
                    code,
                    consts,
                    VmState { ip: self.ip as int, stack: values_model(stack@), locals: values_model(slots@) },
                ),
            decreases code.len() - self.ip,
        {
            let at = self.ip;
            let ghost s = VmState { ip: at as int, stack: values_model(stack@), locals: values_model(slots@) };
            let ghost before = stack@;
            let ins = self.fetch();
            let n = stack.len();
            match ins {
                Bytecode::Return => {

                    return Ok(());
                },
                Bytecode::PushNumber { val } => {
                    stack.push(Value::Number(val));
                },
                Bytecode::LoadConstant { id } => {
                    if (id as usize) >= self.constants.len() {
                        return Err(VmError::InvalidCode);
                    }
                    let v = self.load_constant(id);
                    stack.push(v);
                },
                Bytecode::GetLocal { id } => {
                    if id >= slots.len() {
                        return Err(VmError::InvalidCode);
                    }
                    let v = slots[id].duplicate();
                    stack.push(v);
                },
                Bytecode::SetLocal { id } => {
                    let v = match stack.pop() {
                        Some(v) => v,
                        None => return Err(VmError::StackUnderflow),
                    };
                    if id >= slots.len() {
                        return Err(VmError::InvalidCode);
                    }
                    let ghost lm = values_model(slots@);
                    slots.set(id, v);
                    assert(values_model(slots@) =~= lm.update(id as int, v.model()));
                },
                Bytecode::TestExact { id, branch } => {
                    let v = match stack.pop() {
                        Some(v) => v,
                        None => return Err(VmError::StackUnderflow),
                    };
                    if (id as usize) >= self.constants.len() {
                        return Err(VmError::InvalidCode);
                    }
                    if !matches_constant(&v, &self.constants[id as usize]) {
                        self.ip = branch;
                    }
                },
                Bytecode::TestTuple { size, branch } => {
                    let v = match stack.pop() {
                        Some(v) => v,
                        None => return Err(VmError::StackUnderflow),
                    };
                    let ok = match &v {
                        Value::Tuple(x) => x.len() == size,
                        _ => false,
                    };
                    if !ok {
                        self.ip = branch;
                    }
                },
                Bytecode::TestCons { branch } => {
                    let v = match stack.pop() {
                        Some(v) => v,
                        None => return Err(VmError::StackUnderflow),
                    };
                    let ok = match &v {
                        Value::Cons(..) => true,
                        _ => false,
                    };
                    if !ok {
                        self.ip = branch;
                    }
                },
                Bytecode::TestNil { branch } => {
                    let v = match stack.pop() {
                        Some(v) => v,
                        None => return Err(VmError::StackUnderflow),
                    };
                    let ok = match &v {
                        Value::Nil => true,
                        _ => false,
                    };
                    if !ok {
                        self.ip = branch;
                    }
                },
                Bytecode::MakeTuple { size } => {
                    if size > n {
                        return Err(VmError::StackUnderflow);
                    }
                    let items = stack.split_off(n - size);
                    assert(values_model(items@) =~= values_model(before).skip(n - size));
                    stack.push(Value::Tuple(items));
                    assert(values_model(stack@) =~= values_model(before).take(n - size).push(
                        ValueM::Tuple(values_model(before).skip(n - size)),
                    )) by {
                        assert(stack@.last().model()->Tuple_0 =~= values_model(items@));
                    }
                },
                Bytecode::GetTuple { index } => {
                    let v = match stack.pop() {
                        Some(v) => v,
                        None => return Err(VmError::StackUnderflow),
                    };
                    match v {
                        Value::Tuple(mut t) => {
                            if index >= t.len() {
                                return Err(VmError::TypeMismatch);
                            }
                            let ghost tm = t@;
                            let x = t.remove(index);
                            assert(x.model() == tm[index as int].model());
                            stack.push(x);
                        },
                        _ => return Err(VmError::TypeMismatch),
                    }
                },
                Bytecode::GetHd => {
                    let v = match stack.pop() {
                        Some(v) => v,
                        None => return Err(VmError::StackUnderflow),
                    };
                    match v {
                        Value::Cons(h, _) => stack.push(*h),
                        _ => return Err(VmError::TypeMismatch),
                    }
                },
                Bytecode::GetTl => {
                    let v = match stack.pop() {
                        Some(v) => v,
                        None => return Err(VmError::StackUnderflow),
                    };
                    match v {
                        Value::Cons(_, t) => stack.push(*t),
                        _ => return Err(VmError::TypeMismatch),
                    }
                },
                Bytecode::Jump { index } => {
                    self.ip = index;
                },
                Bytecode::MatchFail => return Err(VmError::MatchFailure),
                Bytecode::MakeCons => {
                    if n < 2 {
                        return Err(VmError::StackUnderflow);
                    }
                    let tl = stack.pop().unwrap();
                    let hd = stack.pop().unwrap();
                    stack.push(Value::Cons(Box::new(hd), Box::new(tl)));
                },
                Bytecode::PushNil => {
                    stack.push(Value::Nil);
                },
            }
            assert(values_model(stack@) =~= step(code, consts, s)->Next_0.stack);
            if !(at < self.ip && self.ip <= self.code.len()) {
                return Err(VmError::InvalidCode);
            }
            if self.ip == self.code.len() {
                assert(run_from(
                    code,
                    consts,
                    VmState { ip: self.ip as int, stack: values_model(stack@), locals: values_model(slots@) },
                ).0 == Err::<(), VmError>(VmError::InvalidCode));
                return Err(VmError::InvalidCode);
            }
        }
    }
}

/// Branch soundness: in closed code whose operands name existing constants
/// and slots, every run from an instruction of the code ends at a `Return`,
/// at a `MatchFail`, or on a value of the wrong shape; it never runs off
/// the code or branches backwards.
pub proof fn lemma_closed_code_halts(code: Seq<Bytecode>, consts: Seq<ConstantM>, s: VmState)
    requires
        closed_code(code),
        operands_ok_all(code, consts.len(), s.locals.len()),
        0 <= s.ip < code.len(),
    ensures
        run_from(code, consts, s).0 != Err::<(), VmError>(VmError::InvalidCode),
    decreases code.len() - s.ip,
{
    assert(operands_ok(code[s.ip], consts.len(), s.locals.len()));
    if s.ip == code.len() - 1 {
        assert(code[s.ip] == code.last());
    }
    match step(code, consts, s) {
        Step::Halt(_, _) => {},
        Step::Next(n) => {
            assert(n.locals.len() == s.locals.len());
            lemma_closed_code_halts(code, consts, n);
        },
    }
}

/// Pushes of the numbers `vs`, in order, then `MakeTuple` of them, then
/// `Return`.
pub open spec fn tuple_code(vs: Seq<i32>) -> Seq<Bytecode> {
    Seq::new(vs.len(), |i: int| Bytecode::PushNumber { val: vs[i] }) + seq![
        Bytecode::MakeTuple { size: vs.len() as usize },
        Bytecode::Return,
    ]
}

pub open spec fn numbers(vs: Seq<i32>) -> Seq<ValueM> {
    Seq::new(vs.len(), |i: int| ValueM::Number(vs[i]))
}

/// Tuple order: pushing values and assembling them with `MakeTuple`
/// gives the tuple of the values in the order they were pushed.
pub proof fn lemma_make_tuple_keeps_order(vs: Seq<i32>, consts: Seq<ConstantM>, locals: Seq<ValueM>)
    requires
        vs.len() < usize::MAX,
    ensures
        run_from(tuple_code(vs), consts, VmState { ip: 0, stack: seq![], locals }) == (
            Ok::<(), VmError>(()),
            seq![ValueM::Tuple(numbers(vs))],
        ),
{
    assert(numbers(vs).take(0) =~= seq![]);
    lemma_pushes(vs, consts, locals, 0);
}

proof fn lemma_pushes(vs: Seq<i32>, consts: Seq<ConstantM>, locals: Seq<ValueM>, k: nat)
    requires
        vs.len() < usize::MAX,
        k <= vs.len(),
    ensures
        run_from(tuple_code(vs), consts, VmState { ip: k as int, stack: numbers(vs).take(k as int), locals })
            == (Ok::<(), VmError>(()), seq![ValueM::Tuple(numbers(vs))]),
    decreases vs.len() - k,
{
    let code = tuple_code(vs);
    let s = VmState { ip: k as int, stack: numbers(vs).take(k as int), locals };
    if k < vs.len() {
        assert(code[k as int] == Bytecode::PushNumber { val: vs[k as int] });
        assert(numbers(vs).take(k as int).push(ValueM::Number(vs[k as int])) =~= numbers(vs).take(k + 1 as int));
        lemma_pushes(vs, consts, locals, k + 1);
    } else {
        let n = vs.len();
        assert(code[n as int] == Bytecode::MakeTuple { size: n as usize });
        assert(code[n as int + 1] == Bytecode::Return);
        assert(numbers(vs).take(k as int) =~= numbers(vs));
        assert(numbers(vs).take(0).push(ValueM::Tuple(numbers(vs).skip(0))) =~= seq![ValueM::Tuple(numbers(vs))]);
        let s2 = VmState { ip: n as int + 1, stack: seq![ValueM::Tuple(numbers(vs))], locals };
        assert(step(code, consts, s2) == Step::Halt(Ok::<(), VmError>(()), s2.stack));
        assert(run_from(code, consts, s2) == (Ok::<(), VmError>(()), s2.stack));
    }
}

} // verus!
