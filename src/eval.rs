//! A tree-walking evaluator of desugared programs, kept to cross-check the
//! machine. Calls are bounded by a fuel count, which each call spends.
use vstd::prelude::*;

use crate::desugar::pattern::names_model;
use crate::desugar::pattern::exprs_model_of;
use crate::desugar::{copy_string, Acc, Cond, CondM, ExprM, Expression, FnDefinition, Operation, Program, Tree, TreeM};

verus! {

/// A value of the evaluator.
#[derive(Debug)]
pub enum Value {
    Number(i32),
    String(String),
    Atom(String),
    Tuple(Vec<Value>),
    Function(Vec<String>, Box<Expression>),
    Cons(Box<Value>, Box<Value>),
    Nil,
}

pub enum EvalV {
    Number(i32),
    Str(Seq<char>),
    Atom(Seq<char>),
    Tuple(Seq<EvalV>),
    Function(Seq<Seq<char>>, ExprM),
    Cons(Box<EvalV>, Box<EvalV>),
    Nil,
}

/// Why an evaluation failed.
#[derive(Clone, Copy, Debug, PartialEq, Eq, Structural)]
pub enum EvalError {
    /// A name with neither a binding nor a definition.
    Unbound,
    /// An operation on a value of the wrong kind.
    TypeMismatch,
    /// Overflow, or division by zero.
    Arithmetic,
    /// No clause matched.
    MatchFailure,
    /// A decision-tree leaf with no action.
    NoAction,
    /// More nested calls than the fuel allowed.
    OutOfFuel,
}

impl Value {
    pub open spec fn model(&self) -> EvalV
        decreases self,
    {
        match self {
            Value::Number(n) => EvalV::Number(*n),
            Value::String(s) => EvalV::Str(s@),
            Value::Atom(a) => EvalV::Atom(a@),
            Value::Tuple(vs) => EvalV::Tuple(
                Seq::new(
                    vs.len() as nat,
                    |i: int|
                        if 0 <= i < vs.len() {
                            vs[i].model()
                        } else {
                            EvalV::Nil
                        },
                ),
            ),
            Value::Function(ps, body) => EvalV::Function(names_model(ps@), body.model()),
            Value::Cons(h, t) => EvalV::Cons(Box::new(h.model()), Box::new(t.model())),
            Value::Nil => EvalV::Nil,
        }
    }

    /// A copy of the value.
    pub fn duplicate(&self) -> (r: Value)
        ensures
            r.model() == self.model(),
        decreases self,
    {
        match self {
            Value::Number(n) => Value::Number(*n),
            Value::String(s) => Value::String(copy_string(s)),
            Value::Atom(a) => Value::Atom(copy_string(a)),
            Value::Tuple(vs) => {
                let mut out: Vec<Value> = Vec::new();
                let mut i: usize = 0;
                while i < vs.len()
                    invariant
                        *self == Value::Tuple(*vs),
                        i <= vs.len(),
                        out.len() == i,
                        forall|j: int| 0 <= j < i ==> (#[trigger] out[j]).model() == vs[j].model(),
                    decreases vs.len() - i,
                {
                    proof {
                        assert(decreases_to!(*self => self->Tuple_0));
                        assert(decreases_to!(self->Tuple_0 => self->Tuple_0@));
                        assert(decreases_to!(self->Tuple_0@ => self->Tuple_0@[i as int]));
                    }
                    out.push(vs[i].duplicate());
                    i += 1;
                }
                let r = Value::Tuple(out);
                assert(r.model()->Tuple_0 =~= self.model()->Tuple_0);
                r
            },
            Value::Function(ps, body) => {
                let params = copy_names(ps);
                Value::Function(params, Box::new(body.duplicate()))
            },
            Value::Cons(h, t) => Value::Cons(Box::new(h.duplicate()), Box::new(t.duplicate())),
            Value::Nil => Value::Nil,
        }
    }
}

fn copy_names(ps: &Vec<String>) -> (r: Vec<String>)
    ensures
        names_model(r@) == names_model(ps@),
{
    let mut out: Vec<String> = Vec::new();
    let mut i: usize = 0;
    while i < ps.len()
        invariant
            i <= ps.len(),
            out.len() == i,
            forall|j: int| 0 <= j < i ==> (#[trigger] out[j])@ == ps[j]@,
        decreases ps.len() - i,
    {
        out.push(copy_string(&ps[i]));
        i += 1;
    }
    assert(names_model(out@) =~= names_model(ps@));
    out
}

// ---------------------------------------------------------------------
// Semantics.

/// A definition's model: its name, parameters and body.
pub struct DefM {
    pub name: Seq<char>,
    pub params: Seq<Seq<char>>,
    pub body: ExprM,
}

impl FnDefinition {
    pub open spec fn def_model(&self) -> DefM {
        DefM { name: self.name@, params: names_model(self.parameters@), body: self.body.model() }
    }
}

pub open spec fn defs_model(v: Seq<FnDefinition>) -> Seq<DefM> {
    Seq::new(v.len(), |i: int| v[i].def_model())
}

pub open spec fn vars_model(v: Seq<(String, Value)>) -> Seq<(Seq<char>, EvalV)> {
    Seq::new(v.len(), |i: int| (v[i].0@, v[i].1.model()))
}

/// The latest binding of `n`.
pub open spec fn lookup_var(vars: Seq<(Seq<char>, EvalV)>, n: Seq<char>) -> Option<EvalV>
    decreases vars.len(),
{
    if vars.len() == 0 {
        None
    } else if vars.last().0 == n {
        Some(vars.last().1)
    } else {
        lookup_var(vars.drop_last(), n)
    }
}

/// The first definition named `n`, from index `i` on.
pub open spec fn lookup_def(defs: Seq<DefM>, n: Seq<char>, i: int) -> Option<DefM>
    decreases defs.len() - i,
{
    if i < 0 || i >= defs.len() {
        None
    } else if defs[i].name == n {
        Some(defs[i])
    } else {
        lookup_def(defs, n, i + 1)
    }
}

/// `vars` extended by each parameter bound to its argument; extra
/// parameters or arguments are ignored.
pub open spec fn bind_args(vars: Seq<(Seq<char>, EvalV)>, ps: Seq<Seq<char>>, vs: Seq<EvalV>) -> Seq<(Seq<char>, EvalV)> {
    vars + Seq::new(
        if ps.len() < vs.len() {
            ps.len()
        } else {
            vs.len()
        },
        |i: int| (ps[i], vs[i]),
    )
}

/// The discriminator of a value; functions have none.
pub open spec fn econd(v: EvalV) -> Option<CondM> {
    match v {
        EvalV::Number(n) => Some(CondM::Number(n)),
        EvalV::Str(s) => Some(CondM::Str(s)),
        EvalV::Atom(a) => Some(CondM::Atom(a)),
        EvalV::Tuple(vs) => Some(CondM::Tuple(vs.len())),
        EvalV::Cons(_, _) => Some(CondM::Cons),
        EvalV::Nil => Some(CondM::Nil),
        EvalV::Function(_, _) => None,
    }
}

pub open spec fn eproject(v: EvalV, a: Acc) -> Option<EvalV> {
    match (v, a) {
        (EvalV::Tuple(vs), Acc::Tup(i)) => if i < vs.len() {
            Some(vs[i as int])
        } else {
            None
        },
        (EvalV::Cons(h, _), Acc::Head) => Some(*h),
        (EvalV::Cons(_, t), Acc::Tail) => Some(*t),
        _ => None,
    }
}

pub open spec fn evalue_at(v: EvalV, path: Seq<Acc>) -> Option<EvalV>
    decreases path.len(),
{
    if path.len() == 0 {
        Some(v)
    } else {
        match evalue_at(v, path.drop_last()) {
            Some(w) => eproject(w, path.last()),
            None => None,
        }
    }
}

/// The first branch from `i` on whose discriminator the value has.
pub open spec fn eselect(bs: Seq<(CondM, TreeM)>, v: EvalV, i: int) -> Option<int>
    decreases bs.len() - i,
{
    if i < 0 || i >= bs.len() {
        None
    } else if econd(v) == Some(bs[i].0) {
        Some(i)
    } else {
        eselect(bs, v, i + 1)
    }
}

/// Structural equality of values; functions are never equal.
pub open spec fn equal_values(x: EvalV, y: EvalV) -> bool
    decreases x,
{
    match (x, y) {
        (EvalV::Number(a), EvalV::Number(b)) => a == b,
        (EvalV::Str(a), EvalV::Str(b)) => a == b,
        (EvalV::Atom(a), EvalV::Atom(b)) => a == b,
        (EvalV::Tuple(a), EvalV::Tuple(b)) => a.len() == b.len() && forall|i: int|
            0 <= i < a.len() ==> equal_values(#[trigger] a[i], b[i]),
        (EvalV::Cons(h1, t1), EvalV::Cons(h2, t2)) => equal_values(*h1, *h2) && equal_values(*t1, *t2),
        (EvalV::Nil, EvalV::Nil) => true,
        _ => false,
    }
}

pub open spec fn truth(b: bool) -> EvalV {
    if b {
        EvalV::Atom(seq!['t', 'r', 'u', 'e'])
    } else {
        EvalV::Atom(seq!['f', 'a', 'l', 's', 'e'])
    }
}

/// Integer division rounding toward zero.
pub open spec fn trunc_div(x: int, d: int) -> int {
    if x == 0 {
        0
    } else if x > 0 && d > 0 {
        x / d
    } else if x < 0 && d < 0 {
        (x * -1) / (d * -1)
    } else if x < 0 {
        ((x * -1) / d) * -1
    } else {
        (x / (d * -1)) * -1
    }
}

pub open spec fn in_i32(x: int) -> bool {
    i32::MIN <= x <= i32::MAX
}

/// The result of a binary operation: checked 32-bit arithmetic, and
/// equality giving the atom `true` or `false`.
pub open spec fn binary(op: Operation, a: EvalV, b: EvalV) -> Result<EvalV, EvalError> {
    match op {
        Operation::Equal => Ok(truth(equal_values(a, b))),
        _ => match (a, b) {
            (EvalV::Number(x), EvalV::Number(y)) => {
                let r = match op {
                    Operation::Add => x + y,
                    Operation::Sub => x - y,
                    Operation::Mul => x * y,
                    _ => if y == 0 {
                        i32::MAX + 1
                    } else {
                        trunc_div(x as int, y as int)
                    },
                };
                if in_i32(r) {
                    Ok(EvalV::Number(r as i32))
                } else {
                    Err(EvalError::Arithmetic)
                }
            },
            _ => Err(EvalError::TypeMismatch),
        },
    }
}

/// The value of a name: its latest binding, else the function it names.
pub open spec fn fetch_value(defs: Seq<DefM>, vars: Seq<(Seq<char>, EvalV)>, n: Seq<char>) -> Result<EvalV, EvalError> {
    match lookup_var(vars, n) {
        Some(v) => Ok(v),
        None => match lookup_def(defs, n, 0) {
            Some(d) => Ok(EvalV::Function(d.params, d.body)),
            None => Err(EvalError::Unbound),
        },
    }
}

/// What an expression evaluates to under `defs` and `vars`, with `fuel`
/// calls left.
pub open spec fn eval_expr(defs: Seq<DefM>, vars: Seq<(Seq<char>, EvalV)>, e: ExprM, fuel: nat) -> Result<EvalV, EvalError>
    decreases fuel, e, 0nat,
{
    match e {
        ExprM::Variable(n) => fetch_value(defs, vars, n),
        ExprM::Number(n) => Ok(EvalV::Number(n)),
        ExprM::Atom(a) => Ok(EvalV::Atom(a)),
        ExprM::Str(s) => Ok(EvalV::Str(s)),
        ExprM::Let(b, v, n) => match eval_expr(defs, vars, *v, fuel) {
            Ok(x) => eval_expr(defs, vars.push((b, x)), *n, fuel),
            Err(err) => Err(err),
        },
        ExprM::Match(t, acts) => match eval_tree(defs, vars, *t, fuel) {
            Ok(i) => if i < acts.len() {
                eval_expr(defs, vars, acts[i as int], fuel)
            } else {
                Err(EvalError::NoAction)
            },
            Err(err) => Err(err),
        },
        ExprM::Tuple(es) => match eval_list(defs, vars, es, fuel) {
            Ok(vs) => Ok(EvalV::Tuple(vs)),
            Err(err) => Err(err),
        },
        ExprM::Binary(op, l, r) => match eval_expr(defs, vars, *l, fuel) {
            Ok(a) => match eval_expr(defs, vars, *r, fuel) {
                Ok(b) => binary(op, a, b),
                Err(err) => Err(err),
            },
            Err(err) => Err(err),
        },
        ExprM::Call(c, args) => match eval_expr(defs, vars, *c, fuel) {
            Ok(EvalV::Function(ps, body)) => match eval_list(defs, vars, args, fuel) {
                Ok(vs) => if fuel == 0 {
                    Err(EvalError::OutOfFuel)
                } else {
                    eval_expr(defs, bind_args(vars, ps, vs), body, (fuel - 1) as nat)
                },
                Err(err) => Err(err),
            },
            Ok(_) => Err(EvalError::TypeMismatch),
            Err(err) => Err(err),
        },
        ExprM::If(c, t, f) => match eval_expr(defs, vars, *c, fuel) {
            Ok(v) => if v == truth(true) {
                eval_expr(defs, vars, *t, fuel)
            } else {
                eval_expr(defs, vars, *f, fuel)
            },
            Err(err) => Err(err),
        },
        ExprM::Access(x, a) => match eval_expr(defs, vars, *x, fuel) {
            Ok(v) => match eproject(v, a) {
                Some(w) => Ok(w),
                None => Err(EvalError::TypeMismatch),
            },
            Err(err) => Err(err),
        },
        ExprM::Cons(h, t) => match eval_expr(defs, vars, *h, fuel) {
            Ok(a) => match eval_expr(defs, vars, *t, fuel) {
                Ok(b) => Ok(EvalV::Cons(Box::new(a), Box::new(b))),
                Err(err) => Err(err),
            },
            Err(err) => Err(err),
        },
        ExprM::Nil => Ok(EvalV::Nil),
    }
}

/// The values of `es`, left to right; the first failure stops it.
pub open spec fn eval_list(defs: Seq<DefM>, vars: Seq<(Seq<char>, EvalV)>, es: Seq<ExprM>, fuel: nat) -> Result<Seq<EvalV>, EvalError>
    decreases fuel, es, 0nat,
{
    if es.len() == 0 {
        Ok(seq![])
    } else {
        match eval_expr(defs, vars, es[0], fuel) {
            Ok(v) => match eval_list(defs, vars, es.drop_first(), fuel) {
                Ok(vs) => Ok(seq![v] + vs),
                Err(err) => Err(err),
            },
            Err(err) => Err(err),
        }
    }
}

/// The action a decision tree selects: at a switch, the value at the
/// occurrence goes to the first branch with its discriminator, else to
/// the default; `Failure` fails.
pub open spec fn eval_tree(defs: Seq<DefM>, vars: Seq<(Seq<char>, EvalV)>, t: TreeM, fuel: nat) -> Result<nat, EvalError>
    decreases fuel, t, 0nat,
{
    match t {
        TreeM::Failure => Err(EvalError::MatchFailure),
        TreeM::Leaf(a) => Ok(a),
        TreeM::Switch(o, bs, d) => match eval_expr(defs, vars, o.root, fuel) {
            Ok(root) => match evalue_at(root, o.path) {
                Some(v) => match eselect(bs, v, 0) {
                    Some(i) => if 0 <= i < bs.len() {
                        eval_tree(defs, vars, bs[i].1, fuel)
                    } else {
                        Err(EvalError::MatchFailure)
                    },
                    None => eval_tree(defs, vars, *d, fuel),
                },
                None => Err(EvalError::TypeMismatch),
            },
            Err(err) => Err(err),
        },
    }
}

// ---------------------------------------------------------------------
// The evaluator.

/// The executable result agrees with the semantics.
pub open spec fn agrees<T>(r: Result<T, EvalError>, s: Result<EvalV, EvalError>, m: spec_fn(T) -> EvalV) -> bool {
    match r {
        Ok(v) => s == Ok::<EvalV, EvalError>(m(v)),
        Err(e) => s == Err::<EvalV, EvalError>(e),
    }
}

pub open spec fn prepend(p: Seq<EvalV>, r: Result<Seq<EvalV>, EvalError>) -> Result<Seq<EvalV>, EvalError> {
    match r {
        Ok(vs) => Ok(p + vs),
        Err(e) => Err(e),
    }
}

pub open spec fn values_model(v: Seq<Value>) -> Seq<EvalV> {
    Seq::new(v.len(), |i: int| v[i].model())
}

/// Definitions and the variables in scope.
pub struct Env {
    pub fn_definitions: Vec<FnDefinition>,
    pub variables: Vec<(String, Value)>,
}

/// The value `true` or `false` as an atom.
fn truth_value(b: bool) -> (r: Value)
    ensures
        r.model() == truth(b),
{
    proof {
        reveal_strlit("true");
        reveal_strlit("false");
    }
    if b {
        let r = Value::Atom(String::from_str("true"));
        assert(r.model()->Atom_0 =~= seq!['t', 'r', 'u', 'e']);
        r
    } else {
        let r = Value::Atom(String::from_str("false"));
        assert(r.model()->Atom_0 =~= seq!['f', 'a', 'l', 's', 'e']);
        r
    }
}

/// Structural equality of values; functions are never equal.
pub fn equality(x: &Value, y: &Value) -> (r: bool)
    ensures
        r == equal_values(x.model(), y.model()),
    decreases x,
{
    match (x, y) {
        (Value::Number(a), Value::Number(b)) => *a == *b,
        (Value::String(a), Value::String(b)) => a.eq(b),
        (Value::Atom(a), Value::Atom(b)) => a.eq(b),
        (Value::Tuple(a), Value::Tuple(b)) => {
            if a.len() != b.len() {
                return false;
            }
            let mut i: usize = 0;
            while i < a.len()
                invariant
                    *x == Value::Tuple(*a),
                    *y == Value::Tuple(*b),
                    a.len() == b.len(),
                    i <= a.len(),
                    forall|j: int| 0 <= j < i ==> equal_values((#[trigger] a[j]).model(), b[j].model()),
                decreases a.len() - i,
            {
                proof {
                    assert(decreases_to!(*x => x->Tuple_0));
                    assert(decreases_to!(x->Tuple_0 => x->Tuple_0@));
                    assert(decreases_to!(x->Tuple_0@ => x->Tuple_0@[i as int]));
                }
                if !equality(&a[i], &b[i]) {
                    assert(x.model()->Tuple_0[i as int] == a[i as int].model());
                    assert(y.model()->Tuple_0[i as int] == b[i as int].model());
                    return false;
                }
                i += 1;
            }
            assert forall|j: int| 0 <= j < x.model()->Tuple_0.len() implies equal_values(
                #[trigger] x.model()->Tuple_0[j],
                y.model()->Tuple_0[j],
            ) by {
                assert(x.model()->Tuple_0[j] == a[j].model());
                assert(y.model()->Tuple_0[j] == b[j].model());
            }
            true
        },
        (Value::Cons(h1, t1), Value::Cons(h2, t2)) => equality(h1, h2) && equality(t1, t2),
        (Value::Nil, Value::Nil) => true,
        _ => false,
    }
}

/// Applies a binary operation.
fn apply(op: Operation, a: Value, b: Value) -> (r: Result<Value, EvalError>)
    ensures
        agrees(r, binary(op, a.model(), b.model()), |v: Value| v.model()),
{
    if op == Operation::Equal {
        return Ok(truth_value(equality(&a, &b)));
    }
    match (a, b) {
        (Value::Number(x), Value::Number(y)) => {
            let r = match op {
                Operation::Add => x.checked_add(y),
                Operation::Sub => x.checked_sub(y),
                Operation::Mul => x.checked_mul(y),
                _ => x.checked_div(y),
            };
            match r {
                Some(n) => Ok(Value::Number(n)),
                None => Err(EvalError::Arithmetic),
            }
        },
        _ => Err(EvalError::TypeMismatch),
    }
}

/// Whether a value has the discriminator `c`.
fn has_cond(v: &Value, c: &Cond) -> (r: bool)
    ensures
        r == (econd(v.model()) == Some(c.model())),
{
    match (v, c) {
        (Value::Number(a), Cond::Number(b)) => *a == *b,
        (Value::String(a), Cond::String(b)) => a.eq(b),
        (Value::Atom(a), Cond::Atom(b)) => a.eq(b),
        (Value::Tuple(a), Cond::Tuple(n)) => a.len() == *n,
        (Value::Cons(..), Cond::Cons) => true,
        (Value::Nil, Cond::Nil) => true,
        _ => false,
    }
}

/// The sub-value one projection below `v`.
fn project_value(v: Value, a: Acc) -> (r: Option<Value>)
    ensures
        match eproject(v.model(), a) {
            Some(w) => r is Some && r->0.model() == w,
            None => r is None,
        },
{
    match (v, a) {
        (Value::Tuple(mut vs), Acc::Tup(i)) => {
            if i < vs.len() {
                let ghost m = vs@;
                let x = vs.remove(i);
                assert(x == m[i as int]);
                Some(x)
            } else {
                None
            }
        },
        (Value::Cons(h, _), Acc::Head) => Some(*h),
        (Value::Cons(_, t), Acc::Tail) => Some(*t),
        _ => None,
    }
}

/// A copy of the bindings.
fn copy_vars(vars: &Vec<(String, Value)>) -> (r: Vec<(String, Value)>)
    ensures
        vars_model(r@) == vars_model(vars@),
{
    let mut out: Vec<(String, Value)> = Vec::new();
    let mut i: usize = 0;
    while i < vars.len()
        invariant
            i <= vars.len(),
            out.len() == i,
            forall|j: int| 0 <= j < i ==> (#[trigger] out[j]).0@ == vars[j].0@ && out[j].1.model() == vars[j].1.model(),
        decreases vars.len() - i,
    {
        out.push((copy_string(&vars[i].0), vars[i].1.duplicate()));
        i += 1;
    }
    assert(vars_model(out@) =~= vars_model(vars@));
    out
}

impl Env {
    pub fn from_program(program: Program) -> (r: Env)
        ensures
            r.fn_definitions@ == program.definitions@,
            r.variables@.len() == 0,
    {
        Env { fn_definitions: program.definitions, variables: Vec::new() }
    }

    pub open spec fn defs(&self) -> Seq<DefM> {
        defs_model(self.fn_definitions@)
    }

    /// The value of a name: its latest binding, else the function it
    /// names.
    fn fetch(&self, vars: &Vec<(String, Value)>, name: &String) -> (r: Result<Value, EvalError>)
        ensures
            agrees(r, fetch_value(self.defs(), vars_model(vars@), name@), |v: Value| v.model()),
    {
        let ghost vm = vars_model(vars@);
        let mut i: usize = vars.len();
        assert(vm.take(i as int) =~= vm);
        while i > 0
            invariant
                i <= vars.len(),
                vm == vars_model(vars@),
                lookup_var(vm, name@) == lookup_var(vm.take(i as int), name@),
            decreases i,
        {
            assert(vm.take(i as int).drop_last() =~= vm.take(i - 1));
            i -= 1;
            if vars[i].0.eq(name) {
                return Ok(vars[i].1.duplicate());
            }
        }
        assert(vm.take(0) =~= seq![]);
        let ghost dm = self.defs();
        let mut j: usize = 0;
        while j < self.fn_definitions.len()
            invariant
                j <= self.fn_definitions.len(),
                dm == self.defs(),
                vm == vars_model(vars@),
                lookup_var(vm, name@) is None,
                lookup_def(dm, name@, 0) == lookup_def(dm, name@, j as int),
            decreases self.fn_definitions.len() - j,
        {
            let d = &self.fn_definitions[j];
            assert(dm[j as int] == d.def_model());
            if d.name.eq(name) {
                let params = copy_names(&d.parameters);
                let body = d.body.duplicate();
                assert(lookup_def(dm, name@, j as int) == Some(dm[j as int]));
                let r = Value::Function(params, Box::new(body));
                assert(r.model() == EvalV::Function(dm[j as int].params, dm[j as int].body));
                return Ok(r);
            }
            j += 1;
        }
        Err(EvalError::Unbound)
    }
}

impl Env {
    #[verifier::rlimit(100)]
    fn eval_in(&self, vars: &mut Vec<(String, Value)>, e: &Expression, fuel: usize) -> (r: Result<Value, EvalError>)
        ensures
            vars_model(final(vars)@) == vars_model(old(vars)@),
            agrees(r, eval_expr(self.defs(), vars_model(old(vars)@), e.model(), fuel as nat), |v: Value| v.model()),
        decreases fuel, *e,
    {
        let ghost vm = vars_model(vars@);
        match e {
            Expression::Variable { name } => self.fetch(vars, name),
            Expression::Number { value } => Ok(Value::Number(*value)),
            Expression::Atom { value } => Ok(Value::Atom(copy_string(value))),
            Expression::String { value } => Ok(Value::String(copy_string(value))),
            Expression::Let { bind, value, next } => {
                let x = self.eval_in(vars, value, fuel)?;
                let ghost xm = x.model();
                vars.push((copy_string(bind), x));
                assert(vars_model(vars@) =~= vm.push((bind@, xm)));
                let r = self.eval_in(vars, next, fuel);
                let ghost inner = vars@;
                vars.pop();
                proof {
                    lemma_vars_model_drop_last(inner);
                }
                r
            },
            Expression::Match { tree, actions } => {
                proof {
                    assert(decreases_to!(*e => e->tree));
                }
                let i = self.eval_tree_in(vars, tree, fuel)?;
                if i < actions.len() {
                    proof {
                        assert(decreases_to!(*e => e->actions));
                        assert(decreases_to!(e->actions => e->actions@));
                        assert(decreases_to!(e->actions@ => e->actions@[i as int]));
                        assert(e.model()->Match_1[i as int] == actions[i as int].model());
                    }
                    self.eval_in(vars, &actions[i], fuel)
                } else {
                    Err(EvalError::NoAction)
                }
            },
            Expression::Tuple { elements } => {
                proof {
                    assert(decreases_to!(*e => e->Tuple_elements));
                    assert(e.model()->Tuple_0 =~= exprs_model_of(elements@));
                }
                let vs = self.eval_list_in(vars, elements, fuel)?;
                let r = Value::Tuple(vs);
                assert(r.model()->Tuple_0 =~= values_model(vs@));
                Ok(r)
            },
            Expression::Binary { op, lhs, rhs } => {
                let a = self.eval_in(vars, lhs, fuel)?;
                let b = self.eval_in(vars, rhs, fuel)?;
                apply(*op, a, b)
            },
            Expression::Call { callee, arguments } => {
                let f = self.eval_in(vars, callee, fuel)?;
                match f {
                    Value::Function(ps, body) => {
                        proof {
                            assert(decreases_to!(*e => e->arguments));
                            assert(e.model()->Call_1 =~= exprs_model_of(arguments@));
                        }
                        let vs = self.eval_list_in(vars, arguments, fuel)?;
                        if fuel == 0 {
                            return Err(EvalError::OutOfFuel);
                        }
                        let mut inner = copy_vars(vars);
                        let ghost im = vars_model(inner@);
                        let n = if ps.len() < vs.len() {
                            ps.len()
                        } else {
                            vs.len()
                        };
                        let mut k: usize = 0;
                        while k < n
                            invariant
                                k <= n,
                                n <= ps.len(),
                                n <= vs.len(),
                                vars_model(inner@) == im + Seq::new(k as nat, |t: int| (ps[t]@, vs[t].model())),
                            decreases n - k,
                        {
                            let ghost old_inner = inner@;
                            let name = copy_string(&ps[k]);
                            let val = vs[k].duplicate();
                            inner.push((name, val));
                            assert(vars_model(inner@) =~= vars_model(old_inner).push((ps[k as int]@, vs[k as int].model())));
                            assert(vars_model(inner@) =~= im + Seq::new((k + 1) as nat, |t: int| (ps[t]@, vs[t].model())));
                            k += 1;
                        }
                        assert(vars_model(inner@) =~= bind_args(vm, names_model(ps@), values_model(vs@)));
                        self.eval_in(&mut inner, &body, fuel - 1)
                    },
                    _ => Err(EvalError::TypeMismatch),
                }
            },
            Expression::If { condition, then_branch, else_branch } => {
                let c = self.eval_in(vars, condition, fuel)?;
                let t = truth_value(true);
                if equality(&c, &t) && is_atom(&c) {
                    self.eval_in(vars, then_branch, fuel)
                } else {
                    self.eval_in(vars, else_branch, fuel)
                }
            },
            Expression::Access { expr, idx } => {
                let v = self.eval_in(vars, expr, fuel)?;
                match project_value(v, *idx) {
                    Some(w) => Ok(w),
                    None => Err(EvalError::TypeMismatch),
                }
            },
            Expression::Cons { hd, tl } => {
                let a = self.eval_in(vars, hd, fuel)?;
                let b = self.eval_in(vars, tl, fuel)?;
                Ok(Value::Cons(Box::new(a), Box::new(b)))
            },
            Expression::Nil => Ok(Value::Nil),
        }
    }

    fn eval_list_in(&self, vars: &mut Vec<(String, Value)>, es: &Vec<Expression>, fuel: usize) -> (r: Result<Vec<Value>, EvalError>)
        ensures
            vars_model(final(vars)@) == vars_model(old(vars)@),
            match r {
                Ok(vs) => eval_list(self.defs(), vars_model(old(vars)@), exprs_model_of(es@), fuel as nat) == Ok::<Seq<EvalV>, EvalError>(values_model(vs@)),
                Err(err) => eval_list(self.defs(), vars_model(old(vars)@), exprs_model_of(es@), fuel as nat) == Err::<Seq<EvalV>, EvalError>(err),
            },
        decreases fuel, *es,
    {
        let ghost em = exprs_model_of(es@);
        let ghost vm = vars_model(vars@);
        let ghost dm = self.defs();
        let mut out: Vec<Value> = Vec::new();
        let mut i: usize = 0;
        assert(em.skip(0) =~= em);
        while i < es.len()
            invariant
                i <= es.len(),
                em == exprs_model_of(es@),
                vm == vars_model(vars@),
                vm == vars_model(old(vars)@),
                dm == self.defs(),
                eval_list(dm, vm, em, fuel as nat) == prepend(values_model(out@), eval_list(dm, vm, em.skip(i as int), fuel as nat)),
            decreases es.len() - i,
        {
            proof {
                assert(decreases_to!(*es => es@));
                assert(decreases_to!(es@ => es@[i as int]));
                assert(em.skip(i as int)[0] == es[i as int].model());
                assert(em.skip(i as int).drop_first() =~= em.skip(i + 1));
            }
            let ghost prev = values_model(out@);
            let v = self.eval_in(vars, &es[i], fuel)?;
            out.push(v);
            assert(values_model(out@) =~= prev + seq![v.model()]);
            proof {
                let rest = eval_list(dm, vm, em.skip(i + 1), fuel as nat);
                match rest {
                    Ok(vs) => {
                        assert(prev + (seq![v.model()] + vs) =~= (prev + seq![v.model()]) + vs);
                    },
                    Err(_) => {},
                }
            }
            i += 1;
        }
        assert(em.skip(i as int) =~= seq![]);
        assert(values_model(out@) + seq![] =~= values_model(out@));
        Ok(out)
    }

    fn eval_tree_in(&self, vars: &mut Vec<(String, Value)>, t: &Tree, fuel: usize) -> (r: Result<usize, EvalError>)
        ensures
            vars_model(final(vars)@) == vars_model(old(vars)@),
            match r {
                Ok(i) => eval_tree(self.defs(), vars_model(old(vars)@), t.model(), fuel as nat) == Ok::<nat, EvalError>(i as nat),
                Err(err) => eval_tree(self.defs(), vars_model(old(vars)@), t.model(), fuel as nat) == Err::<nat, EvalError>(err),
            },
        decreases fuel, *t,
    {
        match t {
            Tree::Failure => Err(EvalError::MatchFailure),
            Tree::Leaf(a) => Ok(*a),
            Tree::Switch(occ, bs, d) => {
                let ghost tm = t.model();
                proof {
                    assert(decreases_to!(*t => t->Switch_0));
                    assert(decreases_to!(t->Switch_0 => t->Switch_0.0));
                }
                assert(*t == Tree::Switch(*occ, *bs, *d));
                assert(tm->Switch_0 == occ.model());
                assert(tm->Switch_0.root == occ.0.model());
                assert(tm->Switch_0.path == occ.1@);
                let root = self.eval_in(vars, &occ.0, fuel)?;
                let ghost rm = root.model();
                let mut v = root;
                let mut k: usize = 0;
                while k < occ.1.len()
                    invariant
                        k <= occ.1.len(),
                        evalue_at(rm, occ.1@.take(k as int)) == Some(v.model()),
                        *t == Tree::Switch(*occ, *bs, *d),
                        tm == t.model(),
                        tm->Switch_0.path == occ.1@,
                        vars_model(vars@) == vars_model(old(vars)@),
                        eval_expr(self.defs(), vars_model(old(vars)@), tm->Switch_0.root, fuel as nat) == Ok::<EvalV, EvalError>(rm),
                    decreases occ.1.len() - k,
                {
                    assert(occ.1@.take(k + 1).drop_last() =~= occ.1@.take(k as int));
                    match project_value(v, occ.1[k]) {
                        Some(w) => {
                            v = w;
                        },
                        None => {
                            proof {
                                lemma_evalue_at_none(rm, occ.1@, (k + 1) as nat);
                                assert(occ.1@.take(occ.1@.len() as int) =~= occ.1@);
                            }
                            return Err(EvalError::TypeMismatch);
                        },
                    }
                    k += 1;
                }
                assert(occ.1@.take(k as int) =~= occ.1@);
                let ghost bm = tm->Switch_1;
                let mut j: usize = 0;
                while j < bs.len()
                    invariant
                        *t == Tree::Switch(*occ, *bs, *d),
                        tm == t.model(),
                        bm == tm->Switch_1,
                        j <= bs.len(),
                        vars_model(vars@) == vars_model(old(vars)@),
                        eval_expr(self.defs(), vars_model(old(vars)@), tm->Switch_0.root, fuel as nat) == Ok::<EvalV, EvalError>(rm),
                        evalue_at(rm, tm->Switch_0.path) == Some(v.model()),
                        eselect(bm, v.model(), 0) == eselect(bm, v.model(), j as int),
                    decreases bs.len() - j,
                {
                    assert(bm[j as int].0 == bs[j as int].0.model());
                    if has_cond(&v, &bs[j].0) {
                        proof {
                            assert(decreases_to!(*t => t->Switch_1));
                            assert(decreases_to!(t->Switch_1 => t->Switch_1@));
                            assert(decreases_to!(t->Switch_1@ => t->Switch_1@[j as int]));
                            assert(decreases_to!(t->Switch_1@[j as int] => t->Switch_1@[j as int].1));
                            assert(bm[j as int].1 == bs[j as int].1.model());
                        }
                        return self.eval_tree_in(vars, &bs[j].1, fuel);
                    }
                    j += 1;
                }
                proof {
                    assert(decreases_to!(*t => t->Switch_2));
                }
                self.eval_tree_in(vars, d, fuel)
            },
        }
    }

    /// Evaluates an expression in the environment, with at most `fuel`
    /// nested calls.
    pub fn eval(&mut self, expr: Expression, fuel: usize) -> (r: Result<Value, EvalError>)
        ensures
            final(self).fn_definitions == old(self).fn_definitions,
            vars_model(final(self).variables@) == vars_model(old(self).variables@),
            agrees(r, eval_expr(old(self).defs(), vars_model(old(self).variables@), expr.model(), fuel as nat), |v: Value| v.model()),
    {
        let mut vars: Vec<(String, Value)> = Vec::new();
        core::mem::swap(&mut vars, &mut self.variables);
        let r = self.eval_in(&mut vars, &expr, fuel);
        core::mem::swap(&mut vars, &mut self.variables);
        r
    }
}

impl Tree {
    /// The index of the action the tree selects in `env`.
    pub fn eval(&self, env: &mut Env, fuel: usize) -> (r: Result<usize, EvalError>)
        ensures
            final(env).fn_definitions == old(env).fn_definitions,
            vars_model(final(env).variables@) == vars_model(old(env).variables@),
            match r {
                Ok(i) => eval_tree(old(env).defs(), vars_model(old(env).variables@), self.model(), fuel as nat) == Ok::<nat, EvalError>(i as nat),
                Err(err) => eval_tree(old(env).defs(), vars_model(old(env).variables@), self.model(), fuel as nat) == Err::<nat, EvalError>(err),
            },
    {
        let mut vars: Vec<(String, Value)> = Vec::new();
        core::mem::swap(&mut vars, &mut env.variables);
        let r = env.eval_tree_in(&mut vars, self, fuel);
        core::mem::swap(&mut vars, &mut env.variables);
        r
    }
}

fn is_atom(v: &Value) -> (r: bool)
    ensures
        r == (v.model() is Atom),
{
    match v {
        Value::Atom(_) => true,
        _ => false,
    }
}

proof fn lemma_vars_model_drop_last(s: Seq<(String, Value)>)
    requires
        s.len() > 0,
    ensures
        vars_model(s.drop_last()) == vars_model(s).drop_last(),
{
    assert(vars_model(s.drop_last()) =~= vars_model(s).drop_last());
}

proof fn lemma_evalue_at_none(v: EvalV, path: Seq<Acc>, k: nat)
    requires
        k <= path.len(),
        evalue_at(v, path.take(k as int)) is None,
    ensures
        evalue_at(v, path) is None,
    decreases path.len() - k,
{
    if k < path.len() {
        assert(path.take(k as int + 1).drop_last() =~= path.take(k as int));
        lemma_evalue_at_none(v, path, k + 1);
    } else {
        assert(path.take(k as int) =~= path);
    }
}

} // verus!
