//! The desugared intermediate representation: expressions with embedded
//! decision trees, and the mathematical models that the contracts speak of.
use vstd::prelude::*;

pub mod expression;
pub mod fn_definition;
pub mod fresh;
pub mod pattern;
pub mod semantics;
pub mod program;

verus! {

/// One projection step out of a value: a tuple field, or the head or tail
/// of a cons cell.
#[derive(Clone, Copy, Debug, PartialEq, Eq, Structural)]
pub enum Acc {
    Tup(usize),
    Head,
    Tail,
}

#[derive(Clone, Copy, Debug, PartialEq, Eq, Structural)]
pub enum Operation {
    Add,
    Sub,
    Mul,
    Div,
    Equal,
}

pub type Expr = Box<Expression>;

#[derive(Debug)]
pub enum Expression {
    Variable { name: String },
    Number { value: i32 },
    Atom { value: String },
    String { value: String },
    Let { bind: String, value: Expr, next: Expr },
    Match { tree: Tree, actions: Vec<Expression> },
    Tuple { elements: Vec<Expression> },
    Binary { op: Operation, lhs: Expr, rhs: Expr },
    Call { callee: Expr, arguments: Vec<Expression> },
    If { condition: Expr, then_branch: Expr, else_branch: Expr },
    Access { expr: Expr, idx: Acc },
    Cons { hd: Expr, tl: Expr },
    Nil,
}

/// A decision tree: `Switch` reads the value at an occurrence, takes the
/// branch whose discriminator it has, and otherwise the default.
#[derive(Debug)]
pub enum Tree {
    Failure,
    Leaf(usize),
    Switch(Box<Occurrence>, Vec<(Cond, Tree)>, Box<Tree>),
}

/// What a runtime test can tell apart at one occurrence.
#[derive(Debug)]
pub enum Cond {
    Number(i32),
    String(String),
    Atom(String),
    Tuple(usize),
    Cons,
    Nil,
}

/// Where to read a sub-value: a root expression and a path of projections.
#[derive(Debug)]
pub struct Occurrence(pub Expression, pub Vec<Acc>);

#[derive(Debug)]
pub struct Arm {
    pub lhs: Pattern,
    pub rhs: Expr,
}

/// A pattern after desugaring; list patterns have become `Cons` / `Nil`.
#[derive(Debug)]
pub enum Pattern {
    Wildcard,
    Variable { name: String },
    Number { value: i32 },
    String { value: String },
    Atom { value: String },
    Tuple { elements: Vec<Pattern> },
    Cons { head: Box<Pattern>, tail: Box<Pattern> },
    Nil,
}

#[derive(Debug)]
pub struct FnDefinition {
    pub name: String,
    pub parameters: Vec<String>,
    pub body: Expr,
}

#[derive(Debug)]
pub struct Program {
    pub definitions: Vec<FnDefinition>,
}

/// Why a program could not be desugared.
#[derive(Debug)]
pub enum DesugarError {
    /// The clauses of function `name` disagree on their number of
    /// parameters: the first has `expected`, a later one `found`.
    Arity { name: String, expected: usize, found: usize },
    /// An arm of a `case` has `found` patterns for `expected` scrutinees.
    CaseArity { expected: usize, found: usize },
}

// ---------------------------------------------------------------------
// Mathematical models.

pub enum ExprM {
    Variable(Seq<char>),
    Number(i32),
    Atom(Seq<char>),
    Str(Seq<char>),
    Let(Seq<char>, Box<ExprM>, Box<ExprM>),
    Match(Box<TreeM>, Seq<ExprM>),
    Tuple(Seq<ExprM>),
    Binary(Operation, Box<ExprM>, Box<ExprM>),
    Call(Box<ExprM>, Seq<ExprM>),
    If(Box<ExprM>, Box<ExprM>, Box<ExprM>),
    Access(Box<ExprM>, Acc),
    Cons(Box<ExprM>, Box<ExprM>),
    Nil,
}

pub enum TreeM {
    Failure,
    Leaf(nat),
    Switch(OccM, Seq<(CondM, TreeM)>, Box<TreeM>),
}

pub enum CondM {
    Number(i32),
    Str(Seq<char>),
    Atom(Seq<char>),
    Tuple(nat),
    Cons,
    Nil,
}

pub struct OccM {
    pub root: ExprM,
    pub path: Seq<Acc>,
}

pub enum PatternM {
    Wildcard,
    Variable(Seq<char>),
    Number(i32),
    Str(Seq<char>),
    Atom(Seq<char>),
    Tuple(Seq<PatternM>),
    Cons(Box<PatternM>, Box<PatternM>),
    Nil,
}

impl Expression {
    pub open spec fn model(&self) -> ExprM
        decreases self,
    {
        match self {
            Expression::Variable { name } => ExprM::Variable(name@),
            Expression::Number { value } => ExprM::Number(*value),
            Expression::Atom { value } => ExprM::Atom(value@),
            Expression::String { value } => ExprM::Str(value@),
            Expression::Let { bind, value, next } => ExprM::Let(
                bind@,
                Box::new(value.model()),
                Box::new(next.model()),
            ),
            Expression::Match { tree, actions } => ExprM::Match(
                Box::new(tree.model()),
                Seq::new(
                    actions.len() as nat,
                    |i: int|
                        if 0 <= i < actions.len() {
                            actions[i].model()
                        } else {
                            ExprM::Nil
                        },
                ),
            ),
            Expression::Tuple { elements } => ExprM::Tuple(
                Seq::new(
                    elements.len() as nat,
                    |i: int|
                        if 0 <= i < elements.len() {
                            elements[i].model()
                        } else {
                            ExprM::Nil
                        },
                ),
            ),
            Expression::Binary { op, lhs, rhs } => ExprM::Binary(
                *op,
                Box::new(lhs.model()),
                Box::new(rhs.model()),
            ),
            Expression::Call { callee, arguments } => ExprM::Call(
                Box::new(callee.model()),
                Seq::new(
                    arguments.len() as nat,
                    |i: int|
                        if 0 <= i < arguments.len() {
                            arguments[i].model()
                        } else {
                            ExprM::Nil
                        },
                ),
            ),
            Expression::If { condition, then_branch, else_branch } => ExprM::If(
                Box::new(condition.model()),
                Box::new(then_branch.model()),
                Box::new(else_branch.model()),
            ),
            Expression::Access { expr, idx } => ExprM::Access(Box::new(expr.model()), *idx),
            Expression::Cons { hd, tl } => ExprM::Cons(Box::new(hd.model()), Box::new(tl.model())),
            Expression::Nil => ExprM::Nil,
        }
    }
}

impl Tree {
    pub open spec fn model(&self) -> TreeM
        decreases self,
    {
        match self {
            Tree::Failure => TreeM::Failure,
            Tree::Leaf(i) => TreeM::Leaf(*i as nat),
            Tree::Switch(occ, branches, default) => TreeM::Switch(
                occ.model(),
                Seq::new(
                    branches.len() as nat,
                    |i: int|
                        if 0 <= i < branches.len() {
                            (branches[i].0.model(), branches[i].1.model())
                        } else {
                            (CondM::Nil, TreeM::Failure)
                        },
                ),
                Box::new(default.model()),
            ),
        }
    }
}

impl Occurrence {
    pub open spec fn model(&self) -> OccM
        decreases self,
    {
        OccM { root: self.0.model(), path: self.1@ }
    }
}

impl Cond {
    pub open spec fn model(&self) -> CondM {
        match self {
            Cond::Number(n) => CondM::Number(*n),
            Cond::String(s) => CondM::Str(s@),
            Cond::Atom(a) => CondM::Atom(a@),
            Cond::Tuple(n) => CondM::Tuple(*n as nat),
            Cond::Cons => CondM::Cons,
            Cond::Nil => CondM::Nil,
        }
    }
}

impl Pattern {
    pub open spec fn model(&self) -> PatternM
        decreases self,
    {
        match self {
            Pattern::Wildcard => PatternM::Wildcard,
            Pattern::Variable { name } => PatternM::Variable(name@),
            Pattern::Number { value } => PatternM::Number(*value),
            Pattern::String { value } => PatternM::Str(value@),
            Pattern::Atom { value } => PatternM::Atom(value@),
            Pattern::Tuple { elements } => PatternM::Tuple(
                Seq::new(
                    elements.len() as nat,
                    |i: int|
                        if 0 <= i < elements.len() {
                            elements[i].model()
                        } else {
                            PatternM::Wildcard
                        },
                ),
            ),
            Pattern::Cons { head, tail } => PatternM::Cons(
                Box::new(head.model()),
                Box::new(tail.model()),
            ),
            Pattern::Nil => PatternM::Nil,
        }
    }
}

/// The expression that reads the value at `path` out of `root`: one
/// projection per step, innermost first.
pub open spec fn replay(root: ExprM, path: Seq<Acc>) -> ExprM
    decreases path.len(),
{
    if path.len() == 0 {
        root
    } else {
        ExprM::Access(Box::new(replay(root, path.drop_last())), path.last())
    }
}

/// A copy of each expression, in order.
pub fn duplicate_exprs(v: &Vec<Expression>) -> (r: Vec<Expression>)
    ensures
        r.len() == v.len(),
        forall|i: int| 0 <= i < v.len() ==> (#[trigger] r[i]).model() == v[i].model(),
    decreases v,
{
    let mut out: Vec<Expression> = Vec::new();
    let mut i: usize = 0;
    while i < v.len()
        invariant
            i <= v.len(),
            out.len() == i,
            forall|j: int| 0 <= j < i ==> (#[trigger] out[j]).model() == v[j].model(),
        decreases v.len() - i,
    {
        proof {
            assert(decreases_to!(*v => v@));
            assert(decreases_to!(v@ => v@[i as int]));
        }
        out.push(v[i].duplicate());
        i += 1;
    }
    out
}

/// A copy of each pattern, in order.
pub fn duplicate_patterns(v: &Vec<Pattern>) -> (r: Vec<Pattern>)
    ensures
        r.len() == v.len(),
        forall|i: int| 0 <= i < v.len() ==> (#[trigger] r[i]).model() == v[i].model(),
    decreases v,
{
    let mut out: Vec<Pattern> = Vec::new();
    let mut i: usize = 0;
    while i < v.len()
        invariant
            i <= v.len(),
            out.len() == i,
            forall|j: int| 0 <= j < i ==> (#[trigger] out[j]).model() == v[j].model(),
        decreases v.len() - i,
    {
        proof {
            assert(decreases_to!(*v => v@));
            assert(decreases_to!(v@ => v@[i as int]));
        }
        out.push(v[i].duplicate());
        i += 1;
    }
    out
}

/// A copy of a string, with the same characters.
pub fn copy_string(s: &String) -> (r: String)
    ensures
        r@ == s@,
{
    s.clone()
}

impl Expression {
    /// A copy of the expression, with the same model.
    pub fn duplicate(&self) -> (r: Expression)
        ensures
            r.model() == self.model(),
        decreases self,
    {
        match self {
            Expression::Variable { name } => Expression::Variable { name: copy_string(name) },
            Expression::Number { value } => Expression::Number { value: *value },
            Expression::Atom { value } => Expression::Atom { value: copy_string(value) },
            Expression::String { value } => Expression::String { value: copy_string(value) },
            Expression::Let { bind, value, next } => Expression::Let {
                bind: copy_string(bind),
                value: Box::new(value.duplicate()),
                next: Box::new(next.duplicate()),
            },
            Expression::Match { tree, actions } => {
                proof { assert(decreases_to!(*self => self->actions)); }
                let r = Expression::Match { tree: tree.duplicate(), actions: duplicate_exprs(actions) };
                assert(r.model()->Match_1 =~= self.model()->Match_1);
                r
            },
            Expression::Tuple { elements } => {
                proof { assert(decreases_to!(*self => self->elements)); }
                let r = Expression::Tuple { elements: duplicate_exprs(elements) };
                assert(r.model()->Tuple_0 =~= self.model()->Tuple_0);
                r
            },
            Expression::Binary { op, lhs, rhs } => Expression::Binary {
                op: *op,
                lhs: Box::new(lhs.duplicate()),
                rhs: Box::new(rhs.duplicate()),
            },
            Expression::Call { callee, arguments } => {
                proof { assert(decreases_to!(*self => self->arguments)); }
                let r = Expression::Call {
                    callee: Box::new(callee.duplicate()),
                    arguments: duplicate_exprs(arguments),
                };
                assert(r.model()->Call_1 =~= self.model()->Call_1);
                r
            },
            Expression::If { condition, then_branch, else_branch } => Expression::If {
                condition: Box::new(condition.duplicate()),
                then_branch: Box::new(then_branch.duplicate()),
                else_branch: Box::new(else_branch.duplicate()),
            },
            Expression::Access { expr, idx } => Expression::Access {
                expr: Box::new(expr.duplicate()),
                idx: *idx,
            },
            Expression::Cons { hd, tl } => Expression::Cons {
                hd: Box::new(hd.duplicate()),
                tl: Box::new(tl.duplicate()),
            },
            Expression::Nil => Expression::Nil,
        }
    }
}

impl Tree {
    /// A copy of the tree, with the same model.
    pub fn duplicate(&self) -> (r: Tree)
        ensures
            r.model() == self.model(),
        decreases self,
    {
        match self {
            Tree::Failure => Tree::Failure,
            Tree::Leaf(i) => Tree::Leaf(*i),
            Tree::Switch(occ, branches, default) => {
                let o = occ.duplicate();
                let mut out: Vec<(Cond, Tree)> = Vec::new();
                let mut i: usize = 0;
                while i < branches.len()
                    invariant
                        *self == Tree::Switch(*occ, *branches, *default),
                        i <= branches.len(),
                        out.len() == i,
                        forall|j: int|
                            0 <= j < i ==> (#[trigger] out[j]).0.model() == branches[j].0.model()
                                && out[j].1.model() == branches[j].1.model(),
                    decreases branches.len() - i,
                {
                    proof {
                        assert(decreases_to!(*self => self->1));
                        assert(decreases_to!(*branches => branches@));
                        assert(decreases_to!(branches@ => branches@[i as int]));
                        assert(decreases_to!(branches@[i as int] => branches@[i as int].1));
                    }
                    let c = branches[i].0.duplicate();
                    let t = branches[i].1.duplicate();
                    out.push((c, t));
                    i += 1;
                }
                let r = Tree::Switch(Box::new(o), out, Box::new(default.duplicate()));
                assert(r.model()->Switch_1 =~= self.model()->Switch_1);
                r
            },
        }
    }
}

impl Occurrence {
    /// A copy of the occurrence, with the same model.
    pub fn duplicate(&self) -> (r: Occurrence)
        ensures
            r.model() == self.model(),
        decreases self,
    {
        let mut path: Vec<Acc> = Vec::new();
        let mut i: usize = 0;
        while i < self.1.len()
            invariant
                i <= self.1.len(),
                path@ == self.1@.take(i as int),
            decreases self.1.len() - i,
        {
            path.push(self.1[i]);
            i += 1;
            assert(path@ =~= self.1@.take(i as int));
        }
        assert(path@ =~= self.1@);
        Occurrence(self.0.duplicate(), path)
    }

    /// The occurrence one tuple field further in.
    pub fn with_index(&self, idx: usize) -> (r: Self)
        ensures
            r.model() == (OccM { root: self.model().root, path: self.model().path.push(Acc::Tup(idx)) }),
    {
        self.with_step(Acc::Tup(idx))
    }

    /// The occurrence one projection further in.
    pub fn with_step(&self, step: Acc) -> (r: Self)
        ensures
            r.model() == (OccM { root: self.model().root, path: self.model().path.push(step) }),
    {
        let mut o = self.duplicate();
        o.1.push(step);
        o
    }

    /// The expression that reads this occurrence: the root, then one
    /// projection per step of the path.
    pub fn to_expression(self) -> (r: Expression)
        ensures
            r.model() == replay(self.model().root, self.model().path),
    {
        let Occurrence(root, path) = self;
        let mut acc = root;
        let mut i: usize = 0;
        while i < path.len()
            invariant
                i <= path.len(),
                acc.model() == replay(root.model(), path@.take(i as int)),
            decreases path.len() - i,
        {
            acc = Expression::Access { expr: Box::new(acc), idx: path[i] };
            i += 1;
            assert(path@.take(i as int).drop_last() =~= path@.take(i - 1));
        }
        assert(path@.take(i as int) =~= path@);
        acc
    }
}

impl Cond {
    /// A copy of the discriminator, with the same model.
    pub fn duplicate(&self) -> (r: Cond)
        ensures
            r.model() == self.model(),
    {
        match self {
            Cond::Number(n) => Cond::Number(*n),
            Cond::String(s) => Cond::String(copy_string(s)),
            Cond::Atom(a) => Cond::Atom(copy_string(a)),
            Cond::Tuple(n) => Cond::Tuple(*n),
            Cond::Cons => Cond::Cons,
            Cond::Nil => Cond::Nil,
        }
    }
}

impl Pattern {
    /// A copy of the pattern, with the same model.
    pub fn duplicate(&self) -> (r: Pattern)
        ensures
            r.model() == self.model(),
        decreases self,
    {
        match self {
            Pattern::Wildcard => Pattern::Wildcard,
            Pattern::Variable { name } => Pattern::Variable { name: copy_string(name) },
            Pattern::Number { value } => Pattern::Number { value: *value },
            Pattern::String { value } => Pattern::String { value: copy_string(value) },
            Pattern::Atom { value } => Pattern::Atom { value: copy_string(value) },
            Pattern::Tuple { elements } => {
                proof { assert(decreases_to!(*self => self->elements)); }
                let r = Pattern::Tuple { elements: duplicate_patterns(elements) };
                assert(r.model()->Tuple_0 =~= self.model()->Tuple_0);
                r
            },
            Pattern::Cons { head, tail } => Pattern::Cons {
                head: Box::new(head.duplicate()),
                tail: Box::new(tail.duplicate()),
            },
            Pattern::Nil => Pattern::Nil,
        }
    }
}

} // verus!
