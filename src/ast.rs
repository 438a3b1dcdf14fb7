//! The surface syntax tree that the parser produces.
use vstd::prelude::*;

verus! {

pub type Expr = Box<Expression>;

#[derive(Debug)]
pub enum Expression {
    Variable { name: String },
    Number { value: i32 },
    Atom { value: String },
    String { value: String },
    Let { bind: String, value: Expr, next: Expr },
    Match { scrutinee: Vec<Expression>, arms: Vec<Arm> },
    Tuple { elements: Vec<Expression> },
    Binary { op: Operation, lhs: Expr, rhs: Expr },
    Call { callee: Expr, arguments: Vec<Expression> },
    If { condition: Expr, then_branch: Expr, else_branch: Expr },
    List { elements: Vec<Expression> },
}

#[derive(Clone, Copy, Debug, PartialEq, Eq, Structural)]
pub enum Operation {
    Add,
    Sub,
    Mul,
    Div,
    Equal,
}

/// One arm of a `case`: a pattern per scrutinee and the arm's body.
#[derive(Debug)]
pub struct Arm {
    pub lhs: Vec<Pattern>,
    pub rhs: Expr,
}

#[derive(Debug)]
pub enum Pattern {
    Wildcard,
    Variable { name: String },
    Number { value: i32 },
    String { value: String },
    Atom { value: String },
    Tuple { elements: Vec<Pattern> },
    /// `[a, b, ...]`, or `[a, b, ... | tail]` with a tail pattern.
    List { elements: Vec<Pattern>, tail: Option<Box<Pattern>> },
}

impl Default for Pattern {
    fn default() -> (r: Self)
        ensures
            r is Wildcard,
    {
        Pattern::Wildcard
    }
}

#[derive(Debug)]
pub struct FnDefinition {
    pub name: String,
    pub clauses: Vec<FnClause>,
}

#[derive(Debug)]
pub struct FnClause {
    pub patterns: Vec<Pattern>,
    pub body: Expr,
}

#[derive(Debug)]
pub struct Program {
    pub definitions: Vec<FnDefinition>,
}

} // verus!
