//! Desugaring of surface expressions and patterns.
use vstd::prelude::*;

use crate::ast;

use super::pattern::{compiled_case, Problem, patterns_model_of, pattern_rows_model, exprs_model_of};
use super::{DesugarError, ExprM, Expression, Operation, Pattern, PatternM};

verus! {

/// `[a, b, ...]` as nested cons expressions ending in nil.
pub open spec fn cons_expr(es: Seq<ExprM>) -> ExprM
    decreases es.len(),
{
    if es.len() == 0 {
        ExprM::Nil
    } else {
        ExprM::Cons(Box::new(es[0]), Box::new(cons_expr(es.drop_first())))
    }
}

/// The patterns `ps` as nested cons patterns ending in `end`.
pub open spec fn list_pattern(ps: Seq<ast::Pattern>, end: PatternM) -> PatternM
    decreases ps,
{
    if ps.len() == 0 {
        end
    } else {
        PatternM::Cons(Box::new(ps[0].lowered()), Box::new(list_pattern(ps.drop_first(), end)))
    }
}

impl ast::Operation {
    pub open spec fn lowered(self) -> Operation {
        match self {
            ast::Operation::Add => Operation::Add,
            ast::Operation::Sub => Operation::Sub,
            ast::Operation::Mul => Operation::Mul,
            ast::Operation::Div => Operation::Div,
            ast::Operation::Equal => Operation::Equal,
        }
    }

    pub fn desugar(self) -> (r: Operation)
        ensures
            r == self.lowered(),
    {
        match self {
            ast::Operation::Add => Operation::Add,
            ast::Operation::Sub => Operation::Sub,
            ast::Operation::Mul => Operation::Mul,
            ast::Operation::Div => Operation::Div,
            ast::Operation::Equal => Operation::Equal,
        }
    }
}

impl ast::Pattern {
    /// The model of the desugared pattern: lists become cons cells ending
    /// in the tail pattern, or in nil.
    pub open spec fn lowered(&self) -> PatternM
        decreases self,
    {
        match self {
            ast::Pattern::Wildcard => PatternM::Wildcard,
            ast::Pattern::Variable { name } => PatternM::Variable(name@),
            ast::Pattern::Number { value } => PatternM::Number(*value),
            ast::Pattern::String { value } => PatternM::Str(value@),
            ast::Pattern::Atom { value } => PatternM::Atom(value@),
            ast::Pattern::Tuple { elements } => PatternM::Tuple(
                Seq::new(
                    elements.len() as nat,
                    |i: int|
                        if 0 <= i < elements.len() {
                            elements[i].lowered()
                        } else {
                            PatternM::Wildcard
                        },
                ),
            ),
            ast::Pattern::List { elements, tail } => list_pattern(
                elements@,
                match tail {
                    Some(t) => t.lowered(),
                    None => PatternM::Nil,
                },
            ),
        }
    }

    pub fn desugar(self) -> (r: Pattern)
        ensures
            r.model() == self.lowered(),
        decreases self,
    {
        let ghost me = self;
        match self {
            ast::Pattern::Wildcard => Pattern::Wildcard,
            ast::Pattern::Variable { name } => Pattern::Variable { name },
            ast::Pattern::Number { value } => Pattern::Number { value },
            ast::Pattern::String { value } => Pattern::String { value },
            ast::Pattern::Atom { value } => Pattern::Atom { value },
            ast::Pattern::Tuple { elements } => {
                let ghost orig = elements@;
                let n = elements.len();
                let mut rest = elements;
                let mut out: Vec<Pattern> = Vec::new();
                let mut i: usize = 0;
                while i < n
                    invariant
                        me == self,
                        me == (ast::Pattern::Tuple { elements: me->Tuple_elements }),
                        orig == me->Tuple_elements@,
                        n == orig.len(),
                        i <= n,
                        rest@ == orig.subrange(i as int, n as int),
                        out.len() == i,
                        forall|j: int| 0 <= j < i ==> (#[trigger] out[j]).model() == orig[j].lowered(),
                    decreases n - i,
                {
                    proof {
                        assert(decreases_to!(me => me->Tuple_elements));
                        assert(decreases_to!(me->Tuple_elements => me->Tuple_elements@));
                        assert(decreases_to!(me->Tuple_elements@ => me->Tuple_elements@[i as int]));
                        assert(rest@[0] == orig[i as int]);
                    }
                    let p = rest.remove(0);
                    out.push(p.desugar());
                    i += 1;
                    assert(rest@ =~= orig.subrange(i as int, n as int));
                }
                let r = Pattern::Tuple { elements: out };
                assert(r.model()->Tuple_0 =~= me.lowered()->Tuple_0);
                r
            },
            ast::Pattern::List { elements, tail } => {
                let ghost orig = elements@;
                let ghost end = match me->List_tail {
                    Some(t) => t.lowered(),
                    None => PatternM::Nil,
                };
                let mut acc = match tail {
                    Some(t) => {
                        proof {
                            assert(decreases_to!(me => me->List_tail));
                        }
                        t.desugar()
                    },
                    None => Pattern::Nil,
                };
                let mut rest = elements;
                assert(orig.subrange(orig.len() as int, orig.len() as int) =~= seq![]);
                while rest.len() > 0
                    invariant
                        me == self,
                        me == (ast::Pattern::List { elements: me->List_elements, tail: me->List_tail }),
                        orig == me->List_elements@,
                        rest.len() <= orig.len(),
                        end == match me->List_tail {
                            Some(t) => t.lowered(),
                            None => PatternM::Nil,
                        },
                        rest@ == orig.subrange(0, rest.len() as int),
                        acc.model() == list_pattern(orig.subrange(rest.len() as int, orig.len() as int), end),
                    decreases rest.len(),
                {
                    let k = rest.len() - 1;
                    proof {
                        assert(decreases_to!(me => me->List_elements));
                        assert(decreases_to!(me->List_elements => me->List_elements@));
                        assert(decreases_to!(me->List_elements@ => me->List_elements@[k as int]));
                        assert(rest@[k as int] == orig[k as int]);
                    }
                    let p = rest.pop().unwrap();
                    let h = p.desugar();
                    let ghost prev = orig.subrange(k + 1, orig.len() as int);
                    acc = Pattern::Cons { head: Box::new(h), tail: Box::new(acc) };
                    assert(orig.subrange(k as int, orig.len() as int).drop_first() =~= prev);
                    assert(rest@ =~= orig.subrange(0, rest.len() as int));
                }
                assert(orig.subrange(0, orig.len() as int) =~= orig);
                acc
            },
        }
    }
}

/// The desugared models of a sequence of patterns.
pub open spec fn patterns_lowered(ps: Seq<ast::Pattern>) -> Seq<PatternM>
    decreases ps.len(),
{
    if ps.len() == 0 {
        seq![]
    } else {
        seq![ps[0].lowered()] + patterns_lowered(ps.drop_first())
    }
}

/// The desugared models of a sequence of expressions.
pub open spec fn exprs_lowered(es: Seq<ast::Expression>) -> Seq<ExprM>
    decreases es,
{
    if es.len() == 0 {
        seq![]
    } else {
        seq![es[0].lowered()] + exprs_lowered(es.drop_first())
    }
}

/// Every expression of the sequence desugars.
pub open spec fn exprs_ok(es: Seq<ast::Expression>) -> bool
    decreases es,
{
    es.len() == 0 || (es[0].ok() && exprs_ok(es.drop_first()))
}

/// The pattern rows of a sequence of arms.
pub open spec fn arms_patterns(arms: Seq<ast::Arm>) -> Seq<Seq<PatternM>>
    decreases arms.len(),
{
    if arms.len() == 0 {
        seq![]
    } else {
        seq![patterns_lowered(arms[0].lhs@)] + arms_patterns(arms.drop_first())
    }
}

/// The desugared bodies of a sequence of arms.
pub open spec fn arms_rhs(arms: Seq<ast::Arm>) -> Seq<ExprM>
    decreases arms,
{
    if arms.len() == 0 {
        seq![]
    } else {
        seq![arms[0].rhs.lowered()] + arms_rhs(arms.drop_first())
    }
}

/// Every arm has `n` patterns and a body that desugars.
pub open spec fn arms_ok(arms: Seq<ast::Arm>, n: nat) -> bool
    decreases arms,
{
    arms.len() == 0 || (arms[0].lhs.len() == n && arms[0].rhs.ok() && arms_ok(arms.drop_first(), n))
}

impl ast::Expression {
    /// The expression desugars: every `case` arm has one pattern per
    /// scrutinee.
    pub open spec fn ok(&self) -> bool
        decreases self,
    {
        match self {
            ast::Expression::Let { value, next, .. } => value.ok() && next.ok(),
            ast::Expression::Match { scrutinee, arms } => exprs_ok(scrutinee@) && arms_ok(
                arms@,
                scrutinee.len() as nat,
            ),
            ast::Expression::Tuple { elements } => exprs_ok(elements@),
            ast::Expression::Binary { lhs, rhs, .. } => lhs.ok() && rhs.ok(),
            ast::Expression::Call { callee, arguments } => callee.ok() && exprs_ok(arguments@),
            ast::Expression::If { condition, then_branch, else_branch } => condition.ok()
                && then_branch.ok() && else_branch.ok(),
            ast::Expression::List { elements } => exprs_ok(elements@),
            _ => true,
        }
    }

    /// The model of the desugared expression: `case` becomes a decision
    /// tree over its scrutinees, a list literal nested cons cells.
    pub open spec fn lowered(&self) -> ExprM
        decreases self,
    {
        match self {
            ast::Expression::Variable { name } => ExprM::Variable(name@),
            ast::Expression::Number { value } => ExprM::Number(*value),
            ast::Expression::Atom { value } => ExprM::Atom(value@),
            ast::Expression::String { value } => ExprM::Str(value@),
            ast::Expression::Let { bind, value, next } => ExprM::Let(
                bind@,
                Box::new(value.lowered()),
                Box::new(next.lowered()),
            ),
            ast::Expression::Match { scrutinee, arms } => compiled_case(
                exprs_lowered(scrutinee@),
                arms_patterns(arms@),
                arms_rhs(arms@),
            ),
            ast::Expression::Tuple { elements } => ExprM::Tuple(exprs_lowered(elements@)),
            ast::Expression::Binary { op, lhs, rhs } => ExprM::Binary(
                op.lowered(),
                Box::new(lhs.lowered()),
                Box::new(rhs.lowered()),
            ),
            ast::Expression::Call { callee, arguments } => ExprM::Call(
                Box::new(callee.lowered()),
                exprs_lowered(arguments@),
            ),
            ast::Expression::If { condition, then_branch, else_branch } => ExprM::If(
                Box::new(condition.lowered()),
                Box::new(then_branch.lowered()),
                Box::new(else_branch.lowered()),
            ),
            ast::Expression::List { elements } => cons_expr(exprs_lowered(elements@)),
        }
    }
}

/// Desugars each pattern, in order.
pub fn desugar_patterns(v: Vec<ast::Pattern>) -> (r: Vec<Pattern>)
    ensures
        r.len() == v.len(),
        patterns_model_of(r@) == patterns_lowered(v@),
{
    let ghost orig = v@;
    let mut rest = v;
    let mut out: Vec<Pattern> = Vec::new();
    while rest.len() > 0
        invariant
            out.len() + rest.len() == orig.len(),
            rest@ == orig.subrange(out.len() as int, orig.len() as int),
            patterns_model_of(out@) + patterns_lowered(rest@) == patterns_lowered(orig),
        decreases rest.len(),
    {
        let ghost before = rest@;
        let p = rest.remove(0);
        let ghost pm = patterns_model_of(out@);
        out.push(p.desugar());
        assert(rest@ =~= before.drop_first());
        assert(patterns_model_of(out@) =~= pm + seq![p.lowered()]);
        assert(pm + patterns_lowered(before) == pm + (seq![p.lowered()] + patterns_lowered(rest@)));
        assert(pm + (seq![p.lowered()] + patterns_lowered(rest@)) =~= (pm + seq![p.lowered()]) + patterns_lowered(rest@));
        assert(rest@ =~= orig.subrange(out.len() as int, orig.len() as int));
    }
    assert(patterns_model_of(out@) + patterns_lowered(rest@) =~= patterns_model_of(out@));
    out
}

/// Desugars each expression, in order; fails when one does.
pub fn desugar_exprs(v: Vec<ast::Expression>) -> (r: Result<Vec<Expression>, DesugarError>)
    ensures
        r is Ok <==> exprs_ok(v@),
        r is Ok ==> exprs_model_of(r->Ok_0@) == exprs_lowered(v@),
        r is Ok ==> r->Ok_0.len() == v.len(),
        r is Err ==> r->Err_0 is CaseArity,
    decreases v,
{
    let ghost orig = v@;
    let ghost whole = v;
    let mut rest = v;
    let mut out: Vec<Expression> = Vec::new();
    while rest.len() > 0
        invariant
            whole == v,
            whole@ == orig,
            out.len() + rest.len() == orig.len(),
            rest@ == orig.subrange(out.len() as int, orig.len() as int),
            exprs_ok(orig) == exprs_ok(rest@),
            exprs_model_of(out@) + exprs_lowered(rest@) == exprs_lowered(orig),
        decreases rest.len(),
    {
        let ghost before = rest@;
        let ghost k = out.len() as int;
        proof {
            assert(decreases_to!(whole => whole@));
            assert(decreases_to!(whole@ => whole@[k]));
            assert(before[0] == orig[k]);
        }
        let e = rest.remove(0);
        assert(rest@ =~= before.drop_first());
        assert(e == whole@[k]);
        let ghost em = e.lowered();
        assert(exprs_ok(before) == (e.ok() && exprs_ok(rest@)));
        let d = match e.desugar() {
            Ok(d) => d,
            Err(err) => return Err(err),
        };
        let ghost pm = exprs_model_of(out@);
        out.push(d);
        assert(exprs_model_of(out@) =~= pm + seq![em]);
        assert(pm + (seq![em] + exprs_lowered(rest@)) =~= (pm + seq![em]) + exprs_lowered(rest@));
        assert(rest@ =~= orig.subrange(out.len() as int, orig.len() as int));
    }
    assert(exprs_model_of(out@) + exprs_lowered(rest@) =~= exprs_model_of(out@));
    Ok(out)
}

impl ast::Expression {
    /// Desugars the expression: each `case` becomes a decision tree, each
    /// list literal nested cons cells. Fails with `CaseArity` when an arm
    /// of a `case` does not have one pattern per scrutinee.
    pub fn desugar(self) -> (r: Result<Expression, DesugarError>)
        ensures
            r is Ok <==> self.ok(),
            r is Ok ==> r->Ok_0.model() == self.lowered(),
            r is Err ==> r->Err_0 is CaseArity,
        decreases self,
    {
        let ghost me = self;
        match self {
            ast::Expression::Variable { name } => Ok(Expression::Variable { name }),
            ast::Expression::Number { value } => Ok(Expression::Number { value }),
            ast::Expression::Atom { value } => Ok(Expression::Atom { value }),
            ast::Expression::String { value } => Ok(Expression::String { value }),
            ast::Expression::Let { bind, value, next } => {
                let v = value.desugar();
                let n = next.desugar();
                match (v, n) {
                    (Ok(v), Ok(n)) => Ok(Expression::Let { bind, value: Box::new(v), next: Box::new(n) }),
                    (Err(e), _) => Err(e),
                    (_, Err(e)) => Err(e),
                }
            },
            ast::Expression::Match { scrutinee, arms } => {
                let n = scrutinee.len();
                proof {
                    assert(decreases_to!(me => me->scrutinee));
                }
                let scrutinee = desugar_exprs(scrutinee)?;
                let ghost orig = arms@;
                let mut rest = arms;
                let mut patterns: Vec<Vec<Pattern>> = Vec::new();
                let mut actions: Vec<Expression> = Vec::new();
                while rest.len() > 0
                    invariant
                        me == self,
                        me == (ast::Expression::Match { scrutinee: me->scrutinee, arms: me->arms }),
                        orig == me->arms@,
                        n == me->scrutinee.len(),
                        patterns.len() == actions.len(),
                        patterns.len() + rest.len() == orig.len(),
                        rest@ == orig.subrange(patterns.len() as int, orig.len() as int),
                        arms_ok(orig, n as nat) == arms_ok(rest@, n as nat),
                        pattern_rows_model(patterns@) + arms_patterns(rest@) == arms_patterns(orig),
                        exprs_model_of(actions@) + arms_rhs(rest@) == arms_rhs(orig),
                        forall|i: int| 0 <= i < patterns.len() ==> (#[trigger] patterns[i]).len() == n,
                    decreases rest.len(),
                {
                    let ghost before = rest@;
                    let ghost k = patterns.len() as int;
                    proof {
                        assert(decreases_to!(me => me->arms));
                        assert(decreases_to!(me->arms => me->arms@));
                        assert(decreases_to!(me->arms@ => me->arms@[k]));
                        assert(decreases_to!(me->arms@[k] => me->arms@[k].rhs));
                        assert(before[0] == orig[k]);
                    }
                    let arm = rest.remove(0);
                    assert(rest@ =~= before.drop_first());
                    let ast::Arm { lhs, rhs } = arm;
                    if lhs.len() != n {
                        return Err(DesugarError::CaseArity { expected: n, found: lhs.len() });
                    }
                    let ghost rm = rhs.lowered();
                    let ghost lm = patterns_lowered(lhs@);
                    let action = rhs.desugar()?;
                    let pats = desugar_patterns(lhs);
                    let ghost pr = pattern_rows_model(patterns@);
                    let ghost am = exprs_model_of(actions@);
                    patterns.push(pats);
                    actions.push(action);
                    assert(pattern_rows_model(patterns@) =~= pr + seq![lm]);
                    assert(exprs_model_of(actions@) =~= am + seq![rm]);
                    assert(pr + (seq![lm] + arms_patterns(rest@)) =~= (pr + seq![lm]) + arms_patterns(rest@));
                    assert(am + (seq![rm] + arms_rhs(rest@)) =~= (am + seq![rm]) + arms_rhs(rest@));
                    assert(rest@ =~= orig.subrange(patterns.len() as int, orig.len() as int));
                }
                assert(pattern_rows_model(patterns@) + arms_patterns(rest@) =~= pattern_rows_model(patterns@));
                assert(exprs_model_of(actions@) + arms_rhs(rest@) =~= exprs_model_of(actions@));
                Ok(Problem::compile(scrutinee, patterns, actions))
            },
            ast::Expression::Tuple { elements } => {
                proof {
                    assert(decreases_to!(me => me->Tuple_elements));
                }
                let elements = desugar_exprs(elements)?;
                let r = Expression::Tuple { elements };
                assert(r.model()->Tuple_0 =~= me.lowered()->Tuple_0);
                Ok(r)
            },
            ast::Expression::Binary { op, lhs, rhs } => {
                let l = lhs.desugar();
                let r = rhs.desugar();
                match (l, r) {
                    (Ok(l), Ok(r)) => Ok(Expression::Binary { op: op.desugar(), lhs: Box::new(l), rhs: Box::new(r) }),
                    (Err(e), _) => Err(e),
                    (_, Err(e)) => Err(e),
                }
            },
            ast::Expression::Call { callee, arguments } => {
                proof {
                    assert(decreases_to!(me => me->arguments));
                }
                let c = callee.desugar();
                let a = desugar_exprs(arguments);
                match (c, a) {
                    (Ok(c), Ok(a)) => {
                        let r = Expression::Call { callee: Box::new(c), arguments: a };
                        assert(r.model()->Call_1 =~= me.lowered()->Call_1);
                        Ok(r)
                    },
                    (Err(e), _) => Err(e),
                    (_, Err(e)) => Err(e),
                }
            },
            ast::Expression::If { condition, then_branch, else_branch } => {
                let c = condition.desugar();
                let t = then_branch.desugar();
                let f = else_branch.desugar();
                match (c, t, f) {
                    (Ok(c), Ok(t), Ok(f)) => Ok(Expression::If {
                        condition: Box::new(c),
                        then_branch: Box::new(t),
                        else_branch: Box::new(f),
                    }),
                    (Err(e), _, _) => Err(e),
                    (_, Err(e), _) => Err(e),
                    (_, _, Err(e)) => Err(e),
                }
            },
            ast::Expression::List { elements } => {
                proof {
                    assert(decreases_to!(me => me->List_elements));
                }
                let mut items = desugar_exprs(elements)?;
                let ghost es = exprs_model_of(items@);
                let mut acc = Expression::Nil;
                assert(es.subrange(es.len() as int, es.len() as int) =~= seq![]);
                while items.len() > 0
                    invariant
                        items.len() <= es.len(),
                        forall|i: int| 0 <= i < items.len() ==> (#[trigger] items[i]).model() == es[i],
                        acc.model() == cons_expr(es.subrange(items.len() as int, es.len() as int)),
                    decreases items.len(),
                {
                    let k = items.len() - 1;
                    let ghost prev = es.subrange(k + 1, es.len() as int);
                    let h = items.pop().unwrap();
                    acc = Expression::Cons { hd: Box::new(h), tl: Box::new(acc) };
                    assert(es.subrange(k as int, es.len() as int).drop_first() =~= prev);
                }
                assert(es.subrange(0, es.len() as int) =~= es);
                Ok(acc)
            },
        }
    }
}

} // verus!
