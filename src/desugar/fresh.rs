//! The length of the longest name in expressions and patterns, so that
//! generated names can be made longer than all of them.
use vstd::prelude::*;

use super::{ExprM, Expression, Pattern, PatternM, Tree, TreeM, CondM};

verus! {

pub open spec fn max_nat(a: nat, b: nat) -> nat {
    if a < b {
        b
    } else {
        a
    }
}

/// The length of the longest variable or `let` name in an expression,
/// including the roots its decision trees read.
pub open spec fn expr_name_len(e: ExprM) -> nat
    decreases e,
{
    match e {
        ExprM::Variable(n) => n.len(),
        ExprM::Let(b, v, x) => max_nat(b.len(), max_nat(expr_name_len(*v), expr_name_len(*x))),
        ExprM::Match(t, acts) => max_nat(tree_name_len(*t), exprs_name_len(acts)),
        ExprM::Tuple(es) => exprs_name_len(es),
        ExprM::Binary(_, l, r) => max_nat(expr_name_len(*l), expr_name_len(*r)),
        ExprM::Call(c, args) => max_nat(expr_name_len(*c), exprs_name_len(args)),
        ExprM::If(c, t, f) => max_nat(expr_name_len(*c), max_nat(expr_name_len(*t), expr_name_len(*f))),
        ExprM::Access(x, _) => expr_name_len(*x),
        ExprM::Cons(h, t) => max_nat(expr_name_len(*h), expr_name_len(*t)),
        _ => 0,
    }
}

pub open spec fn exprs_name_len(es: Seq<ExprM>) -> nat
    decreases es,
{
    if es.len() == 0 {
        0
    } else {
        max_nat(exprs_name_len(es.drop_last()), expr_name_len(es.last()))
    }
}

pub open spec fn tree_name_len(t: TreeM) -> nat
    decreases t,
{
    match t {
        TreeM::Switch(o, bs, d) => max_nat(expr_name_len(o.root), max_nat(branches_name_len(bs), tree_name_len(*d))),
        _ => 0,
    }
}

pub open spec fn branches_name_len(bs: Seq<(CondM, TreeM)>) -> nat
    decreases bs,
{
    if bs.len() == 0 {
        0
    } else {
        max_nat(branches_name_len(bs.drop_last()), tree_name_len(bs.last().1))
    }
}

/// The length of the longest variable name in a pattern.
pub open spec fn pattern_name_len(p: PatternM) -> nat
    decreases p,
{
    match p {
        PatternM::Variable(n) => n.len(),
        PatternM::Tuple(ps) => patterns_name_len(ps),
        PatternM::Cons(h, t) => max_nat(pattern_name_len(*h), pattern_name_len(*t)),
        _ => 0,
    }
}

pub open spec fn patterns_name_len(ps: Seq<PatternM>) -> nat
    decreases ps,
{
    if ps.len() == 0 {
        0
    } else {
        max_nat(patterns_name_len(ps.drop_last()), pattern_name_len(ps.last()))
    }
}

pub open spec fn rows_name_len(pss: Seq<Seq<PatternM>>) -> nat
    decreases pss.len(),
{
    if pss.len() == 0 {
        0
    } else {
        max_nat(rows_name_len(pss.drop_last()), patterns_name_len(pss.last()))
    }
}

fn max_usize(a: usize, b: usize) -> (r: usize)
    ensures
        r as nat == max_nat(a as nat, b as nat),
{
    if a < b {
        b
    } else {
        a
    }
}

/// The length of the longest name in an expression.
pub fn expr_names_len(e: &Expression) -> (r: usize)
    ensures
        r as nat == expr_name_len(e.model()),
    decreases e,
{
    match e {
        Expression::Variable { name } => name.as_str().unicode_len(),
        Expression::Let { bind, value, next } => {
            let a = expr_names_len(value);
            let b = expr_names_len(next);
            max_usize(bind.as_str().unicode_len(), max_usize(a, b))
        },
        Expression::Match { tree, actions } => {
            proof {
                assert(decreases_to!(*e => e->tree));
                assert(decreases_to!(*e => e->actions));
            }
            let a = tree_names_len(tree);
            let b = exprs_names_len(actions);
            assert(e.model()->Match_1 =~= Seq::new(actions.len() as nat, |i: int| actions[i].model()));
            max_usize(a, b)
        },
        Expression::Tuple { elements } => {
            proof {
                assert(decreases_to!(*e => e->Tuple_elements));
            }
            let b = exprs_names_len(elements);
            assert(e.model()->Tuple_0 =~= Seq::new(elements.len() as nat, |i: int| elements[i].model()));
            b
        },
        Expression::Binary { lhs, rhs, .. } => max_usize(expr_names_len(lhs), expr_names_len(rhs)),
        Expression::Call { callee, arguments } => {
            proof {
                assert(decreases_to!(*e => e->arguments));
            }
            let a = expr_names_len(callee);
            let b = exprs_names_len(arguments);
            assert(e.model()->Call_1 =~= Seq::new(arguments.len() as nat, |i: int| arguments[i].model()));
            max_usize(a, b)
        },
        Expression::If { condition, then_branch, else_branch } => {
            let a = expr_names_len(condition);
            let b = expr_names_len(then_branch);
            let c = expr_names_len(else_branch);
            max_usize(a, max_usize(b, c))
        },
        Expression::Access { expr, .. } => expr_names_len(expr),
        Expression::Cons { hd, tl } => max_usize(expr_names_len(hd), expr_names_len(tl)),
        _ => 0,
    }
}

/// The length of the longest name in a sequence of expressions.
pub fn exprs_names_len(es: &Vec<Expression>) -> (r: usize)
    ensures
        r as nat == exprs_name_len(Seq::new(es.len() as nat, |i: int| es[i].model())),
    decreases es,
{
    let ghost ms = Seq::new(es.len() as nat, |i: int| es[i].model());
    let mut r: usize = 0;
    let mut i: usize = 0;
    assert(ms.take(0) =~= seq![]);
    while i < es.len()
        invariant
            i <= es.len(),
            ms == Seq::new(es.len() as nat, |i: int| es[i].model()),
            r as nat == exprs_name_len(ms.take(i as int)),
        decreases es.len() - i,
    {
        proof {
            assert(decreases_to!(*es => es@));
            assert(decreases_to!(es@ => es@[i as int]));
            assert(ms.take(i + 1).drop_last() =~= ms.take(i as int));
        }
        r = max_usize(r, expr_names_len(&es[i]));
        i += 1;
    }
    assert(ms.take(i as int) =~= ms);
    r
}

/// The length of the longest name in a decision tree.
pub fn tree_names_len(t: &Tree) -> (r: usize)
    ensures
        r as nat == tree_name_len(t.model()),
    decreases t,
{
    match t {
        Tree::Switch(occ, bs, d) => {
            proof {
                assert(decreases_to!(*t => t->Switch_0));
                assert(decreases_to!(t->Switch_0 => t->Switch_0.0));
                assert(decreases_to!(*t => t->Switch_2));
            }
            let a = expr_names_len(&occ.0);
            let ghost bm = t.model()->Switch_1;
            let mut b: usize = 0;
            let mut i: usize = 0;
            assert(bm.take(0) =~= seq![]);
            while i < bs.len()
                invariant
                    *t == Tree::Switch(*occ, *bs, *d),
                    bm == t.model()->Switch_1,
                    i <= bs.len(),
                    b as nat == branches_name_len(bm.take(i as int)),
                decreases bs.len() - i,
            {
                proof {
                    assert(decreases_to!(*t => t->Switch_1));
                    assert(decreases_to!(t->Switch_1 => t->Switch_1@));
                    assert(decreases_to!(t->Switch_1@ => t->Switch_1@[i as int]));
                    assert(decreases_to!(t->Switch_1@[i as int] => t->Switch_1@[i as int].1));
                    assert(bm.take(i + 1).drop_last() =~= bm.take(i as int));
                    assert(bm[i as int].1 == bs[i as int].1.model());
                }
                b = max_usize(b, tree_names_len(&bs[i].1));
                i += 1;
            }
            assert(bm.take(i as int) =~= bm);
            let c = tree_names_len(d);
            assert(t.model()->Switch_0 == occ.model());
            assert(*t.model()->Switch_2 == d.model());
            max_usize(a, max_usize(b, c))
        },
        _ => 0,
    }
}

/// The length of the longest name in a pattern.
pub fn pattern_names_len(p: &Pattern) -> (r: usize)
    ensures
        r as nat == pattern_name_len(p.model()),
    decreases p,
{
    match p {
        Pattern::Variable { name } => name.as_str().unicode_len(),
        Pattern::Tuple { elements } => {
            let ghost ms = p.model()->Tuple_0;
            let mut r: usize = 0;
            let mut i: usize = 0;
            assert(ms.take(0) =~= seq![]);
            while i < elements.len()
                invariant
                    *p == (Pattern::Tuple { elements: *elements }),
                    ms == p.model()->Tuple_0,
                    i <= elements.len(),
                    r as nat == patterns_name_len(ms.take(i as int)),
                decreases elements.len() - i,
            {
                proof {
                    assert(decreases_to!(*p => p->elements));
                    assert(decreases_to!(p->elements => p->elements@));
                    assert(decreases_to!(p->elements@ => p->elements@[i as int]));
                    assert(ms.take(i + 1).drop_last() =~= ms.take(i as int));
                    assert(ms[i as int] == elements[i as int].model());
                }
                r = max_usize(r, pattern_names_len(&elements[i]));
                i += 1;
            }
            assert(ms.take(i as int) =~= ms);
            r
        },
        Pattern::Cons { head, tail } => max_usize(pattern_names_len(head), pattern_names_len(tail)),
        _ => 0,
    }
}

} // verus!
