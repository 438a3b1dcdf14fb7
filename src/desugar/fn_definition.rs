//! Desugaring of multi-clause function definitions.
use vstd::prelude::*;

use crate::ast;
use crate::names::{decimal, numbered_name};

use super::expression::{desugar_patterns, patterns_lowered};
use super::pattern::{
    bound_action, derive_tree, exprs_model_of, initial_matrix, min_nat, names_model, pattern_cond,
    pattern_rows_model, patterns_model_of, variables_of, Problem,
};
use super::{copy_string, DesugarError, ExprM, Expression, FnDefinition, PatternM};

verus! {

/// The pattern rows of a sequence of clauses.
pub open spec fn clauses_patterns(cs: Seq<ast::FnClause>) -> Seq<Seq<PatternM>>
    decreases cs.len(),
{
    if cs.len() == 0 {
        seq![]
    } else {
        seq![patterns_lowered(cs[0].patterns@)] + clauses_patterns(cs.drop_first())
    }
}

/// The desugared bodies of a sequence of clauses.
pub open spec fn clauses_bodies(cs: Seq<ast::FnClause>) -> Seq<ExprM>
    decreases cs.len(),
{
    if cs.len() == 0 {
        seq![]
    } else {
        seq![cs[0].body.lowered()] + clauses_bodies(cs.drop_first())
    }
}

/// Every clause body desugars.
pub open spec fn bodies_ok(cs: Seq<ast::FnClause>) -> bool
    decreases cs.len(),
{
    cs.len() == 0 || (cs[0].body.ok() && bodies_ok(cs.drop_first()))
}

/// The generated parameter name `x_j`.
pub open spec fn param_name(j: nat) -> Seq<char> {
    seq!['x', '_'] + decimal(j)
}

pub open spec fn gen_params(n: nat) -> Seq<Seq<char>> {
    Seq::new(n, |j: int| param_name(j as nat))
}

/// A lone clause whose parameters are all wildcards and variables.
pub open spec fn is_simple(pats: Seq<Seq<PatternM>>) -> bool {
    pats.len() == 1 && forall|j: int| 0 <= j < pats[0].len() ==> pattern_cond(#[trigger] pats[0][j]) is None
}

/// A simple clause's parameters: each variable's own name, `x_j` for a
/// wildcard in position `j`.
pub open spec fn simple_params(ps: Seq<PatternM>) -> Seq<Seq<char>> {
    Seq::new(
        ps.len(),
        |j: int|
            match ps[j] {
                PatternM::Variable(n) => n,
                _ => param_name(j as nat),
            },
    )
}

/// The index of the first clause from `k` on whose arity is not `n`.
pub open spec fn first_mismatch_from(pats: Seq<Seq<PatternM>>, k: int, n: nat) -> Option<int>
    decreases pats.len() - k,
{
    if k < 0 || k >= pats.len() {
        None
    } else if pats[k].len() != n {
        Some(k)
    } else {
        first_mismatch_from(pats, k + 1, n)
    }
}

/// The index of the first clause whose arity differs from the first one's.
pub open spec fn first_mismatch(pats: Seq<Seq<PatternM>>) -> Option<int> {
    first_mismatch_from(pats, 0, pats[0].len())
}

/// The body of a function of several clauses, or of a clause that
/// destructures: a decision tree over `x_0 .. x_{n-1}`.
pub open spec fn matched_body(pats: Seq<Seq<PatternM>>, bodies: Seq<ExprM>) -> ExprM {
    let params = gen_params(pats[0].len());
    ExprM::Match(
        Box::new(derive_tree(initial_matrix(pats, variables_of(params)))),
        Seq::new(min_nat(pats.len(), bodies.len()), |i: int| bound_action(params, pats[i], bodies[i])),
    )
}

/// The model of a desugared definition: name, parameters and body.
pub struct FnM {
    pub name: Seq<char>,
    pub params: Seq<Seq<char>>,
    pub body: ExprM,
}

impl FnDefinition {
    pub open spec fn fn_model(&self) -> FnM {
        FnM { name: self.name@, params: names_model(self.parameters@), body: self.body.model() }
    }
}

/// What a definition desugars to when it desugars.
pub open spec fn lowered_definition(f: ast::FnDefinition) -> FnM {
    let pats = clauses_patterns(f.clauses@);
    let bodies = clauses_bodies(f.clauses@);
    if is_simple(pats) {
        FnM { name: f.name@, params: simple_params(pats[0]), body: bodies[0] }
    } else {
        FnM { name: f.name@, params: gen_params(pats[0].len()), body: matched_body(pats, bodies) }
    }
}

impl ast::FnDefinition {
    /// Desugars a function. A lone clause of wildcards and variables keeps
    /// its body and takes its parameters from its patterns; otherwise all
    /// clauses must have the first clause's arity, and the body becomes a
    /// decision tree over fresh parameters `x_0 .. x_{n-1}`. Fails with
    /// `Arity` naming the function and the first disagreeing count.
    pub fn desugar(self) -> (r: Result<FnDefinition, DesugarError>)
        requires
            self.clauses.len() > 0,
        ensures
            !bodies_ok(self.clauses@) ==> r is Err && !(r->Err_0 is Arity),
            bodies_ok(self.clauses@) ==> match first_mismatch(clauses_patterns(self.clauses@)) {
                Some(i) => r is Err && r->Err_0 is Arity && r->Err_0->Arity_name@ == self.name@
                    && r->Err_0->Arity_expected == clauses_patterns(self.clauses@)[0].len()
                    && r->Err_0->Arity_found == clauses_patterns(self.clauses@)[i].len(),
                None => r is Ok,
            },
            r is Ok ==> r->Ok_0.fn_model() == lowered_definition(self),
            r is Ok ==> ({
                let pats = clauses_patterns(self.clauses@);
                let bodies = clauses_bodies(self.clauses@);
                &&& r->Ok_0.name@ == self.name@
                &&& if is_simple(pats) {
                    names_model(r->Ok_0.parameters@) == simple_params(pats[0]) && r->Ok_0.body.model()
                        == bodies[0]
                } else {
                    names_model(r->Ok_0.parameters@) == gen_params(pats[0].len())
                        && r->Ok_0.body.model() == matched_body(pats, bodies)
                }
            }),
    {
        let ghost orig = self.clauses@;
        let ast::FnDefinition { name, clauses } = self;
        let mut rest = clauses;
        let mut patterns: Vec<Vec<super::Pattern>> = Vec::new();
        let mut actions: Vec<Expression> = Vec::new();
        while rest.len() > 0
            invariant
                orig == self.clauses@,
                patterns.len() == actions.len(),
                patterns.len() + rest.len() == orig.len(),
                rest@ == orig.subrange(patterns.len() as int, orig.len() as int),
                bodies_ok(orig) == bodies_ok(rest@),
                pattern_rows_model(patterns@) + clauses_patterns(rest@) == clauses_patterns(orig),
                exprs_model_of(actions@) + clauses_bodies(rest@) == clauses_bodies(orig),
            decreases rest.len(),
        {
            let ghost before = rest@;
            let clause = rest.remove(0);
            assert(rest@ =~= before.drop_first());
            assert(bodies_ok(before) == (clause.body.ok() && bodies_ok(rest@)));
            let ast::FnClause { patterns: ps, body } = clause;
            let ghost bm = body.lowered();
            let ghost pm = patterns_lowered(ps@);
            let action = match body.desugar() {
                Ok(a) => a,
                Err(e) => return Err(e),
            };
            let pats = desugar_patterns(ps);
            let ghost pr = pattern_rows_model(patterns@);
            let ghost am = exprs_model_of(actions@);
            patterns.push(pats);
            actions.push(action);
            assert(pattern_rows_model(patterns@) =~= pr + seq![pm]);
            assert(exprs_model_of(actions@) =~= am + seq![bm]);
            assert(pr + (seq![pm] + clauses_patterns(rest@)) =~= (pr + seq![pm]) + clauses_patterns(rest@));
            assert(am + (seq![bm] + clauses_bodies(rest@)) =~= (am + seq![bm]) + clauses_bodies(rest@));
            assert(rest@ =~= orig.subrange(patterns.len() as int, orig.len() as int));
        }
        let ghost pats = clauses_patterns(orig);
        let ghost bodies = clauses_bodies(orig);
        assert(pattern_rows_model(patterns@) =~= pats);
        assert(exprs_model_of(actions@) =~= bodies);
        let arity = patterns[0].len();
        assert(pats[0] == patterns_model_of(patterns[0]@));
        if patterns.len() == 1 {
            let mut simple = true;
            let mut j: usize = 0;
            while j < arity
                invariant
                    j <= arity,
                    arity == patterns[0].len(),
                    patterns.len() == 1,
                    pats == pattern_rows_model(patterns@),
                    pats == clauses_patterns(orig),
                    bodies_ok(orig),
                    orig == self.clauses@,
                    simple <==> forall|t: int| 0 <= t < j ==> pattern_cond(#[trigger] pats[0][t]) is None,
                decreases arity - j,
            {
                assert(pats[0][j as int] == patterns[0][j as int].model());
                match &patterns[0][j] {
                    super::Pattern::Wildcard | super::Pattern::Variable { .. } => {},
                    _ => {
                        simple = false;
                    },
                }
                j += 1;
            }
            if simple {
                let mut parameters: Vec<String> = Vec::new();
                let mut j: usize = 0;
                while j < arity
                    invariant
                        j <= arity,
                        arity == patterns[0].len(),
                        patterns.len() == 1,
                        pats == pattern_rows_model(patterns@),
                        pats == clauses_patterns(orig),
                        bodies == clauses_bodies(orig),
                        bodies == exprs_model_of(actions@),
                        bodies_ok(orig),
                        orig == self.clauses@,
                        parameters.len() == j,
                        forall|t: int| 0 <= t < j ==> (#[trigger] parameters[t])@ == simple_params(pats[0])[t],
                    decreases arity - j,
                {
                    assert(pats[0][j as int] == patterns[0][j as int].model());
                    match &patterns[0][j] {
                        super::Pattern::Variable { name } => parameters.push(copy_string(name)),
                        _ => {
                            proof {
                                reveal_strlit("x_");
                            }
                            parameters.push(numbered_name("x_", j));
                        },
                    }
                    j += 1;
                }
                assert(names_model(parameters@) =~= simple_params(pats[0]));
                assert(first_mismatch_from(pats, 1, arity as nat) is None);
                let body = actions.remove(0);
                return Ok(FnDefinition { name, parameters, body: Box::new(body) });
            }
        }
        let mut i: usize = 0;
        while i < patterns.len()
            invariant
                i <= patterns.len(),
                arity == pats[0].len(),
                pats == pattern_rows_model(patterns@),
                pats.len() == patterns.len(),
                first_mismatch(pats) == first_mismatch_from(pats, i as int, arity as nat),
                forall|t: int| 0 <= t < i ==> (#[trigger] patterns[t]).len() == arity,
                pats == clauses_patterns(orig),
                bodies == clauses_bodies(orig),
                bodies_ok(orig),
                orig == self.clauses@,
                name == self.name,
            decreases patterns.len() - i,
        {
            assert(pats[i as int].len() == patterns[i as int].len());
            let found = patterns[i].len();
            assert(pats[i as int].len() == found);
            if found != arity {
                return Err(DesugarError::Arity { name, expected: arity, found });
            }
            i += 1;
        }
        let mut parameters: Vec<String> = Vec::new();
        let mut params: Vec<String> = Vec::new();
        let mut j: usize = 0;
        proof {
            reveal_strlit("x_");
        }
        while j < arity
            invariant
                j <= arity,
                "x_"@ == seq!['x', '_'],
                parameters.len() == j,
                params.len() == j,
                forall|t: int| 0 <= t < j ==> (#[trigger] parameters[t])@ == param_name(t as nat),
                forall|t: int| 0 <= t < j ==> (#[trigger] params[t])@ == param_name(t as nat),
            decreases arity - j,
        {
            parameters.push(numbered_name("x_", j));
            params.push(numbered_name("x_", j));
            j += 1;
        }
        assert(names_model(parameters@) =~= gen_params(arity as nat));
        assert(names_model(params@) =~= gen_params(arity as nat));
        let (tree, actions) = Problem::with_parameters(params, patterns, actions);
        let body = Expression::Match { tree, actions };
        assert(body.model()->Match_1 =~= matched_body(pats, bodies)->Match_1);
        Ok(FnDefinition { name, parameters, body: Box::new(body) })
    }
}


} // verus!
