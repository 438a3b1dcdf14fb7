//! Desugaring of whole programs.
use vstd::prelude::*;

use crate::ast;

use super::fn_definition::{bodies_ok, clauses_patterns, first_mismatch, lowered_definition, FnM};
use super::{DesugarError, Program};

verus! {

/// The definition desugars.
pub open spec fn definition_ok(f: ast::FnDefinition) -> bool {
    bodies_ok(f.clauses@) && first_mismatch(clauses_patterns(f.clauses@)) is None
}

/// The names of the definitions, each once, in order of first appearance.
pub open spec fn first_names(defs: Seq<ast::FnDefinition>) -> Seq<Seq<char>>
    decreases defs.len(),
{
    if defs.len() == 0 {
        seq![]
    } else {
        let prev = first_names(defs.drop_last());
        if prev.contains(defs.last().name@) {
            prev
        } else {
            prev.push(defs.last().name@)
        }
    }
}

/// The index of the last definition named `n`, or -1.
pub open spec fn last_named(defs: Seq<ast::FnDefinition>, n: Seq<char>) -> int
    decreases defs.len(),
{
    if defs.len() == 0 {
        -1
    } else if defs.last().name@ == n {
        defs.len() - 1
    } else {
        last_named(defs.drop_last(), n)
    }
}

/// The program's desugared definitions: one per name, in order of the
/// name's first appearance, each from the last definition of that name.
pub open spec fn program_models(defs: Seq<ast::FnDefinition>) -> Seq<FnM> {
    Seq::new(first_names(defs).len(), |j: int| lowered_definition(defs[last_named(defs, first_names(defs)[j])]))
}

proof fn lemma_first_names(defs: Seq<ast::FnDefinition>)
    ensures
        forall|x: Seq<char>| #[trigger] first_names(defs).contains(x) ==> 0 <= last_named(defs, x) < defs.len(),
    decreases defs.len(),
{
    if defs.len() > 0 {
        lemma_first_names(defs.drop_last());
        assert forall|x: Seq<char>| #[trigger] first_names(defs).contains(x) implies 0 <= last_named(defs, x) < defs.len() by {
            if defs.last().name@ != x {
                if !first_names(defs.drop_last()).contains(x) {
                    let w = choose|w: int| 0 <= w < first_names(defs).len() && first_names(defs)[w] == x;
                    assert(first_names(defs) == first_names(defs.drop_last()).push(defs.last().name@));
                    if w < first_names(defs.drop_last()).len() {
                        assert(first_names(defs.drop_last())[w] == x);
                    }
                }
            }
        }
    }
}

/// The error a failing definition gives: `CaseArity` from a clause body,
/// else `Arity` with its name, the first clause's arity and the first
/// disagreeing one.
pub open spec fn definition_error(f: ast::FnDefinition, e: DesugarError) -> bool {
    if bodies_ok(f.clauses@) {
        let pats = clauses_patterns(f.clauses@);
        &&& e is Arity
        &&& e->Arity_name@ == f.name@
        &&& e->Arity_expected == pats[0].len()
        &&& first_mismatch(pats) is Some
        &&& e->Arity_found == pats[first_mismatch(pats)->0].len()
    } else {
        e is CaseArity
    }
}

/// `k` is the first definition that does not desugar.
pub open spec fn first_failure(defs: Seq<ast::FnDefinition>, k: int) -> bool {
    &&& 0 <= k < defs.len()
    &&& forall|i: int| 0 <= i < k ==> definition_ok(#[trigger] defs[i])
    &&& !definition_ok(defs[k])
}

impl ast::Program {
    /// Desugars every definition in order. A later definition of a name
    /// replaces an earlier one in its place, so names stay distinct.
    #[verifier::rlimit(60)]
    pub fn desugar(self) -> (r: Result<Program, DesugarError>)
        requires
            forall|i: int| 0 <= i < self.definitions.len() ==> (#[trigger] self.definitions[i]).clauses.len() > 0,
        ensures
            r is Ok <==> forall|i: int|
                0 <= i < self.definitions.len() ==> definition_ok(#[trigger] self.definitions[i]),
            r is Ok ==> forall|i: int, j: int|
                0 <= i < j < r->Ok_0.definitions.len() ==> (#[trigger] r->Ok_0.definitions[i]).name@
                    != (#[trigger] r->Ok_0.definitions[j]).name@,
            r is Ok ==> r->Ok_0.definitions.len() == program_models(self.definitions@).len() && forall|j: int|
                0 <= j < r->Ok_0.definitions.len() ==> (#[trigger] r->Ok_0.definitions[j]).fn_model()
                    == program_models(self.definitions@)[j],
            r is Err ==> exists|k: int| first_failure(self.definitions@, k) && definition_error(self.definitions@[k], r->Err_0),
    {
        let ghost orig = self.definitions@;
        let n = self.definitions.len();
        let mut rest = self.definitions;
        let mut definitions: Vec<super::FnDefinition> = Vec::new();
        let mut k: usize = 0;
        while rest.len() > 0
            invariant
                orig == self.definitions@,
                n == orig.len(),
                forall|i: int| 0 <= i < orig.len() ==> (#[trigger] orig[i]).clauses.len() > 0,
                k + rest.len() == orig.len(),
                rest@ == orig.subrange(k as int, orig.len() as int),
                forall|i: int| 0 <= i < k ==> definition_ok(#[trigger] orig[i]),
                forall|i: int, j: int|
                    0 <= i < j < definitions.len() ==> (#[trigger] definitions[i]).name@
                        != (#[trigger] definitions[j]).name@,
                definitions.len() == first_names(orig.take(k as int)).len(),
                forall|j: int| 0 <= j < definitions.len() ==> (#[trigger] definitions[j]).name@ == first_names(orig.take(k as int))[j],
                forall|j: int| 0 <= j < definitions.len() ==> (#[trigger] definitions[j]).fn_model()
                    == program_models(orig.take(k as int))[j],
            decreases rest.len(),
        {
            let ghost dk = orig.take(k as int);
            let ghost dk1 = orig.take(k + 1);
            assert(dk1.drop_last() =~= dk);
            assert(dk1.last() == orig[k as int]);
            proof {
                lemma_first_names(dk);
            }
            let ghost before = rest@;
            assert(before[0] == orig[k as int]);
            let def = rest.remove(0);
            assert(rest@ =~= orig.subrange(k + 1, orig.len() as int));
            let ghost dname = def.name@;
            let d = match def.desugar() {
                Ok(d) => d,
                Err(e) => {
                    assert(!definition_ok(orig[k as int]));
                    assert(first_failure(orig, k as int));
                    return Err(e);
                },
            };
            let mut at: Option<usize> = None;
            let mut j: usize = 0;
            while j < definitions.len()
                invariant
                    j <= definitions.len(),
                    d.name@ == dname,
                    match at {
                        Some(t) => t < definitions.len() && definitions[t as int].name@ == dname,
                        None => forall|t: int| 0 <= t < j ==> (#[trigger] definitions[t]).name@ != dname,
                    },
                decreases definitions.len() - j,
            {
                if at.is_none() && definitions[j].name.eq(&d.name) {
                    at = Some(j);
                }
                j += 1;
            }
            let ghost prev = definitions@;
            let ghost fm = d.fn_model();
            assert(fm == lowered_definition(orig[k as int]));
            match at {
                Some(t) => {
                    assert(first_names(dk)[t as int] == dname);
                    assert(first_names(dk).contains(dname));
                    definitions.set(t, d);
                    assert forall|i: int| 0 <= i < definitions.len() implies (#[trigger] definitions[i]).name@
                        == prev[i].name@ by {}
                    assert forall|i: int| 0 <= i < definitions.len() implies (#[trigger] definitions[i]).fn_model()
                        == program_models(dk1)[i] by {
                        let x = first_names(dk)[i];
                        if i != t {
                            assert(prev[i].name@ == x);
                            assert(x != dname);
                            assert(last_named(dk1, x) == last_named(dk, x));
                            assert(first_names(dk)[i] == x);
                            assert(first_names(dk).contains(x));
                            assert(dk1[last_named(dk, x)] == dk[last_named(dk, x)]);
                        }
                    }
                },
                None => {
                    assert(!first_names(dk).contains(dname)) by {
                        if first_names(dk).contains(dname) {
                            let w = choose|w: int| 0 <= w < first_names(dk).len() && first_names(dk)[w] == dname;
                            assert(prev[w].name@ == dname);
                        }
                    }
                    definitions.push(d);
                    assert forall|i: int| 0 <= i < definitions.len() implies (#[trigger] definitions[i]).fn_model()
                        == program_models(dk1)[i] by {
                        if i < prev.len() {
                            let x = first_names(dk)[i];
                            assert(prev[i].name@ == x);
                            assert(x != dname);
                            assert(last_named(dk1, x) == last_named(dk, x));
                            assert(first_names(dk)[i] == x);
                            assert(first_names(dk).contains(x));
                            assert(dk1[last_named(dk, x)] == dk[last_named(dk, x)]);
                        }
                    }
                },
            }
            k += 1;
        }
        assert(orig.take(k as int) =~= orig);
        let p = Program { definitions };
        Ok(p)
    }
}

} // verus!
