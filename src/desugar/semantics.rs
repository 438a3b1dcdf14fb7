//! What a match matrix and a decision tree select for given values, and
//! the proof that synthesis preserves it: the tree picks the first clause
//! whose patterns all match.
use vstd::prelude::*;

use crate::compile::machine::ValueM;

use super::pattern::{
    arity, default_matrix, lemma_head_conds, default_row, derive_tree, expand, head_conds, initial_matrix,
    lemma_default_decreases, lemma_specialize_decreases, pattern_cond, row_head_cond, rows_count,
    rows_weight, specialize_case, specialize_matrix, specialize_row, step, sub_patterns, wildcards,
    CaseM, RowM,
};
use super::{Acc, CondM, ExprM, OccM, PatternM, TreeM};

verus! {

/// The sub-value one projection below `v`.
pub open spec fn project(v: ValueM, a: Acc) -> Option<ValueM> {
    match (v, a) {
        (ValueM::Tuple(vs), Acc::Tup(i)) => if i < vs.len() {
            Some(vs[i as int])
        } else {
            None
        },
        (ValueM::Cons(h, _), Acc::Head) => Some(*h),
        (ValueM::Cons(_, t), Acc::Tail) => Some(*t),
        _ => None,
    }
}

/// The sub-value at `path` below `v`.
pub open spec fn value_at(v: ValueM, path: Seq<Acc>) -> Option<ValueM>
    decreases path.len(),
{
    if path.len() == 0 {
        Some(v)
    } else {
        match value_at(v, path.drop_last()) {
            Some(w) => project(w, path.last()),
            None => None,
        }
    }
}

/// The value at an occurrence, when its root has a value in `env`.
pub open spec fn occ_value(o: OccM, env: spec_fn(ExprM) -> Option<ValueM>) -> Option<ValueM> {
    match env(o.root) {
        Some(v) => value_at(v, o.path),
        None => None,
    }
}

/// The discriminator of a value.
pub open spec fn value_cond(v: ValueM) -> CondM {
    match v {
        ValueM::Number(n) => CondM::Number(n),
        ValueM::Str(s) => CondM::Str(s),
        ValueM::Atom(a) => CondM::Atom(a),
        ValueM::Tuple(vs) => CondM::Tuple(vs.len()),
        ValueM::Cons(_, _) => CondM::Cons,
        ValueM::Nil => CondM::Nil,
    }
}

/// Whether a value matches a pattern.
pub open spec fn pat_matches(p: PatternM, v: ValueM) -> bool
    decreases p,
{
    match p {
        PatternM::Wildcard => true,
        PatternM::Variable(_) => true,
        PatternM::Tuple(ps) => match v {
            ValueM::Tuple(vs) => vs.len() == ps.len() && forall|i: int|
                0 <= i < ps.len() ==> pat_matches(#[trigger] ps[i], vs[i]),
            _ => false,
        },
        PatternM::Cons(h, t) => match v {
            ValueM::Cons(vh, vt) => pat_matches(*h, *vh) && pat_matches(*t, *vt),
            _ => false,
        },
        _ => pattern_cond(p) == Some(value_cond(v)),
    }
}

/// A case holds: its pattern is a wildcard or variable, or the value at
/// its occurrence exists and matches.
pub open spec fn case_matches(c: CaseM, env: spec_fn(ExprM) -> Option<ValueM>) -> bool {
    pattern_cond(c.pat) is None || match occ_value(c.occ, env) {
        Some(v) => pat_matches(c.pat, v),
        None => false,
    }
}

pub open spec fn row_matches(r: RowM, env: spec_fn(ExprM) -> Option<ValueM>) -> bool {
    forall|i: int| 0 <= i < r.cases.len() ==> case_matches(#[trigger] r.cases[i], env)
}

/// The action of the first row that matches.
pub open spec fn first_match(m: Seq<RowM>, env: spec_fn(ExprM) -> Option<ValueM>) -> Option<nat>
    decreases m.len(),
{
    if m.len() == 0 {
        None
    } else {
        match first_match(m.drop_last(), env) {
            Some(a) => Some(a),
            None => if row_matches(m.last(), env) {
                Some(m.last().action)
            } else {
                None
            },
        }
    }
}

/// The index, from `i` on, of the first branch whose discriminator the
/// value has.
pub open spec fn select(bs: Seq<(CondM, TreeM)>, v: ValueM, i: int) -> Option<int>
    decreases bs.len() - i,
{
    if i < 0 || i >= bs.len() {
        None
    } else if bs[i].0 == value_cond(v) {
        Some(i)
    } else {
        select(bs, v, i + 1)
    }
}

/// The action a decision tree selects; `None` where it reaches `Failure`.
pub open spec fn tree_eval(t: TreeM, env: spec_fn(ExprM) -> Option<ValueM>) -> Option<nat>
    decreases t,
{
    match t {
        TreeM::Failure => None,
        TreeM::Leaf(a) => Some(a),
        TreeM::Switch(o, bs, d) => match occ_value(o, env) {
            Some(v) => match select(bs, v, 0) {
                Some(i) => if 0 <= i < bs.len() {
                    tree_eval(bs[i].1, env)
                } else {
                    None
                },
                None => tree_eval(*d, env),
            },
            None => tree_eval(*d, env),
        },
    }
}

/// Every tuple in the value has a length that a `usize` index reaches.
pub open spec fn sized(v: ValueM) -> bool
    decreases v,
{
    match v {
        ValueM::Tuple(vs) => vs.len() <= usize::MAX && forall|i: int| 0 <= i < vs.len() ==> sized(#[trigger] vs[i]),
        ValueM::Cons(h, t) => sized(*h) && sized(*t),
        _ => true,
    }
}

// ---------------------------------------------------------------------
// Values below an occurrence.

proof fn lemma_value_at_sized(v: ValueM, path: Seq<Acc>)
    requires
        sized(v),
    ensures
        value_at(v, path) is Some ==> sized(value_at(v, path)->0),
    decreases path.len(),
{
    if path.len() > 0 {
        lemma_value_at_sized(v, path.drop_last());
    }
}

proof fn lemma_value_at_push(v: ValueM, path: Seq<Acc>, a: Acc)
    ensures
        value_at(v, path.push(a)) == match value_at(v, path) {
            Some(w) => project(w, a),
            None => None,
        },
{
    assert(path.push(a).drop_last() =~= path);
}

/// A constructor pattern that matches a value names the value's
/// discriminator.
proof fn lemma_match_cond(p: PatternM, v: ValueM)
    requires
        pat_matches(p, v),
        pattern_cond(p) is Some,
    ensures
        pattern_cond(p) == Some(value_cond(v)),
{
}

/// The expanded cases of a pattern whose discriminator the value at `o`
/// has all hold exactly when the pattern matches that value.
proof fn lemma_expand_matches(c: CaseM, k: CondM, v: ValueM, env: spec_fn(ExprM) -> Option<ValueM>)
    requires
        occ_value(c.occ, env) == Some(v),
        sized(v),
        value_cond(v) == k,
        specialize_case(c, k) is Some,
    ensures
        (forall|i: int| 0 <= i < specialize_case(c, k)->0.len() ==> case_matches(
            #[trigger] specialize_case(c, k)->0[i],
            env,
        )) == case_matches(c, env),
{
    let s = specialize_case(c, k)->0;
    let ps = if pattern_cond(c.pat) is None {
        wildcards(arity(k))
    } else {
        sub_patterns(c.pat)
    };
    assert(s == expand(c.occ, k, ps));
    let root = env(c.occ.root)->0;
    assert forall|i: int| 0 <= i < s.len() implies occ_value(#[trigger] s[i].occ, env) == project(
        v,
        step(k, i),
    ) by {
        lemma_value_at_push(root, c.occ.path, step(k, i));
    }
    if pattern_cond(c.pat) is None {
        assert forall|i: int| 0 <= i < s.len() implies case_matches(#[trigger] s[i], env) by {
            assert(s[i].pat == PatternM::Wildcard);
        }
    } else {
        match c.pat {
            PatternM::Tuple(qs) => {
                let vs = v->Tuple_0;
                assert forall|i: int| 0 <= i < s.len() implies occ_value(#[trigger] s[i].occ, env) == Some(vs[i]) by {
                    assert(step(k, i) == Acc::Tup(i as usize));
                }
                if case_matches(c, env) {
                    assert forall|i: int| 0 <= i < s.len() implies case_matches(#[trigger] s[i], env) by {
                        assert(pat_matches(qs[i], vs[i]));
                    }
                } else {
                    assert(!pat_matches(c.pat, v));
                    let i = choose|i: int| 0 <= i < qs.len() && !pat_matches(#[trigger] qs[i], vs[i]);
                    assert(!case_matches(s[i], env));
                }
            },
            PatternM::Cons(h, t) => {
                assert(s[0].pat == *h);
                assert(s[1].pat == *t);
                assert(step(k, 0) == Acc::Head);
                assert(step(k, 1) == Acc::Tail);
                assert(occ_value(s[0].occ, env) == Some(*v->Cons_0));
                assert(occ_value(s[1].occ, env) == Some(*v->Cons_1));
                if !case_matches(c, env) {
                    if !pat_matches(*h, *v->Cons_0) {
                        assert(pattern_cond(*h) is Some);
                        assert(!case_matches(s[0], env));
                    } else {
                        assert(v is Cons);
                        assert(!pat_matches(*t, *v->Cons_1));
                        assert(pattern_cond(*t) is Some);
                        assert(!case_matches(s[1], env));
                    }
                }
            },
            _ => {
                assert(s.len() == 0);
            },
        }
    }
}

// ---------------------------------------------------------------------
// Rows.

/// The rows all have the occurrences `occs`, column by column.
pub open spec fn aligned_to(m: Seq<RowM>, occs: Seq<OccM>) -> bool {
    forall|a: int|
        0 <= a < m.len() ==> (#[trigger] m[a]).cases.len() == occs.len() && forall|j: int|
            0 <= j < occs.len() ==> m[a].cases[j].occ == occs[j]
}

/// The occurrences after specialising on `k`: the sub-values of the head
/// one, then the rest.
pub open spec fn specialized_occs(occs: Seq<OccM>, k: CondM) -> Seq<OccM> {
    Seq::new(
        arity(k),
        |j: int| OccM { root: occs[0].root, path: occs[0].path.push(step(k, j)) },
    ) + occs.drop_first()
}

proof fn lemma_row_split(r: RowM, env: spec_fn(ExprM) -> Option<ValueM>)
    requires
        r.cases.len() > 0,
    ensures
        row_matches(r, env) == (case_matches(r.cases[0], env) && forall|i: int|
            0 <= i < r.cases.drop_first().len() ==> case_matches(#[trigger] r.cases.drop_first()[i], env)),
{
    if case_matches(r.cases[0], env) && forall|i: int|
        0 <= i < r.cases.drop_first().len() ==> case_matches(#[trigger] r.cases.drop_first()[i], env) {
        assert forall|i: int| 0 <= i < r.cases.len() implies case_matches(#[trigger] r.cases[i], env) by {
            if i > 0 {
                assert(r.cases[i] == r.cases.drop_first()[i - 1]);
            }
        }
    }
    if row_matches(r, env) {
        assert forall|i: int| 0 <= i < r.cases.drop_first().len() implies case_matches(
            #[trigger] r.cases.drop_first()[i],
            env,
        ) by {
            assert(r.cases.drop_first()[i] == r.cases[i + 1]);
        }
    }
}

proof fn lemma_specialize_row_matches(r: RowM, k: CondM, v: ValueM, env: spec_fn(ExprM) -> Option<ValueM>)
    requires
        r.cases.len() > 0,
        occ_value(r.cases[0].occ, env) == Some(v),
        sized(v),
        value_cond(v) == k,
    ensures
        match specialize_row(r, k) {
            Some(r2) => row_matches(r2, env) == row_matches(r, env) && r2.action == r.action,
            None => !row_matches(r, env),
        },
{
    let c = r.cases[0];
    lemma_row_split(r, env);
    match specialize_case(c, k) {
        Some(sc) => {
            lemma_expand_matches(c, k, v, env);
            let r2 = specialize_row(r, k)->0;
            let rest = r.cases.drop_first();
            assert(r2.cases == sc + rest);
            assert(row_matches(r2, env) == ((forall|i: int| 0 <= i < sc.len() ==> case_matches(#[trigger] sc[i], env))
                && forall|i: int| 0 <= i < rest.len() ==> case_matches(#[trigger] rest[i], env))) by {
                if row_matches(r2, env) {
                    assert forall|i: int| 0 <= i < sc.len() implies case_matches(#[trigger] sc[i], env) by {
                        assert(r2.cases[i] == sc[i]);
                    }
                    assert forall|i: int| 0 <= i < rest.len() implies case_matches(#[trigger] rest[i], env) by {
                        assert(r2.cases[sc.len() + i] == rest[i]);
                    }
                }
                if (forall|i: int| 0 <= i < sc.len() ==> case_matches(#[trigger] sc[i], env))
                    && forall|i: int| 0 <= i < rest.len() ==> case_matches(#[trigger] rest[i], env) {
                    assert forall|i: int| 0 <= i < r2.cases.len() implies case_matches(#[trigger] r2.cases[i], env) by {
                        if i < sc.len() {
                            assert(r2.cases[i] == sc[i]);
                        } else {
                            assert(r2.cases[i] == rest[i - sc.len()]);
                        }
                    }
                }
            }
        },
        None => {
            if case_matches(c, env) {
                lemma_match_cond(c.pat, v);
            }
        },
    }
}

proof fn lemma_default_row_matches(r: RowM, env: spec_fn(ExprM) -> Option<ValueM>)
    requires
        r.cases.len() > 0,
        match occ_value(r.cases[0].occ, env) {
            Some(v) => row_head_cond(r) != Some(value_cond(v)),
            None => true,
        },
    ensures
        match default_row(r) {
            Some(r2) => row_matches(r2, env) == row_matches(r, env) && r2.action == r.action,
            None => !row_matches(r, env),
        },
{
    let c = r.cases[0];
    lemma_row_split(r, env);
    if default_row(r) is Some {
        let r2 = default_row(r)->0;
        assert(r2.cases == r.cases.drop_first());
        assert(case_matches(c, env));
        assert(row_matches(r2, env) == forall|i: int|
            0 <= i < r.cases.drop_first().len() ==> case_matches(#[trigger] r.cases.drop_first()[i], env));
    }
    if default_row(r) is None {
        if case_matches(c, env) {
            lemma_match_cond(c.pat, occ_value(c.occ, env)->0);
        }
    }
}

/// A row whose head names a discriminator contributes it to `head_conds`.
proof fn lemma_head_conds_contains(m: Seq<RowM>, a: int)
    requires
        0 <= a < m.len(),
        row_head_cond(m[a]) is Some,
    ensures
        head_conds(m).contains(row_head_cond(m[a])->0),
    decreases m.len(),
{
    lemma_head_conds(m);
}

/// The first row that matches is the first row, when the first row
/// matches.
proof fn lemma_first_row_matches(m: Seq<RowM>, env: spec_fn(ExprM) -> Option<ValueM>)
    requires
        m.len() > 0,
        row_matches(m[0], env),
    ensures
        first_match(m, env) == Some(m[0].action),
    decreases m.len(),
{
    if m.len() > 1 {
        assert(m.drop_last()[0] == m[0]);
        lemma_first_row_matches(m.drop_last(), env);
    } else {
        assert(m.drop_last().len() == 0);
        assert(first_match(m.drop_last(), env) is None);
        assert(m.last() == m[0]);
    }
}

// ---------------------------------------------------------------------
// Matrices.

proof fn lemma_specialize_first_match(m: Seq<RowM>, o: OccM, k: CondM, v: ValueM, env: spec_fn(ExprM) -> Option<ValueM>)
    requires
        forall|a: int| 0 <= a < m.len() ==> (#[trigger] m[a]).cases.len() > 0 && m[a].cases[0].occ == o,
        occ_value(o, env) == Some(v),
        sized(v),
        value_cond(v) == k,
    ensures
        first_match(specialize_matrix(m, k), env) == first_match(m, env),
    decreases m.len(),
{
    if m.len() > 0 {
        let prev = m.drop_last();
        assert forall|a: int| 0 <= a < prev.len() implies (#[trigger] prev[a]).cases.len() > 0 && prev[a].cases[0].occ == o by {
            assert(prev[a] == m[a]);
        }
        lemma_specialize_first_match(prev, o, k, v, env);
        assert(m.last() == m[m.len() - 1]);
        lemma_specialize_row_matches(m.last(), k, v, env);
        let sm = specialize_matrix(m, k);
        match specialize_row(m.last(), k) {
            Some(r2) => {
                assert(sm.drop_last() =~= specialize_matrix(prev, k));
                assert(sm.last() == r2);
            },
            None => {},
        }
    }
}

proof fn lemma_default_first_match(m: Seq<RowM>, o: OccM, env: spec_fn(ExprM) -> Option<ValueM>)
    requires
        forall|a: int| 0 <= a < m.len() ==> (#[trigger] m[a]).cases.len() > 0 && m[a].cases[0].occ == o,
        forall|a: int|
            0 <= a < m.len() ==> match occ_value(o, env) {
                Some(v) => row_head_cond(#[trigger] m[a]) != Some(value_cond(v)),
                None => true,
            },
    ensures
        first_match(default_matrix(m), env) == first_match(m, env),
    decreases m.len(),
{
    if m.len() > 0 {
        let prev = m.drop_last();
        assert forall|a: int| 0 <= a < prev.len() implies (#[trigger] prev[a]).cases.len() > 0 && prev[a].cases[0].occ == o by {
            assert(prev[a] == m[a]);
        }
        assert forall|a: int|
            0 <= a < prev.len() implies match occ_value(o, env) {
                Some(v) => row_head_cond(#[trigger] prev[a]) != Some(value_cond(v)),
                None => true,
            } by {
            assert(prev[a] == m[a]);
        }
        lemma_default_first_match(prev, o, env);
        assert(m.last() == m[m.len() - 1]);
        lemma_default_row_matches(m.last(), env);
        let dm = default_matrix(m);
        match default_row(m.last()) {
            Some(r2) => {
                assert(dm.drop_last() =~= default_matrix(prev));
                assert(dm.last() == r2);
            },
            None => {},
        }
    }
}

proof fn lemma_specialize_aligned(m: Seq<RowM>, occs: Seq<OccM>, k: CondM)
    requires
        aligned_to(m, occs),
        occs.len() > 0,
    ensures
        aligned_to(specialize_matrix(m, k), specialized_occs(occs, k)),
    decreases m.len(),
{
    if m.len() > 0 {
        let prev = m.drop_last();
        assert forall|a: int| 0 <= a < prev.len() implies (#[trigger] prev[a]).cases.len() == occs.len()
            && forall|j: int| 0 <= j < occs.len() ==> prev[a].cases[j].occ == occs[j] by {
            assert(prev[a] == m[a]);
        }
        lemma_specialize_aligned(prev, occs, k);
        let r = m.last();
        assert(r == m[m.len() - 1]);
        match specialize_row(r, k) {
            Some(r2) => {
                let c = r.cases[0];
                if pattern_cond(c.pat) is Some {
                    match c.pat {
                        PatternM::Tuple(_) => {},
                        PatternM::Cons(_, _) => {},
                        _ => {},
                    }
                }
                let so = specialized_occs(occs, k);
                let sc = specialize_case(c, k)->0;
                assert(sc.len() == arity(k));
                assert forall|j: int| 0 <= j < so.len() implies r2.cases[j].occ == so[j] by {
                    if j < arity(k) {
                        assert(r2.cases[j] == sc[j]);
                    } else {
                        assert(r2.cases[j] == r.cases[j - arity(k) + 1]);
                        assert(so[j] == occs[j - arity(k) + 1]);
                    }
                }
                let sm = specialize_matrix(m, k);
                assert forall|a: int| 0 <= a < sm.len() implies (#[trigger] sm[a]).cases.len() == so.len()
                    && forall|j: int| 0 <= j < so.len() ==> sm[a].cases[j].occ == so[j] by {
                    if a < sm.len() - 1 {
                        assert(sm[a] == specialize_matrix(prev, k)[a]);
                    }
                }
            },
            None => {},
        }
    }
}

proof fn lemma_default_aligned(m: Seq<RowM>, occs: Seq<OccM>)
    requires
        aligned_to(m, occs),
        occs.len() > 0,
    ensures
        aligned_to(default_matrix(m), occs.drop_first()),
    decreases m.len(),
{
    if m.len() > 0 {
        let prev = m.drop_last();
        assert forall|a: int| 0 <= a < prev.len() implies (#[trigger] prev[a]).cases.len() == occs.len()
            && forall|j: int| 0 <= j < occs.len() ==> prev[a].cases[j].occ == occs[j] by {
            assert(prev[a] == m[a]);
        }
        lemma_default_aligned(prev, occs);
        let r = m.last();
        assert(r == m[m.len() - 1]);
        match default_row(r) {
            Some(r2) => {
                let dm = default_matrix(m);
                assert forall|j: int| 0 <= j < occs.drop_first().len() implies r2.cases[j].occ == occs.drop_first()[j] by {
                    assert(r2.cases[j] == r.cases[j + 1]);
                }
                assert forall|a: int| 0 <= a < dm.len() implies (#[trigger] dm[a]).cases.len() == occs.drop_first().len()
                    && forall|j: int| 0 <= j < occs.drop_first().len() ==> dm[a].cases[j].occ == occs.drop_first()[j] by {
                    if a < dm.len() - 1 {
                        assert(dm[a] == default_matrix(prev)[a]);
                    }
                }
            },
            None => {},
        }
    }
}

proof fn lemma_select(bs: Seq<(CondM, TreeM)>, v: ValueM, i: int)
    requires
        0 <= i,
    ensures
        match select(bs, v, i) {
            Some(j) => i <= j < bs.len() && bs[j].0 == value_cond(v),
            None => forall|j: int| i <= j < bs.len() ==> (#[trigger] bs[j]).0 != value_cond(v),
        },
    decreases bs.len() - i,
{
    if i < bs.len() && bs[i].0 != value_cond(v) {
        lemma_select(bs, v, i + 1);
    }
}

/// Every value in `env` is sized.
pub open spec fn env_sized(env: spec_fn(ExprM) -> Option<ValueM>) -> bool {
    forall|e: ExprM| #[trigger] env(e) is Some ==> sized(env(e)->0)
}

/// A matrix whose rows share their occurrences gives a tree that selects
/// the action of the first matching row, and fails exactly when no row
/// matches.
pub proof fn lemma_derive_selects_first_match(m: Seq<RowM>, occs: Seq<OccM>, env: spec_fn(ExprM) -> Option<ValueM>)
    requires
        aligned_to(m, occs),
        env_sized(env),
    ensures
        tree_eval(derive_tree(m), env) == first_match(m, env),
    decreases rows_weight(m), rows_count(m),
{
    if m.len() == 0 {
        return;
    }
    assert(m[0].cases.len() == occs.len());
    if occs.len() == 0 {
        assert(row_matches(m[0], env));
        lemma_first_row_matches(m, env);
        return;
    }
    let o = occs[0];
    assert forall|a: int| 0 <= a < m.len() implies (#[trigger] m[a]).cases.len() > 0 && m[a].cases[0].occ == o by {}
    lemma_default_decreases(m);
    lemma_default_aligned(m, occs);
    lemma_derive_selects_first_match(default_matrix(m), occs.drop_first(), env);
    let ks = head_conds(m);
    let t = derive_tree(m);
    let d = derive_tree(default_matrix(m));
    match occ_value(o, env) {
        Some(v) => {
            lemma_value_at_sized(env(o.root)->0, o.path);
            if ks.len() == 0 {
                assert forall|a: int| 0 <= a < m.len() implies row_head_cond(#[trigger] m[a]) != Some(value_cond(v)) by {
                    if row_head_cond(m[a]) is Some {
                        lemma_head_conds_contains(m, a);
                    }
                }
                lemma_default_first_match(m, o, env);
            } else {
                let bs = t->Switch_1;
                assert(t->Switch_0 == o);
                lemma_select(bs, v, 0);
                match select(bs, v, 0) {
                    Some(i) => {
                        assert(bs[i].0 == ks[i]);
                        let k = ks[i];
                        assert(ks.contains(k));
                        lemma_specialize_decreases(m, k);
                        lemma_specialize_aligned(m, occs, k);
                        lemma_derive_selects_first_match(specialize_matrix(m, k), specialized_occs(occs, k), env);
                        lemma_specialize_first_match(m, o, k, v, env);
                        assert(bs[i].1 == derive_tree(specialize_matrix(m, k)));
                    },
                    None => {
                        assert forall|a: int| 0 <= a < m.len() implies row_head_cond(#[trigger] m[a]) != Some(value_cond(v)) by {
                            if row_head_cond(m[a]) is Some {
                                lemma_head_conds_contains(m, a);
                                let w = choose|w: int| 0 <= w < ks.len() && ks[w] == row_head_cond(m[a])->0;
                                assert(bs[w].0 == ks[w]);
                            }
                        }
                        lemma_default_first_match(m, o, env);
                        assert(*t->Switch_2 == d);
                    },
                }
            }
        },
        None => {
            lemma_default_first_match(m, o, env);
            if ks.len() > 0 {
                assert(t->Switch_0 == o);
                assert(*t->Switch_2 == d);
            }
        },
    }
}

/// The occurrences of the scrutinees themselves.
pub open spec fn root_occs(roots: Seq<ExprM>) -> Seq<OccM> {
    Seq::new(roots.len(), |j: int| OccM { root: roots[j], path: seq![] })
}

/// First-match priority: for clauses with one pattern per scrutinee, the
/// synthesized decision tree selects, for any values of the scrutinees,
/// the action of the first clause all of whose patterns match, and
/// reaches `Failure` only when no clause matches.
pub proof fn lemma_tree_selects_first_clause(
    pats: Seq<Seq<PatternM>>,
    roots: Seq<ExprM>,
    env: spec_fn(ExprM) -> Option<ValueM>,
)
    requires
        forall|i: int| 0 <= i < pats.len() ==> (#[trigger] pats[i]).len() == roots.len(),
        env_sized(env),
    ensures
        tree_eval(derive_tree(initial_matrix(pats, roots)), env) == first_match(
            initial_matrix(pats, roots),
            env,
        ),
{
    let m = initial_matrix(pats, roots);
    assert(aligned_to(m, root_occs(roots)));
    lemma_derive_selects_first_match(m, root_occs(roots), env);
}

} // verus!
