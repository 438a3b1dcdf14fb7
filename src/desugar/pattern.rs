//! Compiling pattern matching to decision trees: the match matrix, its
//! specialisation and default, and the synthesis of the tree.
use vstd::prelude::*;

use super::{Acc, Cond, CondM, Expression, ExprM, OccM, Occurrence, Pattern, PatternM, Tree, TreeM};
use super::{copy_string, replay};
use crate::names::{decimal, numbered_name};
use super::fresh::{exprs_name_len, exprs_names_len, max_nat, pattern_names_len, patterns_name_len, rows_name_len};

verus! {

/// One unresolved test: the value at `occurrence` must match `pattern`.
#[derive(Debug)]
pub struct Case {
    pub occurrence: Occurrence,
    pub pattern: Pattern,
}

/// The cases left to test for one clause, and the index of its action.
#[derive(Debug)]
pub struct Row(pub Vec<Case>, pub usize);

pub type Matrix = Vec<Row>;

/// A match matrix: rows in clause priority order.
#[derive(Debug)]
pub struct Problem {
    pub matrix: Matrix,
}

pub struct CaseM {
    pub occ: OccM,
    pub pat: PatternM,
}

pub struct RowM {
    pub cases: Seq<CaseM>,
    pub action: nat,
}

impl Case {
    pub open spec fn model(&self) -> CaseM {
        CaseM { occ: self.occurrence.model(), pat: self.pattern.model() }
    }
}

impl Row {
    pub open spec fn model(&self) -> RowM {
        RowM { cases: self.0@.map_values(|c: Case| c.model()), action: self.1 as nat }
    }
}

impl Problem {
    pub open spec fn model(&self) -> Seq<RowM> {
        self.matrix@.map_values(|r: Row| r.model())
    }
}

// ---------------------------------------------------------------------
// The algorithm on models.

/// The discriminator a pattern tests for; none for a wildcard or variable.
pub open spec fn pattern_cond(p: PatternM) -> Option<CondM> {
    match p {
        PatternM::Wildcard => None,
        PatternM::Variable(_) => None,
        PatternM::Number(n) => Some(CondM::Number(n)),
        PatternM::Str(s) => Some(CondM::Str(s)),
        PatternM::Atom(a) => Some(CondM::Atom(a)),
        PatternM::Tuple(ps) => Some(CondM::Tuple(ps.len())),
        PatternM::Cons(_, _) => Some(CondM::Cons),
        PatternM::Nil => Some(CondM::Nil),
    }
}

/// The sub-patterns a constructor pattern hands on.
pub open spec fn sub_patterns(p: PatternM) -> Seq<PatternM> {
    match p {
        PatternM::Tuple(ps) => ps,
        PatternM::Cons(h, t) => seq![*h, *t],
        _ => seq![],
    }
}

/// How many sub-values a discriminator exposes.
pub open spec fn arity(k: CondM) -> nat {
    match k {
        CondM::Tuple(n) => n,
        CondM::Cons => 2,
        _ => 0,
    }
}

/// The projection to the `i`-th sub-value under discriminator `k`.
pub open spec fn step(k: CondM, i: int) -> Acc {
    match k {
        CondM::Cons => if i == 0 { Acc::Head } else { Acc::Tail },
        _ => Acc::Tup(i as usize),
    }
}

/// One case per sub-pattern, each one step below `o`.
pub open spec fn expand(o: OccM, k: CondM, ps: Seq<PatternM>) -> Seq<CaseM> {
    Seq::new(
        ps.len(),
        |i: int| CaseM { occ: OccM { root: o.root, path: o.path.push(step(k, i)) }, pat: ps[i] },
    )
}

pub open spec fn wildcards(n: nat) -> Seq<PatternM> {
    Seq::new(n, |i: int| PatternM::Wildcard)
}

/// The cases that replace `c` when its value is known to have discriminator
/// `k`; none when `c` cannot match such a value.
pub open spec fn specialize_case(c: CaseM, k: CondM) -> Option<Seq<CaseM>> {
    match pattern_cond(c.pat) {
        None => Some(expand(c.occ, k, wildcards(arity(k)))),
        Some(h) => if h == k {
            Some(expand(c.occ, k, sub_patterns(c.pat)))
        } else {
            None
        },
    }
}

pub open spec fn row_head_cond(r: RowM) -> Option<CondM> {
    if r.cases.len() == 0 {
        None
    } else {
        pattern_cond(r.cases[0].pat)
    }
}

pub open spec fn specialize_row(r: RowM, k: CondM) -> Option<RowM> {
    if r.cases.len() == 0 {
        None
    } else {
        match specialize_case(r.cases[0], k) {
            Some(s) => Some(RowM { cases: s + r.cases.drop_first(), action: r.action }),
            None => None,
        }
    }
}

pub open spec fn default_row(r: RowM) -> Option<RowM> {
    if r.cases.len() == 0 || pattern_cond(r.cases[0].pat) is Some {
        None
    } else {
        Some(RowM { cases: r.cases.drop_first(), action: r.action })
    }
}

/// The rows that survive specialisation on `k`, specialised, in order.
pub open spec fn specialize_matrix(m: Seq<RowM>, k: CondM) -> Seq<RowM>
    decreases m.len(),
{
    if m.len() == 0 {
        seq![]
    } else {
        let prev = specialize_matrix(m.drop_last(), k);
        match specialize_row(m.last(), k) {
            Some(r) => prev.push(r),
            None => prev,
        }
    }
}

/// The rows whose head case is a wildcard or variable, with it dropped.
pub open spec fn default_matrix(m: Seq<RowM>) -> Seq<RowM>
    decreases m.len(),
{
    if m.len() == 0 {
        seq![]
    } else {
        let prev = default_matrix(m.drop_last());
        match default_row(m.last()) {
            Some(r) => prev.push(r),
            None => prev,
        }
    }
}

/// The canonical order of discriminators: by kind (number, string, atom,
/// tuple, cons, nil), then by value, strings by their characters.
pub open spec fn cond_rank(k: CondM) -> int {
    match k {
        CondM::Number(_) => 0,
        CondM::Str(_) => 1,
        CondM::Atom(_) => 2,
        CondM::Tuple(_) => 3,
        CondM::Cons => 4,
        CondM::Nil => 5,
    }
}

/// Lexicographic order on character sequences.
pub open spec fn chars_lt(a: Seq<char>, b: Seq<char>) -> bool
    decreases a.len(),
{
    if a.len() == 0 {
        b.len() > 0
    } else if b.len() == 0 {
        false
    } else if a[0] != b[0] {
        a[0] < b[0]
    } else {
        chars_lt(a.drop_first(), b.drop_first())
    }
}

pub open spec fn cond_lt(a: CondM, b: CondM) -> bool {
    if cond_rank(a) != cond_rank(b) {
        cond_rank(a) < cond_rank(b)
    } else {
        match (a, b) {
            (CondM::Number(x), CondM::Number(y)) => x < y,
            (CondM::Str(x), CondM::Str(y)) => chars_lt(x, y),
            (CondM::Atom(x), CondM::Atom(y)) => chars_lt(x, y),
            (CondM::Tuple(x), CondM::Tuple(y)) => x < y,
            _ => false,
        }
    }
}

/// Each discriminator is below the next one.
pub open spec fn sorted_conds(s: Seq<CondM>) -> bool {
    forall|i: int| 0 <= i < s.len() - 1 ==> cond_lt(#[trigger] s[i], s[i + 1])
}

pub open spec fn distinct_conds(s: Seq<CondM>) -> bool {
    forall|i: int, j: int| 0 <= i < s.len() && 0 <= j < s.len() && i != j ==> #[trigger] s[i] != #[trigger] s[j]
}

/// The first index from `j` on whose discriminator is above `k`, or the
/// length.
pub open spec fn first_above(s: Seq<CondM>, k: CondM, j: int) -> int
    decreases s.len() - j,
{
    if j < 0 || j >= s.len() {
        s.len() as int
    } else if cond_lt(k, s[j]) {
        j
    } else {
        first_above(s, k, j + 1)
    }
}

/// `k` inserted before the first discriminator above it.
pub open spec fn insert_cond(s: Seq<CondM>, k: CondM) -> Seq<CondM> {
    let p = first_above(s, k, 0);
    s.take(p).push(k) + s.skip(p)
}

/// The discriminators a switch tests, in order.
pub open spec fn branch_conds(bs: Seq<(CondM, TreeM)>) -> Seq<CondM> {
    Seq::new(bs.len(), |i: int| bs[i].0)
}

/// The distinct discriminators among the head cases, in canonical order.
pub open spec fn head_conds(m: Seq<RowM>) -> Seq<CondM>
    decreases m.len(),
{
    if m.len() == 0 {
        seq![]
    } else {
        let prev = head_conds(m.drop_last());
        match row_head_cond(m.last()) {
            Some(k) => if prev.contains(k) {
                prev
            } else {
                insert_cond(prev, k)
            },
            None => prev,
        }
    }
}

pub proof fn lemma_chars_total(a: Seq<char>, b: Seq<char>)
    requires
        a != b,
    ensures
        chars_lt(a, b) || chars_lt(b, a),
    decreases a.len(),
{
    if a.len() > 0 && b.len() > 0 && a[0] == b[0] {
        if a.drop_first() == b.drop_first() {
            assert(a =~= seq![a[0]] + a.drop_first());
            assert(b =~= seq![b[0]] + b.drop_first());
        }
        lemma_chars_total(a.drop_first(), b.drop_first());
    } else if a.len() == 0 && b.len() == 0 {
        assert(a =~= b);
    }
}

pub proof fn lemma_cond_total(a: CondM, b: CondM)
    requires
        a != b,
    ensures
        cond_lt(a, b) || cond_lt(b, a),
{
    match (a, b) {
        (CondM::Str(x), CondM::Str(y)) => lemma_chars_total(x, y),
        (CondM::Atom(x), CondM::Atom(y)) => lemma_chars_total(x, y),
        _ => {},
    }
}

pub proof fn lemma_first_above(s: Seq<CondM>, k: CondM, j: int)
    requires
        0 <= j <= s.len(),
    ensures
        j <= first_above(s, k, j) <= s.len(),
        forall|i: int| j <= i < first_above(s, k, j) ==> !cond_lt(k, #[trigger] s[i]),
        first_above(s, k, j) < s.len() ==> cond_lt(k, s[first_above(s, k, j)]),
    decreases s.len() - j,
{
    if j < s.len() && !cond_lt(k, s[j]) {
        lemma_first_above(s, k, j + 1);
    }
}

/// Inserting a new discriminator keeps the sequence sorted and distinct,
/// and adds exactly that discriminator.
pub proof fn lemma_insert_cond(s: Seq<CondM>, k: CondM)
    requires
        !s.contains(k),
        sorted_conds(s),
        distinct_conds(s),
    ensures
        insert_cond(s, k).len() == s.len() + 1,
        forall|x: CondM| insert_cond(s, k).contains(x) <==> (s.contains(x) || x == k),
        sorted_conds(insert_cond(s, k)),
        distinct_conds(insert_cond(s, k)),
{
    let p = first_above(s, k, 0);
    lemma_first_above(s, k, 0);
    let r = insert_cond(s, k);
    assert(r.len() == s.len() + 1);
    assert forall|i: int| 0 <= i < r.len() implies #[trigger] r[i] == if i < p {
        s[i]
    } else if i == p {
        k
    } else {
        s[i - 1]
    } by {}
    assert forall|x: CondM| r.contains(x) <==> (s.contains(x) || x == k) by {
        if r.contains(x) {
            let i = choose|i: int| 0 <= i < r.len() && r[i] == x;
            if i < p {
                assert(s[i] == x);
            } else if i > p {
                assert(s[i - 1] == x);
            }
        }
        if s.contains(x) {
            let i = choose|i: int| 0 <= i < s.len() && s[i] == x;
            if i < p {
                assert(r[i] == x);
            } else {
                assert(r[i + 1] == x);
            }
        }
        if x == k {
            assert(r[p] == x);
        }
    }
    assert forall|i: int| 0 <= i < r.len() - 1 implies cond_lt(#[trigger] r[i], r[i + 1]) by {
        if i + 1 < p {
        } else if i + 1 == p {
            assert(s[i] != k);
            lemma_cond_total(s[i], k);
        } else if i == p {
        } else {
            assert(cond_lt(s[i - 1], s[i]));
        }
    }
    assert forall|i: int, j: int| 0 <= i < r.len() && 0 <= j < r.len() && i != j implies #[trigger] r[i] != #[trigger] r[j] by {
        if i != p && j != p {
            let a = if i < p { i } else { i - 1 };
            let b = if j < p { j } else { j - 1 };
            assert(r[i] == s[a] && r[j] == s[b]);
        } else if i == p {
            let b = if j < p { j } else { j - 1 };
            assert(r[j] == s[b]);
        } else {
            let a = if i < p { i } else { i - 1 };
            assert(r[i] == s[a]);
        }
    }
}

/// The head discriminators are sorted and distinct, and are exactly the
/// discriminators that head cases name.
pub proof fn lemma_head_conds(m: Seq<RowM>)
    ensures
        sorted_conds(head_conds(m)),
        distinct_conds(head_conds(m)),
        forall|x: CondM| head_conds(m).contains(x) <==> exists|a: int| 0 <= a < m.len() && row_head_cond(#[trigger] m[a]) == Some(x),
    decreases m.len(),
{
    if m.len() > 0 {
        let prev = head_conds(m.drop_last());
        lemma_head_conds(m.drop_last());
        match row_head_cond(m.last()) {
            Some(k) => if !prev.contains(k) {
                lemma_insert_cond(prev, k);
            },
            None => {},
        }
        assert forall|x: CondM| head_conds(m).contains(x) <==> exists|a: int| 0 <= a < m.len() && row_head_cond(#[trigger] m[a]) == Some(x) by {
            if head_conds(m).contains(x) {
                if prev.contains(x) {
                    let a = choose|a: int| 0 <= a < m.drop_last().len() && row_head_cond(#[trigger] m.drop_last()[a]) == Some(x);
                    assert(m[a] == m.drop_last()[a]);
                } else {
                    assert(row_head_cond(m[m.len() - 1]) == Some(x));
                }
            }
            if exists|a: int| 0 <= a < m.len() && row_head_cond(#[trigger] m[a]) == Some(x) {
                let a = choose|a: int| 0 <= a < m.len() && row_head_cond(#[trigger] m[a]) == Some(x);
                if a < m.len() - 1 {
                    assert(m.drop_last()[a] == m[a]);
                    assert(prev.contains(x));
                } else {
                    assert(m.last() == m[a]);
                }
            }
        }
    }
}

/// Constructor nodes in a pattern.
pub open spec fn pattern_weight(p: PatternM) -> nat
    decreases p, 0nat,
{
    match p {
        PatternM::Wildcard => 0,
        PatternM::Variable(_) => 0,
        PatternM::Tuple(ps) => 1 + patterns_weight(ps, ps.len()),
        PatternM::Cons(h, t) => 1 + pattern_weight(*h) + pattern_weight(*t),
        _ => 1,
    }
}

/// Constructor nodes in the first `n` patterns of `ps`.
pub open spec fn patterns_weight(ps: Seq<PatternM>, n: nat) -> nat
    decreases ps, n,
{
    if n == 0 || n > ps.len() {
        0
    } else {
        patterns_weight(ps, (n - 1) as nat) + pattern_weight(ps[n - 1])
    }
}

pub open spec fn cases_weight(cs: Seq<CaseM>) -> nat
    decreases cs.len(),
{
    if cs.len() == 0 {
        0
    } else {
        cases_weight(cs.drop_last()) + pattern_weight(cs.last().pat)
    }
}

pub open spec fn rows_weight(m: Seq<RowM>) -> nat
    decreases m.len(),
{
    if m.len() == 0 {
        0
    } else {
        rows_weight(m.drop_last()) + cases_weight(m.last().cases)
    }
}

pub open spec fn rows_count(m: Seq<RowM>) -> nat
    decreases m.len(),
{
    if m.len() == 0 {
        0
    } else {
        rows_count(m.drop_last()) + m.last().cases.len()
    }
}

/// The decision tree for a matrix: failure when no row is left, the first
/// row's action when it has no case left, and otherwise a switch on the
/// first row's head occurrence over the distinct head discriminators, with
/// the default matrix behind it.
pub open spec fn derive_tree(m: Seq<RowM>) -> TreeM
    decreases rows_weight(m), rows_count(m),
{
    if m.len() == 0 {
        TreeM::Failure
    } else if m[0].cases.len() == 0 {
        TreeM::Leaf(m[0].action)
    } else {
        proof {
            lemma_default_decreases(m);
            assert forall|i: int| 0 <= i < head_conds(m).len() implies rows_weight(
                specialize_matrix(m, #[trigger] head_conds(m)[i]),
            ) < rows_weight(m) by {
                lemma_specialize_decreases(m, head_conds(m)[i]);
            }
        }
        let ks = head_conds(m);
        let d = derive_tree(default_matrix(m));
        if ks.len() == 0 {
            d
        } else {
            TreeM::Switch(
                m[0].cases[0].occ,
                Seq::new(
                    ks.len(),
                    |i: int|
                        (
                            ks[i],
                            if 0 <= i < ks.len() {
                                derive_tree(specialize_matrix(m, ks[i]))
                            } else {
                                TreeM::Failure
                            },
                        ),
                ),
                Box::new(d),
            )
        }
    }
}

// ---------------------------------------------------------------------
// Termination of the synthesis.

pub proof fn lemma_cases_weight_concat(a: Seq<CaseM>, b: Seq<CaseM>)
    ensures
        cases_weight(a + b) == cases_weight(a) + cases_weight(b),
    decreases b.len(),
{
    if b.len() > 0 {
        assert((a + b).drop_last() =~= a + b.drop_last());
        lemma_cases_weight_concat(a, b.drop_last());
    } else {
        assert(a + b =~= a);
    }
}

pub proof fn lemma_cases_weight_expand(o: OccM, k: CondM, ps: Seq<PatternM>, n: nat)
    requires
        n <= ps.len(),
    ensures
        cases_weight(expand(o, k, ps).take(n as int)) == patterns_weight(ps, n),
    decreases n,
{
    if n > 0 {
        assert(expand(o, k, ps).take(n as int).drop_last() =~= expand(o, k, ps).take(n - 1));
        lemma_cases_weight_expand(o, k, ps, (n - 1) as nat);
    } else {
        assert(expand(o, k, ps).take(0) =~= seq![]);
    }
}

pub proof fn lemma_wildcards_weight(n: nat, j: nat)
    requires
        j <= n,
    ensures
        patterns_weight(wildcards(n), j) == 0,
    decreases j,
{
    if j > 0 {
        lemma_wildcards_weight(n, (j - 1) as nat);
        assert(wildcards(n)[j - 1] == PatternM::Wildcard);
        assert(pattern_weight(PatternM::Wildcard) == 0);
        assert(patterns_weight(wildcards(n), j) == patterns_weight(wildcards(n), (j - 1) as nat)
            + pattern_weight(wildcards(n)[j - 1]));
    }
}

pub proof fn lemma_cases_weight_split(cs: Seq<CaseM>)
    requires
        cs.len() > 0,
    ensures
        cases_weight(cs) == pattern_weight(cs[0].pat) + cases_weight(cs.drop_first()),
{
    assert(cs =~= seq![cs[0]] + cs.drop_first());
    lemma_cases_weight_concat(seq![cs[0]], cs.drop_first());
    assert(seq![cs[0]].drop_last() =~= seq![]);
    assert(cases_weight(seq![cs[0]]) == pattern_weight(cs[0].pat)) by {
        reveal_with_fuel(cases_weight, 2);
    }
}

pub proof fn lemma_specialize_row_weight(r: RowM, k: CondM)
    requires
        specialize_row(r, k) is Some,
    ensures
        cases_weight(specialize_row(r, k)->0.cases) <= cases_weight(r.cases),
        row_head_cond(r) == Some(k) ==> cases_weight(specialize_row(r, k)->0.cases) < cases_weight(
            r.cases,
        ),
{
    let c = r.cases[0];
    let s = specialize_case(c, k)->0;
    lemma_cases_weight_split(r.cases);
    lemma_cases_weight_concat(s, r.cases.drop_first());
    let ps = if pattern_cond(c.pat) is None {
        wildcards(arity(k))
    } else {
        sub_patterns(c.pat)
    };
    lemma_cases_weight_expand(c.occ, k, ps, ps.len());
    assert(expand(c.occ, k, ps).take(ps.len() as int) =~= s);
    if pattern_cond(c.pat) is None {
        lemma_wildcards_weight(arity(k), arity(k));
    } else {
        match c.pat {
            PatternM::Cons(h, t) => {
                assert(patterns_weight(sub_patterns(c.pat), 2) == pattern_weight(*h) + pattern_weight(*t)) by {
                    reveal_with_fuel(patterns_weight, 3);
                }
            },
            _ => {},
        }
    }
}

pub proof fn lemma_specialize_decreases(m: Seq<RowM>, k: CondM)
    ensures
        rows_weight(specialize_matrix(m, k)) <= rows_weight(m),
        head_conds(m).contains(k) ==> rows_weight(specialize_matrix(m, k)) < rows_weight(m),
    decreases m.len(),
{
    if m.len() > 0 {
        lemma_specialize_decreases(m.drop_last(), k);
        lemma_head_conds(m);
        lemma_head_conds(m.drop_last());
        if head_conds(m).contains(k) {
            let a = choose|a: int| 0 <= a < m.len() && row_head_cond(#[trigger] m[a]) == Some(k);
            if a < m.len() - 1 {
                assert(m.drop_last()[a] == m[a]);
            } else {
                assert(m.last() == m[a]);
            }
        }
        if specialize_row(m.last(), k) is Some {
            lemma_specialize_row_weight(m.last(), k);
            assert(specialize_matrix(m, k).drop_last() =~= specialize_matrix(m.drop_last(), k));
        }
    }
}

pub proof fn lemma_default_decreases(m: Seq<RowM>)
    ensures
        rows_weight(default_matrix(m)) <= rows_weight(m),
        rows_count(default_matrix(m)) <= rows_count(m),
        m.len() > 0 && m[0].cases.len() > 0 ==> rows_count(default_matrix(m)) < rows_count(m),
    decreases m.len(),
{
    if m.len() > 0 {
        lemma_default_decreases(m.drop_last());
        if default_row(m.last()) is Some {
            lemma_cases_weight_split(m.last().cases);
            assert(default_matrix(m).drop_last() =~= default_matrix(m.drop_last()));
        }
        if m.len() > 1 {
            assert(m.drop_last()[0] == m[0]);
        }
    }
}

// ---------------------------------------------------------------------
// Executable synthesis.

/// Whether two discriminators are the same.
pub fn same_cond(a: &Cond, b: &Cond) -> (r: bool)
    ensures
        r == (a.model() == b.model()),
{
    match (a, b) {
        (Cond::Number(x), Cond::Number(y)) => *x == *y,
        (Cond::String(x), Cond::String(y)) => x.eq(y),
        (Cond::Atom(x), Cond::Atom(y)) => x.eq(y),
        (Cond::Tuple(x), Cond::Tuple(y)) => *x == *y,
        (Cond::Cons, Cond::Cons) => true,
        (Cond::Nil, Cond::Nil) => true,
        _ => false,
    }
}

/// Whether `a` comes before `b` in the canonical order.
fn cond_less(a: &Cond, b: &Cond) -> (r: bool)
    ensures
        r == cond_lt(a.model(), b.model()),
{
    match (a, b) {
        (Cond::Number(x), Cond::Number(y)) => *x < *y,
        (Cond::String(x), Cond::String(y)) => string_less(x, y),
        (Cond::Atom(x), Cond::Atom(y)) => string_less(x, y),
        (Cond::Tuple(x), Cond::Tuple(y)) => *x < *y,
        _ => cond_rank_of(a) < cond_rank_of(b),
    }
}

fn cond_rank_of(a: &Cond) -> (r: u8)
    ensures
        r as int == cond_rank(a.model()),
{
    match a {
        Cond::Number(_) => 0,
        Cond::String(_) => 1,
        Cond::Atom(_) => 2,
        Cond::Tuple(_) => 3,
        Cond::Cons => 4,
        Cond::Nil => 5,
    }
}

/// Lexicographic comparison of two strings.
fn string_less(a: &String, b: &String) -> (r: bool)
    ensures
        r == chars_lt(a@, b@),
{
    let x = a.as_str();
    let y = b.as_str();
    let n = x.unicode_len();
    let m = y.unicode_len();
    let mut i: usize = 0;
    assert(a@.skip(0) =~= a@);
    assert(b@.skip(0) =~= b@);
    while i < n && i < m
        invariant
            x@ == a@,
            y@ == b@,
            n == a@.len(),
            m == b@.len(),
            i <= n,
            i <= m,
            chars_lt(a@, b@) == chars_lt(a@.skip(i as int), b@.skip(i as int)),
        decreases n - i,
    {
        let c = x.get_char(i);
        let d = y.get_char(i);
        assert(a@.skip(i as int)[0] == c && b@.skip(i as int)[0] == d);
        if c != d {
            return c < d;
        }
        assert(a@.skip(i as int).drop_first() =~= a@.skip(i + 1));
        assert(b@.skip(i as int).drop_first() =~= b@.skip(i + 1));
        i += 1;
    }
    i == n && i < m
}

/// The projection to the `i`-th sub-value under `cond`.
fn step_of(cond: &Cond, i: usize) -> (r: Acc)
    ensures
        r == step(cond.model(), i as int),
{
    match cond {
        Cond::Cons => if i == 0 {
            Acc::Head
        } else {
            Acc::Tail
        },
        _ => Acc::Tup(i),
    }
}

impl Case {
    /// The case for a sub-pattern one step below `occurrence`.
    fn derive(occurrence: &Occurrence, pattern: Pattern, step: Acc) -> (r: Self)
        ensures
            r.model() == (CaseM {
                occ: OccM { root: occurrence.model().root, path: occurrence.model().path.push(step) },
                pat: pattern.model(),
            }),
    {
        Case { occurrence: occurrence.with_step(step), pattern }
    }

    /// A copy of the case.
    pub fn duplicate(&self) -> (r: Self)
        ensures
            r.model() == self.model(),
    {
        Case { occurrence: self.occurrence.duplicate(), pattern: self.pattern.duplicate() }
    }

    /// The cases that replace this one when its value has discriminator
    /// `cond`: the sub-patterns of a matching constructor, fresh wildcards
    /// for a wildcard or variable, and `None` when it cannot match.
    pub fn specialize(self, cond: &Cond) -> (r: Option<Vec<Case>>)
        ensures
            r is Some <==> specialize_case(self.model(), cond.model()) is Some,
            r is Some ==> r->0@.map_values(|c: Case| c.model()) == specialize_case(
                self.model(),
                cond.model(),
            )->0,
    {
        let ghost k = cond.model();
        let ghost cm = self.model();
        let Case { occurrence, pattern } = self;
        let subs: Vec<Pattern> = match pattern {
            Pattern::Wildcard | Pattern::Variable { .. } => {
                let n: usize = match cond {
                    Cond::Tuple(n) => *n,
                    Cond::Cons => 2,
                    _ => 0,
                };
                let mut w: Vec<Pattern> = Vec::new();
                let mut i: usize = 0;
                while i < n
                    invariant
                        i <= n,
                        n == arity(k),
                        w.len() == i,
                        forall|j: int| 0 <= j < i ==> (#[trigger] w[j]).model() == PatternM::Wildcard,
                    decreases n - i,
                {
                    w.push(Pattern::Wildcard);
                    i += 1;
                }
                assert(patterns_model_of(w@) =~= wildcards(arity(k)));
                w
            },
            Pattern::Number { value } => match cond {
                Cond::Number(b) if value == *b => Vec::new(),
                _ => return None,
            },
            Pattern::String { value } => match cond {
                Cond::String(b) if value.eq(b) => Vec::new(),
                _ => return None,
            },
            Pattern::Atom { value } => match cond {
                Cond::Atom(b) if value.eq(b) => Vec::new(),
                _ => return None,
            },
            Pattern::Tuple { elements } => match cond {
                Cond::Tuple(b) if elements.len() == *b => {
                    assert(patterns_model_of(elements@) =~= sub_patterns(cm.pat));
                    elements
                },
                _ => return None,
            },
            Pattern::Cons { head, tail } => match cond {
                Cond::Cons => {
                    let v = vec![*head, *tail];
                    assert(patterns_model_of(v@) =~= sub_patterns(cm.pat));
                    v
                },
                _ => return None,
            },
            Pattern::Nil => match cond {
                Cond::Nil => Vec::new(),
                _ => return None,
            },
        };
        let ghost ps = patterns_model_of(subs@);
        assert(specialize_case(cm, k) == Some(expand(cm.occ, k, ps)));
        let mut out: Vec<Case> = Vec::new();
        let mut rest = subs;
        let mut i: usize = 0;
        let n = rest.len();
        while i < n
            invariant
                i <= n,
                n == ps.len(),
                rest.len() == n - i,
                forall|j: int| 0 <= j < n - i ==> (#[trigger] rest[j]).model() == ps[i + j],
                out.len() == i,
                forall|j: int| 0 <= j < i ==> (#[trigger] out[j]).model() == expand(cm.occ, k, ps)[j],
                occurrence.model() == cm.occ,
                k == cond.model(),
            decreases n - i,
        {
            assert(rest[0].model() == ps[i as int]);
            let p = rest.remove(0);
            let s = step_of(cond, i);
            let c = Case::derive(&occurrence, p, s);
            assert(c.model() == expand(cm.occ, k, ps)[i as int]);
            out.push(c);
            i += 1;
        }
        assert(out@.map_values(|c: Case| c.model()) =~= expand(cm.occ, k, ps));
        Some(out)
    }

    /// No cases replace a wildcard or variable in the default matrix; a
    /// constructor pattern gives `None`.
    pub fn default(self) -> (r: Option<Vec<Case>>)
        ensures
            r is Some <==> pattern_cond(self.model().pat) is None,
            r is Some ==> r->0@.len() == 0,
    {
        match self.pattern {
            Pattern::Variable { .. } | Pattern::Wildcard => Some(Vec::new()),
            _ => None,
        }
    }

    /// The discriminator this case tests for.
    pub fn as_cond(&self) -> (r: Option<Cond>)
        ensures
            r is None <==> pattern_cond(self.model().pat) is None,
            r is Some ==> pattern_cond(self.model().pat) == Some(r->0.model()),
    {
        match &self.pattern {
            Pattern::Variable { .. } | Pattern::Wildcard => None,
            Pattern::Number { value } => Some(Cond::Number(*value)),
            Pattern::Tuple { elements } => Some(Cond::Tuple(elements.len())),
            Pattern::Atom { value } => Some(Cond::Atom(copy_string(value))),
            Pattern::String { value } => Some(Cond::String(copy_string(value))),
            Pattern::Cons { .. } => Some(Cond::Cons),
            Pattern::Nil => Some(Cond::Nil),
        }
    }
}

/// The models of a sequence of patterns.
pub open spec fn patterns_model_of(v: Seq<Pattern>) -> Seq<PatternM> {
    Seq::new(v.len(), |i: int| v[i].model())
}

pub open spec fn cases_model(v: Seq<Case>) -> Seq<CaseM> {
    v.map_values(|c: Case| c.model())
}

impl Row {
    /// A copy of the row.
    pub fn duplicate(&self) -> (r: Self)
        ensures
            r.model() == self.model(),
    {
        let mut out: Vec<Case> = Vec::new();
        let mut i: usize = 0;
        while i < self.0.len()
            invariant
                i <= self.0.len(),
                out.len() == i,
                forall|j: int| 0 <= j < i ==> (#[trigger] out[j]).model() == self.0[j].model(),
            decreases self.0.len() - i,
        {
            out.push(self.0[i].duplicate());
            i += 1;
        }
        let r = Row(out, self.1);
        assert(r.model().cases =~= self.model().cases);
        r
    }

    /// The row for the default matrix: its head case dropped when it is a
    /// wildcard or variable, `None` otherwise.
    pub fn default(self) -> (r: Option<Self>)
        ensures
            match default_row(self.model()) {
                Some(m) => r is Some && r->0.model() == m,
                None => r is None,
            },
    {
        let ghost rm = self.model();
        let Row(mut cases, action) = self;
        if cases.len() == 0 {
            return None;
        }
        let head = cases.remove(0);
        let mut new_head = head.default()?;
        new_head.append(&mut cases);
        let r = Row(new_head, action);
        assert(r.model().cases =~= rm.cases.drop_first());
        Some(r)
    }

    /// The row for the matrix specialised on `cond`: its head case replaced
    /// by the cases it hands on, `None` when it cannot match.
    pub fn specialize(self, cond: &Cond) -> (r: Option<Self>)
        ensures
            match specialize_row(self.model(), cond.model()) {
                Some(m) => r is Some && r->0.model() == m,
                None => r is None,
            },
    {
        let ghost rm = self.model();
        let Row(mut cases, action) = self;
        if cases.len() == 0 {
            return None;
        }
        let head = cases.remove(0);
        assert(cases_model(cases@) =~= rm.cases.drop_first());
        let mut new_head = head.specialize(cond)?;
        let ghost h = cases_model(new_head@);
        new_head.append(&mut cases);
        let r = Row(new_head, action);
        assert(r.model().cases =~= h + rm.cases.drop_first());
        Some(r)
    }

    /// The discriminator of the head case.
    pub fn head_cond(&self) -> (r: Option<Cond>)
        ensures
            r is None <==> row_head_cond(self.model()) is None,
            r is Some ==> row_head_cond(self.model()) == Some(r->0.model()),
    {
        if self.0.len() == 0 {
            None
        } else {
            self.0[0].as_cond()
        }
    }
}

/// The initial matrix: one row per clause, pairing each scrutinee with
/// the clause's pattern in that position, tagged with the clause's index.
pub open spec fn initial_matrix(pats: Seq<Seq<PatternM>>, roots: Seq<ExprM>) -> Seq<RowM> {
    Seq::new(
        pats.len(),
        |i: int|
            RowM {
                cases: Seq::new(
                    pats[i].len(),
                    |j: int| CaseM { occ: OccM { root: roots[j], path: seq![] }, pat: pats[i][j] },
                ),
                action: i as nat,
            },
    )
}

pub open spec fn pattern_rows_model(v: Seq<Vec<Pattern>>) -> Seq<Seq<PatternM>> {
    Seq::new(v.len(), |i: int| patterns_model_of(v[i]@))
}

pub open spec fn exprs_model_of(v: Seq<Expression>) -> Seq<ExprM> {
    Seq::new(v.len(), |i: int| v[i].model())
}

impl Problem {
    /// The matrix of a clause set: clause `i` becomes row `i`, its `j`-th
    /// pattern tested at scrutinee `j`.
    pub fn new(patterns: Vec<Vec<Pattern>>, scrutinee: Vec<Expression>) -> (r: Self)
        requires
            forall|i: int| 0 <= i < patterns.len() ==> (#[trigger] patterns[i]).len() <= scrutinee.len(),
        ensures
            r.model() == initial_matrix(pattern_rows_model(patterns@), exprs_model_of(scrutinee@)),
    {
        let ghost target = initial_matrix(pattern_rows_model(patterns@), exprs_model_of(scrutinee@));
        let mut matrix: Vec<Row> = Vec::new();
        let mut idx: usize = 0;
        while idx < patterns.len()
            invariant
                idx <= patterns.len(),
                forall|i: int| 0 <= i < patterns.len() ==> (#[trigger] patterns[i]).len() <= scrutinee.len(),
                target == initial_matrix(pattern_rows_model(patterns@), exprs_model_of(scrutinee@)),
                matrix.len() == idx,
                forall|i: int| 0 <= i < idx ==> (#[trigger] matrix[i]).model() == target[i],
            decreases patterns.len() - idx,
        {
            let row_pats = &patterns[idx];
            let mut row: Vec<Case> = Vec::new();
            let mut j: usize = 0;
            while j < row_pats.len()
                invariant
                    j <= row_pats.len(),
                    row_pats.len() <= scrutinee.len(),
                    row.len() == j,
                    forall|t: int| 0 <= t < j ==> (#[trigger] row[t]).model() == (CaseM {
                        occ: OccM { root: scrutinee[t].model(), path: seq![] },
                        pat: row_pats[t].model(),
                    }),
                decreases row_pats.len() - j,
            {
                let occ = Occurrence(scrutinee[j].duplicate(), Vec::new());
                row.push(Case { occurrence: occ, pattern: row_pats[j].duplicate() });
                j += 1;
            }
            let r = Row(row, idx);
            assert(r.model().cases =~= target[idx as int].cases);
            matrix.push(r);
            idx += 1;
        }
        let r = Problem { matrix };
        assert(r.model() =~= target);
        r
    }

    /// The first row's action, when that row has no case left.
    pub fn matching_leaf(&self) -> (r: Option<usize>)
        ensures
            r is Some <==> self.model().len() > 0 && self.model()[0].cases.len() == 0,
            r is Some ==> r->0 == self.model()[0].action,
    {
        if self.matrix.len() == 0 {
            return None;
        }
        let head = &self.matrix[0];
        if head.0.len() == 0 {
            Some(head.1)
        } else {
            None
        }
    }

    /// The occurrence of the first row's head case.
    pub fn head_occurrence(&self) -> (r: Occurrence)
        requires
            self.model().len() > 0,
            self.model()[0].cases.len() > 0,
        ensures
            r.model() == self.model()[0].cases[0].occ,
    {
        self.matrix[0].0[0].occurrence.duplicate()
    }

    /// The distinct discriminators among the head cases, in canonical
    /// order: each below the next.
    pub fn head_conds(&self) -> (r: Vec<Cond>)
        ensures
            r@.map_values(|c: Cond| c.model()) == head_conds(self.model()),
            sorted_conds(head_conds(self.model())),
            distinct_conds(head_conds(self.model())),
    {
        let ghost m = self.model();
        let mut conds: Vec<Cond> = Vec::new();
        let mut i: usize = 0;
        while i < self.matrix.len()
            invariant
                i <= self.matrix.len(),
                m == self.model(),
                conds@.map_values(|c: Cond| c.model()) == head_conds(m.take(i as int)),
            decreases self.matrix.len() - i,
        {
            assert(m.take(i + 1).drop_last() =~= m.take(i as int));
            proof {
                lemma_head_conds(m.take(i as int));
            }
            if let Some(cond) = self.matrix[i].head_cond() {
                let ghost prev = conds@.map_values(|c: Cond| c.model());
                let ghost k = cond.model();
                let mut found = false;
                let mut above: usize = conds.len();
                let mut j: usize = 0;
                while j < conds.len()
                    invariant
                        j <= conds.len(),
                        prev == conds@.map_values(|c: Cond| c.model()),
                        k == cond.model(),
                        found <==> exists|t: int| 0 <= t < j && prev[t] == k,
                        above <= conds.len(),
                        above == conds.len() ==> first_above(prev, k, 0) == first_above(prev, k, j as int),
                        above < conds.len() ==> above < j && first_above(prev, k, 0) == above,
                    decreases conds.len() - j,
                {
                    assert(prev[j as int] == conds[j as int].model());
                    if same_cond(&conds[j], &cond) {
                        found = true;
                    }
                    if above == conds.len() && cond_less(&cond, &conds[j]) {
                        above = j;
                    }
                    j += 1;
                }
                if !found {
                    assert(first_above(prev, k, 0) == above as int);
                    let ghost before = conds@;
                    conds.insert(above, cond);
                    assert forall|t: int| 0 <= t < conds.len() implies (#[trigger] conds@[t]).model()
                        == insert_cond(prev, k)[t] by {
                        if t < above {
                            assert(conds@[t] == before[t]);
                        } else if t > above {
                            assert(conds@[t] == before[t - 1]);
                        }
                    }
                    assert(conds@.map_values(|c: Cond| c.model()) =~= insert_cond(prev, k));
                }
            }
            i += 1;
        }
        assert(m.take(i as int) =~= m);
        proof {
            lemma_head_conds(m);
        }
        conds
    }

    /// The matrix specialised on `cond`.
    fn specialized(&self, cond: &Cond) -> (r: Problem)
        ensures
            r.model() == specialize_matrix(self.model(), cond.model()),
    {
        let ghost m = self.model();
        let ghost k = cond.model();
        let mut matrix: Vec<Row> = Vec::new();
        let mut i: usize = 0;
        while i < self.matrix.len()
            invariant
                i <= self.matrix.len(),
                m == self.model(),
                k == cond.model(),
                matrix@.map_values(|r: Row| r.model()) == specialize_matrix(m.take(i as int), k),
            decreases self.matrix.len() - i,
        {
            assert(m.take(i + 1).drop_last() =~= m.take(i as int));
            let ghost prev = matrix@.map_values(|r: Row| r.model());
            if let Some(row) = self.matrix[i].duplicate().specialize(cond) {
                matrix.push(row);
                assert(matrix@.map_values(|r: Row| r.model()) =~= prev.push(row.model()));
            }
            i += 1;
        }
        assert(m.take(i as int) =~= m);
        Problem { matrix }
    }

    /// The default matrix.
    fn defaulted(&self) -> (r: Problem)
        ensures
            r.model() == default_matrix(self.model()),
    {
        let ghost m = self.model();
        let mut matrix: Vec<Row> = Vec::new();
        let mut i: usize = 0;
        while i < self.matrix.len()
            invariant
                i <= self.matrix.len(),
                m == self.model(),
                matrix@.map_values(|r: Row| r.model()) == default_matrix(m.take(i as int)),
            decreases self.matrix.len() - i,
        {
            assert(m.take(i + 1).drop_last() =~= m.take(i as int));
            let ghost prev = matrix@.map_values(|r: Row| r.model());
            if let Some(row) = self.matrix[i].duplicate().default() {
                matrix.push(row);
                assert(matrix@.map_values(|r: Row| r.model()) =~= prev.push(row.model()));
            }
            i += 1;
        }
        assert(m.take(i as int) =~= m);
        Problem { matrix }
    }

    /// The tree for the default matrix.
    pub fn default(self) -> (r: Tree)
        ensures
            r.model() == derive_tree(default_matrix(self.model())),
    {
        self.defaulted().derive()
    }

    /// The tree for the matrix specialised on `cond`.
    pub fn specialize(&self, cond: Cond) -> (r: Tree)
        ensures
            r.model() == derive_tree(specialize_matrix(self.model(), cond.model())),
    {
        self.specialized(&cond).derive()
    }

    /// The decision tree of the matrix.
    pub fn derive(self) -> (r: Tree)
        ensures
            r.model() == derive_tree(self.model()),
            self.model().len() > 0 && self.model()[0].cases.len() > 0 && head_conds(self.model()).len() > 0
                ==> r.model() is Switch && branch_conds(r.model()->Switch_1) == head_conds(self.model())
                && sorted_conds(branch_conds(r.model()->Switch_1))
                && distinct_conds(branch_conds(r.model()->Switch_1)),
        decreases rows_weight(self.model()), rows_count(self.model()),
    {
        let ghost m = self.model();
        if self.matrix.len() == 0 {
            return Tree::Failure;
        }
        if let Some(leaf) = self.matching_leaf() {
            return Tree::Leaf(leaf);
        }
        let occurrence = self.head_occurrence();
        let conds = self.head_conds();
        let ghost ks = head_conds(m);
        proof {
            lemma_default_decreases(m);
        }
        let mut cases: Vec<(Cond, Tree)> = Vec::new();
        let mut i: usize = 0;
        while i < conds.len()
            invariant
                i <= conds.len(),
                m == self.model(),
                ks == head_conds(m),
                conds@.map_values(|c: Cond| c.model()) == ks,
                cases.len() == i,
                forall|j: int|
                    0 <= j < i ==> (#[trigger] cases[j]).0.model() == ks[j] && cases[j].1.model()
                        == derive_tree(specialize_matrix(m, ks[j])),
            decreases conds.len() - i,
        {
            assert(conds[i as int].model() == ks[i as int]);
            proof {
                lemma_specialize_decreases(m, ks[i as int]);
            }
            let sub = self.specialized(&conds[i]);
            let t = sub.derive();
            cases.push((conds[i].duplicate(), t));
            i += 1;
        }
        let default = self.defaulted().derive();
        if cases.len() == 0 {
            default
        } else {
            let r = Tree::Switch(Box::new(occurrence), cases, Box::new(default));
            assert(r.model()->Switch_1 =~= derive_tree(m)->Switch_1);
            assert(branch_conds(r.model()->Switch_1) =~= ks);
            proof {
                lemma_head_conds(m);
            }
            r
        }
    }
}

// ---------------------------------------------------------------------
// Exhaustiveness.

/// Every case of the row is a wildcard or a variable.
pub open spec fn all_wild(r: RowM) -> bool {
    forall|i: int| 0 <= i < r.cases.len() ==> pattern_cond(#[trigger] r.cases[i].pat) is None
}

/// Every row of the matrix has `n` cases.
pub open spec fn all_of_width(m: Seq<RowM>, n: nat) -> bool {
    forall|i: int| 0 <= i < m.len() ==> (#[trigger] m[i]).cases.len() == n
}

/// The tree has no `Failure` node.
pub open spec fn no_failure(t: TreeM) -> bool
    decreases t,
{
    match t {
        TreeM::Failure => false,
        TreeM::Leaf(_) => true,
        TreeM::Switch(_, bs, d) => (forall|i: int|
            0 <= i < bs.len() ==> no_failure(#[trigger] bs[i].1)) && no_failure(*d),
    }
}

proof fn lemma_specialize_shape(m: Seq<RowM>, k: CondM, n: nat)
    requires
        n > 0,
        all_of_width(m, n),
    ensures
        all_of_width(specialize_matrix(m, k), (arity(k) + n - 1) as nat),
        m.len() > 0 && all_wild(m.last()) ==> specialize_matrix(m, k).len() > 0 && all_wild(
            specialize_matrix(m, k).last(),
        ),
    decreases m.len(),
{
    if m.len() > 0 {
        let prev = m.drop_last();
        lemma_specialize_shape(prev, k, n);
        let r = m.last();
        assert(r == m[m.len() - 1]);
        let c = r.cases[0];
        match specialize_case(c, k) {
            Some(s) => {
                if pattern_cond(c.pat) is Some {
                    match c.pat {
                        PatternM::Tuple(ps) => {},
                        PatternM::Cons(h, t) => {},
                        _ => {},
                    }
                }
                let r2 = specialize_row(r, k)->0;
                assert(r2.cases.len() == arity(k) + n - 1);
                if all_wild(r) {
                    assert forall|i: int| 0 <= i < r2.cases.len() implies pattern_cond(
                        #[trigger] r2.cases[i].pat,
                    ) is None by {
                        if i >= s.len() {
                            assert(r2.cases[i] == r.cases[i - s.len() + 1]);
                        }
                    }
                }
            },
            None => {},
        }
    }
}

proof fn lemma_default_shape(m: Seq<RowM>, n: nat)
    requires
        n > 0,
        all_of_width(m, n),
    ensures
        all_of_width(default_matrix(m), (n - 1) as nat),
        m.len() > 0 && all_wild(m.last()) ==> default_matrix(m).len() > 0 && all_wild(
            default_matrix(m).last(),
        ),
    decreases m.len(),
{
    if m.len() > 0 {
        lemma_default_shape(m.drop_last(), n);
        let r = m.last();
        assert(r == m[m.len() - 1]);
        if all_wild(r) {
            assert(pattern_cond(r.cases[0].pat) is None);
            let r2 = default_row(r)->0;
            assert forall|i: int| 0 <= i < r2.cases.len() implies pattern_cond(
                #[trigger] r2.cases[i].pat,
            ) is None by {
                assert(r2.cases[i] == r.cases[i + 1]);
            }
        }
    }
}

/// A matrix whose rows all have the same width and whose last row is all
/// wildcards and variables gives a tree without a `Failure` node.
pub proof fn lemma_derive_no_failure(m: Seq<RowM>, n: nat)
    requires
        m.len() > 0,
        all_of_width(m, n),
        all_wild(m.last()),
    ensures
        no_failure(derive_tree(m)),
    decreases rows_weight(m), rows_count(m),
{
    assert(m[0].cases.len() == n);
    if n > 0 {
        lemma_default_decreases(m);
        lemma_default_shape(m, n);
        lemma_derive_no_failure(default_matrix(m), (n - 1) as nat);
        let ks = head_conds(m);
        let t = derive_tree(m);
        if ks.len() > 0 {
            let bs = t->Switch_1;
            assert forall|i: int| 0 <= i < bs.len() implies no_failure(#[trigger] bs[i].1) by {
                assert(ks.contains(ks[i]));
                lemma_specialize_decreases(m, ks[i]);
                lemma_specialize_shape(m, ks[i], n);
                lemma_derive_no_failure(specialize_matrix(m, ks[i]), (arity(ks[i]) + n - 1) as nat);
                assert(bs[i].1 == derive_tree(specialize_matrix(m, ks[i])));
            }
            assert(*t->Switch_2 == derive_tree(default_matrix(m)));
        }
    }
}

/// Exhaustiveness: when every clause has one pattern per scrutinee and the
/// last clause is made of wildcards and variables only, the decision tree
/// has no `Failure` node, so no input can fail to match.
pub proof fn lemma_catch_all_exhaustive(pats: Seq<Seq<PatternM>>, roots: Seq<ExprM>)
    requires
        pats.len() > 0,
        forall|i: int| 0 <= i < pats.len() ==> (#[trigger] pats[i]).len() == roots.len(),
        forall|j: int|
            0 <= j < roots.len() ==> pattern_cond(#[trigger] pats[pats.len() - 1][j]) is None,
    ensures
        no_failure(derive_tree(initial_matrix(pats, roots))),
{
    let m = initial_matrix(pats, roots);
    assert(m.last() == m[pats.len() - 1]);
    assert forall|j: int| 0 <= j < m.last().cases.len() implies pattern_cond(
        #[trigger] m.last().cases[j].pat,
    ) is None by {
        assert(m.last().cases[j].pat == pats[pats.len() - 1][j]);
    }
    lemma_derive_no_failure(m, roots.len());
}

// ---------------------------------------------------------------------
// Binders.

/// The variables a pattern binds, each with the occurrence of its value,
/// left to right.
pub open spec fn binders_of(p: PatternM, o: OccM) -> Seq<(Seq<char>, OccM)>
    decreases p, 0nat,
{
    match p {
        PatternM::Variable(n) => seq![(n, o)],
        PatternM::Tuple(ps) => tuple_binders(ps, o, ps.len()),
        PatternM::Cons(h, t) => binders_of(*h, OccM { root: o.root, path: o.path.push(Acc::Head) })
            + binders_of(*t, OccM { root: o.root, path: o.path.push(Acc::Tail) }),
        _ => seq![],
    }
}

/// The binders of the first `n` fields of a tuple pattern.
pub open spec fn tuple_binders(ps: Seq<PatternM>, o: OccM, n: nat) -> Seq<(Seq<char>, OccM)>
    decreases ps, n,
{
    if n == 0 || n > ps.len() {
        seq![]
    } else {
        tuple_binders(ps, o, (n - 1) as nat) + binders_of(
            ps[n - 1],
            OccM { root: o.root, path: o.path.push(Acc::Tup((n - 1) as usize)) },
        )
    }
}

pub open spec fn bindings_model(v: Seq<(String, Occurrence)>) -> Seq<(Seq<char>, OccM)> {
    Seq::new(v.len(), |i: int| (v[i].0@, v[i].1.model()))
}

fn bind(pat: &Pattern, occ: &Occurrence, binders: &mut Vec<(String, Occurrence)>)
    ensures
        bindings_model(final(binders)@) == bindings_model(old(binders)@) + binders_of(
            pat.model(),
            occ.model(),
        ),
    decreases pat,
{
    let ghost before = bindings_model(binders@);
    match pat {
        Pattern::Variable { name } => {
            binders.push((copy_string(name), occ.duplicate()));
            assert(bindings_model(binders@) =~= before + binders_of(pat.model(), occ.model()));
        },
        Pattern::Tuple { elements } => {
            let ghost ps = pat.model()->Tuple_0;
            let mut i: usize = 0;
            while i < elements.len()
                invariant
                    *pat == (Pattern::Tuple { elements: *elements }),
                    ps == pat.model()->Tuple_0,
                    i <= elements.len(),
                    bindings_model(binders@) == before + tuple_binders(ps, occ.model(), i as nat),
                decreases elements.len() - i,
            {
                proof {
                    assert(decreases_to!(*pat => pat->elements));
                    assert(decreases_to!(*elements => elements@));
                    assert(decreases_to!(elements@ => elements@[i as int]));
                }
                let sub = occ.with_index(i);
                bind(&elements[i], &sub, binders);
                assert(bindings_model(binders@) =~= before + tuple_binders(ps, occ.model(), (i + 1) as nat));
                i += 1;
            }
        },
        Pattern::Cons { head, tail } => {
            let h = occ.with_step(Acc::Head);
            bind(head, &h, binders);
            let t = occ.with_step(Acc::Tail);
            bind(tail, &t, binders);
            assert(bindings_model(binders@) =~= before + binders_of(pat.model(), occ.model()));
        },
        Pattern::Wildcard | Pattern::Number { .. } | Pattern::String { .. } | Pattern::Atom { .. }
        | Pattern::Nil => {
            assert(bindings_model(binders@) =~= before + binders_of(pat.model(), occ.model()));
        },
    }
}

impl Pattern {
    /// The variables the pattern binds, each paired with the occurrence of
    /// its value below `e`, left to right.
    pub fn binders(&self, e: Expression) -> (r: Vec<(String, Occurrence)>)
        ensures
            bindings_model(r@) == binders_of(self.model(), OccM { root: e.model(), path: seq![] }),
    {
        let mut binders: Vec<(String, Occurrence)> = Vec::new();
        let occ = Occurrence(e, Vec::new());
        assert(occ.model().path =~= seq![]);
        bind(self, &occ, &mut binders);
        assert(bindings_model(binders@) =~= bindings_model(seq![]) + binders_of(self.model(), occ.model()));
        binders
    }
}

/// `body` under one `let` per binder, each binding the name to the replay
/// of its occurrence; the first binder ends up innermost.
pub open spec fn wrap_lets(bs: Seq<(Seq<char>, OccM)>, body: ExprM) -> ExprM
    decreases bs.len(),
{
    if bs.len() == 0 {
        body
    } else {
        ExprM::Let(
            bs.last().0,
            Box::new(replay(bs.last().1.root, bs.last().1.path)),
            Box::new(wrap_lets(bs.drop_last(), body)),
        )
    }
}

/// The binders of a clause whose `j`-th pattern is matched against the
/// variable `params[j]`, for the first `n` positions.
pub open spec fn clause_binders(params: Seq<Seq<char>>, pats: Seq<PatternM>, n: nat) -> Seq<
    (Seq<char>, OccM),
>
    decreases n,
{
    if n == 0 || n > pats.len() || n > params.len() {
        seq![]
    } else {
        clause_binders(params, pats, (n - 1) as nat) + binders_of(
            pats[n - 1],
            OccM { root: ExprM::Variable(params[n - 1]), path: seq![] },
        )
    }
}

pub open spec fn min_nat(a: nat, b: nat) -> nat {
    if a < b {
        a
    } else {
        b
    }
}

/// The action of a clause with its pattern variables bound.
pub open spec fn bound_action(params: Seq<Seq<char>>, pats: Seq<PatternM>, action: ExprM) -> ExprM {
    wrap_lets(clause_binders(params, pats, min_nat(params.len(), pats.len())), action)
}

pub open spec fn names_model(v: Seq<String>) -> Seq<Seq<char>> {
    Seq::new(v.len(), |i: int| v[i]@)
}

pub open spec fn variables_of(names: Seq<Seq<char>>) -> Seq<ExprM> {
    Seq::new(names.len(), |i: int| ExprM::Variable(names[i]))
}

/// Wraps `action` in the `let`s of `binders`, first binder innermost.
fn wrap_in_lets(binders: Vec<(String, Occurrence)>, action: Expression) -> (r: Expression)
    ensures
        r.model() == wrap_lets(bindings_model(binders@), action.model()),
{
    let ghost bs = bindings_model(binders@);
    let mut acc = action;
    let mut rest = binders;
    let mut i: usize = 0;
    let n = rest.len();
    while i < n
        invariant
            n == bs.len(),
            i <= n,
            bindings_model(rest@) == bs.subrange(i as int, n as int),
            rest.len() == n - i,
            acc.model() == wrap_lets(bs.take(i as int), action.model()),
        decreases n - i,
    {
        let ghost tail = bindings_model(rest@);
        assert(tail[0] == bs[i as int]);
        let ghost old_rest = rest@;
        let (name, occ) = rest.remove(0);
        assert forall|k: int| 0 <= k < rest.len() implies bindings_model(rest@)[k] == bs.subrange(
            i + 1,
            n as int,
        )[k] by {
            assert(rest@[k] == old_rest[k + 1]);
            assert(tail[k + 1] == bs[i + 1 + k]);
        }
        assert(bindings_model(rest@) =~= bs.subrange(i + 1, n as int));
        acc = Expression::Let { bind: name, value: Box::new(occ.to_expression()), next: Box::new(acc) };
        assert(bs.take(i + 1).drop_last() =~= bs.take(i as int));
        i += 1;
    }
    assert(bs.take(n as int) =~= bs);
    acc
}

impl Problem {
    /// The decision tree over the variables `parameters` for the clauses
    /// `patterns`, and each clause's action with its pattern variables bound
    /// by `let`s that replay their occurrences.
    pub fn with_parameters(
        parameters: Vec<String>,
        patterns: Vec<Vec<Pattern>>,
        actions: Vec<Expression>,
    ) -> (r: (Tree, Vec<Expression>))
        requires
            forall|i: int| 0 <= i < patterns.len() ==> (#[trigger] patterns[i]).len() <= parameters.len(),
        ensures
            r.0.model() == derive_tree(
                initial_matrix(pattern_rows_model(patterns@), variables_of(names_model(parameters@))),
            ),
            r.1.len() == min_nat(patterns.len() as nat, actions.len() as nat),
            forall|i: int|
                0 <= i < r.1.len() ==> (#[trigger] r.1[i]).model() == bound_action(
                    names_model(parameters@),
                    patterns_model_of(patterns[i]@),
                    actions[i].model(),
                ),
    {
        let ghost params = names_model(parameters@);
        let mut new_actions: Vec<Expression> = Vec::new();
        let n = if patterns.len() < actions.len() {
            patterns.len()
        } else {
            actions.len()
        };
        let mut i: usize = 0;
        while i < n
            invariant
                n == min_nat(patterns.len() as nat, actions.len() as nat),
                i <= n,
                params == names_model(parameters@),
                new_actions.len() == i,
                forall|t: int|
                    0 <= t < i ==> (#[trigger] new_actions[t]).model() == bound_action(
                        params,
                        patterns_model_of(patterns[t]@),
                        actions[t].model(),
                    ),
            decreases n - i,
        {
            let pats = &patterns[i];
            let ghost pm = patterns_model_of(pats@);
            let m = if parameters.len() < pats.len() {
                parameters.len()
            } else {
                pats.len()
            };
            let mut ctx: Vec<(String, Occurrence)> = Vec::new();
            let mut j: usize = 0;
            while j < m
                invariant
                    m == min_nat(params.len(), pm.len()),
                    m <= pats.len(),
                    m <= parameters.len(),
                    j <= m,
                    pm == patterns_model_of(pats@),
                    params == names_model(parameters@),
                    bindings_model(ctx@) == clause_binders(params, pm, j as nat),
                decreases m - j,
            {
                let e = Expression::Variable { name: copy_string(&parameters[j]) };
                let ghost before = bindings_model(ctx@);
                let mut bs = pats[j].binders(e);
                let ghost added = bindings_model(bs@);
                ctx.append(&mut bs);
                assert(bindings_model(ctx@) =~= before + added);
                j += 1;
            }
            let action = actions[i].duplicate();
            let wrapped = wrap_in_lets(ctx, action);
            new_actions.push(wrapped);
            i += 1;
        }
        let mut scrutinee: Vec<Expression> = Vec::new();
        let mut j: usize = 0;
        while j < parameters.len()
            invariant
                j <= parameters.len(),
                scrutinee.len() == j,
                forall|t: int| 0 <= t < j ==> (#[trigger] scrutinee[t]).model() == ExprM::Variable(parameters[t]@),
            decreases parameters.len() - j,
        {
            scrutinee.push(Expression::Variable { name: copy_string(&parameters[j]) });
            j += 1;
        }
        assert(exprs_model_of(scrutinee@) =~= variables_of(names_model(parameters@)));
        let tree = Problem::new(patterns, scrutinee).derive();
        (tree, new_actions)
    }
}


/// The name a scrutinee is read through: its own name when it is a
/// variable, else `bound` letters `a`, then `_` and its 1-based position,
/// which is longer than `bound`.
pub open spec fn scrutinee_name(e: ExprM, gen: nat, bound: nat) -> Seq<char> {
    match e {
        ExprM::Variable(n) => n,
        _ => Seq::new(bound, |i: int| 'a') + seq!['_'] + decimal(gen),
    }
}

pub open spec fn scrutinee_names(es: Seq<ExprM>, bound: nat) -> Seq<Seq<char>> {
    Seq::new(es.len(), |i: int| scrutinee_name(es[i], (i + 1) as nat, bound))
}

/// The length of the longest name in the scrutinees, the patterns and the
/// actions of a `case`.
pub open spec fn name_bound(es: Seq<ExprM>, pats: Seq<Seq<PatternM>>, acts: Seq<ExprM>) -> nat {
    max_nat(exprs_name_len(es), max_nat(rows_name_len(pats), exprs_name_len(acts)))
}

/// `body` under a `let` for each of the first `n` scrutinees that is not a
/// variable; later scrutinees are bound further out.
pub open spec fn let_scrutinees(names: Seq<Seq<char>>, es: Seq<ExprM>, n: nat, body: ExprM) -> ExprM
    decreases n,
{
    if n == 0 || n > es.len() {
        body
    } else {
        let inner = let_scrutinees(names, es, (n - 1) as nat, body);
        if es[n - 1] is Variable {
            inner
        } else {
            ExprM::Let(names[n - 1], Box::new(es[n - 1]), Box::new(inner))
        }
    }
}

/// The length of the longest name in the scrutinees, patterns and actions.
fn case_names_len(scrutinee: &Vec<Expression>, patterns: &Vec<Vec<Pattern>>, actions: &Vec<Expression>) -> (r: usize)
    ensures
        r as nat == name_bound(exprs_model_of(scrutinee@), pattern_rows_model(patterns@), exprs_model_of(actions@)),
{
    let a = exprs_names_len(scrutinee);
    assert(Seq::new(scrutinee.len() as nat, |i: int| scrutinee[i].model()) =~= exprs_model_of(scrutinee@));
    let c = exprs_names_len(actions);
    assert(Seq::new(actions.len() as nat, |i: int| actions[i].model()) =~= exprs_model_of(actions@));
    let ghost pm = pattern_rows_model(patterns@);
    let mut b: usize = 0;
    let mut i: usize = 0;
    assert(pm.take(0) =~= seq![]);
    while i < patterns.len()
        invariant
            i <= patterns.len(),
            pm == pattern_rows_model(patterns@),
            b as nat == rows_name_len(pm.take(i as int)),
        decreases patterns.len() - i,
    {
        let row = &patterns[i];
        let ghost rm = patterns_model_of(row@);
        let mut w: usize = 0;
        let mut j: usize = 0;
        assert(rm.take(0) =~= seq![]);
        while j < row.len()
            invariant
                j <= row.len(),
                rm == patterns_model_of(row@),
                w as nat == patterns_name_len(rm.take(j as int)),
            decreases row.len() - j,
        {
            assert(rm.take(j + 1).drop_last() =~= rm.take(j as int));
            let x = pattern_names_len(&row[j]);
            w = if w < x {
                x
            } else {
                w
            };
            j += 1;
        }
        assert(rm.take(j as int) =~= rm);
        assert(pm.take(i + 1).drop_last() =~= pm.take(i as int));
        assert(pm[i as int] == rm);
        b = if b < w {
            w
        } else {
            b
        };
        i += 1;
    }
    assert(pm.take(i as int) =~= pm);
    let m = if b < c {
        c
    } else {
        b
    };
    if a < m {
        m
    } else {
        a
    }
}

/// What `case` over `es` with clauses `pats` and actions `acts` desugars to.
pub open spec fn compiled_case(es: Seq<ExprM>, pats: Seq<Seq<PatternM>>, acts: Seq<ExprM>) -> ExprM {
    let names = scrutinee_names(es, name_bound(es, pats, acts));
    let_scrutinees(
        names,
        es,
        es.len(),
        ExprM::Match(
            Box::new(derive_tree(initial_matrix(pats, variables_of(names)))),
            Seq::new(
                min_nat(pats.len(), acts.len()),
                |i: int| bound_action(names, pats[i], acts[i]),
            ),
        ),
    )
}

impl Problem {
    /// Desugars a `case`: each scrutinee that is not a variable is bound
    /// by `let` to a fresh name, and the clauses are matched through the
    /// decision tree over those names.
    pub fn compile(scrutinee: Vec<Expression>, patterns: Vec<Vec<Pattern>>, actions: Vec<Expression>) -> (r: Expression)
        requires
            forall|i: int| 0 <= i < patterns.len() ==> (#[trigger] patterns[i]).len() <= scrutinee.len(),
        ensures
            forall|j: int|
                0 <= j < scrutinee@.len() && !(scrutinee@[j].model() is Variable) ==> (#[trigger] scrutinee_names(
                    exprs_model_of(scrutinee@),
                    name_bound(exprs_model_of(scrutinee@), pattern_rows_model(patterns@), exprs_model_of(actions@)),
                )[j]).len() > name_bound(exprs_model_of(scrutinee@), pattern_rows_model(patterns@), exprs_model_of(actions@)),
            r.model() == compiled_case(
                exprs_model_of(scrutinee@),
                pattern_rows_model(patterns@),
                exprs_model_of(actions@),
            ),
    {
        let ghost es = exprs_model_of(scrutinee@);
        let ghost pats = pattern_rows_model(patterns@);
        let ghost acts = exprs_model_of(actions@);
        let bound = case_names_len(&scrutinee, &patterns, &actions);
        let ghost nb = name_bound(es, pats, acts);
        proof {
            reveal_strlit("a");
            reveal_strlit("_");
        }
        let mut prefix = String::new();
        let mut c: usize = 0;
        while c < bound
            invariant
                c <= bound,
                "a"@ == seq!['a'],
                prefix@ == Seq::new(c as nat, |i: int| 'a'),
            decreases bound - c,
        {
            prefix.append("a");
            c += 1;
            assert(prefix@ =~= Seq::new(c as nat, |i: int| 'a'));
        }
        prefix.append("_");
        assert(prefix@ =~= Seq::new(nb, |i: int| 'a') + seq!['_']);
        let mut names: Vec<String> = Vec::new();
        let mut need_let: Vec<bool> = Vec::new();
        let mut i: usize = 0;
        while i < scrutinee.len()
            invariant
                i <= scrutinee.len(),
                es == exprs_model_of(scrutinee@),
                names.len() == i,
                need_let.len() == i,
                prefix@ == Seq::new(nb, |i: int| 'a') + seq!['_'],
                forall|j: int| 0 <= j < i ==> (#[trigger] names[j])@ == scrutinee_names(es, nb)[j],
                forall|j: int| 0 <= j < i ==> (#[trigger] need_let[j]) == !(es[j] is Variable),
            decreases scrutinee.len() - i,
        {
            match &scrutinee[i] {
                Expression::Variable { name } => {
                    names.push(copy_string(name));
                    need_let.push(false);
                },
                _ => {
                    names.push(numbered_name(prefix.as_str(), i + 1));
                    need_let.push(true);
                },
            }
            i += 1;
        }
        assert(names_model(names@) =~= scrutinee_names(es, nb));
        let mut params: Vec<String> = Vec::new();
        let mut j: usize = 0;
        while j < names.len()
            invariant
                j <= names.len(),
                params.len() == j,
                forall|t: int| 0 <= t < j ==> (#[trigger] params[t])@ == names[t]@,
            decreases names.len() - j,
        {
            params.push(copy_string(&names[j]));
            j += 1;
        }
        assert(names_model(params@) =~= names_model(names@));
        let (tree, bound) = Problem::with_parameters(params, patterns, actions);
        let ghost body = ExprM::Match(
            Box::new(derive_tree(initial_matrix(pats, variables_of(scrutinee_names(es, nb))))),
            Seq::new(min_nat(pats.len(), acts.len()), |i: int| bound_action(scrutinee_names(es, nb), pats[i], acts[i])),
        );
        let mut acc = Expression::Match { tree, actions: bound };
        assert(acc.model()->Match_1 =~= body->Match_1);
        let mut rest = scrutinee;
        let n = rest.len();
        let mut k: usize = 0;
        while k < n
            invariant
                n == es.len(),
                k <= n,
                rest.len() == n - k,
                names.len() == n,
                need_let.len() == n,
                forall|t: int| 0 <= t < n ==> (#[trigger] names[t])@ == scrutinee_names(es, nb)[t],
                forall|t: int| 0 <= t < n ==> (#[trigger] need_let[t]) == !(es[t] is Variable),
                forall|t: int| 0 <= t < n - k ==> (#[trigger] rest[t]).model() == es[k + t],
                acc.model() == let_scrutinees(scrutinee_names(es, nb), es, k as nat, body),
            decreases n - k,
        {
            assert(rest[0].model() == es[k as int]);
            let e = rest.remove(0);
            if need_let[k] {
                acc = Expression::Let { bind: copy_string(&names[k]), value: Box::new(e), next: Box::new(acc) };
            }
            k += 1;
        }
        acc
    }
}

} // verus!
