//! The linear program: decision variables with weights and bounds, equality
//! constraints, and their evaluation under a variable assignment.

use vstd::prelude::*;

use crate::units::AMOUNT_MAX;

verus! {

/// One decision variable: objective weight and upper bound (`None` stands
/// for an unbounded edge).  Every variable's lower bound is zero.
#[derive(Debug)]
pub struct VarDef {
    pub weight: i64,
    pub upper: Option<i64>,
}

/// One equality constraint: the coefficient-weighted sum of the bound
/// variables must equal `rhs`.
#[derive(Debug)]
pub struct Constraint {
    pub terms: Vec<(usize, i64)>,
    pub rhs: i64,
}

/// A minimization problem over the declared variables.
#[derive(Debug)]
pub struct Model {
    pub vars: Vec<VarDef>,
    pub constraints: Vec<Constraint>,
}

/// The value assigned to variable `v`, zero outside the assignment's range.
pub open spec fn value_at(a: Seq<i64>, v: int) -> int {
    if 0 <= v < a.len() {
        a[v] as int
    } else {
        0
    }
}

/// Value of a term list under assignment `a`.
pub open spec fn term_sum(terms: Seq<(usize, i64)>, a: Seq<i64>) -> int
    decreases terms.len(),
{
    if terms.len() == 0 {
        0
    } else {
        term_sum(terms.drop_last(), a) + terms.last().1 * value_at(a, terms.last().0 as int)
    }
}

/// Sum of the values of the listed variables under `a`.
pub open spec fn vars_sum(vs: Seq<usize>, a: Seq<i64>) -> int
    decreases vs.len(),
{
    if vs.len() == 0 {
        0
    } else {
        vars_sum(vs.drop_last(), a) + value_at(a, vs.last() as int)
    }
}

/// The assignment satisfies the equality constraint.
pub open spec fn satisfies(c: Constraint, a: Seq<i64>) -> bool {
    term_sum(c.terms@, a) == c.rhs
}

/// The assignment satisfies every constraint of the model.
pub open spec fn satisfies_all(m: Model, a: Seq<i64>) -> bool {
    forall|i: int| 0 <= i < m.constraints@.len() ==> satisfies(#[trigger] m.constraints@[i], a)
}

/// How many terms bind variable `v`.
pub open spec fn occ(terms: Seq<(usize, i64)>, v: usize) -> nat
    decreases terms.len(),
{
    if terms.len() == 0 {
        0
    } else {
        occ(terms.drop_last(), v) + if terms.last().0 == v {
            1nat
        } else {
            0nat
        }
    }
}

/// Sum of the coefficients binding `v`.
pub open spec fn coeff_sum(terms: Seq<(usize, i64)>, v: usize) -> int
    decreases terms.len(),
{
    if terms.len() == 0 {
        0
    } else {
        coeff_sum(terms.drop_last(), v) + if terms.last().0 == v {
            terms.last().1 as int
        } else {
            0
        }
    }
}

/// Term sums split over concatenation.
pub proof fn lemma_term_sum_concat(x: Seq<(usize, i64)>, y: Seq<(usize, i64)>, a: Seq<i64>)
    ensures
        term_sum(x + y, a) == term_sum(x, a) + term_sum(y, a),
    decreases y.len(),
{
    if y.len() == 0 {
        assert(x + y =~= x);
    } else {
        lemma_term_sum_concat(x, y.drop_last(), a);
        assert((x + y).drop_last() =~= x + y.drop_last());
        assert((x + y).last() == y.last());
    }
}

/// Occurrence counts split over concatenation.
pub proof fn lemma_occ_concat(x: Seq<(usize, i64)>, y: Seq<(usize, i64)>, v: usize)
    ensures
        occ(x + y, v) == occ(x, v) + occ(y, v),
    decreases y.len(),
{
    if y.len() == 0 {
        assert(x + y =~= x);
    } else {
        lemma_occ_concat(x, y.drop_last(), v);
        assert((x + y).drop_last() =~= x + y.drop_last());
        assert((x + y).last() == y.last());
    }
}

/// A variable bound by no term has occurrence count zero.
pub proof fn lemma_occ_absent(s: Seq<(usize, i64)>, v: usize)
    requires
        forall|i: int| 0 <= i < s.len() ==> (#[trigger] s[i]).0 != v,
    ensures
        occ(s, v) == 0,
    decreases s.len(),
{
    if s.len() > 0 {
        lemma_occ_absent(s.drop_last(), v);
    }
}

/// In a term list with pairwise-distinct variables every variable occurs at
/// most once.
pub proof fn lemma_occ_distinct(s: Seq<(usize, i64)>, v: usize)
    requires
        forall|i: int, j: int| 0 <= i < j < s.len() ==> s[i].0 != s[j].0,
    ensures
        occ(s, v) <= 1,
    decreases s.len(),
{
    if s.len() > 0 {
        if s.last().0 == v {
            assert(forall|i: int| 0 <= i < s.drop_last().len() ==> (#[trigger] s.drop_last()[i]).0
                != v);
            lemma_occ_absent(s.drop_last(), v);
        } else {
            lemma_occ_distinct(s.drop_last(), v);
        }
    }
}

/// With every coefficient bounded by `b`, a variable's coefficient sum is
/// bounded by `b` times its occurrence count.
pub proof fn lemma_coeff_sum_bound(s: Seq<(usize, i64)>, v: usize, b: int)
    requires
        forall|i: int| 0 <= i < s.len() ==> -b <= (#[trigger] s[i]).1 <= b,
        b >= 0,
    ensures
        -b * occ(s, v) <= coeff_sum(s, v) <= b * occ(s, v),
    decreases s.len(),
{
    if s.len() == 0 {
        assert(-b * occ(s, v) == 0 && b * occ(s, v) == 0) by (nonlinear_arith)
            requires
                occ(s, v) == 0,
        {}
    } else {
        lemma_coeff_sum_bound(s.drop_last(), v, b);
        let op = occ(s.drop_last(), v);
        let cp = coeff_sum(s.drop_last(), v);
        if s.last().0 == v {
            assert(occ(s, v) == op + 1);
            assert(coeff_sum(s, v) == cp + s.last().1);
            assert(-b * (op + 1) <= cp + s.last().1 <= b * (op + 1)) by (nonlinear_arith)
                requires
                    -b * op <= cp <= b * op,
                    -b <= s.last().1 <= b,
                    b >= 0,
            {}
        } else {
            assert(occ(s, v) == op);
            assert(coeff_sum(s, v) == cp);
        }
    }
}

/// Raising one term's coefficient shifts the term sum by the difference
/// times the variable's value.
pub proof fn lemma_term_sum_update(
    s: Seq<(usize, i64)>,
    j: int,
    c2: i64,
    a: Seq<i64>,
)
    requires
        0 <= j < s.len(),
    ensures
        term_sum(s.update(j, (s[j].0, c2)), a) == term_sum(s, a) + (c2 - s[j].1) * value_at(
            a,
            s[j].0 as int,
        ),
    decreases s.len(),
{
    let s2 = s.update(j, (s[j].0, c2));
    if j == s.len() - 1 {
        assert(s2.drop_last() =~= s.drop_last());
        assert(s2.last() == (s[j].0, c2));
        assert((c2 as int) * value_at(a, s[j].0 as int) - (s[j].1 as int) * value_at(
            a,
            s[j].0 as int,
        ) == (c2 - s[j].1) * value_at(a, s[j].0 as int)) by (nonlinear_arith);
    } else {
        lemma_term_sum_update(s.drop_last(), j, c2, a);
        assert(s2.drop_last() =~= s.drop_last().update(j, (s[j].0, c2)));
        assert(s2.last() == s.last());
    }
}

impl Model {
    /// An empty model.
    pub fn new() -> (m: Model)
        ensures
            m.vars@ == Seq::<VarDef>::empty(),
            m.constraints@ == Seq::<Constraint>::empty(),
    {
        Model { vars: Vec::new(), constraints: Vec::new() }
    }

    /// Declares a fresh variable with the given objective weight and upper
    /// bound; its lower bound is zero.  Returns the variable's index.
    pub fn add_var(&mut self, weight: i64, upper: Option<i64>) -> (idx: usize)
        ensures
            idx == old(self).vars@.len(),
            final(self).vars@ == old(self).vars@.push((VarDef { weight, upper })),
            final(self).constraints@ == old(self).constraints@,
    {
        let idx = self.vars.len();
        self.vars.push(VarDef { weight, upper });
        idx
    }

    /// Appends an equality constraint.
    pub fn add_constraint(&mut self, c: Constraint)
        ensures
            final(self).vars@ == old(self).vars@,
            final(self).constraints@ == old(self).constraints@.push(c),
    {
        self.constraints.push(c);
    }
}

/// The term list binding each variable of `vs` with coefficient `c`.
pub fn scaled_terms(vs: &Vec<usize>, c: i64) -> (r: Vec<(usize, i64)>)
    ensures
        r@.len() == vs@.len(),
        forall|k: int| 0 <= k < vs@.len() ==> r@[k] == (vs@[k], c),
        forall|a: Seq<i64>| #[trigger] term_sum(r@, a) == c * vars_sum(vs@, a),
{
    let mut r: Vec<(usize, i64)> = Vec::new();
    let mut i: usize = 0;
    while i < vs.len()
        invariant
            0 <= i <= vs@.len(),
            r@.len() == i,
            forall|k: int| 0 <= k < i ==> r@[k] == (vs@[k], c),
            forall|a: Seq<i64>| #[trigger] term_sum(r@, a) == c * vars_sum(vs@.take(i as int), a),
        decreases vs@.len() - i,
    {
        let ghost rold = r@;
        r.push((vs[i], c));
        proof {
            assert forall|a: Seq<i64>| #[trigger] term_sum(r@, a) == c * vars_sum(
                vs@.take(i + 1),
                a,
            ) by {
                assert(r@.drop_last() =~= rold);
                assert(vs@.take(i + 1).drop_last() =~= vs@.take(i as int));
                assert(vs@.take(i + 1).last() == vs@[i as int]);
                assert(term_sum(r@, a) == term_sum(rold, a) + (c as int) * value_at(
                    a,
                    vs@[i as int] as int,
                ));
                assert(vars_sum(vs@.take(i + 1), a) == vars_sum(vs@.take(i as int), a) + value_at(
                    a,
                    vs@[i as int] as int,
                ));
                assert(c * (vars_sum(vs@.take(i as int), a) + value_at(a, vs@[i as int] as int))
                    == c * vars_sum(vs@.take(i as int), a) + c * value_at(
                    a,
                    vs@[i as int] as int,
                )) by (nonlinear_arith);
            }
        }
        i += 1;
    }
    proof {
        assert(vs@.take(vs@.len() as int) =~= vs@);
    }
    r
}

/// Some term of `terms` binds the same variable as term `k` of `r`.
pub open spec fn var_drawn_from(r: Seq<(usize, i64)>, terms: Seq<(usize, i64)>, k: int) -> bool {
    exists|k2: int| 0 <= k2 < terms.len() && r[k].0 == terms[k2].0
}

/// Merges terms binding the same variable by summing their coefficients:
/// the merged list has pairwise-distinct variables and the same value as
/// the input under every assignment.
pub fn merge_terms(terms: &Vec<(usize, i64)>) -> (r: Vec<(usize, i64)>)
    requires
        forall|k: int| 0 <= k < terms@.len() ==> -AMOUNT_MAX <= (#[trigger] terms@[k]).1
            <= AMOUNT_MAX,
        forall|v: usize| occ(terms@, v) <= 2,
    ensures
        forall|a: Seq<i64>| #[trigger] term_sum(r@, a) == term_sum(terms@, a),
        forall|i: int, j: int| 0 <= i < j < r@.len() ==> r@[i].0 != r@[j].0,
        forall|k: int| 0 <= k < r@.len() ==> #[trigger] var_drawn_from(r@, terms@, k),
{
    let mut r: Vec<(usize, i64)> = Vec::new();
    let mut i: usize = 0;
    while i < terms.len()
        invariant
            0 <= i <= terms@.len(),
            forall|k: int| 0 <= k < terms@.len() ==> -AMOUNT_MAX <= (#[trigger] terms@[k]).1
                <= AMOUNT_MAX,
            forall|v: usize| occ(terms@, v) <= 2,
            forall|a: Seq<i64>| #[trigger] term_sum(r@, a) == term_sum(terms@.take(i as int), a),
            forall|p: int, q: int| 0 <= p < q < r@.len() ==> r@[p].0 != r@[q].0,
            forall|k: int| 0 <= k < r@.len() ==> occ(terms@.take(i as int), (#[trigger] r@[k]).0)
                >= 1 && r@[k].1 == coeff_sum(terms@.take(i as int), r@[k].0),
            forall|v: usize|
                (forall|k: int| 0 <= k < r@.len() ==> (#[trigger] r@[k]).0 != v) ==> #[trigger]
                    coeff_sum(terms@.take(i as int), v) == 0,
            forall|k: int| 0 <= k < r@.len() ==> #[trigger] var_drawn_from(r@, terms@, k),
        decreases terms@.len() - i,
    {
        let v = terms[i].0;
        let c = terms[i].1;
        proof {
            assert(terms@.take(i + 1).drop_last() =~= terms@.take(i as int));
            assert(terms@.take(i + 1).last() == terms@[i as int]);
        }
        let mut j: usize = 0;
        let mut found = false;
        let mut at: usize = 0;
        while j < r.len() && !found
            invariant
                0 <= j <= r@.len(),
                !found ==> forall|q: int| 0 <= q < j ==> (#[trigger] r@[q]).0 != v,
                found ==> at < r@.len() && r@[at as int].0 == v,
            decreases r@.len() - j, (if found {
                0int
            } else {
                1int
            }),
        {
            if r[j].0 == v {
                found = true;
                at = j;
            } else {
                j += 1;
            }
        }
        let ghost rold = r@;
        if found {
            let c0 = r[at].1;
            proof {
                // a second occurrence: the first kept the running coefficient
                // bounded, so the sum stays within `i64`
                assert(occ(terms@.take(i as int), v) >= 1);
                assert(occ(terms@.take(i + 1), v) == occ(terms@.take(i as int), v) + 1);
                assert(occ(terms@.take(i + 1), v) <= occ(terms@, v)) by {
                    assert(terms@.take(i + 1) + terms@.skip(i + 1) =~= terms@);
                    lemma_occ_concat(terms@.take(i + 1), terms@.skip(i + 1), v);
                }
                assert(occ(terms@.take(i as int), v) == 1);
                lemma_coeff_sum_bound(terms@.take(i as int), v, AMOUNT_MAX as int);
                assert(-AMOUNT_MAX <= c0 <= AMOUNT_MAX);
            }
            r[at] = (v, c0 + c);
            proof {
                assert(r@ =~= rold.update(at as int, (rold[at as int].0, (c0 + c) as i64)));
                assert(forall|p: int| 0 <= p < r@.len() ==> (#[trigger] r@[p]).0 == rold[p].0);
                assert forall|a: Seq<i64>| #[trigger] term_sum(r@, a) == term_sum(
                    terms@.take(i + 1),
                    a,
                ) by {
                    lemma_term_sum_update(rold, at as int, (c0 + c) as i64, a);
                    assert(term_sum(rold, a) == term_sum(terms@.take(i as int), a));
                    assert(((c0 + c) - c0) * value_at(a, v as int) == c * value_at(a, v as int))
                        by (nonlinear_arith);
                    assert(term_sum(terms@.take(i + 1), a) == term_sum(terms@.take(i as int), a)
                        + c * value_at(a, v as int));
                }
                assert forall|k: int| 0 <= k < r@.len() implies occ(
                    terms@.take(i + 1),
                    (#[trigger] r@[k]).0,
                ) >= 1 && r@[k].1 == coeff_sum(terms@.take(i + 1), r@[k].0) by {
                    if k == at as int {
                        assert(coeff_sum(terms@.take(i + 1), v) == coeff_sum(
                            terms@.take(i as int),
                            v,
                        ) + c);
                    } else {
                        assert(r@[k] == rold[k]);
                        assert(r@[k].0 != v) by {
                            assert(rold[at as int].0 == v);
                        }
                        assert(coeff_sum(terms@.take(i + 1), r@[k].0) == coeff_sum(
                            terms@.take(i as int),
                            r@[k].0,
                        ));
                    }
                }
                assert forall|v2: usize|
                    (forall|k: int| 0 <= k < r@.len() ==> (#[trigger] r@[k]).0 != v2)
                        implies #[trigger] coeff_sum(terms@.take(i + 1), v2) == 0 by {
                    assert(r@[at as int].0 == v);
                    assert(v2 != v);
                    assert(forall|k: int| 0 <= k < rold.len() ==> (#[trigger] rold[k]).0 == r@[k].0);
                    assert(coeff_sum(terms@.take(i as int), v2) == 0);
                    assert(coeff_sum(terms@.take(i + 1), v2) == coeff_sum(
                        terms@.take(i as int),
                        v2,
                    ));
                }
                assert forall|k: int| 0 <= k < r@.len() implies #[trigger] var_drawn_from(
                    r@,
                    terms@,
                    k,
                ) by {
                    assert(var_drawn_from(rold, terms@, k));
                    let k2 = choose|k2: int| 0 <= k2 < terms@.len() && rold[k].0 == terms@[k2].0;
                    assert(r@[k].0 == terms@[k2].0);
                }
            }
        } else {
            proof {
                assert(j == rold.len());
                assert(forall|q: int| 0 <= q < rold.len() ==> (#[trigger] rold[q]).0 != v);
                assert(coeff_sum(terms@.take(i as int), v) == 0);
            }
            r.push((v, c));
            proof {
                assert(r@.drop_last() =~= rold);
                assert(r@.last() == (v, c));
                assert forall|a: Seq<i64>| #[trigger] term_sum(r@, a) == term_sum(
                    terms@.take(i + 1),
                    a,
                ) by {
                    assert(term_sum(rold, a) == term_sum(terms@.take(i as int), a));
                    assert(term_sum(r@, a) == term_sum(rold, a) + c * value_at(a, v as int));
                    assert(term_sum(terms@.take(i + 1), a) == term_sum(terms@.take(i as int), a)
                        + c * value_at(a, v as int));
                }
                assert forall|k: int| 0 <= k < r@.len() implies occ(
                    terms@.take(i + 1),
                    (#[trigger] r@[k]).0,
                ) >= 1 && r@[k].1 == coeff_sum(terms@.take(i + 1), r@[k].0) by {
                    if k == r@.len() - 1 {
                        assert(r@[k] == (v, c));
                        assert(occ(terms@.take(i + 1), v) == occ(terms@.take(i as int), v) + 1);
                        assert(coeff_sum(terms@.take(i + 1), v) == coeff_sum(
                            terms@.take(i as int),
                            v,
                        ) + c);
                    } else {
                        assert(r@[k] == rold[k]);
                        assert(r@[k].0 != v);
                        assert(coeff_sum(terms@.take(i + 1), r@[k].0) == coeff_sum(
                            terms@.take(i as int),
                            r@[k].0,
                        ));
                    }
                }
                assert forall|v2: usize|
                    (forall|k: int| 0 <= k < r@.len() ==> (#[trigger] r@[k]).0 != v2)
                        implies #[trigger] coeff_sum(terms@.take(i + 1), v2) == 0 by {
                    assert(r@[r@.len() - 1].0 == v);
                    assert(v2 != v);
                    assert(forall|k: int| 0 <= k < rold.len() ==> rold[k] == r@[k]);
                    assert(coeff_sum(terms@.take(i as int), v2) == 0);
                    assert(coeff_sum(terms@.take(i + 1), v2) == coeff_sum(
                        terms@.take(i as int),
                        v2,
                    ));
                }
                assert forall|k: int| 0 <= k < r@.len() implies #[trigger] var_drawn_from(
                    r@,
                    terms@,
                    k,
                ) by {
                    if k == r@.len() - 1 {
                        assert(0 <= i < terms@.len() && r@[k].0 == terms@[i as int].0);
                    } else {
                        assert(var_drawn_from(rold, terms@, k));
                        let k2 = choose|k2: int|
                            0 <= k2 < terms@.len() && rold[k].0 == terms@[k2].0;
                        assert(r@[k].0 == terms@[k2].0);
                    }
                }
            }
        }
        i += 1;
    }
    proof {
        assert(terms@.take(terms@.len() as int) =~= terms@);
    }
    r
}

} // verus!
