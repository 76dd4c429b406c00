use crate::literal::{inverse, lit_lt, Lit, Literal};
use crate::literal::{block_of, entries_map, is_existential_lit, keys_increasing, lemma_entries_unique, Assignment};
use crate::qbf::{
    clause_in_namespace, clause_wf, clauses_view, lemma_clause_set_equality, lit_wf, lits_view,
    Clause, CNF, QBF,
};
use vstd::prelude::*;

verus! {

/// Every literal of `c` is the inverse of a processed literal.
pub open spec fn falsified(c: Seq<Lit>, p: Seq<Lit>) -> bool {
    forall|j: int| 0 <= j < c.len() ==> p.contains(inverse(#[trigger] c[j]))
}

/// Under the processed literals `p`, clause `c` has shrunk to the unit `l`.
pub open spec fn unit_under(c: Seq<Lit>, l: Lit, p: Seq<Lit>) -> bool {
    &&& c.contains(l)
    &&& forall|j: int| 0 <= j < c.len() && c[j] != l ==> p.contains(inverse(#[trigger] c[j]))
}

/// Each literal of `p` is a unit of some clause of `f` given the literals
/// processed before it.
pub open spec fn derivation(f: Set<Seq<Lit>>, p: Seq<Lit>) -> bool {
    forall|i: int| 0 <= i < p.len() ==> #[trigger] forced(f, p, i)
}

/// Some clause of `f` has shrunk to the unit `p[i]` under the literals before it.
pub open spec fn forced(f: Set<Seq<Lit>>, p: Seq<Lit>, i: int) -> bool {
    exists|c: Seq<Lit>| #[trigger] f.contains(c) && unit_under(c, p[i], p.take(i))
}

/// Unit propagation on `f` reaches the empty clause.
pub open spec fn refutes_by_units(f: Set<Seq<Lit>>) -> bool {
    exists|p: Seq<Lit>|
        derivation(f, p) && exists|c: Seq<Lit>| #[trigger] f.contains(c) && falsified(c, p)
}

/// Every unit under `p` is already in `p`: propagation has nothing left to do.
pub open spec fn closed_under_units(f: Set<Seq<Lit>>, p: Seq<Lit>) -> bool {
    forall|c: Seq<Lit>, l: Lit| #[trigger] f.contains(c) && #[trigger] unit_under(c, l, p) ==> p.contains(l)
}

/// The unit clauses that negate the literals of `t`.
pub open spec fn negated_units(t: Set<Lit>) -> Set<Seq<Lit>> {
    t.map(|x: Lit| seq![inverse(x)])
}

/// A derivation stays inside every closed set of processed literals.
proof fn lemma_derivation_in_closed(f: Set<Seq<Lit>>, d: Seq<Lit>, p: Seq<Lit>, n: int)
    requires
        derivation(f, d),
        closed_under_units(f, p),
        0 <= n <= d.len(),
    ensures
        forall|i: int| 0 <= i < n ==> p.contains(#[trigger] d[i]),
    decreases n,
{
    if n > 0 {
        lemma_derivation_in_closed(f, d, p, n - 1);
        let i = n - 1;
        assert(forced(f, d, i));
        let c = choose|c: Seq<Lit>| #[trigger] f.contains(c) && unit_under(c, d[i], d.take(i));
        assert forall|j: int| 0 <= j < c.len() && c[j] != d[i] implies p.contains(
            inverse(#[trigger] c[j]),
        ) by {
            assert(d.take(i).contains(inverse(c[j])));
            let m = choose|m: int| 0 <= m < d.take(i).len() && d.take(i)[m] == inverse(c[j]);
            assert(d[m] == inverse(c[j]));
        }
        assert(unit_under(c, d[i], p));
    }
}

/// A closed set of processed literals that falsifies no clause shows that
/// unit propagation cannot reach the empty clause.
pub proof fn lemma_closed_blocks_refutation(f: Set<Seq<Lit>>, p: Seq<Lit>)
    requires
        closed_under_units(f, p),
        forall|c: Seq<Lit>| #[trigger] f.contains(c) ==> !falsified(c, p),
    ensures
        !refutes_by_units(f),
{
    if refutes_by_units(f) {
        let d = choose|d: Seq<Lit>|
            derivation(f, d) && exists|c: Seq<Lit>| #[trigger] f.contains(c) && falsified(c, d);
        let c = choose|c: Seq<Lit>| #[trigger] f.contains(c) && falsified(c, d);
        lemma_derivation_in_closed(f, d, p, d.len() as int);
        assert forall|j: int| 0 <= j < c.len() implies p.contains(inverse(#[trigger] c[j])) by {
            assert(d.contains(inverse(c[j])));
            let m = choose|m: int| 0 <= m < d.len() && d[m] == inverse(c[j]);
        }
        assert(falsified(c, p));
    }
}

/// A literal is true when its atom (variable and annotation) has the value
/// of its polarity.
pub open spec fn lit_true(m: spec_fn(usize, Seq<crate::literal::Entry>) -> bool, l: Lit) -> bool {
    m(l.variable, l.annotation) == l.positive
}

/// Some literal of the clause is true.
pub open spec fn clause_true(m: spec_fn(usize, Seq<crate::literal::Entry>) -> bool, c: Seq<Lit>) -> bool {
    exists|j: int| 0 <= j < c.len() && #[trigger] lit_true(m, c[j])
}

proof fn lemma_derivation_true(
    f: Set<Seq<Lit>>,
    d: Seq<Lit>,
    m: spec_fn(usize, Seq<crate::literal::Entry>) -> bool,
    n: int,
)
    requires
        derivation(f, d),
        forall|c: Seq<Lit>| #[trigger] f.contains(c) ==> clause_true(m, c),
        0 <= n <= d.len(),
    ensures
        forall|i: int| 0 <= i < n ==> lit_true(m, #[trigger] d[i]),
    decreases n,
{
    if n > 0 {
        lemma_derivation_true(f, d, m, n - 1);
        let i = n - 1;
        assert(forced(f, d, i));
        let c = choose|c: Seq<Lit>| #[trigger] f.contains(c) && unit_under(c, d[i], d.take(i));
        assert(clause_true(m, c));
        let j = choose|j: int| 0 <= j < c.len() && #[trigger] lit_true(m, c[j]);
        if c[j] != d[i] {
            assert(d.take(i).contains(inverse(c[j])));
            let k = choose|k: int| 0 <= k < d.take(i).len() && d.take(i)[k] == inverse(c[j]);
            assert(d[k] == inverse(c[j]));
            assert(lit_true(m, d[k]));
        }
    }
}

/// Unit propagation is sound: when it reaches the empty clause, no
/// assignment to the atoms makes every clause true.
pub proof fn lemma_refutation_sound(f: Set<Seq<Lit>>, m: spec_fn(usize, Seq<crate::literal::Entry>) -> bool)
    requires
        refutes_by_units(f),
    ensures
        exists|c: Seq<Lit>| #[trigger] f.contains(c) && !clause_true(m, c),
{
    let d = choose|d: Seq<Lit>|
        derivation(f, d) && exists|c: Seq<Lit>| #[trigger] f.contains(c) && falsified(c, d);
    let c = choose|c: Seq<Lit>| #[trigger] f.contains(c) && falsified(c, d);
    if forall|c2: Seq<Lit>| #[trigger] f.contains(c2) ==> clause_true(m, c2) {
        lemma_derivation_true(f, d, m, d.len() as int);
        assert(clause_true(m, c));
        let j = choose|j: int| 0 <= j < c.len() && #[trigger] lit_true(m, c[j]);
        assert(d.contains(inverse(c[j])));
        let k = choose|k: int| 0 <= k < d.len() && d[k] == inverse(c[j]);
        assert(lit_true(m, d[k]));
    }
}

/// The literals of all clauses, one clause after another.
pub open spec fn flatten(cs: Seq<Seq<Lit>>) -> Seq<Lit>
    decreases cs.len(),
{
    if cs.len() == 0 {
        Seq::empty()
    } else {
        flatten(cs.drop_last()) + cs.last()
    }
}

proof fn lemma_flatten_contains(cs: Seq<Seq<Lit>>, k: int, j: int)
    requires
        0 <= k < cs.len(),
        0 <= j < cs[k].len(),
    ensures
        flatten(cs).contains(cs[k][j]),
    decreases cs.len(),
{
    let fl = flatten(cs.drop_last());
    if k == cs.len() - 1 {
        assert((fl + cs.last())[fl.len() + j] == cs[k][j]);
    } else {
        lemma_flatten_contains(cs.drop_last(), k, j);
        let m = choose|m: int| 0 <= m < fl.len() && fl[m] == cs[k][j];
        assert((fl + cs.last())[m] == cs[k][j]);
    }
}

proof fn lemma_distinct_bounded(p: Seq<Lit>, all: Seq<Lit>)
    requires
        p.no_duplicates(),
        forall|i: int| 0 <= i < p.len() ==> all.contains(#[trigger] p[i]),
    ensures
        p.len() <= all.len(),
{
    p.unique_seq_to_set();
    all.lemma_cardinality_of_set();
    assert(p.to_set().subset_of(all.to_set())) by {
        assert forall|x: Lit| p.to_set().contains(x) implies all.to_set().contains(x) by {
            let i = choose|i: int| 0 <= i < p.len() && p[i] == x;
        }
    }
    vstd::set_lib::lemma_len_subset(p.to_set(), all.to_set());
}

/// Whether `p` holds the inverse of `l`.
fn holds_inverse(p: &Vec<Literal>, l: &Literal) -> (r: bool)
    ensures
        r == lits_view(p@).contains(inverse(l@)),
{
    let mut i: usize = 0;
    while i < p.len()
        invariant
            i <= p.len(),
            forall|j: int| 0 <= j < i ==> lits_view(p@)[j] != inverse(l@),
        decreases p.len() - i,
    {
        if l.is_inverse(&p[i]) {
            assert(lits_view(p@)[i as int] == inverse(l@));
            return true;
        }
        i = i + 1;
    }
    false
}

/// Whether `p` holds `l`.
fn holds(p: &Vec<Literal>, l: &Literal) -> (r: bool)
    ensures
        r == lits_view(p@).contains(l@),
{
    let mut i: usize = 0;
    while i < p.len()
        invariant
            i <= p.len(),
            forall|j: int| 0 <= j < i ==> lits_view(p@)[j] != l@,
        decreases p.len() - i,
    {
        if p[i] == *l {
            assert(lits_view(p@)[i as int] == l@);
            return true;
        }
        i = i + 1;
    }
    false
}

/// How many literals of `c` survive the processed literals `p` (0, 1, or 2
/// for two or more), and the position of the last survivor.
fn survivors(c: &Clause, p: &Vec<Literal>) -> (r: (usize, usize))
    ensures
        r.0 <= 2,
        r.0 == 0 <==> falsified(c@, lits_view(p@)),
        r.0 == 1 ==> r.1 < c@.len() && !lits_view(p@).contains(inverse(c@[r.1 as int]))
            && forall|j: int|
            0 <= j < c@.len() && j != r.1 ==> lits_view(p@).contains(inverse(#[trigger] c@[j])),
        r.0 == 2 ==> exists|a: int, b: int|
            0 <= a < b < c@.len() && !lits_view(p@).contains(inverse(#[trigger] c@[a]))
                && !lits_view(p@).contains(inverse(#[trigger] c@[b])),
{
    let ghost pv = lits_view(p@);
    let mut count: usize = 0;
    let mut last: usize = 0;
    let mut i: usize = 0;
    while i < c.len()
        invariant
            pv == lits_view(p@),
            i <= c@.len(),
            count <= 1,
            count == 0 ==> forall|j: int| 0 <= j < i ==> pv.contains(inverse(#[trigger] c@[j])),
            count == 1 ==> last < i && !pv.contains(inverse(c@[last as int])) && forall|j: int|
                0 <= j < i && j != last ==> pv.contains(inverse(#[trigger] c@[j])),
        decreases c@.len() - i,
    {
        if !holds_inverse(p, c.literal(i)) {
            if count == 1 {
                assert(!pv.contains(inverse(c@[last as int])));
                assert(!pv.contains(inverse(c@[i as int])));
                return (2, i);
            }
            count = count + 1;
            last = i;
        }
        i = i + 1;
    }
    if count == 1 {
        assert(count == 1);
    }
    (count, last)
}

/// Unit propagation over `clauses`: repeatedly takes a clause that has shrunk
/// to one literal not yet processed, processes that literal (dropping its
/// inverse everywhere), and stops with `true` once some clause is empty.
pub fn propagate(clauses: &Vec<Clause>) -> (r: bool)
    requires
        forall|i: int| 0 <= i < clauses@.len() ==> (#[trigger] clauses@[i]).wf(),
    ensures
        r == refutes_by_units(clauses_view(clauses@).to_set()),
{
    let ghost f = clauses_view(clauses@).to_set();
    let ghost cs = clauses_view(clauses@);
    let ghost all = flatten(cs);
    let mut p: Vec<Literal> = Vec::new();
    assert(derivation(f, lits_view(p@)));
    loop
        invariant
            forall|i: int| 0 <= i < clauses@.len() ==> (#[trigger] clauses@[i]).wf(),
            f == clauses_view(clauses@).to_set(),
            cs == clauses_view(clauses@),
            all == flatten(cs),
            derivation(f, lits_view(p@)),
            lits_view(p@).no_duplicates(),
            forall|i: int| 0 <= i < p@.len() ==> all.contains(#[trigger] lits_view(p@)[i]),
            lits_view(p@).len() <= all.len(),
        decreases all.len() - lits_view(p@).len(),
    {
        let ghost pv = lits_view(p@);
        assert forall|m: int| 0 <= m < cs.len() implies #[trigger] clause_wf(cs[m]) by {
            assert(cs[m] == clauses@[m]@);
        }
        let mut k: usize = 0;
        let mut found: Option<(usize, usize)> = None;
        while k < clauses.len() && found.is_none()
            invariant
                pv == lits_view(p@),
                derivation(f, pv),
                forall|m: int| 0 <= m < cs.len() ==> #[trigger] clause_wf(cs[m]),
                cs == clauses_view(clauses@),
                f == cs.to_set(),
                k <= clauses.len(),
                found is None ==> forall|m: int|
                    0 <= m < k ==> !falsified(#[trigger] cs[m], pv) && forall|l: Lit|
                        #[trigger] unit_under(cs[m], l, pv) ==> pv.contains(l),
                found matches Some(x) ==> x.0 < cs.len() && x.1 < cs[x.0 as int].len()
                    && unit_under(cs[x.0 as int], cs[x.0 as int][x.1 as int], pv)
                    && !pv.contains(cs[x.0 as int][x.1 as int]),
            decreases clauses.len() - k,
        {
            let (n, j) = survivors(&clauses[k], &p);
            let ghost c = cs[k as int];
            assert(c == clauses@[k as int]@);
            if n == 0 {
                assert(f.contains(c) && falsified(c, pv));
                assert(derivation(f, pv));
                assert(refutes_by_units(f));
                return true;
            }
            if n == 1 {
                let x = clauses[k].literal(j);
                assert(x@ == c[j as int]);
                proof {
                    assert(unit_under(c, c[j as int], pv));
                    assert forall|l: Lit| #[trigger] unit_under(c, l, pv) implies l == c[j as int] by {
                        if l != c[j as int] {
                            assert(pv.contains(inverse(c[j as int])));
                        }
                    }
                }
                if !holds(&p, x) {
                    found = Some((k, j));
                }
            } else {
                proof {
                    crate::literal::lemma_lit_order();
                    let (a, b) = choose|a: int, b: int|
                        0 <= a < b < c.len() && !pv.contains(inverse(#[trigger] c[a]))
                            && !pv.contains(inverse(#[trigger] c[b]));
                    assert(clause_wf(c));
                    assert(lit_lt(c[a], c[b]));
                    assert forall|l: Lit| #[trigger] unit_under(c, l, pv) implies pv.contains(l) by {
                        if c[a] != l {
                        } else {
                            assert(c[b] != l);
                        }
                    }
                }
            }
            k = k + 1;
        }
        match found {
            None => {
                proof {
                    assert forall|c: Seq<Lit>, l: Lit| #[trigger] f.contains(c) && #[trigger] unit_under(c, l, pv) implies pv.contains(l) by {
                        let m = choose|m: int| 0 <= m < cs.len() && cs[m] == c;
                    }
                    assert forall|c: Seq<Lit>| #[trigger] f.contains(c) implies !falsified(c, pv) by {
                        let m = choose|m: int| 0 <= m < cs.len() && cs[m] == c;
                    }
                    lemma_closed_blocks_refutation(f, pv);
                }
                return false;
            },
            Some((ci, li)) => {
                let l = clauses[ci].literal(li).clone();
                let ghost lv = l@;
                proof {
                    lemma_flatten_contains(cs, ci as int, li as int);
                    assert(f.contains(cs[ci as int]));
                }
                p.push(l);
                proof {
                    let np = lits_view(p@);
                    assert(np =~= pv.push(lv));
                    assert forall|i: int| 0 <= i < np.len() implies #[trigger] forced(f, np, i) by {
                        if i < pv.len() {
                            assert(forced(f, pv, i));
                            assert(np.take(i) =~= pv.take(i));
                            assert(np[i] == pv[i]);
                        } else {
                            assert(np.take(i) =~= pv);
                            assert(f.contains(cs[ci as int]));
                        }
                    }
                    assert forall|a: int, b: int| 0 <= a < b < np.len() implies np[a] != np[b] by {
                        if b == pv.len() {
                            assert(pv.contains(np[a]));
                        }
                    }
                    assert forall|i: int| 0 <= i < np.len() implies all.contains(#[trigger] np[i]) by {
                        if i < pv.len() {
                            assert(np[i] == pv[i]);
                        }
                    }
                    lemma_distinct_bounded(np, all);
                }
            },
        }
    }
}

/// The clause holding only `l`.
fn unit_clause(l: Literal) -> (r: Clause)
    requires
        l.wf(),
    ensures
        r.wf(),
        r@ == seq![l@],
{
    let ghost lv = l@;
    let mut c = Clause::new();
    c.insert(l);
    proof {
        crate::literal::lemma_lit_order();
        assert(seq![lv].to_set() =~= Set::<Lit>::empty().insert(lv)) by {
            assert(seq![lv][0] == lv);
        }
        assert(Seq::<Lit>::empty().to_set() =~= Set::<Lit>::empty());
        assert(clause_wf(seq![lv]));
        lemma_clause_set_equality(c@, seq![lv]);
    }
    c
}

impl CNF {
    /// Whether unit propagation on the clauses alone reaches the empty clause.
    pub fn implies_bot(&self) -> (r: bool)
        requires
            self.wf(),
        ensures
            r == refutes_by_units(self.clauses()),
    {
        assert forall|i: int| 0 <= i < self.0@.len() implies (#[trigger] self.0@[i]).wf() by {
            assert(clause_wf(self@[i]));
        }
        propagate(&self.0)
    }

    /// Whether the clauses, together with the negation of every literal of
    /// `target` as a unit clause, propagate to the empty clause.
    pub fn implies(&self, target: &Clause) -> (r: bool)
        requires
            self.wf(),
            target.wf(),
        ensures
            r == refutes_by_units(self.clauses() + negated_units(target.lits())),
    {
        let ghost goal = self.clauses() + negated_units(target.lits());
        let mut v: Vec<Clause> = Vec::new();
        let mut i: usize = 0;
        while i < self.0.len()
            invariant
                self.wf(),
                i <= self.0.len(),
                clauses_view(v@) == self@.take(i as int),
                forall|k: int| 0 <= k < v@.len() ==> (#[trigger] v@[k]).wf(),
            decreases self.0.len() - i,
        {
            let c = self.0[i].clone();
            let ghost pre = v@;
            v.push(c);
            assert(clauses_view(v@) =~= clauses_view(pre).push(self@[i as int]));
            i = i + 1;
            assert(clauses_view(v@) =~= self@.take(i as int));
            assert(clause_wf(self@[i - 1]));
        }
        assert(self@.take(i as int) =~= self@);
        let ghost n = v@.len();
        let mut j: usize = 0;
        while j < target.len()
            invariant
                target.wf(),
                j <= target@.len(),
                n == self@.len(),
                v@.len() == n + j,
                clauses_view(v@).take(n as int) == self@,
                forall|k: int| 0 <= k < j ==> #[trigger] clauses_view(v@)[n + k] == seq![inverse(target@[k])],
                forall|k: int| 0 <= k < v@.len() ==> (#[trigger] v@[k]).wf(),
            decreases target@.len() - j,
        {
            assert(lit_wf(target@[j as int]));
            let u = unit_clause(target.literal(j).clone().invert());
            let ghost pre = v@;
            v.push(u);
            assert(clauses_view(v@) =~= clauses_view(pre).push(seq![inverse(target@[j as int])]));
            assert(clauses_view(v@).take(n as int) =~= clauses_view(pre).take(n as int));
            j = j + 1;
        }
        let ghost all = clauses_view(v@);
        assert(all.to_set() =~= goal) by {
            assert forall|c: Seq<Lit>| all.to_set().contains(c) implies goal.contains(c) by {
                let m = choose|m: int| 0 <= m < all.len() && all[m] == c;
                if m < n {
                    assert(all.take(n as int)[m] == c);
                    assert(self@.contains(c));
                } else {
                    let k = m - n;
                    assert(all[n + k] == seq![inverse(target@[k])]);
                    assert(target.lits().contains(target@[k]));
                }
            }
            assert forall|c: Seq<Lit>| goal.contains(c) implies all.to_set().contains(c) by {
                if self.clauses().contains(c) {
                    let m = choose|m: int| 0 <= m < self@.len() && self@[m] == c;
                    assert(all.take(n as int)[m] == c);
                    assert(all[m] == c);
                } else {
                    let x = choose|x: Lit| target.lits().contains(x) && seq![inverse(x)] == c;
                    let k = choose|k: int| 0 <= k < target@.len() && target@[k] == x;
                    assert(all[n + k] == c);
                }
            }
        }
        propagate(&v)
    }
}

/// `(C \ {l}) ∪ { x ∈ C2 \ {¬l} : x is quantified no later than l }`.
pub open spec fn outer_resolvent_set(vars: Seq<usize>, c: Set<Lit>, l: Lit, c2: Set<Lit>) -> Set<
    Lit,
> {
    c.remove(l).union(c2.remove(inverse(l)).filter(|x: Lit| block_of(vars, x) <= block_of(vars, l)))
}

/// Every outer resolvent of `c` on `l` with another clause of `f` that holds
/// the inverse of `l` is implied by `f` through unit propagation.
pub open spec fn qrat_literal(vars: Seq<usize>, f: Seq<Seq<Lit>>, c: Seq<Lit>, l: Lit) -> bool {
    forall|k: int|
        0 <= k < f.len() && #[trigger] f[k] != c && f[k].contains(inverse(l)) && c.contains(l)
            ==> refutes_by_units(
            f.to_set() + negated_units(outer_resolvent_set(vars, c.to_set(), l, f[k].to_set())),
        )
}

/// Some existential literal of `c` is a QRAT literal.
pub open spec fn qrat_clause(vars: Seq<usize>, f: Seq<Seq<Lit>>, c: Seq<Lit>) -> bool {
    exists|j: int|
        0 <= j < c.len() && is_existential_lit(vars, #[trigger] c[j]) && qrat_literal(
            vars,
            f,
            c,
            c[j],
        )
}

impl QBF {
    /// The outer resolvent of `c` on `l` with `c2`: nothing unless `l` is in
    /// `c` and its inverse in `c2`.
    pub fn outer_resolvent(&self, c: &Clause, l: &Literal, c2: &Clause) -> (r: Option<Clause>)
        requires
            c.wf(),
            c2.wf(),
            l.wf(),
            l.variable < self.vars@.len(),
            clause_in_namespace(self.vars@, c2@),
        ensures
            r is None <==> !(c@.contains(l@) && c2@.contains(inverse(l@))),
            r matches Some(res) ==> res.wf() && res.lits() == outer_resolvent_set(
                self.vars@,
                c.lits(),
                l@,
                c2.lits(),
            ),
    {
        let inv = l.clone().invert();
        if !c.contains(l) || !c2.contains(&inv) {
            return None;
        }
        let ghost keep = |x: Lit| block_of(self.vars@, x) <= block_of(self.vars@, l@);
        let mut res = c.clone();
        res.remove(l);
        let mut j: usize = 0;
        assert(res.lits() =~= c.lits().remove(l@).union(
            c2@.take(0).to_set().remove(inverse(l@)).filter(keep),
        ));
        while j < c2.len()
            invariant
                c2.wf(),
                res.wf(),
                inv@ == inverse(l@),
                keep == (|x: Lit| block_of(self.vars@, x) <= block_of(self.vars@, l@)),
                l.variable < self.vars@.len(),
                clause_in_namespace(self.vars@, c2@),
                j <= c2@.len(),
                res.lits() == c.lits().remove(l@).union(
                    c2@.take(j as int).to_set().remove(inverse(l@)).filter(keep),
                ),
            decreases c2@.len() - j,
        {
            let x = c2.literal(j);
            assert(c2@[j as int].variable < self.vars@.len());
            assert(lit_wf(c2@[j as int]));
            let ghost before = res.lits();
            if !(*x == inv) && x.less_equal(l, &self.vars) {
                res.insert(x.clone());
            }
            proof {
                let xv = c2@[j as int];
                crate::qbf::lemma_push_to_set(c2@.take(j as int), xv);
                assert(c2@.take(j + 1) =~= c2@.take(j as int).push(xv));
                let old_f = c2@.take(j as int).to_set().remove(inverse(l@)).filter(keep);
                let new_f = c2@.take(j + 1).to_set().remove(inverse(l@)).filter(keep);
                if xv != inverse(l@) && keep(xv) {
                    assert(new_f =~= old_f.insert(xv));
                } else {
                    assert(new_f =~= old_f);
                }
                assert(res.lits() =~= c.lits().remove(l@).union(
                    c2@.take(j + 1).to_set().remove(inverse(l@)).filter(keep),
                ));
            }
            j = j + 1;
        }
        assert(c2@.take(j as int) =~= c2@);
        Some(res)
    }

    /// Whether `l` is a QRAT literal of `c` with respect to the formula.
    pub fn is_qrat_literal(&self, c: &Clause, l: &Literal) -> (r: bool)
        requires
            self.wf(),
            c.wf(),
            l.wf(),
            l.variable < self.vars@.len(),
        ensures
            r == qrat_literal(self.vars@, self.cnf@, c@, l@),
    {
        let inv = l.clone().invert();
        let mut k: usize = 0;
        while k < self.cnf.len()
            invariant
                self.wf(),
                c.wf(),
                l.wf(),
                l.variable < self.vars@.len(),
                inv@ == inverse(l@),
                k <= self.cnf@.len(),
                forall|m: int|
                    0 <= m < k && #[trigger] self.cnf@[m] != c@ && self.cnf@[m].contains(inverse(l@))
                        && c@.contains(l@) ==> refutes_by_units(
                        self.cnf@.to_set() + negated_units(
                            outer_resolvent_set(self.vars@, c@.to_set(), l@, self.cnf@[m].to_set()),
                        ),
                    ),
            decreases self.cnf@.len() - k,
        {
            let c2 = self.cnf.clause(k);
            assert(clause_wf(self.cnf@[k as int]));
            assert(clause_in_namespace(self.vars@, c2@));
            if !(*c2 == *c) && c2.contains(&inv) {
                match self.outer_resolvent(c, l, c2) {
                    None => {},
                    Some(res) => {
                        if !self.cnf.implies(&res) {
                            return false;
                        }
                    },
                }
            }
            k = k + 1;
        }
        true
    }

    /// Whether some existential literal of `c` is a QRAT literal.
    pub fn is_qrat_clause(&self, c: &Clause) -> (r: bool)
        requires
            self.wf(),
            c.wf(),
            clause_in_namespace(self.vars@, c@),
        ensures
            r == qrat_clause(self.vars@, self.cnf@, c@),
    {
        let mut j: usize = 0;
        while j < c.len()
            invariant
                self.wf(),
                c.wf(),
                clause_in_namespace(self.vars@, c@),
                j <= c@.len(),
                forall|m: int|
                    0 <= m < j ==> !(is_existential_lit(self.vars@, #[trigger] c@[m]) && qrat_literal(
                        self.vars@,
                        self.cnf@,
                        c@,
                        c@[m],
                    )),
            decreases c@.len() - j,
        {
            let l = c.literal(j);
            assert(c@[j as int].variable < self.vars@.len());
            assert(lit_wf(c@[j as int]));
            if l.is_existential(&self.vars) && self.is_qrat_literal(c, l) {
                return true;
            }
            j = j + 1;
        }
        false
    }
}

/// `x` is a universal literal of `c` quantified strictly before `l1`.
pub open spec fn universal_before(vars: Seq<usize>, c: Seq<Lit>, l1: Lit, x: Lit) -> bool {
    &&& c.contains(x)
    &&& !is_existential_lit(vars, x)
    &&& block_of(vars, x) < block_of(vars, l1)
}

/// The annotation of the expansion of `l1`: every universal variable of `c`
/// quantified before `l1`, mapped to the value that falsifies its literal
/// (`false` as soon as the variable occurs positively).
pub open spec fn expansion_map(vars: Seq<usize>, c: Seq<Lit>, l1: Lit) -> Map<usize, bool> {
    Map::new(
        |k: usize| exists|x: Lit| #[trigger] universal_before(vars, c, l1, x) && x.variable == k,
        |k: usize|
            !exists|x: Lit| #[trigger]
                universal_before(vars, c, l1, x) && x.variable == k && x.positive,
    )
}

/// `x` is the annotated copy of the existential literal `l1` of `c`.
#[verifier::opaque]
pub open spec fn expands(vars: Seq<usize>, c: Seq<Lit>, l1: Lit, x: Lit) -> bool {
    &&& x.positive == l1.positive
    &&& x.variable == l1.variable
    &&& keys_increasing(x.annotation)
    &&& entries_map(x.annotation) == expansion_map(vars, c, l1)
}

/// The expansion clause of `c`: one annotated copy of each existential literal.
pub open spec fn expansion_set(vars: Seq<usize>, c: Seq<Lit>) -> Set<Lit> {
    prefix_expansion(vars, c, c.len() as int)
}

/// The annotated copies of the existential literals among the first `n` of `c`.
#[verifier::opaque]
pub open spec fn prefix_expansion(vars: Seq<usize>, c: Seq<Lit>, n: int) -> Set<Lit> {
    Set::new(
        |x: Lit|
            exists|j: int|
                0 <= j < n && is_existential_lit(vars, c[j]) && #[trigger] expands(vars, c, c[j], x),
    )
}

/// `s` holds the annotated copy of the literal at position `i` of `c`.
pub open spec fn has_copy(vars: Seq<usize>, c: Seq<Lit>, i: int, s: Set<Lit>) -> bool {
    exists|x: Lit| #[trigger] s.contains(x) && expands(vars, c, c[i], x)
}

/// Some clause of `f` holds exactly the literals `s`.
pub open spec fn has_clause(f: Seq<Seq<Lit>>, s: Set<Lit>) -> bool {
    exists|k: int| 0 <= k < f.len() && #[trigger] f[k].to_set() == s
}

proof fn lemma_expansion_map_step(vars: Seq<usize>, pre: Seq<Lit>, x2: Lit, l1: Lit)
    ensures
        ({
            let post = pre.push(x2);
            let m = expansion_map(vars, pre, l1);
            let counts = !is_existential_lit(vars, x2) && block_of(vars, x2) < block_of(vars, l1);
            &&& !counts ==> expansion_map(vars, post, l1) == m
            &&& counts && x2.positive ==> expansion_map(vars, post, l1) == m.insert(x2.variable, false)
            &&& counts && !x2.positive && m.dom().contains(x2.variable) ==> expansion_map(vars, post, l1) == m
            &&& counts && !x2.positive && !m.dom().contains(x2.variable) ==> expansion_map(vars, post, l1) == m.insert(x2.variable, true)
        }),
{
    let post = pre.push(x2);
    let m = expansion_map(vars, pre, l1);
    let n = expansion_map(vars, post, l1);
    let counts = !is_existential_lit(vars, x2) && block_of(vars, x2) < block_of(vars, l1);
    assert forall|x: Lit| #[trigger] universal_before(vars, post, l1, x) <==> (
        universal_before(vars, pre, l1, x) || (x == x2 && counts)) by {
        if post.contains(x) && x != x2 {
            let i = choose|i: int| 0 <= i < post.len() && post[i] == x;
            assert(pre[i] == x);
        }
        if pre.contains(x) {
            let i = choose|i: int| 0 <= i < pre.len() && pre[i] == x;
            assert(post[i] == x);
        }
        assert(post[pre.len() as int] == x2);
    }
    assert forall|k: usize| #[trigger] n.dom().contains(k) <==> (m.dom().contains(k) || (counts && k == x2.variable)) by {
        if n.dom().contains(k) {
            let x = choose|x: Lit| #[trigger] universal_before(vars, post, l1, x) && x.variable == k;
            if x != x2 {
                assert(universal_before(vars, pre, l1, x));
            }
        }
        if m.dom().contains(k) {
            let x = choose|x: Lit| #[trigger] universal_before(vars, pre, l1, x) && x.variable == k;
            assert(universal_before(vars, post, l1, x));
        }
        if counts && k == x2.variable {
            assert(universal_before(vars, post, l1, x2));
        }
    }
    assert forall|k: usize| #[trigger] n.dom().contains(k) implies n[k] == (if counts && k == x2.variable && x2.positive { false } else if m.dom().contains(k) { m[k] } else { true }) by {
        let pos_post = exists|x: Lit| #[trigger] universal_before(vars, post, l1, x) && x.variable == k && x.positive;
        let pos_pre = exists|x: Lit| #[trigger] universal_before(vars, pre, l1, x) && x.variable == k && x.positive;
        if pos_pre {
            let x = choose|x: Lit| #[trigger] universal_before(vars, pre, l1, x) && x.variable == k && x.positive;
            assert(universal_before(vars, post, l1, x));
            assert(m.dom().contains(k));
        }
        if pos_post {
            let x = choose|x: Lit| #[trigger] universal_before(vars, post, l1, x) && x.variable == k && x.positive;
            if x != x2 {
                assert(universal_before(vars, pre, l1, x));
            }
        }
        if counts && k == x2.variable && x2.positive {
            assert(universal_before(vars, post, l1, x2));
        }
    }
    if !counts {
        assert(n =~= m);
    } else if x2.positive {
        assert(n =~= m.insert(x2.variable, false));
    } else if m.dom().contains(x2.variable) {
        assert(n =~= m);
    } else {
        assert(n =~= m.insert(x2.variable, true));
    }
}

/// The annotation of the expansion of `l1` in `c`.
fn expansion_annotation(vars: &Vec<usize>, c: &Clause, l1: &Literal) -> (r: Assignment)
    requires
        c.wf(),
        clause_in_namespace(vars@, c@),
        l1.variable < vars@.len(),
    ensures
        r.wf(),
        r.map() == expansion_map(vars@, c@, l1@),
{
    let mut a = Assignment::new();
    let mut j: usize = 0;
    assert(a.map() =~= expansion_map(vars@, c@.take(0), l1@));
    while j < c.len()
        invariant
            c.wf(),
            clause_in_namespace(vars@, c@),
            l1.variable < vars@.len(),
            j <= c@.len(),
            a.wf(),
            a.map() == expansion_map(vars@, c@.take(j as int), l1@),
        decreases c@.len() - j,
    {
        let l2 = c.literal(j);
        assert(c@[j as int].variable < vars@.len());
        let ghost pre = c@.take(j as int);
        let ghost post = c@.take(j + 1);
        let ghost x2 = c@[j as int];
        assert(post =~= pre.push(x2));
        proof {
            lemma_expansion_map_step(vars@, pre, x2, l1@);
        }
        if !l2.is_existential(vars) && l2.less(l1, vars) {
            let k = l2.variable;
            if l2.positive {
                a.insert(k, false);
            } else {
                match a.get(k) {
                    Some(_) => {},
                    None => {
                        a.insert(k, true);
                    },
                }
            }
        }
        j = j + 1;
    }
    assert(c@.take(j as int) =~= c@);
    a
}

impl QBF {
    /// The expansion clause of `c`, which must be a clause of the formula:
    /// each existential literal of `c` annotated with the universal
    /// literals of `c` quantified before it.
    pub fn expansion(&self, c: &Clause) -> (r: Option<Clause>)
        requires
            self.wf(),
            c.wf(),
            clause_in_namespace(self.vars@, c@),
        ensures
            r is None <==> !self.cnf@.contains(c@),
            r matches Some(e) ==> e.wf() && e.lits() == expansion_set(self.vars@, c@),
            r matches Some(e) ==> forall|i: int|
                0 <= i < c@.len() && is_existential_lit(self.vars@, #[trigger] c@[i])
                    ==> has_copy(self.vars@, c@, i, e.lits()),
    {
        if !self.cnf.contains(c) {
            return None;
        }
        let mut e = Clause::new();
        let mut i: usize = 0;
        let ghost vars = self.vars@;
        let ghost mut copies: Seq<Lit> = Seq::empty();
        assert(e.lits() =~= prefix_expansion(vars, c@, 0)) by {
            reveal(prefix_expansion);
        }
        while i < c.len()
            invariant
                self.wf(),
                c.wf(),
                vars == self.vars@,
                clause_in_namespace(vars, c@),
                i <= c@.len(),
                e.wf(),
                e.lits() == prefix_expansion(vars, c@, i as int),
                copies.len() == i,
                forall|m: int|
                    0 <= m < i && is_existential_lit(vars, #[trigger] c@[m]) ==> expands(
                        vars,
                        c@,
                        c@[m],
                        copies[m],
                    ),
            decreases c@.len() - i,
        {
            let l1 = c.literal(i);
            assert(c@[i as int].variable < vars.len());
            if l1.is_existential(&self.vars) {
                let a = expansion_annotation(&self.vars, c, l1);
                let x = Literal { positive: l1.positive, variable: l1.variable, assignment: a };
                let ghost xv = x@;
                proof {
                    reveal(expands);
                }
                assert(expands(vars, c@, c@[i as int], xv));
                e.insert(x);
                proof {
                    lemma_prefix_expansion_step(vars, c@, i as int, xv);
                    copies = copies.push(xv);
                }
            } else {
                proof {
                    lemma_prefix_expansion_skip(vars, c@, i as int);
                    copies = copies.push(c@[i as int]);
                }
            }
            i = i + 1;
        }
        proof {
            lemma_expansion_covers(vars, c@, copies, e.lits());
        }
        Some(e)
    }

    /// The resolvent of `c1` and `c2` on `l1`: defined when `l1` is in `c1`,
    /// its inverse in `c2`, and both remainders are clauses of the formula.
    pub fn resolution(&self, c1: &Clause, l1: &Literal, c2: &Clause) -> (r: Option<Clause>)
        requires
            self.wf(),
            c1.wf(),
            c2.wf(),
            l1.wf(),
        ensures
            r is None <==> !(c1@.contains(l1@) && c2@.contains(inverse(l1@)) && has_clause(
                self.cnf@,
                c1.lits().remove(l1@),
            ) && has_clause(self.cnf@, c2.lits().remove(inverse(l1@)))),
            r matches Some(x) ==> x.wf() && x.lits() == c1.lits().remove(l1@).union(
                c2.lits().remove(inverse(l1@)),
            ),
    {
        let inv = l1.clone().invert();
        if !c1.contains(l1) || !c2.contains(&inv) {
            return None;
        }
        let mut r1 = c1.clone();
        r1.remove(l1);
        let mut r2 = c2.clone();
        r2.remove(&inv);
        let in1 = self.cnf.contains(&r1);
        let in2 = self.cnf.contains(&r2);
        proof {
            if !in1 {
                lemma_no_clause_with(self.cnf@, r1@);
            }
            if !in2 {
                lemma_no_clause_with(self.cnf@, r2@);
            }
            if in1 {
                let k = choose|k: int| 0 <= k < self.cnf@.len() && self.cnf@[k] == r1@;
                assert(self.cnf@[k].to_set() == r1.lits());
            }
            if in2 {
                let k = choose|k: int| 0 <= k < self.cnf@.len() && self.cnf@[k] == r2@;
                assert(self.cnf@[k].to_set() == r2.lits());
            }
        }
        if !in1 || !in2 {
            return None;
        }
        let mut res = r1;
        let mut j: usize = 0;
        assert(res.lits() =~= r1@.to_set().union(r2@.take(0).to_set()));
        while j < r2.len()
            invariant
                r2.wf(),
                res.wf(),
                j <= r2@.len(),
                res.lits() == r1@.to_set().union(r2@.take(j as int).to_set()),
            decreases r2@.len() - j,
        {
            assert(lit_wf(r2@[j as int]));
            res.insert(r2.literal(j).clone());
            proof {
                crate::qbf::lemma_push_to_set(r2@.take(j as int), r2@[j as int]);
                assert(r2@.take(j + 1) =~= r2@.take(j as int).push(r2@[j as int]));
                assert(res.lits() =~= r1@.to_set().union(r2@.take(j + 1).to_set()));
            }
            j = j + 1;
        }
        assert(r2@.take(j as int) =~= r2@);
        Some(res)
    }
}

proof fn lemma_prefix_expansion_step(vars: Seq<usize>, c: Seq<Lit>, i: int, xv: Lit)
    requires
        0 <= i < c.len(),
        is_existential_lit(vars, c[i]),
        expands(vars, c, c[i], xv),
    ensures
        prefix_expansion(vars, c, i + 1) == prefix_expansion(vars, c, i).insert(xv),
{
    reveal(prefix_expansion);
    assert forall|y: Lit| #[trigger] expands(vars, c, c[i], y) implies y == xv by {
        reveal(expands);
        lemma_entries_unique(y.annotation, xv.annotation);
    }
    assert forall|y: Lit| prefix_expansion(vars, c, i + 1).contains(y) implies prefix_expansion(vars, c, i).insert(xv).contains(y) by {
        let j = choose|j: int| 0 <= j < i + 1 && is_existential_lit(vars, c[j]) && #[trigger] expands(vars, c, c[j], y);
        if j == i {
            assert(y == xv);
        }
    }
    assert(prefix_expansion(vars, c, i + 1) =~= prefix_expansion(vars, c, i).insert(xv));
}

proof fn lemma_prefix_expansion_skip(vars: Seq<usize>, c: Seq<Lit>, i: int)
    requires
        0 <= i < c.len(),
        !is_existential_lit(vars, c[i]),
    ensures
        prefix_expansion(vars, c, i + 1) == prefix_expansion(vars, c, i),
{
    reveal(prefix_expansion);
    assert forall|y: Lit| prefix_expansion(vars, c, i + 1).contains(y) implies prefix_expansion(vars, c, i).contains(y) by {
        let j = choose|j: int| 0 <= j < i + 1 && is_existential_lit(vars, c[j]) && #[trigger] expands(vars, c, c[j], y);
        assert(j != i);
    }
    assert(prefix_expansion(vars, c, i + 1) =~= prefix_expansion(vars, c, i));
}

proof fn lemma_expansion_covers(vars: Seq<usize>, c: Seq<Lit>, copies: Seq<Lit>, s: Set<Lit>)
    requires
        s == prefix_expansion(vars, c, c.len() as int),
        copies.len() == c.len(),
        forall|m: int|
            0 <= m < c.len() && is_existential_lit(vars, #[trigger] c[m]) ==> expands(
                vars,
                c,
                c[m],
                copies[m],
            ),
    ensures
        forall|m: int|
            0 <= m < c.len() && is_existential_lit(vars, #[trigger] c[m]) ==> has_copy(vars, c, m, s),
{
    reveal(prefix_expansion);
    assert forall|m: int|
        0 <= m < c.len() && is_existential_lit(vars, #[trigger] c[m]) implies has_copy(vars, c, m, s) by {
        assert(s.contains(copies[m]));
    }
}

/// The variables of the universal literals of `c` quantified before `l1`.
pub open spec fn universal_vars_before(vars: Seq<usize>, c: Seq<Lit>, l1: Lit) -> Set<usize> {
    Set::new(|k: usize| exists|x: Lit| #[trigger] universal_before(vars, c, l1, x) && x.variable == k)
}

/// The expansion of a clause `c` (as `QBF::expansion` produces it) holds
/// exactly one literal per existential literal of `c`, when no two of those
/// share variable and polarity: each has exactly one annotated copy in it,
/// every literal of the expansion is the copy of exactly one of them, and a
/// copy's annotation has as keys exactly the variables of the universal
/// literals of `c` quantified before the literal.
pub proof fn lemma_expansion_arity(vars: Seq<usize>, c: Seq<Lit>, e: Set<Lit>)
    requires
        clause_wf(c),
        e == expansion_set(vars, c),
        forall|i: int|
            0 <= i < c.len() && is_existential_lit(vars, #[trigger] c[i]) ==> has_copy(vars, c, i, e),
        forall|i: int, j: int|
            0 <= i < c.len() && 0 <= j < c.len() && i != j && is_existential_lit(vars, c[i])
                && is_existential_lit(vars, c[j]) ==> #[trigger] c[i].variable != #[trigger] c[j].variable
                || c[i].positive != c[j].positive,
    ensures
        forall|i: int, x: Lit, y: Lit|
            0 <= i < c.len() && #[trigger] expands(vars, c, c[i], x) && #[trigger] expands(vars, c, c[i], y)
                ==> x == y,
        forall|x: Lit|
            #[trigger] e.contains(x) ==> exists|i: int|
                0 <= i < c.len() && is_existential_lit(vars, c[i]) && #[trigger] expands(vars, c, c[i], x),
        forall|i: int, j: int, x: Lit|
            0 <= i < c.len() && 0 <= j < c.len() && is_existential_lit(vars, c[i])
                && is_existential_lit(vars, c[j]) && #[trigger] expands(vars, c, c[i], x)
                && #[trigger] expands(vars, c, c[j], x) ==> i == j,
        forall|i: int, x: Lit|
            0 <= i < c.len() && #[trigger] expands(vars, c, c[i], x) ==> entries_map(x.annotation).dom()
                == universal_vars_before(vars, c, c[i]),
{
    reveal(expands);
    reveal(prefix_expansion);
    assert forall|i: int, x: Lit, y: Lit|
        0 <= i < c.len() && #[trigger] expands(vars, c, c[i], x) && #[trigger] expands(vars, c, c[i], y)
        implies x == y by {
        lemma_entries_unique(x.annotation, y.annotation);
    }
    assert forall|i: int, x: Lit|
        0 <= i < c.len() && #[trigger] expands(vars, c, c[i], x) implies entries_map(x.annotation).dom()
        == universal_vars_before(vars, c, c[i]) by {
        assert(entries_map(x.annotation).dom() =~= universal_vars_before(vars, c, c[i]));
    }
}

/// An outer resolvent keeps no literal of the second clause that is
/// quantified after the pivot: such a literal can only come from the first
/// clause.
pub proof fn lemma_outer_resolvent_is_outer(
    vars: Seq<usize>,
    c: Set<Lit>,
    l: Lit,
    c2: Set<Lit>,
    x: Lit,
)
    requires
        outer_resolvent_set(vars, c, l, c2).contains(x),
        block_of(vars, x) > block_of(vars, l),
    ensures
        c.contains(x),
        x != l,
{
}

/// A clause in canonical form that is absent from `f` has no other
/// representation there.
proof fn lemma_no_clause_with(f: Seq<Seq<Lit>>, c: Seq<Lit>)
    requires
        forall|k: int| 0 <= k < f.len() ==> #[trigger] clause_wf(f[k]),
        clause_wf(c),
        !f.contains(c),
    ensures
        !has_clause(f, c.to_set()),
{
    if has_clause(f, c.to_set()) {
        let k = choose|k: int| 0 <= k < f.len() && #[trigger] f[k].to_set() == c.to_set();
        lemma_clause_set_equality(f[k], c);
    }
}

} // verus!
