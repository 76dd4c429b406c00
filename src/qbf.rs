use crate::literal::{keys_increasing, lemma_lit_order, lit_lt, lit_weight, word, Lit, Literal};
use crate::order::{lemma_sorted_unique, strictly_sorted};
use vstd::prelude::*;

verus! {

/// The literals of a clause in the order in which they are kept.
pub open spec fn lits_view(v: Seq<Literal>) -> Seq<Lit> {
    v.map_values(|l: Literal| l@)
}

/// A literal whose annotation is in canonical form.
pub open spec fn lit_wf(l: Lit) -> bool {
    keys_increasing(l.annotation)
}

/// Strictly increasing in the literal order.
pub open spec fn lits_sorted(s: Seq<Lit>) -> bool {
    forall|i: int, j: int| 0 <= i < j < s.len() ==> #[trigger] lit_lt(s[i], s[j])
}

/// The canonical form of a clause: literals in canonical form, strictly sorted.
pub open spec fn clause_wf(s: Seq<Lit>) -> bool {
    &&& lits_sorted(s)
    &&& forall|i: int| 0 <= i < s.len() ==> #[trigger] lit_wf(s[i])
}

/// The prime modulus of the clause hash.
pub const HASH_MODULUS: u128 = 2147483647;

/// The product over the literals of `(literal hash + 7)`, reduced at each step.
pub open spec fn clause_weight(s: Seq<Lit>) -> int
    decreases s.len(),
{
    if s.len() == 0 {
        1
    } else {
        (clause_weight(s.drop_last()) * (lit_weight(s.last()) % word() + 7)) % (
        HASH_MODULUS as int)
    }
}

/// Clauses in canonical form that hold the same literals are equal, and so
/// hash alike: neither depends on the order in which the literals came.
pub proof fn lemma_clause_set_equality(a: Seq<Lit>, b: Seq<Lit>)
    requires
        clause_wf(a),
        clause_wf(b),
        a.to_set() == b.to_set(),
    ensures
        a == b,
        clause_weight(a) == clause_weight(b),
{
    lemma_lit_order();
    let lt = |x: Lit, y: Lit| lit_lt(x, y);
    assert(strictly_sorted(a, lt));
    assert(strictly_sorted(b, lt));
    lemma_sorted_unique(a, b, lt);
}

/// Appending an element adds it to the set of elements.
pub proof fn lemma_push_to_set<T>(s: Seq<T>, x: T)
    ensures
        s.push(x).to_set() == s.to_set().insert(x),
{
    assert forall|y: T| s.push(x).to_set().contains(y) implies s.to_set().insert(x).contains(y) by {
        let k = choose|k: int| 0 <= k < s.push(x).len() && s.push(x)[k] == y;
        if k < s.len() {
            assert(s[k] == y);
        }
    }
    assert forall|y: T| s.to_set().insert(x).contains(y) implies s.push(x).to_set().contains(y) by {
        if y == x {
            assert(s.push(x)[s.len() as int] == y);
        } else {
            let k = choose|k: int| 0 <= k < s.len() && s[k] == y;
            assert(s.push(x)[k] == y);
        }
    }
    assert(s.push(x).to_set() =~= s.to_set().insert(x));
}

/// A clause: a set of literals, kept strictly sorted so that equal sets have
/// equal representations (and equal derived hashes).
#[derive(Debug, Eq, Hash)]
pub struct Clause(pub Vec<Literal>);

impl View for Clause {
    type V = Seq<Lit>;

    open spec fn view(&self) -> Seq<Lit> {
        lits_view(self.0@)
    }
}

impl Clause {
    pub open spec fn wf(&self) -> bool {
        clause_wf(self@)
    }

    /// The set of literals of the clause.
    pub open spec fn lits(&self) -> Set<Lit> {
        self@.to_set()
    }

    /// The empty clause, which stands for false.
    pub fn new() -> (r: Clause)
        ensures
            r.wf(),
            r@ == Seq::<Lit>::empty(),
    {
        let r = Clause(Vec::new());
        assert(r@ =~= Seq::<Lit>::empty());
        r
    }

    pub fn len(&self) -> (r: usize)
        ensures
            r == self@.len(),
    {
        self.0.len()
    }

    pub fn is_empty(&self) -> (r: bool)
        ensures
            r == (self@.len() == 0),
    {
        self.0.len() == 0
    }

    /// The literal at position `i` in the clause's order.
    pub fn literal(&self, i: usize) -> (r: &Literal)
        requires
            i < self@.len(),
        ensures
            r@ == self@[i as int],
    {
        &self.0[i]
    }

    /// Whether `l` is one of the literals.
    pub fn contains(&self, l: &Literal) -> (r: bool)
        ensures
            r == self@.contains(l@),
    {
        let mut i: usize = 0;
        while i < self.0.len()
            invariant
                i <= self.0.len(),
                forall|j: int| 0 <= j < i ==> self@[j] != l@,
            decreases self.0.len() - i,
        {
            if self.0[i] == *l {
                assert(self@[i as int] == l@);
                return true;
            }
            i = i + 1;
        }
        false
    }

    /// Adds `l`; returns whether it was absent.
    pub fn insert(&mut self, l: Literal) -> (r: bool)
        requires
            old(self).wf(),
            l.wf(),
        ensures
            final(self).wf(),
            final(self).lits() == old(self).lits().insert(l@),
            r == !old(self)@.contains(l@),
    {
        let ghost before = self@;
        proof {
            lemma_lit_order();
        }
        let mut i: usize = 0;
        while i < self.0.len() && self.0[i].precedes(&l)
            invariant
                self@ == before,
                clause_wf(before),
                i <= self.0.len(),
                forall|j: int| 0 <= j < i ==> lit_lt(#[trigger] before[j], l@),
            decreases self.0.len() - i,
        {
            i = i + 1;
        }
        if i < self.0.len() && self.0[i] == l {
            assert(before[i as int] == l@);
            assert(before.to_set().insert(l@) =~= before.to_set());
            return false;
        }
        let ghost lv = l@;
        proof {
            assert(!before.contains(lv)) by {
                if before.contains(lv) {
                    let k = choose|k: int| 0 <= k < before.len() && before[k] == lv;
                    if k < i {
                        assert(lit_lt(before[k], lv));
                    } else {
                        assert(before[i as int] != lv);
                        assert(!lit_lt(before[i as int], lv));
                        if k > i {
                            assert(lit_lt(before[i as int], before[k]));
                        }
                    }
                }
            }
        }
        self.0.insert(i, l);
        let ghost after = self@;
        assert(after =~= before.insert(i as int, lv));
        proof {
            assert forall|a: int, b: int| 0 <= a < b < after.len() implies #[trigger] lit_lt(
                after[a],
                after[b],
            ) by {
                if b < i {
                } else if b == i {
                } else if a < i {
                    assert(after[b] == before[b - 1]);
                    if b - 1 == i {
                        assert(lit_lt(lv, before[i as int]));
                    } else {
                        assert(lit_lt(before[i as int], before[b - 1]));
                        assert(lit_lt(lv, before[i as int]));
                    }
                } else if a == i {
                    assert(after[b] == before[b - 1]);
                    assert(lit_lt(lv, before[i as int]));
                    if b - 1 > i {
                        assert(lit_lt(before[i as int], before[b - 1]));
                    }
                } else {
                    assert(after[b] == before[b - 1]);
                    assert(after[a] == before[a - 1]);
                }
            }
            assert forall|k: int| 0 <= k < after.len() implies #[trigger] lit_wf(after[k]) by {
                if k < i {
                } else if k > i {
                    assert(after[k] == before[k - 1]);
                }
            }
            assert(after.to_set() =~= before.to_set().insert(lv)) by {
                assert forall|x: Lit| after.to_set().contains(x) implies before.to_set().insert(
                    lv,
                ).contains(x) by {
                    let k = choose|k: int| 0 <= k < after.len() && after[k] == x;
                    if k < i {
                        assert(before[k] == x);
                    } else if k > i {
                        assert(before[k - 1] == x);
                    }
                }
                assert forall|x: Lit| before.to_set().insert(lv).contains(x) implies after.to_set().contains(x) by {
                    if x == lv {
                        assert(after[i as int] == x);
                    } else {
                        let k = choose|k: int| 0 <= k < before.len() && before[k] == x;
                        if k < i {
                            assert(after[k] == x);
                        } else {
                            assert(after[k + 1] == x);
                        }
                    }
                }
            }
        }
        true
    }
}

impl Clause {
    /// Removes `l`; returns whether it was present.
    pub fn remove(&mut self, l: &Literal) -> (r: bool)
        requires
            old(self).wf(),
        ensures
            final(self).wf(),
            final(self).lits() == old(self).lits().remove(l@),
            r == old(self)@.contains(l@),
    {
        let ghost before = self@;
        proof {
            lemma_lit_order();
        }
        let mut i: usize = 0;
        while i < self.0.len()
            invariant
                self@ == before,
                before == old(self)@,
                clause_wf(before),
                i <= self.0.len(),
                forall|j: int| 0 <= j < i ==> before[j] != l@,
            decreases self.0.len() - i,
        {
            if self.0[i] == *l {
                assert(before[i as int] == l@);
                assert(before.contains(l@));
                self.0.remove(i);
                let ghost after = self@;
                assert(after =~= before.remove(i as int));
                proof {
                    assert forall|a: int, b: int| 0 <= a < b < after.len() implies #[trigger] lit_lt(
                        after[a],
                        after[b],
                    ) by {
                        if a >= i {
                            assert(after[a] == before[a + 1]);
                        }
                        if b >= i {
                            assert(after[b] == before[b + 1]);
                        }
                    }
                    assert forall|k: int| 0 <= k < after.len() implies #[trigger] lit_wf(
                        after[k],
                    ) by {
                        if k >= i {
                            assert(after[k] == before[k + 1]);
                        }
                    }
                    assert(after.to_set() =~= before.to_set().remove(l@)) by {
                        assert forall|x: Lit| after.to_set().contains(x) implies before.to_set().remove(
                            l@,
                        ).contains(x) by {
                            let k = choose|k: int| 0 <= k < after.len() && after[k] == x;
                            if k < i {
                                assert(before[k] == x);
                                assert(lit_lt(before[k], before[i as int]));
                            } else {
                                assert(before[k + 1] == x);
                                assert(lit_lt(before[i as int], before[k + 1]));
                            }
                            lemma_lit_order();
                        }
                        assert forall|x: Lit| before.to_set().remove(l@).contains(x) implies after.to_set().contains(x) by {
                            let k = choose|k: int| 0 <= k < before.len() && before[k] == x;
                            if k < i {
                                assert(after[k] == x);
                            } else {
                                assert(k != i);
                                assert(after[k - 1] == x);
                            }
                        }
                    }
                }
                assert(self.lits() == before.to_set().remove(l@));
                return true;
            }
            i = i + 1;
        }
        assert(before.to_set().remove(l@) =~= before.to_set());
        false
    }

    /// The clause holding exactly the given literals, whatever their order.
    pub fn from_literals(v: Vec<Literal>) -> (r: Clause)
        requires
            forall|i: int| 0 <= i < v@.len() ==> (#[trigger] v@[i]).wf(),
        ensures
            r.wf(),
            r.lits() == lits_view(v@).to_set(),
    {
        let mut c = Clause::new();
        let mut v = v;
        let ghost all = v@;
        let mut i: usize = 0;
        let ghost empty = Seq::<Lit>::empty().to_set();
        assert(c.lits() =~= lits_view(all.take(0)).to_set());
        while i < v.len()
            invariant
                v@ == all,
                i <= v.len(),
                forall|k: int| 0 <= k < v@.len() ==> (#[trigger] v@[k]).wf(),
                c.wf(),
                c.lits() == lits_view(all.take(i as int)).to_set(),
            decreases v.len() - i,
        {
            let l = v[i].clone();
            c.insert(l);
            proof {
                assert(lits_view(all.take(i + 1)) =~= lits_view(all.take(i as int)).push(
                    all[i as int]@,
                ));
                lemma_push_to_set(lits_view(all.take(i as int)), all[i as int]@);
            }
            i = i + 1;
        }
        assert(all.take(i as int) =~= all);
        c
    }

    /// An order-independent hash: the product over the literals of
    /// `(literal hash + 7)` modulo `2^31 - 1`.
    pub fn hash_helper(&self) -> (r: usize)
        ensures
            r == clause_weight(self@),
    {
        let mut accu: u128 = 1;
        let mut i: usize = 0;
        assert(self@.take(0) =~= Seq::<Lit>::empty());
        while i < self.0.len()
            invariant
                i <= self.0.len(),
                accu == clause_weight(self@.take(i as int)),
                accu < HASH_MODULUS,
            decreases self.0.len() - i,
        {
            let h = self.0[i].hash_helper();
            let f = (h as u128) + 7;
            assert(accu * f < 0x1_0000_0000_0000_0000_0000_0000_0000_0000) by (nonlinear_arith)
                requires
                    accu < HASH_MODULUS,
                    f < 0x1_0000_0000_0000_0008,
            ;
            assert(self@.take(i + 1).drop_last() =~= self@.take(i as int));
            accu = (accu * f) % HASH_MODULUS;
            i = i + 1;
        }
        assert(self@.take(i as int) =~= self@);
        accu as usize
    }
}

impl PartialEq for Clause {
    fn eq(&self, other: &Clause) -> (r: bool) {
        assert(self@.len() == self.0@.len());
        assert(other@.len() == other.0@.len());
        if self.0.len() != other.0.len() {
            return false;
        }
        let mut i: usize = 0;
        while i < self.0.len()
            invariant
                i <= self.0.len(),
                self.0.len() == other.0.len(),
                forall|j: int| 0 <= j < i ==> self@[j] == other@[j],
            decreases self.0.len() - i,
        {
            if !(self.0[i] == other.0[i]) {
                assert(self@[i as int] != other@[i as int]);
                return false;
            }
            i = i + 1;
        }
        assert(self@ =~= other@);
        true
    }
}

impl vstd::std_specs::cmp::PartialEqSpecImpl for Clause {
    open spec fn obeys_eq_spec() -> bool {
        true
    }

    open spec fn eq_spec(&self, other: &Clause) -> bool {
        self@ == other@
    }
}

impl Clone for Clause {
    fn clone(&self) -> (r: Clause)
        ensures
            r@ == self@,
    {
        let mut v: Vec<Literal> = Vec::new();
        let mut i: usize = 0;
        while i < self.0.len()
            invariant
                i <= self.0.len(),
                lits_view(v@) == self@.take(i as int),
            decreases self.0.len() - i,
        {
            let l = self.0[i].clone();
            let ghost pre = v@;
            v.push(l);
            assert(v@ == pre.push(l));
            assert(lits_view(v@) =~= lits_view(pre).push(l@));
            i = i + 1;
            assert(lits_view(v@) =~= self@.take(i as int));
        }
        assert(self@.take(i as int) =~= self@);
        Clause(v)
    }
}

/// The clauses of a formula in the order in which they are kept.
pub open spec fn clauses_view(v: Seq<Clause>) -> Seq<Seq<Lit>> {
    v.map_values(|c: Clause| c@)
}

/// A conjunction of clauses, without repetition.
#[derive(Debug)]
pub struct CNF(pub Vec<Clause>);

impl View for CNF {
    type V = Seq<Seq<Lit>>;

    open spec fn view(&self) -> Seq<Seq<Lit>> {
        clauses_view(self.0@)
    }
}

impl CNF {
    pub open spec fn wf(&self) -> bool {
        &&& forall|i: int| 0 <= i < self@.len() ==> #[trigger] clause_wf(self@[i])
        &&& self@.no_duplicates()
    }

    /// The set of clauses.
    pub open spec fn clauses(&self) -> Set<Seq<Lit>> {
        self@.to_set()
    }

    /// The empty conjunction, which stands for true.
    pub fn new() -> (r: CNF)
        ensures
            r.wf(),
            r@ == Seq::<Seq<Lit>>::empty(),
    {
        let r = CNF(Vec::new());
        assert(r@ =~= Seq::<Seq<Lit>>::empty());
        r
    }

    pub fn len(&self) -> (r: usize)
        ensures
            r == self@.len(),
    {
        self.0.len()
    }

    /// The clause at position `i`.
    pub fn clause(&self, i: usize) -> (r: &Clause)
        requires
            i < self@.len(),
        ensures
            r@ == self@[i as int],
    {
        &self.0[i]
    }

    /// Whether `c` is one of the clauses.
    pub fn contains(&self, c: &Clause) -> (r: bool)
        ensures
            r == self@.contains(c@),
    {
        let mut i: usize = 0;
        while i < self.0.len()
            invariant
                i <= self.0.len(),
                forall|j: int| 0 <= j < i ==> self@[j] != c@,
            decreases self.0.len() - i,
        {
            if self.0[i] == *c {
                assert(self@[i as int] == c@);
                return true;
            }
            i = i + 1;
        }
        false
    }

    /// Adds `c` unless it is already there; returns whether it was absent.
    pub fn insert(&mut self, c: Clause) -> (r: bool)
        requires
            old(self).wf(),
            c.wf(),
        ensures
            final(self).wf(),
            r == !old(self)@.contains(c@),
            final(self)@ == if r {
                old(self)@.push(c@)
            } else {
                old(self)@
            },
    {
        if self.contains(&c) {
            return false;
        }
        let ghost before = self@;
        let ghost cv = c@;
        self.0.push(c);
        assert(self@ =~= before.push(cv));
        assert forall|a: int, b: int| 0 <= a < b < self@.len() implies self@[a] != self@[b] by {
            if b == before.len() {
                assert(self@[a] == before[a]);
            } else {
                assert(self@[a] == before[a]);
                assert(self@[b] == before[b]);
            }
        }
        true
    }

    /// The conjunction of the given clauses; a repeated clause is kept once.
    pub fn from_clauses(v: Vec<Clause>) -> (r: CNF)
        requires
            forall|i: int| 0 <= i < v@.len() ==> (#[trigger] v@[i]).wf(),
        ensures
            r.wf(),
            r.clauses() == clauses_view(v@).to_set(),
    {
        let mut f = CNF::new();
        let mut i: usize = 0;
        let ghost all = clauses_view(v@);
        assert(f.clauses() =~= all.take(0).to_set());
        while i < v.len()
            invariant
                i <= v.len(),
                all == clauses_view(v@),
                forall|k: int| 0 <= k < v@.len() ==> (#[trigger] v@[k]).wf(),
                f.wf(),
                f.clauses() == all.take(i as int).to_set(),
            decreases v.len() - i,
        {
            let c = v[i].clone();
            let ghost before = f@;
            let added = f.insert(c);
            proof {
                assert(all.take(i + 1) =~= all.take(i as int).push(all[i as int]));
                lemma_push_to_set(all.take(i as int), all[i as int]);
                if added {
                    lemma_push_to_set(before, all[i as int]);
                } else {
                    assert(before.to_set().insert(all[i as int]) =~= before.to_set());
                }
            }
            i = i + 1;
        }
        assert(all.take(i as int) =~= all);
        f
    }
}

/// A formula: quantifier blocks indexed by variable, and a conjunction of clauses.
#[derive(Debug)]
pub struct QBF {
    pub vars: Vec<usize>,
    pub cnf: CNF,
}

/// Every literal of every clause names a variable of the quantifier map.
pub open spec fn in_namespace(vars: Seq<usize>, cs: Seq<Seq<Lit>>) -> bool {
    forall|i: int, j: int|
        0 <= i < cs.len() && 0 <= j < cs[i].len() ==> #[trigger] cs[i][j].variable < vars.len()
}

/// Every literal of the clause names a variable of the quantifier map.
pub open spec fn clause_in_namespace(vars: Seq<usize>, c: Seq<Lit>) -> bool {
    forall|j: int| 0 <= j < c.len() ==> #[trigger] c[j].variable < vars.len()
}

impl QBF {
    pub open spec fn wf(&self) -> bool {
        &&& self.cnf.wf()
        &&& in_namespace(self.vars@, self.cnf@)
    }

    pub fn new(vars: Vec<usize>, cnf: CNF) -> (r: QBF)
        ensures
            r.vars == vars,
            r.cnf == cnf,
    {
        QBF { vars, cnf }
    }
}

/// Universal variables come innermost block first, and by increasing
/// variable within a block.
pub open spec fn universal_lt(p: (usize, usize), q: (usize, usize)) -> bool {
    p.0 > q.0 || (p.0 == q.0 && p.1 < q.1)
}

/// The pairs `(block, variable)` of the universal variables.
pub open spec fn universal_pairs(vars: Seq<usize>) -> Set<(usize, usize)> {
    Set::new(|p: (usize, usize)| p.1 < vars.len() && vars[p.1 as int] == p.0 && p.0 % 2 == 1)
}

/// The universal variables with their blocks, innermost block first and by
/// increasing variable within a block.
pub fn universal_literals(vars: &Vec<usize>) -> (r: Vec<(usize, usize)>)
    ensures
        r@.to_set() == universal_pairs(vars@),
        forall|i: int, j: int| 0 <= i < j < r@.len() ==> #[trigger] universal_lt(r@[i], r@[j]),
{
    let mut result: Vec<(usize, usize)> = Vec::new();
    let mut var: usize = 0;
    while var < vars.len()
        invariant
            var <= vars.len(),
            forall|i: int, j: int|
                0 <= i < j < result@.len() ==> #[trigger] universal_lt(result@[i], result@[j]),
            forall|i: int| 0 <= i < result@.len() ==> #[trigger] result@[i].1 < var,
            result@.to_set() == universal_pairs(vars@.take(var as int)),
        decreases vars.len() - var,
    {
        let block = vars[var];
        let ghost before = result@;
        if block % 2 == 1 {
            let mut pos: usize = 0;
            while pos < result.len() && result[pos].0 >= block
                invariant
                    result@ == before,
                    pos <= result.len(),
                    forall|j: int| 0 <= j < pos ==> #[trigger] result@[j].0 >= block,
                decreases result.len() - pos,
            {
                pos = pos + 1;
            }
            result.insert(pos, (block, var));
            let ghost after = result@;
            assert(after =~= before.insert(pos as int, (block, var)));
            assert forall|i: int, j: int| 0 <= i < j < after.len() implies #[trigger] universal_lt(
                after[i],
                after[j],
            ) by {
                if j < pos {
                } else if j == pos {
                    assert(before[i].1 < var);
                } else if i < pos {
                    assert(after[j] == before[j - 1]);
                    assert(before[pos as int].0 < block);
                    if j - 1 > pos {
                        assert(universal_lt(before[pos as int], before[j - 1]));
                    }
                } else if i == pos {
                    assert(after[j] == before[j - 1]);
                    assert(before[pos as int].0 < block);
                    if j - 1 > pos {
                        assert(universal_lt(before[pos as int], before[j - 1]));
                    }
                } else {
                    assert(after[j] == before[j - 1]);
                    assert(after[i] == before[i - 1]);
                }
            }
            assert forall|i: int| 0 <= i < after.len() implies #[trigger] after[i].1 < var + 1 by {
                if i < pos {
                } else if i > pos {
                    assert(after[i] == before[i - 1]);
                }
            }
            assert(after.to_set() =~= universal_pairs(vars@.take(var + 1))) by {
                assert forall|p: (usize, usize)| after.to_set().contains(p) implies universal_pairs(
                    vars@.take(var + 1),
                ).contains(p) by {
                    let k = choose|k: int| 0 <= k < after.len() && after[k] == p;
                    if k < pos {
                        assert(before[k] == p);
                        assert(before.to_set().contains(p));
                    } else if k > pos {
                        assert(before[k - 1] == p);
                        assert(before.to_set().contains(p));
                    }
                }
                assert forall|p: (usize, usize)| universal_pairs(vars@.take(var + 1)).contains(
                    p,
                ) implies after.to_set().contains(p) by {
                    if p.1 == var {
                        assert(after[pos as int] == p);
                    } else {
                        assert(universal_pairs(vars@.take(var as int)).contains(p));
                        let k = choose|k: int| 0 <= k < before.len() && before[k] == p;
                        if k < pos {
                            assert(after[k] == p);
                        } else {
                            assert(after[k + 1] == p);
                        }
                    }
                }
            }
        } else {
            assert(universal_pairs(vars@.take(var as int)) =~= universal_pairs(
                vars@.take(var + 1),
            ));
        }
        var = var + 1;
    }
    assert(vars@.take(var as int) =~= vars@);
    result
}

/// A literal written as a signed integer: the sign gives the polarity.
#[derive(Copy, Clone, Debug, PartialEq, Eq, Hash)]
pub struct QBFLiteral(pub isize);

/// The absolute value of a signed integer.
pub open spec fn abs_of(x: isize) -> nat {
    if x < 0 {
        (-x) as nat
    } else {
        x as nat
    }
}

impl QBFLiteral {
    /// The variable: the absolute value.
    pub fn variable(&self) -> (r: usize)
        ensures
            r == abs_of(self.0),
    {
        if self.0 < 0 {
            (-(self.0 + 1)) as usize + 1
        } else {
            self.0 as usize
        }
    }

    /// Twice the variable, plus one for a positive literal, wrapping on overflow.
    pub fn hash_helper(&self) -> (r: usize)
        ensures
            r == (2 * abs_of(self.0) + if self.0 > 0 {
                1int
            } else {
                0int
            }) % word(),
    {
        let v = self.variable();
        proof {
            crate::literal::lemma_wrapping_mul_mod(v, 2);
        }
        if self.0 > 0 {
            proof {
                crate::literal::lemma_wrapping_add_mod(v.wrapping_mul(2), 1);
                crate::literal::lemma_mod_sum(v * 2, 1);
            }
            v.wrapping_mul(2).wrapping_add(1)
        } else {
            v.wrapping_mul(2)
        }
    }

    /// Moves the variable up by `a`, keeping the sign.
    pub fn increase_var(&self, a: usize) -> (r: Self)
        requires
            abs_of(self.0) + a <= isize::MAX,
        ensures
            abs_of(r.0) == abs_of(self.0) + a,
            (r.0 < 0) == (self.0 < 0),
    {
        if self.0 < 0 {
            QBFLiteral(self.0 - (a as isize))
        } else {
            QBFLiteral(self.0 + (a as isize))
        }
    }

    /// The literal without annotation that this integer denotes.
    pub fn to_literal(&self) -> (r: Literal)
        ensures
            r.wf(),
            r@ == signed_lit(self.0),
    {
        Literal::new(self.0 > 0, self.variable())
    }

    /// The signed integer of a literal; its annotation is dropped.
    pub fn from_literal(l: &Literal) -> (r: QBFLiteral)
        requires
            l.variable <= isize::MAX,
        ensures
            abs_of(r.0) == l.variable,
            r.0 > 0 <==> (l.positive && l.variable > 0),
    {
        if l.positive {
            QBFLiteral(l.variable as isize)
        } else {
            QBFLiteral(-(l.variable as isize))
        }
    }
}

/// The literal without annotation that a signed integer denotes.
pub open spec fn signed_lit(x: isize) -> Lit {
    Lit { positive: x > 0, variable: abs_of(x) as usize, annotation: Seq::empty() }
}

} // verus!
