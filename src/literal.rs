use crate::order::{lemma_sorted_unique, strict_order, strictly_sorted};
use std::cmp::Ordering;
use vstd::prelude::*;

verus! {

/// One entry of an annotation: a universal variable and the value chosen for it.
pub type Entry = (usize, bool);

/// The mathematical form of a literal: polarity, variable, and the entries of
/// its annotation in increasing key order.
pub struct Lit {
    pub positive: bool,
    pub variable: usize,
    pub annotation: Seq<Entry>,
}

/// Entries are ordered by key, and `false` before `true` on equal keys.
pub open spec fn entry_lt(p: Entry, q: Entry) -> bool {
    p.0 < q.0 || (p.0 == q.0 && !p.1 && q.1)
}

/// Entries with strictly increasing keys: the canonical form of an annotation.
pub open spec fn keys_increasing(s: Seq<Entry>) -> bool {
    forall|i: int, j: int| 0 <= i < j < s.len() ==> #[trigger] s[i].0 < #[trigger] s[j].0
}

/// The partial map from variables to values that a list of entries denotes.
pub open spec fn entries_map(s: Seq<Entry>) -> Map<usize, bool> {
    Map::new(
        |k: usize| exists|i: int| 0 <= i < s.len() && #[trigger] s[i].0 == k,
        |k: usize| s.contains((k, true)),
    )
}

/// Lexicographic order on annotations.
pub open spec fn annotation_lt(a: Seq<Entry>, b: Seq<Entry>) -> bool
    decreases a.len(),
{
    if a.len() == 0 {
        b.len() > 0
    } else if b.len() == 0 {
        false
    } else if a[0] == b[0] {
        annotation_lt(a.drop_first(), b.drop_first())
    } else {
        entry_lt(a[0], b[0])
    }
}

/// The total order in which a clause keeps its literals: by variable, then
/// negative before positive, then by annotation.
pub open spec fn lit_lt(a: Lit, b: Lit) -> bool {
    ||| a.variable < b.variable
    ||| a.variable == b.variable && !a.positive && b.positive
    ||| a.variable == b.variable && a.positive == b.positive && annotation_lt(
        a.annotation,
        b.annotation,
    )
}

/// The literal with the same variable and annotation and the other polarity.
pub open spec fn inverse(l: Lit) -> Lit {
    Lit { positive: !l.positive, ..l }
}

/// A literal whose annotation has no entry.
pub open spec fn is_pure_lit(l: Lit) -> bool {
    l.annotation.len() == 0
}

/// The block in which the variable of `l` is quantified.
pub open spec fn block_of(vars: Seq<usize>, l: Lit) -> usize {
    vars[l.variable as int]
}

/// A variable in an even block is existential.
pub open spec fn is_existential_lit(vars: Seq<usize>, l: Lit) -> bool {
    block_of(vars, l) % 2 == 0
}

pub proof fn lemma_annotation_lt_irreflexive(a: Seq<Entry>)
    ensures
        !annotation_lt(a, a),
    decreases a.len(),
{
    if a.len() > 0 {
        lemma_annotation_lt_irreflexive(a.drop_first());
    }
}

pub proof fn lemma_annotation_lt_asymmetric(a: Seq<Entry>, b: Seq<Entry>)
    ensures
        annotation_lt(a, b) ==> !annotation_lt(b, a),
    decreases a.len(),
{
    if a.len() > 0 && b.len() > 0 && a[0] == b[0] {
        lemma_annotation_lt_asymmetric(a.drop_first(), b.drop_first());
    }
}

pub proof fn lemma_annotation_lt_transitive(a: Seq<Entry>, b: Seq<Entry>, c: Seq<Entry>)
    ensures
        annotation_lt(a, b) && annotation_lt(b, c) ==> annotation_lt(a, c),
    decreases a.len(),
{
    if a.len() > 0 && b.len() > 0 && c.len() > 0 {
        lemma_annotation_lt_transitive(a.drop_first(), b.drop_first(), c.drop_first());
    }
}

pub proof fn lemma_annotation_lt_total(a: Seq<Entry>, b: Seq<Entry>)
    ensures
        a == b || annotation_lt(a, b) || annotation_lt(b, a),
    decreases a.len(),
{
    if a.len() > 0 && b.len() > 0 && a[0] == b[0] {
        lemma_annotation_lt_total(a.drop_first(), b.drop_first());
        if a.drop_first() == b.drop_first() {
            assert(a =~= b) by {
                assert forall|k: int| 0 <= k < a.len() implies a[k] == b[k] by {
                    if k > 0 {
                        assert(a[k] == a.drop_first()[k - 1]);
                    }
                }
            }
        }
    } else if a.len() == 0 && b.len() == 0 {
        assert(a =~= b);
    }
}

/// `lit_lt` is a strict total order.
pub proof fn lemma_lit_order()
    ensures
        strict_order(|a: Lit, b: Lit| lit_lt(a, b)),
        forall|a: Lit| !#[trigger] lit_lt(a, a),
        forall|a: Lit, b: Lit| #[trigger] lit_lt(a, b) ==> !lit_lt(b, a),
        forall|a: Lit, b: Lit, c: Lit|
            #[trigger] lit_lt(a, b) && #[trigger] lit_lt(b, c) ==> lit_lt(a, c),
        forall|a: Lit, b: Lit| a == b || #[trigger] lit_lt(a, b) || lit_lt(b, a),
{
    assert forall|a: Lit| !lit_lt(a, a) by {
        lemma_annotation_lt_irreflexive(a.annotation);
    }
    assert forall|a: Lit, b: Lit| #[trigger] lit_lt(a, b) implies !lit_lt(b, a) by {
        lemma_annotation_lt_asymmetric(a.annotation, b.annotation);
    }
    assert forall|a: Lit, b: Lit, c: Lit|
        #[trigger] lit_lt(a, b) && #[trigger] lit_lt(b, c) implies lit_lt(a, c) by {
        lemma_annotation_lt_transitive(a.annotation, b.annotation, c.annotation);
    }
    assert forall|a: Lit, b: Lit| a == b || #[trigger] lit_lt(a, b) || lit_lt(b, a) by {
        lemma_annotation_lt_total(a.annotation, b.annotation);
    }
}

/// Two annotations in canonical form that denote the same map are the same.
pub proof fn lemma_entries_unique(s: Seq<Entry>, t: Seq<Entry>)
    requires
        keys_increasing(s),
        keys_increasing(t),
        entries_map(s) == entries_map(t),
    ensures
        s == t,
{
    let lt = |p: Entry, q: Entry| p.0 < q.0;
    assert forall|x: Entry| s.to_set().contains(x) implies t.to_set().contains(x) by {
        let i = choose|i: int| 0 <= i < s.len() && s[i] == x;
        assert(entries_map(s).dom().contains(x.0));
        assert(entries_map(t).dom().contains(x.0));
        let j = choose|j: int| 0 <= j < t.len() && #[trigger] t[j].0 == x.0;
        assert(entries_map(s)[x.0] == entries_map(t)[x.0]);
        assert(entries_map(s)[x.0] == s.contains((x.0, true)));
        assert(entries_map(t)[x.0] == t.contains((x.0, true)));
        if x.1 {
            assert(s.contains((x.0, true)));
            assert(t.contains((x.0, true)));
            let m = choose|m: int| 0 <= m < t.len() && t[m] == (x.0, true);
            if m != j {
                assert(t[m].0 != t[j].0);
            }
        } else {
            assert forall|m: int| 0 <= m < s.len() implies s[m] != (x.0, true) by {
                if m != i {
                    assert(s[m].0 != s[i].0);
                }
            }
            assert(!t.contains((x.0, true)));
        }
        assert(t[j] == x);
    }
    assert forall|x: Entry| t.to_set().contains(x) implies s.to_set().contains(x) by {
        let i = choose|i: int| 0 <= i < t.len() && t[i] == x;
        assert(entries_map(t).dom().contains(x.0));
        assert(entries_map(s).dom().contains(x.0));
        let j = choose|j: int| 0 <= j < s.len() && #[trigger] s[j].0 == x.0;
        assert(entries_map(s)[x.0] == entries_map(t)[x.0]);
        assert(entries_map(s)[x.0] == s.contains((x.0, true)));
        assert(entries_map(t)[x.0] == t.contains((x.0, true)));
        if x.1 {
            assert(t.contains((x.0, true)));
            assert(s.contains((x.0, true)));
            let m = choose|m: int| 0 <= m < s.len() && s[m] == (x.0, true);
            if m != j {
                assert(s[m].0 != s[j].0);
            }
        } else {
            assert forall|m: int| 0 <= m < t.len() implies t[m] != (x.0, true) by {
                if m != i {
                    assert(t[m].0 != t[i].0);
                }
            }
            assert(!s.contains((x.0, true)));
        }
        assert(s[j] == x);
    }
    assert(s.to_set() =~= t.to_set());
    assert(strictly_sorted(s, lt));
    assert(strictly_sorted(t, lt));
    lemma_sorted_unique(s, t, lt);
}

/// An annotation: the values chosen for some universal variables, kept with
/// keys in increasing order so that equal maps have equal representations.
#[derive(Debug, Eq, Hash)]
pub struct Assignment(pub Vec<Entry>);

impl View for Assignment {
    type V = Seq<Entry>;

    open spec fn view(&self) -> Seq<Entry> {
        self.0@
    }
}

impl Assignment {
    /// Keys in increasing order.
    pub open spec fn wf(&self) -> bool {
        keys_increasing(self@)
    }

    /// The map that this annotation denotes.
    pub open spec fn map(&self) -> Map<usize, bool> {
        entries_map(self@)
    }

    /// The empty annotation.
    pub fn new() -> (r: Assignment)
        ensures
            r.wf(),
            r@ == Seq::<Entry>::empty(),
            r.map() == Map::<usize, bool>::empty(),
    {
        let r = Assignment(Vec::new());
        assert(r.map() =~= Map::<usize, bool>::empty());
        r
    }

    pub fn len(&self) -> (r: usize)
        ensures
            r == self@.len(),
    {
        self.0.len()
    }

    pub fn is_empty(&self) -> (r: bool)
        ensures
            r == (self@.len() == 0),
    {
        self.0.len() == 0
    }

    /// The value recorded for `key`, if any.
    pub fn get(&self, key: usize) -> (r: Option<bool>)
        requires
            self.wf(),
        ensures
            r is Some <==> self.map().dom().contains(key),
            r matches Some(v) ==> v == self.map()[key],
    {
        let mut i: usize = 0;
        while i < self.0.len()
            invariant
                self.wf(),
                i <= self.0.len(),
                forall|j: int| 0 <= j < i ==> #[trigger] self@[j].0 != key,
            decreases self.0.len() - i,
        {
            if self.0[i].0 == key {
                let v = self.0[i].1;
                proof {
                    if v {
                        assert(self@[i as int] == (key, true));
                    } else {
                        assert forall|j: int| 0 <= j < self@.len() implies self@[j] != (
                            key,
                            true,
                        ) by {
                            if j != i {
                                assert(self@[j].0 != self@[i as int].0);
                            }
                        }
                    }
                }
                return Some(v);
            }
            i = i + 1;
        }
        None
    }

    /// Records `value` for `key`, replacing an earlier value.
    pub fn insert(&mut self, key: usize, value: bool)
        requires
            old(self).wf(),
        ensures
            final(self).wf(),
            final(self).map() == old(self).map().insert(key, value),
    {
        let ghost before = self@;
        let mut i: usize = 0;
        while i < self.0.len() && self.0[i].0 < key
            invariant
                self@ == before,
                keys_increasing(before),
                i <= self.0.len(),
                forall|j: int| 0 <= j < i ==> #[trigger] before[j].0 < key,
            decreases self.0.len() - i,
        {
            i = i + 1;
        }
        if i < self.0.len() && self.0[i].0 == key {
            self.0.set(i, (key, value));
            let ghost after = self@;
            assert(after == before.update(i as int, (key, value)));
            assert(keys_increasing(after));
            assert(entries_map(after) =~= entries_map(before).insert(key, value)) by {
                assert forall|k: usize| #[trigger]
                    entries_map(after).dom().contains(k) == entries_map(before).insert(
                        key,
                        value,
                    ).dom().contains(k) by {
                    if entries_map(before).dom().contains(k) {
                        let j = choose|j: int| 0 <= j < before.len() && #[trigger] before[j].0 == k;
                        assert(after[j].0 == k);
                    }
                    if entries_map(after).dom().contains(k) {
                        let j = choose|j: int| 0 <= j < after.len() && #[trigger] after[j].0 == k;
                        assert(before[j].0 == k);
                    }
                }
                assert forall|k: usize| #[trigger]
                    entries_map(after).dom().contains(k) implies entries_map(after)[k]
                    == entries_map(before).insert(key, value)[k] by {
                    if k == key {
                        if value {
                            assert(after[i as int] == (key, true));
                        } else {
                            assert forall|j: int| 0 <= j < after.len() implies after[j] != (
                                key,
                                true,
                            ) by {
                                if j != i {
                                    assert(after[j].0 != after[i as int].0);
                                }
                            }
                        }
                    } else {
                        assert(after.contains((k, true)) == before.contains((k, true))) by {
                            if after.contains((k, true)) {
                                let j = choose|j: int| 0 <= j < after.len() && after[j] == (k, true);
                                assert(before[j] == (k, true));
                            }
                            if before.contains((k, true)) {
                                let j = choose|j: int|
                                    0 <= j < before.len() && before[j] == (k, true);
                                assert(after[j] == (k, true));
                            }
                        }
                    }
                }
            }
        } else {
            self.0.insert(i, (key, value));
            let ghost after = self@;
            assert(after == before.insert(i as int, (key, value)));
            assert forall|a: int, b: int| 0 <= a < b < after.len() implies #[trigger] after[a].0
                < #[trigger] after[b].0 by {
                if b < i {
                } else if b == i {
                } else if a < i {
                    assert(after[b] == before[b - 1]);
                } else if a == i {
                    assert(after[b] == before[b - 1]);
                    assert(before[i as int].0 > key);
                    if b - 1 > i {
                        assert(before[i as int].0 < before[b - 1].0);
                    }
                } else {
                    assert(after[b] == before[b - 1]);
                    assert(after[a] == before[a - 1]);
                }
            }
            assert(entries_map(after) =~= entries_map(before).insert(key, value)) by {
                assert forall|k: usize| #[trigger]
                    entries_map(after).dom().contains(k) == entries_map(before).insert(
                        key,
                        value,
                    ).dom().contains(k) by {
                    if entries_map(before).dom().contains(k) {
                        let j = choose|j: int| 0 <= j < before.len() && #[trigger] before[j].0 == k;
                        if j < i {
                            assert(after[j].0 == k);
                        } else {
                            assert(after[j + 1].0 == k);
                        }
                    }
                    if k == key {
                        assert(after[i as int].0 == k);
                    }
                    if entries_map(after).dom().contains(k) && k != key {
                        let j = choose|j: int| 0 <= j < after.len() && #[trigger] after[j].0 == k;
                        if j < i {
                            assert(before[j].0 == k);
                        } else {
                            assert(before[j - 1].0 == k);
                        }
                    }
                }
                assert forall|k: usize| #[trigger]
                    entries_map(after).dom().contains(k) implies entries_map(after)[k]
                    == entries_map(before).insert(key, value)[k] by {
                    if k == key {
                        if value {
                            assert(after[i as int] == (key, true));
                        } else {
                            assert forall|j: int| 0 <= j < after.len() implies after[j] != (
                                key,
                                true,
                            ) by {
                                if j != i {
                                    assert(after[j].0 != after[i as int].0);
                                }
                            }
                        }
                    } else {
                        assert(after.contains((k, true)) == before.contains((k, true))) by {
                            if after.contains((k, true)) {
                                let j = choose|j: int| 0 <= j < after.len() && after[j] == (k, true);
                                if j < i {
                                    assert(before[j] == (k, true));
                                } else {
                                    assert(before[j - 1] == (k, true));
                                }
                            }
                            if before.contains((k, true)) {
                                let j = choose|j: int|
                                    0 <= j < before.len() && before[j] == (k, true);
                                if j < i {
                                    assert(after[j] == (k, true));
                                } else {
                                    assert(after[j + 1] == (k, true));
                                }
                            }
                        }
                    }
                }
            }
        }
    }
}

impl PartialEq for Assignment {
    fn eq(&self, other: &Assignment) -> (r: bool) {
        entries_equal(&self.0, &other.0)
    }
}

impl vstd::std_specs::cmp::PartialEqSpecImpl for Assignment {
    open spec fn obeys_eq_spec() -> bool {
        true
    }

    open spec fn eq_spec(&self, other: &Assignment) -> bool {
        self@ == other@
    }
}

impl Clone for Assignment {
    fn clone(&self) -> (r: Assignment)
        ensures
            r@ == self@,
    {
        let mut v: Vec<Entry> = Vec::new();
        let mut i: usize = 0;
        while i < self.0.len()
            invariant
                i <= self.0.len(),
                v@ == self@.take(i as int),
            decreases self.0.len() - i,
        {
            v.push(self.0[i]);
            i = i + 1;
            assert(v@ =~= self@.take(i as int));
        }
        assert(self@.take(i as int) =~= self@);
        Assignment(v)
    }
}

/// The sum over the entries of twice the key, plus one for a `true` value.
pub open spec fn annotation_weight(s: Seq<Entry>) -> int
    decreases s.len(),
{
    if s.len() == 0 {
        0
    } else {
        annotation_weight(s.drop_last()) + 2 * s.last().0 + if s.last().1 {
            1int
        } else {
            0int
        }
    }
}

/// The modulus of arithmetic on `usize`.
pub open spec fn word() -> int {
    usize::MAX as int + 1
}

/// Hash value of a literal before reduction to a word.
pub open spec fn lit_weight(l: Lit) -> int {
    (annotation_weight(l.annotation) % word() + 1) * l.variable + if l.positive {
        0int
    } else {
        1int
    }
}

/// Wrapping addition is addition modulo the word size.
pub proof fn lemma_wrapping_add_mod(x: usize, y: usize)
    ensures
        x.wrapping_add(y) == (x + y) % word(),
{
    if x + y > usize::MAX {
        vstd::arithmetic::div_mod::lemma_mod_add_multiples_vanish(x + y - word(), word());
        vstd::arithmetic::div_mod::lemma_small_mod((x + y - word()) as nat, word() as nat);
    } else {
        vstd::arithmetic::div_mod::lemma_small_mod((x + y) as nat, word() as nat);
    }
}

/// Wrapping multiplication is multiplication modulo the word size.
pub proof fn lemma_wrapping_mul_mod(x: usize, y: usize)
    ensures
        x.wrapping_mul(y) == (x * y) % word(),
{
}

/// Reducing the summands first does not change a sum modulo the word size.
pub proof fn lemma_mod_sum(a: int, b: int)
    ensures
        (a % word() + b % word()) % word() == (a + b) % word(),
        b == 1 ==> (a % word() + 1) % word() == (a + 1) % word(),
{
    vstd::arithmetic::div_mod::lemma_add_mod_noop(a, b, word());
    vstd::arithmetic::div_mod::lemma_small_mod(1, word() as nat);
}

impl Assignment {
    /// An order-independent hash of the entries: the sum of `2 * key + value`,
    /// wrapping on overflow.
    pub fn hash_helper(&self) -> (r: usize)
        ensures
            r == annotation_weight(self@) % word(),
    {
        let mut accu: usize = 0;
        let mut i: usize = 0;
        assert(annotation_weight(self@.take(0)) == 0);
        while i < self.0.len()
            invariant
                i <= self.0.len(),
                accu == annotation_weight(self@.take(i as int)) % word(),
            decreases self.0.len() - i,
        {
            let (key, val) = self.0[i];
            let w = if val {
                key.wrapping_mul(2).wrapping_add(1)
            } else {
                key.wrapping_mul(2)
            };
            proof {
                let prefix = self@.take(i as int);
                let e = if val { 2 * key + 1 } else { 2 * key as int };
                assert(self@.take(i + 1).drop_last() =~= prefix);
                assert(annotation_weight(self@.take(i + 1)) == annotation_weight(prefix) + e);
                lemma_wrapping_mul_mod(key, 2);
                if val {
                    lemma_wrapping_add_mod(key.wrapping_mul(2), 1);
                    lemma_mod_sum(2 * key, 1);
                }
                lemma_wrapping_add_mod(accu, w);
                lemma_mod_sum(annotation_weight(prefix), e);
            }
            accu = accu.wrapping_add(w);
            i = i + 1;
        }
        assert(self@.take(i as int) =~= self@);
        accu
    }
}

fn entries_equal(a: &Vec<Entry>, b: &Vec<Entry>) -> (r: bool)
    ensures
        r == (a@ == b@),
{
    if a.len() != b.len() {
        return false;
    }
    let mut i: usize = 0;
    while i < a.len()
        invariant
            i <= a.len(),
            a.len() == b.len(),
            forall|j: int| 0 <= j < i ==> a@[j] == b@[j],
        decreases a.len() - i,
    {
        if a[i].0 != b[i].0 || a[i].1 != b[i].1 {
            return false;
        }
        i = i + 1;
    }
    assert(a@ =~= b@);
    true
}

fn annotation_less(a: &Vec<Entry>, b: &Vec<Entry>) -> (r: bool)
    ensures
        r == annotation_lt(a@, b@),
{
    let mut i: usize = 0;
    assert(a@.skip(0) =~= a@);
    assert(b@.skip(0) =~= b@);
    while i < a.len() && i < b.len()
        invariant
            i <= a.len(),
            i <= b.len(),
            annotation_lt(a@, b@) == annotation_lt(a@.skip(i as int), b@.skip(i as int)),
        decreases a.len() - i,
    {
        let (ka, va) = a[i];
        let (kb, vb) = b[i];
        if ka != kb || va != vb {
            return ka < kb || (ka == kb && !va && vb);
        }
        assert(a@.skip(i as int).drop_first() =~= a@.skip(i + 1));
        assert(b@.skip(i as int).drop_first() =~= b@.skip(i + 1));
        i = i + 1;
    }
    i < b.len()
}

/// A literal: polarity, variable, and the annotation recording the universal
/// choices under which an expanded copy of the variable was taken.
#[derive(Debug, Eq, Hash)]
pub struct Literal {
    pub positive: bool,
    pub variable: usize,
    pub assignment: Assignment,
}

impl View for Literal {
    type V = Lit;

    open spec fn view(&self) -> Lit {
        Lit { positive: self.positive, variable: self.variable, annotation: self.assignment@ }
    }
}

impl Literal {
    pub open spec fn wf(&self) -> bool {
        self.assignment.wf()
    }

    /// A literal without annotation.
    pub fn new(positive: bool, variable: usize) -> (r: Literal)
        ensures
            r.wf(),
            r@ == (Lit { positive, variable, annotation: Seq::empty() }),
    {
        Literal { positive, variable, assignment: Assignment::new() }
    }

    /// Same variable and same annotation; the polarity is not compared.
    pub fn var_eq(&self, other: &Literal) -> (r: bool)
        ensures
            r == (self@.variable == other@.variable && self@.annotation == other@.annotation),
    {
        self.variable == other.variable && self.assignment == other.assignment
    }

    /// Whether the variable is bound in an existential (even) block.
    pub fn is_existential(&self, vars: &Vec<usize>) -> (r: bool)
        requires
            self.variable < vars.len(),
        ensures
            r == is_existential_lit(vars@, self@),
    {
        vars[self.variable] % 2 == 0
    }

    /// Compares the quantifier blocks of the two variables.
    pub fn cmp(&self, other: &Literal, vars: &Vec<usize>) -> (r: Ordering)
        requires
            self.variable < vars.len(),
            other.variable < vars.len(),
        ensures
            r == Ordering::Less <==> block_of(vars@, self@) < block_of(vars@, other@),
            r == Ordering::Equal <==> block_of(vars@, self@) == block_of(vars@, other@),
            r == Ordering::Greater <==> block_of(vars@, self@) > block_of(vars@, other@),
    {
        let a = vars[self.variable];
        let b = vars[other.variable];
        if a < b {
            Ordering::Less
        } else if a == b {
            Ordering::Equal
        } else {
            Ordering::Greater
        }
    }

    /// Quantified strictly before `other`.
    pub fn less(&self, other: &Literal, vars: &Vec<usize>) -> (r: bool)
        requires
            self.variable < vars.len(),
            other.variable < vars.len(),
        ensures
            r == (block_of(vars@, self@) < block_of(vars@, other@)),
    {
        match self.cmp(other, vars) {
            Ordering::Less => true,
            _ => false,
        }
    }

    /// Quantified no later than `other`.
    pub fn less_equal(&self, other: &Literal, vars: &Vec<usize>) -> (r: bool)
        requires
            self.variable < vars.len(),
            other.variable < vars.len(),
        ensures
            r == (block_of(vars@, self@) <= block_of(vars@, other@)),
    {
        match self.cmp(other, vars) {
            Ordering::Greater => false,
            _ => true,
        }
    }

    /// Same variable and annotation, opposite polarity.
    pub fn is_inverse(&self, other: &Literal) -> (r: bool)
        ensures
            r == (other@ == inverse(self@)),
    {
        self.positive != other.positive && self.assignment == other.assignment && self.variable
            == other.variable
    }

    /// The literal with the other polarity.
    pub fn invert(self) -> (r: Literal)
        ensures
            r@ == inverse(self@),
            self.wf() ==> r.wf(),
    {
        let mut l = self;
        l.positive = !l.positive;
        l
    }

    /// The literal with its annotation cleared.
    pub fn purify(self) -> (r: Literal)
        ensures
            r@ == (Lit { annotation: Seq::empty(), ..self@ }),
            r.wf(),
    {
        let mut l = self;
        l.assignment = Assignment::new();
        l
    }

    /// Whether the annotation is empty.
    pub fn is_pure(&self) -> (r: bool)
        ensures
            r == is_pure_lit(self@),
    {
        self.assignment.is_empty()
    }

    /// Position in the order in which clauses keep their literals.
    pub fn precedes(&self, other: &Literal) -> (r: bool)
        ensures
            r == lit_lt(self@, other@),
    {
        if self.variable != other.variable {
            self.variable < other.variable
        } else if self.positive != other.positive {
            !self.positive
        } else {
            annotation_less(&self.assignment.0, &other.assignment.0)
        }
    }

    /// `(annotation hash + 1) * variable`, plus one for a negative literal,
    /// wrapping on overflow.
    pub fn hash_helper(&self) -> (r: usize)
        ensures
            r == lit_weight(self@) % word(),
    {
        let h = self.assignment.hash_helper();
        let base = h.wrapping_add(1).wrapping_mul(self.variable);
        proof {
            let a = annotation_weight(self@.annotation) % word();
            vstd::arithmetic::div_mod::lemma_mul_mod_noop_left(a + 1, self.variable as int, word());
            assert(base == ((a + 1) * self.variable) % word());
        }
        if self.positive {
            base
        } else {
            proof {
                let a = annotation_weight(self@.annotation) % word();
                vstd::arithmetic::div_mod::lemma_add_mod_noop((a + 1) * self.variable, 1, word());
                vstd::arithmetic::div_mod::lemma_small_mod(1, word() as nat);
            }
            base.wrapping_add(1)
        }
    }
}

impl PartialEq for Literal {
    fn eq(&self, other: &Literal) -> (r: bool) {
        self.positive == other.positive && self.variable == other.variable && self.assignment
            == other.assignment
    }
}

impl vstd::std_specs::cmp::PartialEqSpecImpl for Literal {
    open spec fn obeys_eq_spec() -> bool {
        true
    }

    open spec fn eq_spec(&self, other: &Literal) -> bool {
        self@ == other@
    }
}

impl Clone for Literal {
    fn clone(&self) -> (r: Literal)
        ensures
            r@ == self@,
    {
        Literal {
            positive: self.positive,
            variable: self.variable,
            assignment: self.assignment.clone(),
        }
    }
}

/// Inverting twice gives the literal back; a literal is the inverse of its
/// inversion and never of itself.
pub proof fn lemma_inverse_involution(l: Lit)
    ensures
        inverse(inverse(l)) == l,
        inverse(l) != l,
{
}

} // verus!
