use crate::literal::{Lit, Literal};
use crate::qbf::{
    abs_of, clauses_view, lemma_push_to_set, universal_literals, universal_lt, universal_pairs, Clause,
};
use crate::order::{lemma_sorted_unique, strictly_sorted};
use crate::rules::{steps_view, AllExpResRule, QRATRule, QratStep};
use vstd::prelude::*;

verus! {

/// Why a translation was refused.
#[derive(Debug, Clone, Copy, PartialEq, Eq, Structural)]
pub enum TranslateError {
    /// An expansion step names a formula clause that does not exist.
    AntecedentOutOfRange,
    /// A variable falls outside the namespace: no entry in the expansion
    /// table, or past the largest representable variable.
    VariableOutOfRange,
}

/// The literal of variable `v` with the given polarity and no annotation.
pub open spec fn pure_lit(positive: bool, v: usize) -> Lit {
    Lit { positive, variable: v, annotation: Seq::empty() }
}

/// `l` moved into the namespace of fresh variables, `a` places up.
pub open spec fn shift_lit(l: Lit, a: nat) -> Lit {
    pure_lit(l.positive, (l.variable + a) as usize)
}

/// The clause sets of a list of clauses.
pub open spec fn clause_sets(v: Seq<Clause>) -> Seq<Set<Lit>> {
    v.map_values(|c: Clause| c@.to_set())
}

/// The fresh variable of expansion copy `i` (counted from 1).
pub open spec fn fresh_var(n: nat, i: int) -> int {
    n + i - 1
}

/// `{v, ¬w}`.
pub open spec fn bridge_left(v: usize, w: usize) -> Set<Lit> {
    set![pure_lit(true, v), pure_lit(false, w)]
}

/// `{¬v, w}`.
pub open spec fn bridge_right(v: usize, w: usize) -> Set<Lit> {
    set![pure_lit(false, v), pure_lit(true, w)]
}

/// The equivalence clauses of the expansion copies `1 .. k`, in order.
pub open spec fn bridge_clauses(table: Seq<usize>, n: nat, k: int) -> Seq<Set<Lit>>
    decreases k,
{
    if k <= 1 {
        Seq::empty()
    } else {
        let w = fresh_var(n, k - 1) as usize;
        bridge_clauses(table, n, k - 1).push(bridge_left(table[k - 1], w)).push(
            bridge_right(table[k - 1], w),
        )
    }
}

/// Stage one for the expansion copies `1 .. k`: declare each fresh variable
/// and add its two equivalence clauses.
pub open spec fn bridge_steps(table: Seq<usize>, n: nat, k: int) -> Seq<QratStep>
    decreases k,
{
    if k <= 1 {
        Seq::empty()
    } else {
        let w = fresh_var(n, k - 1) as usize;
        bridge_steps(table, n, k - 1) + seq![
            QratStep::AddVariable(table[k - 1], w),
            QratStep::AddClause(bridge_left(table[k - 1], w)),
            QratStep::AddClause(bridge_right(table[k - 1], w)),
        ]
    }
}

/// The formula clause `base` after each literal of `lits` in turn is added
/// in shifted form and both polarities of its table variable are dropped.
pub open spec fn rewritten(base: Set<Lit>, lits: Seq<Lit>, table: Seq<usize>, shift: nat) -> Set<
    Lit,
>
    decreases lits.len(),
{
    if lits.len() == 0 {
        base
    } else {
        let l = lits.last();
        let b = table[l.variable as int];
        rewritten(base, lits.drop_last(), table, shift).insert(shift_lit(l, shift)).remove(
            pure_lit(true, b),
        ).remove(pure_lit(false, b))
    }
}

/// Stage two: the rewritten clause of every expansion step, in proof order.
pub open spec fn expansion_clauses(
    rules: Seq<AllExpResRule>,
    clauses: Seq<Seq<Lit>>,
    table: Seq<usize>,
    shift: nat,
) -> Seq<Set<Lit>>
    decreases rules.len(),
{
    if rules.len() == 0 {
        Seq::empty()
    } else {
        let prev = expansion_clauses(rules.drop_last(), clauses, table, shift);
        match rules.last() {
            AllExpResRule::Axiom(c, a) => prev.push(
                rewritten(clauses[a - 1].to_set(), c@, table, shift),
            ),
            AllExpResRule::Resolution(_, _, _) => prev,
        }
    }
}

/// Stage five: the shifted clause of every resolution step, in proof order.
pub open spec fn resolution_clauses(rules: Seq<AllExpResRule>, shift: nat) -> Seq<Set<Lit>>
    decreases rules.len(),
{
    if rules.len() == 0 {
        Seq::empty()
    } else {
        let prev = resolution_clauses(rules.drop_last(), shift);
        match rules.last() {
            AllExpResRule::Axiom(_, _) => prev,
            AllExpResRule::Resolution(c, _, _) => prev.push(
                c@.map_values(|l: Lit| shift_lit(l, shift)).to_set(),
            ),
        }
    }
}

/// Removing the universal variable `v` from the working clauses `ws`: the
/// steps, and the clauses afterwards.
pub open spec fn strip_var(ws: Seq<Set<Lit>>, v: usize) -> (Seq<QratStep>, Seq<Set<Lit>>)
    decreases ws.len(),
{
    if ws.len() == 0 {
        (Seq::empty(), Seq::empty())
    } else {
        let prev = strip_var(ws.drop_last(), v);
        let w = ws.last();
        let p = pure_lit(true, v);
        let q = pure_lit(false, v);
        let w1 = w.remove(p);
        let w2 = w1.remove(q);
        let s1 = if w.contains(p) {
            seq![QratStep::RemoveLiteral(w1, v as isize)]
        } else {
            Seq::empty()
        };
        let s2 = if w1.contains(q) {
            seq![QratStep::RemoveLiteral(w2, (-v) as isize)]
        } else {
            Seq::empty()
        };
        (prev.0 + s1 + s2, prev.1.push(w2))
    }
}

/// Stage four: removing the universal variables `us` in order.
pub open spec fn strip_all(ws: Seq<Set<Lit>>, us: Seq<(usize, usize)>) -> (
    Seq<QratStep>,
    Seq<Set<Lit>>,
)
    decreases us.len(),
{
    if us.len() == 0 {
        (Seq::empty(), ws)
    } else {
        let prev = strip_all(ws, us.drop_last());
        let next = strip_var(prev.1, us.last().1);
        (prev.0 + next.0, next.1)
    }
}

/// A literal of an expansion step that has no table entry, or whose shifted
/// variable does not fit.
pub open spec fn expansion_lit_fault(l: Lit, table_len: nat, shift: nat) -> bool {
    l.variable >= table_len || l.variable + shift > usize::MAX
}

/// What is wrong with one step, if anything.
pub open spec fn rule_fault(r: AllExpResRule, n_clauses: nat, table_len: nat, shift: nat) -> Option<
    TranslateError,
> {
    match r {
        AllExpResRule::Axiom(c, a) => if a == 0 || a > n_clauses {
            Some(TranslateError::AntecedentOutOfRange)
        } else if exists|j: int|
            0 <= j < c@.len() && #[trigger] expansion_lit_fault(c@[j], table_len, shift) {
            Some(TranslateError::VariableOutOfRange)
        } else {
            None
        },
        AllExpResRule::Resolution(c, _, _) => if exists|j: int|
            0 <= j < c@.len() && #[trigger] c@[j].variable + shift > usize::MAX {
            Some(TranslateError::VariableOutOfRange)
        } else {
            None
        },
    }
}

/// The fault of the first faulty step.
pub open spec fn first_fault(
    rules: Seq<AllExpResRule>,
    n_clauses: nat,
    table_len: nat,
    shift: nat,
) -> Option<TranslateError>
    decreases rules.len(),
{
    if rules.len() == 0 {
        None
    } else {
        match rule_fault(rules[0], n_clauses, table_len, shift) {
            Some(e) => Some(e),
            None => first_fault(rules.drop_first(), n_clauses, table_len, shift),
        }
    }
}

/// Why the translation is refused, if it is: an empty or oversized quantifier
/// map, fresh variables past the largest representable one, or the first
/// faulty step.
pub open spec fn translation_fault(
    n_clauses: nat,
    n: nat,
    table_len: nat,
    rules: Seq<AllExpResRule>,
) -> Option<TranslateError> {
    if n == 0 || n > isize::MAX || n + table_len > usize::MAX {
        Some(TranslateError::VariableOutOfRange)
    } else {
        first_fault(rules, n_clauses, table_len, (n - 1) as nat)
    }
}

/// The whole QRAT proof, stage by stage, for the universal variables `us`
/// in elimination order.
pub open spec fn translation(
    clauses: Seq<Seq<Lit>>,
    n: nat,
    table: Seq<usize>,
    rules: Seq<AllExpResRule>,
    us: Seq<(usize, usize)>,
) -> Seq<QratStep> {
    let shift = (n - 1) as nat;
    let ws = expansion_clauses(rules, clauses, table, shift);
    bridge_steps(table, n, table.len() as int) + ws.map_values(|w: Set<Lit>| QratStep::AddClause(w))
        + clauses.map_values(|c: Seq<Lit>| QratStep::RemoveClause(c.to_set())) + bridge_clauses(
        table,
        n,
        table.len() as int,
    ).map_values(|w: Set<Lit>| QratStep::RemoveClause(w)) + strip_all(ws, us).0
        + resolution_clauses(rules, shift).map_values(|w: Set<Lit>| QratStep::AddClause(w))
}

/// The variable whose literal a literal-removal step removes.
pub open spec fn removed_var(s: QratStep) -> int {
    match s {
        QratStep::RemoveLiteral(_, l) => abs_of(l) as int,
        _ => -1,
    }
}

proof fn lemma_strip_var_steps(ws: Seq<Set<Lit>>, v: usize)
    requires
        v <= isize::MAX,
    ensures
        forall|p: int|
            0 <= p < strip_var(ws, v).0.len() ==> removed_var(#[trigger] strip_var(ws, v).0[p])
                == v,
    decreases ws.len(),
{
    if ws.len() > 0 {
        lemma_strip_var_steps(ws.drop_last(), v);
        let prev = strip_var(ws.drop_last(), v);
        let steps = strip_var(ws, v).0;
        let n = prev.0.len();
        assert(abs_of(v as isize) == v);
        assert(abs_of((-v) as isize) == v);
        assert forall|p: int| 0 <= p < steps.len() implies removed_var(#[trigger] steps[p]) == v by {
            if p < n {
                assert(steps[p] == prev.0[p]);
            }
        }
    }
}

proof fn lemma_strip_all_steps(vars: Seq<usize>, ws: Seq<Set<Lit>>, us: Seq<(usize, usize)>)
    requires
        vars.len() <= isize::MAX,
        forall|k: int| 0 <= k < us.len() ==> (#[trigger] us[k]).1 < vars.len() && vars[us[k].1 as int] == us[k].0,
        forall|i: int, j: int| 0 <= i < j < us.len() ==> #[trigger] universal_lt(us[i], us[j]),
    ensures
        forall|p: int|
            0 <= p < strip_all(ws, us).0.len() ==> exists|k: int|
                0 <= k < us.len() && removed_var(#[trigger] strip_all(ws, us).0[p]) == us[k].1,
        forall|p: int, q: int|
            0 <= p < q < strip_all(ws, us).0.len() ==> vars[removed_var(
                #[trigger] strip_all(ws, us).0[p],
            )] >= vars[removed_var(#[trigger] strip_all(ws, us).0[q])],
    decreases us.len(),
{
    if us.len() > 0 {
        let pre = us.drop_last();
        lemma_strip_all_steps(vars, ws, pre);
        let prev = strip_all(ws, pre);
        let last = us.last();
        lemma_strip_var_steps(prev.1, last.1);
        let steps = strip_all(ws, us).0;
        let n = prev.0.len();
        assert(steps == prev.0 + strip_var(prev.1, last.1).0);
        assert forall|p: int| 0 <= p < steps.len() implies exists|k: int|
            0 <= k < us.len() && removed_var(#[trigger] steps[p]) == us[k].1 by {
            if p < n {
                assert(steps[p] == prev.0[p]);
                let k = choose|k: int| 0 <= k < pre.len() && removed_var(prev.0[p]) == pre[k].1;
                assert(us[k] == pre[k]);
            } else {
                assert(steps[p] == strip_var(prev.1, last.1).0[p - n]);
                assert(removed_var(steps[p]) == us[us.len() - 1].1);
            }
        }
        assert forall|p: int, q: int| 0 <= p < q < steps.len() implies vars[removed_var(
            #[trigger] steps[p],
        )] >= vars[removed_var(#[trigger] steps[q])] by {
            if q < n {
                assert(steps[p] == prev.0[p]);
                assert(steps[q] == prev.0[q]);
            } else {
                assert(steps[q] == strip_var(prev.1, last.1).0[q - n]);
                if p < n {
                    assert(steps[p] == prev.0[p]);
                    let k = choose|k: int| 0 <= k < pre.len() && removed_var(prev.0[p]) == pre[k].1;
                    assert(universal_lt(us[k], us[us.len() - 1]));
                } else {
                    assert(steps[p] == strip_var(prev.1, last.1).0[p - n]);
                }
            }
        }
    }
}

/// Universal literals leave innermost block first: along the steps of stage
/// four, the quantifier blocks of the removed variables never increase, so
/// every removal for a variable of a block comes before every removal for a
/// variable of an outer block.
pub proof fn lemma_elimination_order(vars: Seq<usize>, ws: Seq<Set<Lit>>, us: Seq<(usize, usize)>)
    requires
        vars.len() <= isize::MAX,
        universal_order(vars, us),
    ensures
        forall|p: int, q: int|
            0 <= p < q < strip_all(ws, us).0.len() ==> vars[removed_var(
                #[trigger] strip_all(ws, us).0[p],
            )] >= vars[removed_var(#[trigger] strip_all(ws, us).0[q])],
{
    assert forall|k: int| 0 <= k < us.len() implies (#[trigger] us[k]).1 < vars.len() && vars[us[k].1 as int] == us[k].0 by {
        assert(us.to_set().contains(us[k]));
        assert(universal_pairs(vars).contains(us[k]));
    }
    lemma_strip_all_steps(vars, ws, us);
}

/// The clause `{a, b}`.
fn pair_clause(a: Literal, b: Literal) -> (r: Clause)
    requires
        a.wf(),
        b.wf(),
    ensures
        r.wf(),
        r@.to_set() == set![a@, b@],
{
    let ghost av = a@;
    let ghost bv = b@;
    let mut c = Clause::new();
    c.insert(a);
    c.insert(b);
    assert(c@.to_set() =~= set![av, bv]);
    c
}

/// Stage one: bridges each expansion copy `i` to the fresh variable
/// `n + i - 1`, and collects the equivalence clauses for later removal.
fn bridge(
    table: &Vec<usize>,
    n: usize,
    out: &mut Vec<QRATRule>,
    removals: &mut Vec<Clause>,
)
    requires
        n + table@.len() <= usize::MAX,
        n >= 1,
    ensures
        steps_view(final(out)@) == steps_view(old(out)@) + bridge_steps(
            table@,
            n as nat,
            table@.len() as int,
        ),
        clause_sets(final(removals)@) == clause_sets(old(removals)@) + bridge_clauses(
            table@,
            n as nat,
            table@.len() as int,
        ),
{
    let ghost out0 = steps_view(out@);
    let ghost rem0 = clause_sets(removals@);
    let mut i: usize = 1;
    assert(out0 + bridge_steps(table@, n as nat, 1) =~= out0);
    assert(rem0 + bridge_clauses(table@, n as nat, 1) =~= rem0);
    while i < table.len()
        invariant
            n + table@.len() <= usize::MAX,
            n >= 1,
            1 <= i,
            i <= table@.len() || i == 1,
            out0 == steps_view(old(out)@),
            rem0 == clause_sets(old(removals)@),
            steps_view(out@) == out0 + bridge_steps(table@, n as nat, i as int),
            clause_sets(removals@) == rem0 + bridge_clauses(table@, n as nat, i as int),
        decreases table@.len() - i,
    {
        let var = table[i];
        let fresh = n + i - 1;
        let a = pair_clause(Literal::new(true, var), Literal::new(false, fresh));
        let b = pair_clause(Literal::new(false, var), Literal::new(true, fresh));
        let ghost av = a@.to_set();
        let ghost bv = b@.to_set();
        let ghost so = steps_view(out@);
        let ghost sr = clause_sets(removals@);
        out.push(QRATRule::AddVariable(var, fresh));
        out.push(QRATRule::AddClause(a.clone()));
        out.push(QRATRule::AddClause(b.clone()));
        removals.push(a);
        removals.push(b);
        proof {
            assert(av =~= bridge_left(var, fresh));
            assert(bv =~= bridge_right(var, fresh));
            assert(steps_view(out@) =~= so + seq![
                QratStep::AddVariable(var, fresh),
                QratStep::AddClause(av),
                QratStep::AddClause(bv),
            ]);
            assert(clause_sets(removals@) =~= sr.push(av).push(bv));
        }
        i = i + 1;
    }
    if table.len() == 0 {
        assert(bridge_steps(table@, n as nat, 0) == bridge_steps(table@, n as nat, 1));
        assert(bridge_clauses(table@, n as nat, 0) == bridge_clauses(table@, n as nat, 1));
    } else {
        assert(i == table@.len());
    }

}

/// A step whose clause is in canonical form.
pub open spec fn rule_wf(r: AllExpResRule) -> bool {
    match r {
        AllExpResRule::Axiom(c, _) => c.wf(),
        AllExpResRule::Resolution(c, _, _) => c.wf(),
    }
}

/// `us` lists the universal variables of `vars`, innermost block first and
/// by increasing variable within a block.
pub open spec fn universal_order(vars: Seq<usize>, us: Seq<(usize, usize)>) -> bool {
    &&& us.to_set() == universal_pairs(vars)
    &&& forall|i: int, j: int| 0 <= i < j < us.len() ==> #[trigger] universal_lt(us[i], us[j])
}

/// The formula clause `base` rewritten by the literals of an expansion step.
fn rewrite_clause(base: &Clause, lits: &Clause, table: &Vec<usize>, shift: usize) -> (r: Clause)
    requires
        base.wf(),
        lits.wf(),
        forall|j: int|
            0 <= j < lits@.len() ==> !#[trigger] expansion_lit_fault(
                lits@[j],
                table@.len(),
                shift as nat,
            ),
    ensures
        r.wf(),
        r@.to_set() == rewritten(base@.to_set(), lits@, table@, shift as nat),
{
    let mut c = base.clone();
    let mut j: usize = 0;
    assert(lits@.take(0).len() == 0);
    while j < lits.len()
        invariant
            lits.wf(),
            forall|k: int|
                0 <= k < lits@.len() ==> !#[trigger] expansion_lit_fault(
                    lits@[k],
                    table@.len(),
                    shift as nat,
                ),
            j <= lits@.len(),
            c.wf(),
            c@.to_set() == rewritten(base@.to_set(), lits@.take(j as int), table@, shift as nat),
        decreases lits@.len() - j,
    {
        let l = lits.literal(j);
        assert(!expansion_lit_fault(lits@[j as int], table@.len(), shift as nat));
        c.insert(Literal::new(l.positive, l.variable + shift));
        let b = table[l.variable];
        c.remove(&Literal::new(true, b));
        c.remove(&Literal::new(false, b));
        assert(lits@.take(j + 1).drop_last() =~= lits@.take(j as int));
        j = j + 1;
    }
    assert(lits@.take(j as int) =~= lits@);
    c
}

/// Stage two: adds the rewritten clause of every expansion step and keeps
/// it as a working clause for stage four.
fn rewrite_expansions(
    clauses: &Vec<Clause>,
    table: &Vec<usize>,
    shift: usize,
    rules: &Vec<AllExpResRule>,
    out: &mut Vec<QRATRule>,
    work: &mut Vec<Clause>,
)
    requires
        forall|i: int| 0 <= i < clauses@.len() ==> (#[trigger] clauses@[i]).wf(),
        forall|i: int| 0 <= i < rules@.len() ==> rule_wf(#[trigger] rules@[i]),
        forall|i: int|
            0 <= i < rules@.len() ==> rule_fault(
                #[trigger] rules@[i],
                clauses@.len(),
                table@.len(),
                shift as nat,
            ) is None,
        old(work)@.len() == 0,
    ensures
        steps_view(final(out)@) == steps_view(old(out)@) + expansion_clauses(
            rules@,
            clauses_view(clauses@),
            table@,
            shift as nat,
        ).map_values(|w: Set<Lit>| QratStep::AddClause(w)),
        clause_sets(final(work)@) == expansion_clauses(
            rules@,
            clauses_view(clauses@),
            table@,
            shift as nat,
        ),
        forall|i: int| 0 <= i < final(work)@.len() ==> (#[trigger] final(work)@[i]).wf(),
{
    let ghost out0 = steps_view(out@);
    let ghost cs = clauses_view(clauses@);
    let mut i: usize = 0;
    assert(rules@.take(0) =~= Seq::<AllExpResRule>::empty());
    assert(clause_sets(work@) =~= Seq::<Set<Lit>>::empty());
    assert(out0 + expansion_clauses(rules@.take(0), cs, table@, shift as nat).map_values(
        |w: Set<Lit>| QratStep::AddClause(w),
    ) =~= out0);
    while i < rules.len()
        invariant
            forall|k: int| 0 <= k < clauses@.len() ==> (#[trigger] clauses@[k]).wf(),
            forall|k: int| 0 <= k < rules@.len() ==> rule_wf(#[trigger] rules@[k]),
            forall|k: int|
                0 <= k < rules@.len() ==> rule_fault(
                    #[trigger] rules@[k],
                    clauses@.len(),
                    table@.len(),
                    shift as nat,
                ) is None,
            cs == clauses_view(clauses@),
            out0 == steps_view(old(out)@),
            i <= rules@.len(),
            steps_view(out@) == out0 + expansion_clauses(
                rules@.take(i as int),
                cs,
                table@,
                shift as nat,
            ).map_values(|w: Set<Lit>| QratStep::AddClause(w)),
            clause_sets(work@) == expansion_clauses(rules@.take(i as int), cs, table@, shift as nat),
            forall|k: int| 0 <= k < work@.len() ==> (#[trigger] work@[k]).wf(),
        decreases rules@.len() - i,
    {
        let ghost pre = rules@.take(i as int);
        assert(rules@.take(i + 1).drop_last() =~= pre);
        assert(rules@.take(i + 1).last() == rules@[i as int]);
        let ghost prev = expansion_clauses(pre, cs, table@, shift as nat);
        assert(rule_wf(rules@[i as int]));
        assert(rule_fault(rules@[i as int], clauses@.len(), table@.len(), shift as nat) is None);
        match &rules[i] {
            AllExpResRule::Axiom(c, a) => {
                let base = &clauses[*a - 1];
                assert(cs[*a - 1] == base@);
                assert forall|j: int| 0 <= j < c@.len() implies !#[trigger] expansion_lit_fault(
                    c@[j],
                    table@.len(),
                    shift as nat,
                ) by {}
                let nc = rewrite_clause(base, c, table, shift);
                let ghost w = nc@.to_set();
                let ghost so = steps_view(out@);
                let ghost sw = clause_sets(work@);
                out.push(QRATRule::AddClause(nc.clone()));
                work.push(nc);
                proof {
                    assert(steps_view(out@) =~= so.push(QratStep::AddClause(w)));
                    assert(clause_sets(work@) =~= sw.push(w));
                    assert(expansion_clauses(rules@.take(i + 1), cs, table@, shift as nat) == prev.push(w));
                    assert(prev.push(w).map_values(|w: Set<Lit>| QratStep::AddClause(w)) =~= prev.map_values(
                        |w: Set<Lit>| QratStep::AddClause(w),
                    ).push(QratStep::AddClause(w)));
                }
            },
            AllExpResRule::Resolution(_, _, _) => {
                assert(expansion_clauses(rules@.take(i + 1), cs, table@, shift as nat) == prev);
            },
        }
        i = i + 1;
    }
    assert(rules@.take(i as int) =~= rules@);
}

/// Stage three: removes every formula clause, then every equivalence clause.
fn retract(clauses: &Vec<Clause>, removals: Vec<Clause>, out: &mut Vec<QRATRule>)
    ensures
        steps_view(final(out)@) == steps_view(old(out)@) + clauses_view(clauses@).map_values(
            |c: Seq<Lit>| QratStep::RemoveClause(c.to_set()),
        ) + clause_sets(removals@).map_values(|w: Set<Lit>| QratStep::RemoveClause(w)),
{
    let ghost out0 = steps_view(out@);
    let ghost cs = clauses_view(clauses@);
    let mut i: usize = 0;
    while i < clauses.len()
        invariant
            out0 == steps_view(old(out)@),
            cs == clauses_view(clauses@),
            i <= clauses@.len(),
            steps_view(out@) == out0 + cs.take(i as int).map_values(
                |c: Seq<Lit>| QratStep::RemoveClause(c.to_set()),
            ),
        decreases clauses@.len() - i,
    {
        let ghost so = steps_view(out@);
        out.push(QRATRule::RemoveClause(clauses[i].clone()));
        assert(steps_view(out@) =~= so.push(QratStep::RemoveClause(cs[i as int].to_set())));
        assert(cs.take(i + 1).map_values(|c: Seq<Lit>| QratStep::RemoveClause(c.to_set())) =~= cs.take(
            i as int,
        ).map_values(|c: Seq<Lit>| QratStep::RemoveClause(c.to_set())).push(
            QratStep::RemoveClause(cs[i as int].to_set()),
        ));
        i = i + 1;
    }
    assert(cs.take(i as int) =~= cs);
    let ghost out1 = steps_view(out@);
    let ghost rs = clause_sets(removals@);
    let mut j: usize = 0;
    assert(out1 + rs.take(0).map_values(|w: Set<Lit>| QratStep::RemoveClause(w)) =~= out1);
    while j < removals.len()
        invariant
            out1 == steps_view(old(out)@) + cs.map_values(
                |c: Seq<Lit>| QratStep::RemoveClause(c.to_set()),
            ),
            rs == clause_sets(removals@),
            j <= removals@.len(),
            steps_view(out@) == out1 + rs.take(j as int).map_values(
                |w: Set<Lit>| QratStep::RemoveClause(w),
            ),
        decreases removals@.len() - j,
    {
        let ghost so = steps_view(out@);
        out.push(QRATRule::RemoveClause(removals[j].clone()));
        assert(steps_view(out@) =~= so.push(QratStep::RemoveClause(rs[j as int])));
        assert(rs.take(j + 1).map_values(|w: Set<Lit>| QratStep::RemoveClause(w)) =~= rs.take(
            j as int,
        ).map_values(|w: Set<Lit>| QratStep::RemoveClause(w)).push(QratStep::RemoveClause(rs[j as int])));
        j = j + 1;
    }
    assert(rs.take(j as int) =~= rs);
}

/// Removes both polarities of the universal variable `v` from every working
/// clause, with one step for each literal removed.
fn strip_variable(work: &mut Vec<Clause>, v: usize, out: &mut Vec<QRATRule>)
    requires
        v <= isize::MAX,
        forall|i: int| 0 <= i < old(work)@.len() ==> (#[trigger] old(work)@[i]).wf(),
    ensures
        steps_view(final(out)@) == steps_view(old(out)@) + strip_var(clause_sets(old(work)@), v).0,
        clause_sets(final(work)@) == strip_var(clause_sets(old(work)@), v).1,
        forall|i: int| 0 <= i < final(work)@.len() ==> (#[trigger] final(work)@[i]).wf(),
{
    let ghost out0 = steps_view(out@);
    let ghost ws = clause_sets(work@);
    let mut i: usize = 0;
    let pos = Literal::new(true, v);
    let neg = Literal::new(false, v);
    assert(ws.take(0) =~= Seq::<Set<Lit>>::empty());
    assert(out0 + strip_var(ws.take(0), v).0 =~= out0);
    assert(clause_sets(work@).skip(0) =~= ws);
    while i < work.len()
        invariant
            v <= isize::MAX,
            pos@ == pure_lit(true, v),
            neg@ == pure_lit(false, v),
            out0 == steps_view(old(out)@),
            ws == clause_sets(old(work)@),
            work@.len() == ws.len(),
            i <= ws.len(),
            forall|k: int| 0 <= k < work@.len() ==> (#[trigger] work@[k]).wf(),
            clause_sets(work@).take(i as int) == strip_var(ws.take(i as int), v).1,
            clause_sets(work@).skip(i as int) == ws.skip(i as int),
            steps_view(out@) == out0 + strip_var(ws.take(i as int), v).0,
        decreases ws.len() - i,
    {
        let mut c = work[i].clone();
        let ghost w = c@.to_set();
        assert(w == ws[i as int]) by {
            assert(clause_sets(work@).skip(i as int)[0] == ws.skip(i as int)[0]);
        }
        let ghost so = steps_view(out@);
        let ghost cur = clause_sets(work@);
        if c.remove(&pos) {
            out.push(QRATRule::RemoveLiteral(c.clone(), v as isize));
        }
        let ghost w1 = c@.to_set();
        let ghost so1 = steps_view(out@);
        if c.remove(&neg) {
            out.push(QRATRule::RemoveLiteral(c.clone(), -(v as isize)));
        }
        let ghost w2 = c@.to_set();
        work.set(i, c);
        proof {
            let prev = strip_var(ws.take(i as int), v);
            assert(ws.take(i + 1).drop_last() =~= ws.take(i as int));
            assert(ws.take(i + 1).last() == w);
            assert(w1 == w.remove(pure_lit(true, v)));
            assert(w2 == w1.remove(pure_lit(false, v)));
            let s1 = if w.contains(pure_lit(true, v)) {
                seq![QratStep::RemoveLiteral(w1, v as isize)]
            } else {
                Seq::empty()
            };
            let s2 = if w1.contains(pure_lit(false, v)) {
                seq![QratStep::RemoveLiteral(w2, (-v) as isize)]
            } else {
                Seq::empty()
            };
            assert(so1 =~= so + s1);
            assert(steps_view(out@) =~= so1 + s2);
            assert(strip_var(ws.take(i + 1), v).0 == prev.0 + s1 + s2);
            assert(clause_sets(work@) =~= cur.update(i as int, w2));
            assert(clause_sets(work@).take(i + 1) =~= prev.1.push(w2));
            assert(clause_sets(work@).skip(i + 1) =~= ws.skip(i + 1)) by {
                assert forall|k: int| 0 <= k < ws.len() - (i + 1) implies #[trigger] clause_sets(work@).skip(
                    i + 1,
                )[k] == ws.skip(i + 1)[k] by {
                    assert(cur.skip(i as int)[k + 1] == ws.skip(i as int)[k + 1]);
                }
            }
        }
        i = i + 1;
    }
    assert(ws.take(i as int) =~= ws);
    assert(clause_sets(work@).take(i as int) =~= clause_sets(work@));
}

/// Stage four: removes the universal variables from the working clauses,
/// innermost block first.
fn strip_universals(vars: &Vec<usize>, work: Vec<Clause>, out: &mut Vec<QRATRule>)
    requires
        vars@.len() <= isize::MAX,
        forall|i: int| 0 <= i < work@.len() ==> (#[trigger] work@[i]).wf(),
    ensures
        forall|us: Seq<(usize, usize)>|
            universal_order(vars@, us) ==> steps_view(final(out)@) == steps_view(old(out)@)
                + strip_all(clause_sets(work@), us).0,
{
    let order = universal_literals(vars);
    let ghost ws = clause_sets(work@);
    let ghost out0 = steps_view(out@);
    let mut work = work;
    let mut i: usize = 0;
    assert(order@.take(0) =~= Seq::<(usize, usize)>::empty());
    assert(out0 + strip_all(ws, order@.take(0)).0 =~= out0);
    while i < order.len()
        invariant
            vars@.len() <= isize::MAX,
            order@.to_set() == universal_pairs(vars@),
            out0 == steps_view(old(out)@),
            i <= order@.len(),
            forall|k: int| 0 <= k < work@.len() ==> (#[trigger] work@[k]).wf(),
            steps_view(out@) == out0 + strip_all(ws, order@.take(i as int)).0,
            clause_sets(work@) == strip_all(ws, order@.take(i as int)).1,
        decreases order@.len() - i,
    {
        let (_, v) = order[i];
        assert(order@.to_set().contains(order@[i as int]));
        assert(universal_pairs(vars@).contains(order@[i as int]));
        let ghost so = steps_view(out@);
        strip_variable(&mut work, v, out);
        assert(order@.take(i + 1).drop_last() =~= order@.take(i as int));
        assert(order@.take(i + 1).last() == order@[i as int]);
        assert(steps_view(out@) =~= out0 + strip_all(ws, order@.take(i + 1)).0);
        i = i + 1;
    }
    assert(order@.take(i as int) =~= order@);
    proof {
        assert forall|us: Seq<(usize, usize)>| universal_order(vars@, us) implies us == order@ by {
            let lt = |p: (usize, usize), q: (usize, usize)| universal_lt(p, q);
            assert(strictly_sorted(us, lt));
            assert(strictly_sorted(order@, lt));
            lemma_sorted_unique(us, order@, lt);
        }
    }
}

/// The clause of a resolution step moved into the fresh namespace.
fn shifted_clause(c: &Clause, shift: usize) -> (r: Clause)
    requires
        c.wf(),
        forall|j: int| 0 <= j < c@.len() ==> #[trigger] c@[j].variable + shift <= usize::MAX,
    ensures
        r.wf(),
        r@.to_set() == c@.map_values(|l: Lit| shift_lit(l, shift as nat)).to_set(),
{
    let mut r = Clause::new();
    let mut j: usize = 0;
    assert(r@.to_set() =~= c@.take(0).map_values(|l: Lit| shift_lit(l, shift as nat)).to_set());
    while j < c.len()
        invariant
            forall|k: int| 0 <= k < c@.len() ==> #[trigger] c@[k].variable + shift <= usize::MAX,
            j <= c@.len(),
            r.wf(),
            r@.to_set() == c@.take(j as int).map_values(|l: Lit| shift_lit(l, shift as nat)).to_set(),
        decreases c@.len() - j,
    {
        let l = c.literal(j);
        assert(c@[j as int].variable + shift <= usize::MAX);
        r.insert(Literal::new(l.positive, l.variable + shift));
        proof {
            let f = |l: Lit| shift_lit(l, shift as nat);
            assert(c@.take(j + 1).map_values(f) =~= c@.take(j as int).map_values(f).push(f(c@[j as int])));
            lemma_push_to_set(c@.take(j as int).map_values(f), f(c@[j as int]));
        }
        j = j + 1;
    }
    assert(c@.take(j as int) =~= c@);
    r
}

/// Stage five: adds the shifted clause of every resolution step.
fn rewrite_resolutions(rules: &Vec<AllExpResRule>, shift: usize, out: &mut Vec<QRATRule>)
    requires
        forall|i: int| 0 <= i < rules@.len() ==> rule_wf(#[trigger] rules@[i]),
        forall|i: int|
            0 <= i < rules@.len() ==> rule_fault(#[trigger] rules@[i], 0, 0, shift as nat) is None
                || rules@[i] is Axiom,
    ensures
        steps_view(final(out)@) == steps_view(old(out)@) + resolution_clauses(
            rules@,
            shift as nat,
        ).map_values(|w: Set<Lit>| QratStep::AddClause(w)),
{
    let ghost out0 = steps_view(out@);
    let mut i: usize = 0;
    assert(out0 + resolution_clauses(rules@.take(0), shift as nat).map_values(
        |w: Set<Lit>| QratStep::AddClause(w),
    ) =~= out0);
    while i < rules.len()
        invariant
            forall|k: int| 0 <= k < rules@.len() ==> rule_wf(#[trigger] rules@[k]),
            forall|k: int|
                0 <= k < rules@.len() ==> rule_fault(#[trigger] rules@[k], 0, 0, shift as nat)
                    is None || rules@[k] is Axiom,
            out0 == steps_view(old(out)@),
            i <= rules@.len(),
            steps_view(out@) == out0 + resolution_clauses(
                rules@.take(i as int),
                shift as nat,
            ).map_values(|w: Set<Lit>| QratStep::AddClause(w)),
        decreases rules@.len() - i,
    {
        let ghost pre = rules@.take(i as int);
        assert(rules@.take(i + 1).drop_last() =~= pre);
        assert(rules@.take(i + 1).last() == rules@[i as int]);
        let ghost prev = resolution_clauses(pre, shift as nat);
        assert(rule_wf(rules@[i as int]));
        assert(rule_fault(rules@[i as int], 0, 0, shift as nat) is None || rules@[i as int] is Axiom);
        match &rules[i] {
            AllExpResRule::Axiom(_, _) => {
                assert(resolution_clauses(rules@.take(i + 1), shift as nat) == prev);
            },
            AllExpResRule::Resolution(c, _, _) => {
                assert forall|j: int| 0 <= j < c@.len() implies #[trigger] c@[j].variable + shift
                    <= usize::MAX by {}
                let nc = shifted_clause(c, shift);
                let ghost w = nc@.to_set();
                let ghost so = steps_view(out@);
                out.push(QRATRule::AddClause(nc));
                proof {
                    assert(steps_view(out@) =~= so.push(QratStep::AddClause(w)));
                    assert(resolution_clauses(rules@.take(i + 1), shift as nat) == prev.push(w));
                    assert(prev.push(w).map_values(|w: Set<Lit>| QratStep::AddClause(w)) =~= prev.map_values(
                        |w: Set<Lit>| QratStep::AddClause(w),
                    ).push(QratStep::AddClause(w)));
                }
            },
        }
        i = i + 1;
    }
    assert(rules@.take(i as int) =~= rules@);
}

/// What is wrong with one step, if anything.
fn check_rule(r: &AllExpResRule, n_clauses: usize, table_len: usize, shift: usize) -> (res: Option<
    TranslateError,
>)
    ensures
        res == rule_fault(*r, n_clauses as nat, table_len as nat, shift as nat),
{
    match r {
        AllExpResRule::Axiom(c, a) => {
            if *a == 0 || *a > n_clauses {
                return Some(TranslateError::AntecedentOutOfRange);
            }
            let mut j: usize = 0;
            let mut bad = false;
            while j < c.len() && !bad
                invariant
                    j <= c@.len(),
                    bad ==> exists|k: int|
                        0 <= k < c@.len() && #[trigger] expansion_lit_fault(
                            c@[k],
                            table_len as nat,
                            shift as nat,
                        ),
                    !bad ==> forall|k: int|
                        0 <= k < j ==> !#[trigger] expansion_lit_fault(
                            c@[k],
                            table_len as nat,
                            shift as nat,
                        ),
                decreases c@.len() - j,
            {
                let l = c.literal(j);
                if l.variable >= table_len || l.variable > usize::MAX - shift {
                    assert(expansion_lit_fault(c@[j as int], table_len as nat, shift as nat));
                    bad = true;
                }
                j = j + 1;
            }
            if bad {
                Some(TranslateError::VariableOutOfRange)
            } else {
                None
            }
        },
        AllExpResRule::Resolution(c, _, _) => {
            let mut j: usize = 0;
            let mut bad = false;
            while j < c.len() && !bad
                invariant
                    j <= c@.len(),
                    bad ==> exists|k: int|
                        0 <= k < c@.len() && #[trigger] c@[k].variable + shift > usize::MAX,
                    !bad ==> forall|k: int| 0 <= k < j ==> #[trigger] c@[k].variable + shift <= usize::MAX,
                decreases c@.len() - j,
            {
                let l = c.literal(j);
                if l.variable > usize::MAX - shift {
                    assert(c@[j as int].variable + shift > usize::MAX);
                    bad = true;
                }
                j = j + 1;
            }
            if bad {
                Some(TranslateError::VariableOutOfRange)
            } else {
                None
            }
        },
    }
}

/// The fault of the first faulty step.
fn find_fault(rules: &Vec<AllExpResRule>, n_clauses: usize, table_len: usize, shift: usize) -> (res:
    Option<TranslateError>)
    ensures
        res == first_fault(rules@, n_clauses as nat, table_len as nat, shift as nat),
        res is None ==> forall|i: int|
            0 <= i < rules@.len() ==> rule_fault(
                #[trigger] rules@[i],
                n_clauses as nat,
                table_len as nat,
                shift as nat,
            ) is None,
{
    let mut i: usize = 0;
    assert(rules@.skip(0) =~= rules@);
    while i < rules.len()
        invariant
            i <= rules@.len(),
            first_fault(rules@, n_clauses as nat, table_len as nat, shift as nat) == first_fault(
                rules@.skip(i as int),
                n_clauses as nat,
                table_len as nat,
                shift as nat,
            ),
            forall|k: int|
                0 <= k < i ==> rule_fault(
                    #[trigger] rules@[k],
                    n_clauses as nat,
                    table_len as nat,
                    shift as nat,
                ) is None,
        decreases rules@.len() - i,
    {
        assert(rules@.skip(i as int)[0] == rules@[i as int]);
        assert(rules@.skip(i as int).drop_first() =~= rules@.skip(i + 1));
        match check_rule(&rules[i], n_clauses, table_len, shift) {
            Some(e) => {
                return Some(e);
            },
            None => {},
        }
        i = i + 1;
    }
    assert(rules@.skip(i as int) =~= Seq::<AllExpResRule>::empty());
    None
}

/// Translates a ∀-Exp+Res refutation into a QRAT proof.
///
/// `clauses` and `vars` are the formula (clauses in input order, and the
/// quantifier block of each variable), `table` gives the proof-local variable
/// of each expansion copy (entry 0 unused), and `rules` are the proof steps.
/// The result bridges each expansion copy to a fresh variable, adds the
/// rewritten expansion clauses, removes the formula and the bridges, removes
/// the universal literals innermost block first, and adds the resolvents.
/// Nothing is produced when the input is faulty.
pub fn translate(
    clauses: &Vec<Clause>,
    vars: &Vec<usize>,
    table: &Vec<usize>,
    rules: &Vec<AllExpResRule>,
) -> (r: Result<Vec<QRATRule>, TranslateError>)
    requires
        forall|i: int| 0 <= i < clauses@.len() ==> (#[trigger] clauses@[i]).wf(),
        forall|i: int| 0 <= i < rules@.len() ==> rule_wf(#[trigger] rules@[i]),
    ensures
        r is Err <==> translation_fault(
            clauses@.len(),
            vars@.len(),
            table@.len(),
            rules@,
        ) is Some,
        r matches Err(e) ==> translation_fault(clauses@.len(), vars@.len(), table@.len(), rules@)
            == Some(e),
        r matches Ok(out) ==> forall|us: Seq<(usize, usize)>|
            universal_order(vars@, us) ==> steps_view(out@) == translation(
                clauses_view(clauses@),
                vars@.len(),
                table@,
                rules@,
                us,
            ),
{
    let n = vars.len();
    if n == 0 || n > isize::MAX as usize || table.len() > usize::MAX - n {
        return Err(TranslateError::VariableOutOfRange);
    }
    let shift = n - 1;
    match find_fault(rules, clauses.len(), table.len(), shift) {
        Some(e) => {
            return Err(e);
        },
        None => {},
    }
    let mut out: Vec<QRATRule> = Vec::new();
    let mut removals: Vec<Clause> = Vec::new();
    let mut work: Vec<Clause> = Vec::new();
    bridge(table, n, &mut out, &mut removals);
    let ghost s1 = steps_view(out@);
    rewrite_expansions(clauses, table, shift, rules, &mut out, &mut work);
    let ghost s2 = steps_view(out@);
    retract(clauses, removals, &mut out);
    let ghost s3 = steps_view(out@);
    let ghost ws = clause_sets(work@);
    strip_universals(vars, work, &mut out);
    let ghost s4 = steps_view(out@);
    proof {
        assert forall|i: int|
            0 <= i < rules@.len() implies rule_fault(#[trigger] rules@[i], 0, 0, shift as nat)
            is None || rules@[i] is Axiom by {
            assert(rule_fault(rules@[i], clauses@.len(), table@.len(), shift as nat) is None);
        }
    }
    rewrite_resolutions(rules, shift, &mut out);
    proof {
        assert(Seq::<QratStep>::empty() + s1 == s1) by {
            assert(Seq::<QratStep>::empty() + s1 =~= s1);
        }
        assert(Seq::<Set<Lit>>::empty() + bridge_clauses(table@, n as nat, table@.len() as int)
            == bridge_clauses(table@, n as nat, table@.len() as int)) by {
            assert(Seq::<Set<Lit>>::empty() + bridge_clauses(table@, n as nat, table@.len() as int)
                =~= bridge_clauses(table@, n as nat, table@.len() as int));
        }
        assert forall|us: Seq<(usize, usize)>| universal_order(vars@, us) implies steps_view(out@)
            == translation(clauses_view(clauses@), vars@.len(), table@, rules@, us) by {
            assert(steps_view(out@) =~= translation(
                clauses_view(clauses@),
                vars@.len(),
                table@,
                rules@,
                us,
            ));
        }
    }
    Ok(out)
}

} // verus!
