use crate::literal::Lit;
use crate::qbf::Clause;
use vstd::prelude::*;

verus! {

/// One step of a ∀-Exp+Res refutation.
#[derive(Debug)]
pub enum AllExpResRule {
    /// A new clause and the 1-based index of the formula clause it expands.
    Axiom(Clause, usize),
    /// A new clause and the two antecedents it is resolved from.
    Resolution(Clause, usize, usize),
}

/// One step of a QRAT proof.
#[derive(Debug)]
pub enum QRATRule {
    /// An existing variable, and the fresh variable bridged to it.
    AddVariable(usize, usize),
    AddClause(Clause),
    RemoveClause(Clause),
    /// The clause after the removal, and the removed literal.
    RemoveLiteral(Clause, isize),
}

/// The mathematical form of a QRAT step, with each clause as its set of literals.
pub enum QratStep {
    AddVariable(usize, usize),
    AddClause(Set<Lit>),
    RemoveClause(Set<Lit>),
    RemoveLiteral(Set<Lit>, isize),
}

impl View for QRATRule {
    type V = QratStep;

    open spec fn view(&self) -> QratStep {
        match self {
            QRATRule::AddVariable(a, b) => QratStep::AddVariable(*a, *b),
            QRATRule::AddClause(c) => QratStep::AddClause(c@.to_set()),
            QRATRule::RemoveClause(c) => QratStep::RemoveClause(c@.to_set()),
            QRATRule::RemoveLiteral(c, l) => QratStep::RemoveLiteral(c@.to_set(), *l),
        }
    }
}

/// The steps of a list of QRAT rules.
pub open spec fn steps_view(v: Seq<QRATRule>) -> Seq<QratStep> {
    v.map_values(|r: QRATRule| r@)
}

} // verus!
