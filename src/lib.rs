//! Translation of ∀-Exp+Res refutations of quantified boolean formulas into
//! QRAT proofs, together with the clause algebra that gives those proofs
//! their meaning.

pub mod order;
pub mod literal;
pub mod qbf;
pub mod engine;
pub mod rules;
pub mod translate;
pub mod lex;
pub mod parse;
pub mod text;
