//! A semantic tableau prover for a small description logic.
//!
//! Sentences are built from atomic concepts with the propositional
//! connectives and the two role restrictions (universal and existential).
//! A sentence is a concept, a concept applied to an individual, or a
//! (possibly negated) role assertion between two individuals.
//!
//! * [`formula`] is the mathematical model: concept expressions as trees,
//!   their meaning in an interpretation, and the statements a tableau holds.
//! * [`prop_tree`] is the executable representation, a flat indexed store of
//!   concept nodes with a root tag.
//! * [`symbols`] models the symbol table, [`lexer`] and [`parser`] read the
//!   surface syntax, [`printer`] writes sentences out.
//! * [`grammar`] shows that the reader accepts the concepts and assertions
//!   of the surface syntax and reads them as what they mean.
//! * [`tableau`] states the search as a function on statements.
//! * [`truth_tree`] holds the symbol table and the branch store, and runs the
//!   tableau search.
//! * [`propositional`] shows that on sentences without role restrictions the
//!   search decides satisfiability, and [`assertions`] that it is sound on
//!   assertions about individuals.

pub mod assertions;
pub mod formula;
pub mod grammar;
pub mod lexer;
pub mod parser;
pub mod printer;
pub mod prop_tree;
pub mod propositional;
pub mod symbols;
pub mod tableau;
pub mod truth_tree;
