//! A decision procedure for propositional calculus: the semantic tableau
//! (truth tree) method, with a truth-table generator beside it.

/// The biconditional connective.
pub mod bi_implication;
/// The conjunction connective.
pub mod conjunction;
/// The disjunction connective.
pub mod disjunction;
/// The errors that the library reports.
pub mod errors;
/// The implication connective.
pub mod implication;
/// The negation connective.
pub mod negation;
/// Propositions and their mathematical model.
pub mod proposition;
/// The proof tree of the tableau method, kept in a petgraph graph.
pub mod proof_tree;
/// The mathematical model of the proof tree.
pub mod tableau;
/// Truth values, the decomposition rules and what holds of them.
pub mod semantics;
/// The prover: it decides a proposition by the tableau method.
pub mod prover;
/// What holds of a proof tree while it grows.
pub mod invariants;
/// The measure by which the growth of a proof tree comes to an end.
pub mod measure;
/// What holds of the prover's answers whatever the proposition.
pub mod theorems;
/// The variables of a proposition.
pub mod variables;
/// Building texts character by character.
pub mod text;
/// Truth tables.
pub mod truth_table;
/// The generator of truth tables.
pub mod table_generator;
/// How the lines of a truth table and the valuations correspond.
pub mod cross_check;
/// The tokens of the language of propositions.
pub mod lexer;
/// What the parser hands over.
pub mod raa_tt_grammar;
/// The parser of the language of propositions.
pub mod raa_tt_parser;
/// That the text of a proposition is read back as the proposition.
pub mod round_trip;
