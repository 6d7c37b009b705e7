//! Bear: a saturation-based prover for first-order clause sets, using binary
//! resolution and factoring.
pub mod beardag;
pub mod bindings;
pub mod certificate;
pub mod clause;
pub mod forest;
pub mod graph;
pub mod inference;
pub mod lines;
pub mod lists;
pub mod measures;
pub mod messages;
pub mod parser;
pub mod proof_dag;
pub mod reading;
pub mod renamings;
pub mod rules;
pub mod saturation;
pub mod semantics;
pub mod shown;
pub mod statement_lines;
pub mod statements;
pub mod term;
pub mod text;
pub mod tptp;
pub mod tree;
pub mod unify;
