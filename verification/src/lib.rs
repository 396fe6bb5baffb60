//! A consistency engine for a set of typed first-order claims: it owns
//! the vocabulary, the claim trajectory, the compilers from the claim IR
//! to solver scripts and to plain English, and the step machines that
//! turn solver answers into minimal conflicts, repairs, coherent
//! positions and explanations. It never solves anything itself.
pub mod text;
pub mod ir;
pub mod smt;
pub mod english;
pub mod symtab;
pub mod world;
pub mod symbols;
pub mod ingest;
pub mod answers;
pub mod analysis;
pub mod argue;
pub mod lattice;
pub mod witness;
pub mod defeasible;
pub mod vocab;
pub mod meta;
pub mod hitting;
pub mod seeds;
pub mod engine;
pub mod laws;
