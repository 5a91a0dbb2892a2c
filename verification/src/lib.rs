//! A verified core for an LL(1) parser generator: grammar analysis
//! (FIRST/FOLLOW fixpoints and the LL(1) conflict check) and deterministic
//! emission of a predictive recursive-descent parser.
pub mod analysis;
pub mod ast;
pub mod emit;
pub mod general;
pub mod lexer;
pub mod notation;
pub mod text;

