//! Verified core of a teaching toolkit for formal methods: LTL model
//! checking (negation normal form, tableau construction, Büchi automata),
//! the Guarded Command Language (syntax, semantics, interpreter) and a
//! few smaller analyses.
pub mod text;
pub mod ltl;
pub mod gcl;
pub mod validation;
pub mod ansi;
pub mod riscv;
pub mod security;
pub mod names;
pub mod buchi;
pub mod sorted;
pub mod counting;
pub mod kripke;
pub mod emptiness;
pub mod job;
pub mod calc;
pub mod product;
pub mod reshape;
pub mod assemble;
pub mod display;
