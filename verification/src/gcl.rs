//! The Guarded Command Language: syntax, semantics of expressions, syntactic
//! operations on expressions, and an interpreter over program graphs.
pub mod ast;
pub mod semantics;
pub mod ast_ext;
pub mod subst;
pub mod simplify;
pub mod reduce;
pub mod stringify;
pub mod pg;
pub mod interpreter;
pub mod analysis;
pub mod pv;
pub mod flows;
pub mod equivalence;
