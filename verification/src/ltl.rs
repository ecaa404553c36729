//! Linear temporal logic: formulas, negation normal form and the tableau
//! construction of a generalized Büchi automaton.
pub mod expression;
pub mod formula_set;
pub mod automata;
pub mod gba;
pub mod termination;
pub mod lexer;
pub mod parser;
