//! A verified propositional-logic toolkit built around postfix (reverse-Polish)
//! formula text: parsing, evaluation, rewriting to negation and conjunctive
//! normal form, Karnaugh-map minimization, and a few bitwise companions.

pub mod bits;
pub mod eval;
pub mod formula;
pub mod kmap;
pub mod parser;
pub mod power;
pub mod rewriter;
