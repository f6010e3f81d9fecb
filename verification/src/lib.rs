//! An evaluator for formulas of propositional logic.
//!
//! A line of text is split into tokens ([`lexer`]) and parsed into an
//! expression tree whose atoms are indices into a table of names
//! ([`parser`]).  A formula is tabulated: its truth table holds the values
//! of every formula inside it under each assignment of its atoms
//! ([`runtime`], [`truth`]).  A formula with a rule is rewritten: it is
//! matched against the left side of the rule, and the right side is built
//! from what the match bound ([`rewrite`]); rules can be bound to names
//! ([`store`]).  [`session`] ties these together, line by line, and
//! [`utils`] renders trees back to text.
//!
//! Beside the functions stand the laws they obey: what the parser gives
//! spells the tokens it was given ([`grammar`]), what was printed parses
//! back to the same tree ([`roundtrip`]), trees are totally ordered
//! ([`order`]), and the rows of a table run through every assignment once
//! ([`truth`]).

mod columns;
pub mod grammar;
pub mod lexer;
pub mod order;
pub mod parser;
pub mod rewrite;
pub mod roundtrip;
pub mod runtime;
pub mod session;
pub mod store;
pub mod truth;
pub mod utils;
