//! A formula-evaluation library: arithmetic expressions over named
//! formulas are parsed, lowered to an intermediate representation against
//! a registry of host functions and constants, linked into a dependency
//! graph with shared stateful calls and cycle rejection, optimized by
//! constant folding, and evaluated once per input tick.
//!
//! Numbers are IEEE-754 doubles carried as their 64-bit patterns
//! ([`num`]); the power operator is defined only for exponents that are
//! exactly integers, by binary exponentiation over IEEE-754 products
//! (a fractional exponent yields no value, and a reference to the
//! offending formula reads nothing for that tick); values and the
//! host-function contract live in [`types`];
//! [`lex`] and [`parser`] turn source text into the [`ast`]; [`ctx`]
//! lowers the tree into the [`ir`] of a [`formula`]; and [`interp`] builds
//! the graph and runs the ticks.
pub mod num;
pub mod types;
pub mod lex;
pub mod ast;
pub mod parser;
pub mod errors;
pub mod ir;
pub mod ctx;
pub mod formula;
pub mod interp;
