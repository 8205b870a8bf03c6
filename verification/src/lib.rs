//! Evaluation core of a calculator language: a recursive-descent parser that
//! turns tokens into statements, and an estimation engine that turns evaluated
//! numbers back into short exact-looking forms.

pub mod ast;
pub mod grammar;
pub mod magnitude;
pub mod parser;
pub mod rounding;
pub mod symbol_table;
pub mod text;
pub mod token;
