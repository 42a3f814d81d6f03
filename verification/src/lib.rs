//! A task tracker's query engine and task model.
//!
//! The heart of the crate is a small expression language used to filter
//! tasks by field comparisons and free-text search: a lexer, a
//! precedence-climbing parser, a semantic validator, and an evaluator
//! that applies a parsed query to a task record.

pub mod ast;
pub mod config;
pub mod date;
pub mod error;
pub mod eval;
pub mod lexer;
pub mod parser;
pub mod task;
pub mod text;
pub mod token;
