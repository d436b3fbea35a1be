//! Mical: a small configuration language.
//!
//! The pipeline is linear: a lexer turns source text into length-tagged
//! tokens, an event-driven parser builds a lossless concrete syntax tree,
//! and an evaluator walks the tree into an order-preserving, queryable
//! key-value store with grouped duplicate-key semantics.

pub mod config;
pub mod cst;
pub mod error;
pub mod eval;
pub mod event;
pub mod grammar;
pub mod index_buf;
pub mod json;
pub mod laws;
pub mod lexer;
pub mod parser;
pub mod syntax;
pub mod text;
pub mod text_arena;
pub mod token;
