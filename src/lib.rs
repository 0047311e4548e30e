//! An assembler for a small, configurable instruction set.
//!
//! The pipeline runs lexer, parser, checker and resolver in turn; the
//! instruction set itself is an automaton built from plain descriptions.

pub mod specs;
pub mod token;
pub mod lexer;
pub mod config;
pub mod parser;
pub mod checker;
pub mod resolver;
pub mod pipeline;
pub mod error;
