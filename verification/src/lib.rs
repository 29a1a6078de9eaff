//! A single-pass compiler for a tiny C-like language, translated to
//! x86-64 assembly in AT&T syntax.
//!
//! The pipeline has three stages: a character-by-character scanner
//! ([`lexer`]), a recursive-descent parser with one token of lookahead
//! ([`parser`]) over the tree of [`ast`], and an AST walker that emits
//! assembly text while tracking per-function local-variable slots and a
//! monotonically increasing label counter ([`generation`]).
//!
//! Each stage is pinned to a specification function over the mathematical
//! model of its data; [`shape`] proves the global facts about the emitted
//! text, and [`decimal`] renders the integers appearing in it.

pub mod ast;
pub mod decimal;
pub mod generation;
pub mod lexer;
pub mod parser;
pub mod shape;
