//! Lexical front end of a small shell language, and the store of its variables.
//!
//! [`lexer::Lexer`] cuts a source text into words, braces and statement terminators, each
//! with the line it stands on. What it does is stated against [`model::LexState`], the
//! automaton as a mathematical function; [`shape`], [`spacing`] and [`relex`] prove what
//! holds of every token stream. [`environment::Environment`] holds the shell's variables.

pub mod chars;
pub mod environment;
pub mod lexer;
pub mod model;
pub mod relex;
pub mod shape;
pub mod spacing;
pub mod std_specs;
pub mod stream;
pub mod token;
