//! Flap: a small stack-based esoteric language, its lexer, diagnostics and interpreter.
pub mod text;
pub mod lexer;
pub mod diagnostic;
pub mod config;
pub mod clock;
pub mod semantics;
pub mod interpreter;
pub mod laws;
pub mod command_laws;
pub mod install;
pub mod repl;
