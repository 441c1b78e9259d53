//! Tyto: a small state-machine DSL, its parser, semantic graph, validator
//! and the planning of the compiler's work.

pub mod ast;
pub mod backend;
pub mod cli;
pub mod commands;
pub mod compiler;
pub mod config;
pub mod error;
pub mod graph;
pub mod lexer;
pub mod parser;
pub mod render;
pub mod roundtrip;
pub mod text;
pub mod validator;
