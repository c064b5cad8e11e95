//! Front end of the LM programming language: lexer, parser, type checker,
//! diagnostics and their rendering, and the analysis behind its language
//! server.
pub mod text;
pub mod diagnostics;
pub mod types;
pub mod unify;
pub mod namemap;
pub mod env;
pub mod ast;
pub mod lexer;
pub mod literals;
pub mod parser;
pub mod effects;
pub mod exhaustiveness;
pub mod infer;
pub mod render;
pub mod line_index;
pub mod runtime;
pub mod convert;
pub mod analysis;
