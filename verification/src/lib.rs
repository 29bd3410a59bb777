//! A tree-walking interpreter for the Lox scripting language, with
//! machine-checked contracts.
//!
//! A source text is scanned into tokens (`lex`), parsed into a syntax tree
//! (`parser`, `ast`), resolved (`interpreter::resolver`), which binds every
//! use of a local variable to the scope that declares it, and run
//! (`interpreter`). The interpreter is a machine that runs step by step and
//! hands to its host what it does not do itself: printing, reading the clock
//! and all work on numbers, which are IEEE-754 doubles that the machine
//! holds as bit patterns.
//!
//! Each stage has a mathematical description beside it, and each executable
//! function is proved to do what the description says: `lex::grammar` for
//! the scanner, `parser::grammar` and `parser::limits` for the parser,
//! `interpreter::scoping` for the resolver and `interpreter::semantics` for
//! the machine. On top of these stand the laws of the language: operator
//! precedence (`parser::precedence`), what holds of methods, inheritance and
//! `return` (`interpreter::laws`), and that a running program finds every
//! resolved variable at the depth that the resolver has recorded
//! (`interpreter::soundness`, `pipeline`), and never fails on the machine's
//! own account (`interpreter::progress`).

pub mod ast;
pub mod interpreter;
pub mod lex;
pub mod names;
pub mod parser;
pub mod pipeline;
pub mod text;
