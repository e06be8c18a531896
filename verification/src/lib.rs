//! A single-pass compiler from arithmetic expressions to stack-discipline
//! assembly: a scanner, a recursive-descent parser and a tree-walking code
//! generator, each proved against a mathematical description of its result.

pub mod ast;
pub mod binary_tree;
pub mod codegen;
pub mod compiler;
pub mod diagnostics;
pub mod parser;
pub mod scanner;
pub mod semantics;
pub mod strings;
