//! Front end for a hierarchical task network planning-domain language:
//! a lexer and recursive-descent parser for domain and problem files, a
//! semantic validator (duplicate, undefined-symbol, arity and type checks),
//! and a task decomposition graph with reachability, nullable-task and
//! recursion-shape analysis.

pub mod token_types;
pub mod errors;
pub mod syntax_tree;
pub mod analyzer;
pub mod graph;
pub mod lexer;
pub mod metadata;
pub mod parser;
pub mod tdg;
