//! Error values returned by the parser and the semantic validator.
//!
//! Every semantic error carries the offending symbol and, where one is
//! known, the source position(s) needed for an actionable diagnostic.

use vstd::prelude::*;
use crate::token_types::{RequirementType, TokenPosition};

verus! {

/// A name declared twice: the symbol together with the position of its
/// first declaration and of the repeated one.
#[derive(Debug)]
pub struct DuplicateError {
    pub symbol: String,
    pub first_pos: TokenPosition,
    pub second_pos: TokenPosition,
}

/// A symbol referenced where no declaration of it exists.
#[derive(Debug)]
pub struct UndefinedSymbolError {
    pub symbol: String,
    pub position: TokenPosition,
}

/// An invocation whose argument count differs from the declared
/// parameter count.
#[derive(Debug)]
pub struct ArityError {
    pub symbol: String,
    pub expected_arity: usize,
    pub found_arity: usize,
    pub position: TokenPosition,
}

/// A variable whose declared type does not fit the expected parameter
/// type; either side may be absent, meaning "no type constraint".
#[derive(Debug)]
pub struct TypeError {
    pub expected: Option<String>,
    pub found: Option<String>,
    pub var_name: String,
}

/// The single structured error a validation run reports; the pipeline is
/// fail-fast, so at most one of these surfaces per run.
#[derive(Debug)]
pub enum SemanticErrorType {
    // Duplicate Errors
    DuplicateObjectDeclaration(DuplicateError),
    DuplicateRequirementDeclaration(RequirementType),
    DuplicatePredicateDeclaration(DuplicateError),
    DuplicateActionDeclaration(DuplicateError),
    DuplicateCompoundTaskDeclaration(DuplicateError),
    DuplicateMethodDeclaration(DuplicateError),
    // Undefined Entities
    UndefinedPredicate(UndefinedSymbolError),
    UndefinedType(String),
    UndefinedSubtask(String),
    UndefinedTask(String),
    UndefinedParameter(String),
    UndefinedObject(String),
    // Inconsistency Errors
    InconsistentPredicateArity(ArityError),
    InconsistentTaskArity(ArityError),
    InconsistentPredicateArgType(TypeError),
    InconsistentTaskArgType(TypeError),
    // Ordering Errors
    CyclicTypeDeclaration(String),
    CyclicOrderingDeclaration(String),
}

/// An unexpected token met while parsing: what the parser looked for,
/// what it found, and where.
#[derive(Debug)]
pub struct SyntacticError {
    pub expected: String,
    pub found: String,
    pub line_number: usize,
}

/// Failure of lexing or parsing.
#[derive(Debug)]
pub enum ParsingError {
    Lexical(SyntacticError),
    Syntactic(SyntacticError),
}

} // verus!
