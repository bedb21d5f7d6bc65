//! Token kinds produced by the lexical analyzer.

use vstd::prelude::*;

verus! {

/// A line/column style source position; only the line is tracked.
#[derive(Debug, Clone, Copy, PartialEq, Eq, Structural)]
pub struct TokenPosition {
    pub line: usize,
}

/// Section and header keywords of the language.
#[derive(Debug, Clone, Copy, PartialEq, Eq, Structural)]
pub enum KeywordName {
    Define,
    Domain,
    Problem,
    Requirements,
    Objects,
    Types,
    Constants,
    Predicates,
    Init,
    HTN,
    Action,
    Parameters,
    Method,
    Task,
    Precondition,
    Effect,
    /// either "tasks" or "subtasks"
    Subtasks,
    /// either "ordered-tasks" or "ordered-subtasks"
    OrderedSubtasks,
    Ordering,
    Constraints,
}

/// Logical and comparison operators usable inside formulas.
#[derive(Debug, Clone, Copy, PartialEq, Eq, Structural)]
pub enum OperationType {
    // Logic
    Or,
    Not,
    And,
    Xor,
    ForAll,
    Exists,
    Implication,
    // Ordering
    Equal,
    LessThan,
    GreaterThan,
    LessThanOrEqual,
    GreaterThanOrEqual,
}

#[derive(Debug, Clone, Copy, PartialEq, Eq, Structural)]
pub enum PunctuationType {
    Dash,
    LParentheses,
    RParentheses,
}

/// The closed set of requirement flags; duplicates are detected by flag
/// identity, not by their spelling in the source.
#[derive(Debug, Clone, Copy, PartialEq, Eq, Structural)]
pub enum RequirementType {
    Hierarchy,
    MethodPreconditions,
    TypedObjects,
    NegativePreconditions,
    UniversalPreconditions,
    Equality,
}

/// One lexical token.
#[derive(Debug, Clone)]
pub enum Token {
    Keyword(KeywordName),
    Identifier(String),
    Operator(OperationType),
    Punctuator(PunctuationType),
    Requirement(RequirementType),
}

/// A token together with the line it starts on.
#[derive(Debug, Clone)]
pub struct TokenRecord {
    pub token: Token,
    pub line: usize,
}

} // verus!
