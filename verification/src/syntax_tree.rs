//! The abstract syntax tree the parser produces and the semantic
//! validator consumes.

use vstd::prelude::*;
use crate::token_types::{RequirementType, TokenPosition};

verus! {

/// A name with an optional declared type; untyped means "no restriction".
/// Also used for type declarations themselves, where `var_type` is the
/// optional parent type.
#[derive(Debug)]
pub struct Variable {
    pub name: String,
    pub var_type: Option<String>,
}

impl Clone for Variable {
    fn clone(&self) -> (r: Variable)
        ensures
            r == *self,
    {
        Variable {
            name: self.name.clone(),
            var_type: match &self.var_type {
                Some(t) => Some(t.clone()),
                None => None,
            },
        }
    }
}

impl Variable {
    pub fn new(name: String, var_type: Option<String>) -> (r: Variable)
        ensures
            r.name == name,
            r.var_type == var_type,
    {
        Variable { name, var_type }
    }
}

/// An ordered list of typed arguments.
#[derive(Debug, Clone)]
pub struct TypedList {
    pub arguments: Vec<Variable>,
}

/// A predicate signature, or a ground/variable atom occurrence inside a
/// formula or an initial state.
#[derive(Debug, Clone)]
pub struct Predicate {
    pub name: String,
    pub variables: Vec<Variable>,
    pub position: TokenPosition,
}

/// A compound (abstract) task declaration.
#[derive(Debug, Clone)]
pub struct CompoundTask {
    pub name: String,
    pub parameters: Vec<Variable>,
    pub position: TokenPosition,
}

/// A recursively structured logical expression over predicate atoms.
#[derive(Debug)]
pub enum Formula {
    /// An empty pair of parentheses where a formula was expected.
    Empty,
    Atom(Predicate),
    Not(Box<Formula>),
    And(Vec<Box<Formula>>),
    Or(Vec<Box<Formula>>),
    /// Exclusive choice, written `oneof` in the source.
    Xor(Vec<Box<Formula>>),
    Imply(Box<Formula>, Box<Formula>),
    ForAll(Vec<Variable>, Box<Formula>),
    Exists(Vec<Variable>, Box<Formula>),
    Equals(String, String),
}

/// A primitive action declaration.
#[derive(Debug)]
pub struct Action {
    pub name: String,
    pub parameters: Vec<Variable>,
    pub preconditions: Option<Formula>,
    pub effects: Option<Formula>,
    pub position: TokenPosition,
}

/// One subtask invocation inside a task network.
#[derive(Debug, Clone)]
pub struct Subtask {
    pub id: Option<String>,
    pub task_symbol: String,
    pub terms: Vec<String>,
    pub position: TokenPosition,
}

/// How the subtasks of a network are ordered.
#[derive(Debug, Clone)]
pub enum TaskOrdering {
    /// Subtasks execute in listed order.
    Total,
    /// An explicit set of precedence pairs over subtask labels.
    Partial(Vec<(String, String)>),
}

/// A term constraint attached to a task network.
#[derive(Debug, Clone)]
pub enum Constraint {
    Equal(String, String),
    NotEqual(String, String),
}

/// An ordered or partially ordered collection of subtask invocations.
#[derive(Debug, Clone)]
pub struct TaskNetwork {
    pub subtasks: Vec<Subtask>,
    pub orderings: TaskOrdering,
    pub constraints: Option<Vec<Constraint>>,
}

/// A method: one declared way to decompose a compound task.
#[derive(Debug)]
pub struct Method {
    pub name: String,
    pub params: Vec<Variable>,
    pub task_name: String,
    pub task_terms: Vec<Variable>,
    pub precondition: Option<Formula>,
    pub tn: TaskNetwork,
    pub position: TokenPosition,
}

/// The initial task network of a problem.
#[derive(Debug, Clone)]
pub struct InitTaskNetwork {
    pub parameters: Option<Vec<Variable>>,
    pub tn: TaskNetwork,
}

/// A fully parsed domain definition.
#[derive(Debug)]
pub struct DomainAST {
    pub name: String,
    pub requirements: Vec<RequirementType>,
    pub types: Option<Vec<Variable>>,
    pub constants: Option<Vec<Variable>>,
    pub predicates: Vec<Predicate>,
    pub compound_tasks: Vec<CompoundTask>,
    pub actions: Vec<Action>,
    pub methods: Vec<Method>,
}

/// A fully parsed problem definition.  `object_lines` holds, per
/// object, the source line of its name.
#[derive(Debug, Clone)]
pub struct ProblemAST {
    pub name: String,
    pub domain_name: String,
    pub requirements: Vec<RequirementType>,
    pub objects: Vec<Variable>,
    pub object_lines: Vec<usize>,
    pub init_state: Vec<Predicate>,
    pub init_tn: Option<InitTaskNetwork>,
}

/// What a source file defines.
#[derive(Debug)]
pub enum AbstractSyntaxTree {
    Domain(DomainAST),
    Problem(ProblemAST),
}

/// The header of a problem definition.
#[derive(Debug, Clone)]
pub struct ProblemDefinition {
    pub problem_name: String,
    pub domain_name: String,
}

/// What the `define` header introduces.
#[derive(Debug, Clone)]
pub enum DefinitionTypes {
    Domain(String),
    Problem(ProblemDefinition),
}

} // verus!
